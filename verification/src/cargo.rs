//! Project metadata the pipeline needs: the build-output directory under
//! which the per-toolchain checkouts live. Obtaining it from the build
//! tool is the caller's business; the library only carries the value.

use vstd::prelude::*;

verus! {

/// Metadata obtained from the build tool.
pub struct CargoMetadata {
    /// The project's build-output directory; the per-toolchain checkouts
    /// are created under it.
    pub target_directory: String,
}

} // verus!
