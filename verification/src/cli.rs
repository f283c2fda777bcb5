//! The user-facing options: which checkouts to prepare and what to run in
//! each of them.

use vstd::prelude::*;

verus! {

/// Top-level options: how to populate each checkout (index / copy / neither),
/// which toolchains to target, and the action to run in each checkout.
pub struct Opts {
    /// Check out the index of the repository.
    pub index: bool,
    /// Copy the source tree and the two manifest files for each toolchain.
    pub copy: bool,
    /// Use whatever already exists in the per-toolchain directories.
    pub no_copy: bool,
    /// Explicitly listed toolchains; when empty, a configured list is read.
    pub toolchain: Vec<String>,
    /// Use every installed toolchain except the current default.
    pub all: bool,
    /// What to run in each checkout.
    pub action: ActionOpt,
}

/// The action to run once per checkout.
pub enum ActionOpt {
    /// Run `cargo test` in each checkout, with the applicable toolchain.
    CargoTest { install: bool, jobs: Option<usize>, test_args: Vec<String> },
    /// Run `cargo build` in each checkout, with the applicable toolchain.
    CargoBuild { install: bool, jobs: Option<usize>, build_args: Vec<String> },
    /// Run an arbitrary cargo subcommand in each checkout.
    CargoAny { install: bool, jobs: Option<usize>, subcommand: String, args: Vec<String> },
    /// Run an arbitrary utility once per checkout; an argument that is
    /// exactly the placeholder token is replaced by the toolchain name.
    Each { install: bool, jobs: Option<usize>, utility: String, args: Vec<String> },
    /// Print the path of each checkout, one per line; runs nothing.
    Print,
}

impl ActionOpt {
    /// The job-count override carried by the action, if any.
    /// The print action runs no workers at all.
    pub open spec fn spec_job_count(&self) -> Option<usize> {
        match self {
            ActionOpt::CargoTest { jobs, .. } => *jobs,
            ActionOpt::CargoBuild { jobs, .. } => *jobs,
            ActionOpt::CargoAny { jobs, .. } => *jobs,
            ActionOpt::Each { jobs, .. } => *jobs,
            ActionOpt::Print => Some(0usize),
        }
    }

    pub fn job_count(&self) -> (r: Option<usize>)
        ensures
            r == self.spec_job_count(),
    {
        match self {
            ActionOpt::CargoTest { jobs, .. } => *jobs,
            ActionOpt::CargoBuild { jobs, .. } => *jobs,
            ActionOpt::CargoAny { jobs, .. } => *jobs,
            ActionOpt::Each { jobs, .. } => *jobs,
            ActionOpt::Print => Some(0usize),
        }
    }

    /// Every action but print reports progress through the per-checkout sinks.
    pub fn uses_progress_bars(&self) -> (r: bool)
        ensures
            r == !(self is Print),
    {
        match self {
            ActionOpt::Print => false,
            _ => true,
        }
    }

    /// Every action but print is dispatched to the worker pool.
    pub fn uses_workers(&self) -> (r: bool)
        ensures
            r == !(self is Print),
    {
        match self {
            ActionOpt::Print => false,
            _ => true,
        }
    }
}

} // verus!
