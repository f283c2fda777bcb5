//! Run a command once per target toolchain, each run in its own isolated
//! copy of the project's working tree.
//!
//! The crate holds the decision core of that pipeline: describing the
//! requested action, building the external invocation for each toolchain,
//! planning the per-environment tree copy, scheduling work onto a bounded
//! pool, and reducing per-environment outcomes to one program result.
//! The surrounding process, filesystem and terminal plumbing lives outside
//! the library and hands it plain values.

pub mod cargo;
pub mod cli;
pub mod command;
pub mod copy;
pub mod decimal;
pub mod outcome;
pub mod program;
pub mod runner;
pub mod schedule;
pub mod toolchains;
