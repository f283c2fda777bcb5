//! Per-environment terminal results and their reduction to one program
//! result.

use vstd::prelude::*;
use crate::decimal::{dec_int, i32_to_string};

verus! {

/// The terminal classification of one environment's run.
pub enum Outcome {
    /// The external process exited with status code zero.
    Success,
    /// The process exited with a nonzero code, or (`code: None`) was
    /// terminated without one, e.g. by a signal.
    ProcessFailure { code: Option<i32> },
    /// The process could not be started, or its log file could not be
    /// created.
    SpawnFailure { message: String },
    /// The environment's working directory could not be populated; such
    /// an environment never becomes a job.
    AcquisitionFailure { message: String },
}

impl Outcome {
    pub open spec fn is_success(&self) -> bool {
        self is Success
    }
}

impl Clone for Outcome {
    fn clone(&self) -> (r: Self)
        ensures
            r == *self,
    {
        match self {
            Outcome::Success => Outcome::Success,
            Outcome::ProcessFailure { code } => Outcome::ProcessFailure { code: *code },
            Outcome::SpawnFailure { message } => Outcome::SpawnFailure {
                message: message.clone(),
            },
            Outcome::AcquisitionFailure { message } => Outcome::AcquisitionFailure {
                message: message.clone(),
            },
        }
    }
}

/// Classify a finished process: `success` is the zero-exit flag and `code`
/// its exit code when the platform reports one.
pub fn outcome_of_status(success: bool, code: Option<i32>) -> (r: Outcome)
    ensures
        success ==> r is Success,
        !success ==> r == (Outcome::ProcessFailure { code }),
{
    if success {
        Outcome::Success
    } else {
        Outcome::ProcessFailure { code }
    }
}

/// The worker's terminal report for one environment: its pass/fail bit and
/// the final status text, which names the log file on a process failure so
/// the full output can be inspected.
pub fn run_cmd(outcome: &Outcome, output_path: &String) -> (r: (bool, String))
    requires
        !(outcome is AcquisitionFailure),
    ensures
        r.0 == outcome.is_success(),
        match outcome {
            Outcome::Success => r.1@ == "success"@,
            Outcome::ProcessFailure { code: Some(c) } => r.1@ == "failure: status "@ + dec_int(
                *c as int,
            ) + ". Check output in "@ + output_path@,
            Outcome::ProcessFailure { code: None } => r.1@
                == "failure: status unknown. Check output in "@ + output_path@,
            Outcome::SpawnFailure { message } => r.1@ == "failure: "@ + message@,
            Outcome::AcquisitionFailure { .. } => true,
        },
{
    match outcome {
        Outcome::Success => (true, String::from_str("success")),
        Outcome::ProcessFailure { code: Some(c) } => {
            let mut s = String::from_str("failure: status ");
            s.append(i32_to_string(*c).as_str());
            s.append(". Check output in ");
            s.append(output_path.as_str());
            (false, s)
        },
        Outcome::ProcessFailure { code: None } => {
            let mut s = String::from_str("failure: status unknown. Check output in ");
            s.append(output_path.as_str());
            (false, s)
        },
        Outcome::SpawnFailure { message } => {
            let mut s = String::from_str("failure: ");
            s.append(message.as_str());
            (false, s)
        },
        Outcome::AcquisitionFailure { .. } => (false, String::new()),
    }
}

/// One program result from the acquisition phase's overall flag and every
/// environment's outcome: success exactly when acquisition succeeded and
/// every outcome is a success.
pub fn aggregate(checkout_success: bool, outcomes: &Vec<Outcome>) -> (r: bool)
    ensures
        r == (checkout_success && (forall|i: int|
            0 <= i < outcomes@.len() ==> outcomes@[i] is Success)),
{
    let mut all: bool = true;
    let n = outcomes.len();
    let mut i: usize = 0;
    while i < n
        invariant
            n == outcomes@.len(),
            i <= n,
            all == (forall|j: int| 0 <= j < i ==> outcomes@[j] is Success),
        decreases n - i,
    {
        let here = match &outcomes[i] {
            Outcome::Success => true,
            _ => false,
        };
        all = all && here;
        i = i + 1;
    }
    checkout_success && all
}

/// The process exit code for an overall result: zero on success, the
/// distinguished nonzero code otherwise.
pub fn exit_code(overall_success: bool) -> (r: i32)
    ensures
        overall_success <==> r == 0,
        !overall_success ==> r == 1,
{
    if overall_success {
        0
    } else {
        1
    }
}

} // verus!
