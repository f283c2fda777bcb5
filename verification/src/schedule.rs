//! Sizing the worker pool and the life of one environment through it.

use vstd::prelude::*;
use crate::cli::ActionOpt;
use crate::outcome::Outcome;

verus! {

/// The pool never has more workers than environments, and otherwise obeys
/// the action's job-count override, falling back to the logical CPU count.
pub fn worker_count(checkout_count: usize, job_override: Option<usize>, cpus: usize) -> (r: usize)
    ensures
        r == vstd::math::min(
            checkout_count as int,
            match job_override {
                Some(j) => j as int,
                None => cpus as int,
            },
        ),
{
    let limit = match job_override {
        Some(j) => j,
        None => cpus,
    };
    if checkout_count < limit {
        checkout_count
    } else {
        limit
    }
}

/// Relies on num_cpus::get: the number of logical CPUs of the current
/// system, documented to always be at least one.
#[verifier::external_body]
fn logical_cpus() -> (r: usize)
    ensures
        r >= 1,
{
    num_cpus::get()
}

/// The worker count for an action: the override when it carries one, the
/// machine's logical CPU count otherwise, both capped by the number of
/// environments.
pub fn effective_worker_count(checkout_count: usize, action: &ActionOpt) -> (r: usize)
    ensures
        match action.spec_job_count() {
            Some(j) => r == vstd::math::min(checkout_count as int, j as int),
            None => exists|c: usize|
                c >= 1 && r == vstd::math::min(checkout_count as int, c as int),
        },
{
    match action.job_count() {
        Some(j) => worker_count(checkout_count, Some(j), 0),
        None => {
            let cpus = logical_cpus();
            let r = worker_count(checkout_count, None, cpus);
            proof {
                assert(cpus >= 1 && r == vstd::math::min(checkout_count as int, cpus as int));
            }
            r
        },
    }
}

/// Where one environment stands. Every record moves strictly forward:
/// pending, acquiring, queued, running, terminal — and an acquisition
/// failure jumps from acquiring straight to terminal, never through the
/// queue.
pub enum EnvState {
    Pending,
    Acquiring,
    Queued,
    Running,
    Terminal { outcome: Outcome },
}

impl EnvState {
    /// The outcome of a record that has reached its terminal state.
    pub open spec fn terminal_outcome(&self) -> Option<Outcome> {
        match self {
            EnvState::Terminal { outcome } => Some(*outcome),
            _ => None,
        }
    }
}

/// The acquisition strategy takes the record up for preparation.
pub fn start_acquire(s: &mut EnvState)
    requires
        *old(s) is Pending,
    ensures
        *final(s) is Acquiring,
{
    *s = EnvState::Acquiring;
}

/// Preparation failed: the record is terminal at once and never queued.
pub fn fail_acquire(s: &mut EnvState, message: String)
    requires
        *old(s) is Acquiring,
    ensures
        *final(s) == (EnvState::Terminal { outcome: Outcome::AcquisitionFailure { message } }),
{
    *s = EnvState::Terminal { outcome: Outcome::AcquisitionFailure { message } };
}

/// Preparation succeeded: the record joins the bounded queue.
pub fn mark_ready(s: &mut EnvState)
    requires
        *old(s) is Acquiring,
    ensures
        *final(s) is Queued,
{
    *s = EnvState::Queued;
}

/// A worker pulled the record off the queue.
pub fn start_run(s: &mut EnvState)
    requires
        *old(s) is Queued,
    ensures
        *final(s) is Running,
{
    *s = EnvState::Running;
}

/// The worker finished the record's process and stores its outcome.
pub fn finish_run(s: &mut EnvState, outcome: Outcome)
    requires
        *old(s) is Running,
        !(outcome is AcquisitionFailure),
    ensures
        *final(s) == (EnvState::Terminal { outcome }),
{
    *s = EnvState::Terminal { outcome };
}

/// Drive every record from pending to its terminal state: the acquisition
/// result decides whether a record is queued and run or fails at
/// acquisition; a queued record's run ends with the given outcome. Returns
/// the final states and the overall result, which is success exactly when
/// every record ends in a success outcome.
pub fn run_to_completion(acq_results: Vec<Result<(), String>>, run_outcomes: &Vec<Outcome>) -> (r:
    (Vec<EnvState>, bool))
    requires
        acq_results@.len() == run_outcomes@.len(),
        forall|i: int|
            0 <= i < run_outcomes@.len() ==> !(run_outcomes@[i] is AcquisitionFailure),
    ensures
        r.0@.len() == acq_results@.len(),
        forall|i: int| 0 <= i < r.0@.len() ==> r.0@[i] is Terminal,
        forall|i: int|
            0 <= i < r.0@.len() ==> r.0@[i].terminal_outcome() == Some(
                match acq_results@[i] {
                    Ok(_) => run_outcomes@[i],
                    Err(m) => Outcome::AcquisitionFailure { message: m },
                },
            ),
        r.1 == (forall|i: int|
            0 <= i < r.0@.len() ==> r.0@[i].terminal_outcome() == Some::<Outcome>(
                Outcome::Success,
            )),
{
    let n = acq_results.len();
    let mut states: Vec<EnvState> = Vec::new();
    let mut all: bool = true;
    let mut i: usize = 0;
    while i < n
        invariant
            n == acq_results@.len(),
            n == run_outcomes@.len(),
            forall|j: int|
                0 <= j < run_outcomes@.len() ==> !(run_outcomes@[j] is AcquisitionFailure),
            i <= n,
            states@.len() == i,
            forall|j: int| 0 <= j < i ==> states@[j] is Terminal,
            forall|j: int|
                0 <= j < i ==> states@[j].terminal_outcome() == Some(
                    match acq_results@[j] {
                        Ok(_) => run_outcomes@[j],
                        Err(m) => Outcome::AcquisitionFailure { message: m },
                    },
                ),
            all == (forall|j: int|
                0 <= j < i ==> states@[j].terminal_outcome() == Some::<Outcome>(
                    Outcome::Success,
                )),
        decreases n - i,
    {
        let mut s = EnvState::Pending;
        start_acquire(&mut s);
        let mut here_ok: bool = false;
        match &acq_results[i] {
            Ok(_) => {
                mark_ready(&mut s);
                start_run(&mut s);
                let outcome = run_outcomes[i].clone();
                here_ok = match &outcome {
                    Outcome::Success => true,
                    _ => false,
                };
                finish_run(&mut s, outcome);
            },
            Err(m) => {
                fail_acquire(&mut s, m.clone());
            },
        }
        let ghost pre = states@;
        let ghost prev_all = all;
        states.push(s);
        all = all && here_ok;
        proof {
            assert(states@[i as int] == s);
            assert(forall|j: int| 0 <= j < i ==> states@[j] == pre[j]);
            if prev_all && here_ok {
                assert forall|j: int|
                    0 <= j < i + 1 implies #[trigger] states@[j].terminal_outcome()
                    == Some::<Outcome>(Outcome::Success) by {
                    if j < i {
                        assert(pre[j].terminal_outcome() == Some::<Outcome>(Outcome::Success));
                    }
                }
            } else if !here_ok {
                assert(states@[i as int].terminal_outcome() != Some::<Outcome>(Outcome::Success));
            } else {
                let j0 = choose|j: int|
                    0 <= j < i && pre[j].terminal_outcome() != Some::<Outcome>(Outcome::Success);
                assert(states@[j0].terminal_outcome() != Some::<Outcome>(Outcome::Success));
            }
        }
        i = i + 1;
    }
    (states, all)
}

} // verus!
