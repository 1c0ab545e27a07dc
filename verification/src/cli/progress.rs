//! Progress of a long computation, as reported step by step.
use vstd::prelude::*;

verus! {

/// A progress report.
#[derive(Debug, Clone, Copy, PartialEq, Eq, Structural)]
pub enum ProgressStatus {
    /// One more step of the given size was done.
    Step(u64),
    /// The computation has been completed.
    Finished,
}

/// `k` reports of a step of size `size`.
pub open spec fn steps(k: nat, size: u64) -> Seq<ProgressStatus> {
    Seq::new(k, |i: int| ProgressStatus::Step(size))
}

} // verus!
