//! The step budget of the iteration that solves Kepler's equation.
//!
//! The steps themselves are taken elsewhere. After each one the caller says
//! whether the step was within the tolerance, and is told whether to go on,
//! so that the iteration ends after `MAX_ITERATIONS` steps whatever the steps
//! do.

use crate::error::Error;
use vstd::prelude::*;

verus! {

/// The number of steps after which the iteration is given up.
pub const MAX_ITERATIONS: u32 = 100;

/// Where the iteration stands, with the number of steps taken so far.
#[derive(Clone, Copy, Debug, PartialEq, Eq, Structural)]
pub enum Progress {
    /// No step was within the tolerance yet, and steps are left.
    Continue(u32),
    /// The last step was within the tolerance.
    Converged(u32),
    /// No step was within the tolerance, and none is left.
    DidNotConverge(u32),
}

impl Progress {
    /// Where the iteration stands before its first step.
    pub open spec fn spec_start() -> Progress {
        Progress::Continue(0)
    }

    /// Where the iteration stands after one more step, given whether that
    /// step was within the tolerance. Once it has ended it stays as it is.
    pub open spec fn spec_step(self, within_tolerance: bool) -> Progress {
        match self {
            Progress::Continue(taken) => {
                if taken >= MAX_ITERATIONS {
                    Progress::DidNotConverge(taken)
                } else if within_tolerance {
                    Progress::Converged((taken + 1) as u32)
                } else if taken + 1 == MAX_ITERATIONS {
                    Progress::DidNotConverge(MAX_ITERATIONS)
                } else {
                    Progress::Continue((taken + 1) as u32)
                }
            },
            ended => ended,
        }
    }

    /// Where the iteration stands after steps with the given reports, in
    /// their order.
    pub open spec fn after(reports: Seq<bool>) -> Progress
        decreases reports.len(),
    {
        if reports.len() == 0 {
            Progress::spec_start()
        } else {
            Progress::after(reports.drop_last()).spec_step(reports.last())
        }
    }

    /// Where the iteration stands before its first step.
    #[verifier::when_used_as_spec(spec_start)]
    pub fn start() -> (r: Progress)
        ensures
            r == Progress::spec_start(),
    {
        Progress::Continue(0)
    }

    /// Records one more step.
    #[verifier::when_used_as_spec(spec_step)]
    pub fn step(self, within_tolerance: bool) -> (r: Progress)
        ensures
            r == self.spec_step(within_tolerance),
    {
        match self {
            Progress::Continue(taken) => {
                if taken >= MAX_ITERATIONS {
                    Progress::DidNotConverge(taken)
                } else if within_tolerance {
                    Progress::Converged(taken + 1)
                } else if taken + 1 == MAX_ITERATIONS {
                    Progress::DidNotConverge(MAX_ITERATIONS)
                } else {
                    Progress::Continue(taken + 1)
                }
            },
            ended => ended,
        }
    }

    /// The failure that this state reports, if it is one.
    pub fn failure(self) -> (r: Option<Error>)
        ensures
            r == match self {
                Progress::DidNotConverge(taken) => Some(Error::ConvergenceFailure(taken)),
                _ => None::<Error>,
            },
    {
        match self {
            Progress::DidNotConverge(taken) => Some(Error::ConvergenceFailure(taken)),
            _ => None,
        }
    }
}

/// No report among the first `n` says that a step was within the tolerance.
pub open spec fn none_within(reports: Seq<bool>, n: int) -> bool {
    forall|i: int| 0 <= i < n && i < reports.len() ==> !#[trigger] reports[i]
}

/// The iteration converges at the first step that is within the tolerance,
/// if that is one of the first `MAX_ITERATIONS`; it goes on while no step was
/// and fewer than `MAX_ITERATIONS` were taken; and it is given up after
/// `MAX_ITERATIONS` steps of which none was. So it never takes more than
/// `MAX_ITERATIONS` steps.
pub proof fn lemma_after(reports: Seq<bool>)
    ensures
        match Progress::after(reports) {
            Progress::Continue(taken) => {
                &&& taken == reports.len()
                &&& taken < MAX_ITERATIONS
                &&& none_within(reports, taken as int)
            },
            Progress::Converged(taken) => {
                &&& 1 <= taken <= MAX_ITERATIONS
                &&& taken <= reports.len()
                &&& reports[taken - 1]
                &&& none_within(reports, taken - 1)
            },
            Progress::DidNotConverge(taken) => {
                &&& taken == MAX_ITERATIONS
                &&& taken <= reports.len()
                &&& none_within(reports, taken as int)
            },
        },
    decreases reports.len(),
{
    if reports.len() > 0 {
        let before = reports.drop_last();
        lemma_after(before);
        assert(forall|i: int| 0 <= i < before.len() ==> before[i] == reports[i]);
    }
}

} // verus!
