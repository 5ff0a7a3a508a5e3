//! Shared data model of the search: per-test fixing statuses, the fixed-point
//! representation of LP relaxation values, integrality with tolerance, and
//! the search-node record that the frontier and the work protocol carry.

use vstd::prelude::*;

verus! {

/// Fixed-point units that stand for the real value 1.0. An LP relaxation
/// value in [0, 1] is carried as an integer in [0, SCALE].
pub const SCALE: u64 = 1_000_000_000;

/// Integrality tolerance in fixed-point units: a relaxation value counts as
/// integral when it lies within this distance of 0 or of SCALE.
pub const INTEGRALITY_TOLERANCE: u64 = 1;

/// The branch-and-bound decision recorded for one test at one node.
#[derive(Clone, Copy, PartialEq, Eq, Structural, Debug)]
pub enum FixedStatus {
    Present,
    Absent,
    Unassigned,
}

/// A fixed-point relaxation value is integral when it is within tolerance of
/// 0 or of 1.
pub open spec fn val_integral(v: u64) -> bool {
    v <= INTEGRALITY_TOLERANCE || SCALE <= v + INTEGRALITY_TOLERANCE
}

/// Every coordinate of the relaxation solution is integral.
pub open spec fn all_integral(vals: Seq<u64>) -> bool {
    forall|i: int| 0 <= i < vals.len() ==> val_integral(#[trigger] vals[i])
}

/// Number of tests still unassigned in a fixing vector.
pub open spec fn count_unassigned(fixed: Seq<FixedStatus>) -> int
    decreases fixed.len(),
{
    if fixed.len() == 0 {
        0
    } else {
        count_unassigned(fixed.drop_last()) + if fixed.last() is Unassigned {
            1int
        } else {
            0int
        }
    }
}

/// The count of unassigned tests is bounded by the vector's length.
pub proof fn lemma_count_unassigned_bounds(fixed: Seq<FixedStatus>)
    ensures
        0 <= count_unassigned(fixed) <= fixed.len(),
    decreases fixed.len(),
{
    if fixed.len() > 0 {
        lemma_count_unassigned_bounds(fixed.drop_last());
    }
}

/// One open node of the branch-and-bound tree: the LP relaxation objective at
/// its fixing (a lower bound for any completion), the cumulative fixing
/// vector, and the relaxation's per-variable values kept for the branching
/// rule.
#[derive(Clone, Debug, PartialEq)]
pub struct Node {
    pub objective_val: u64,
    pub fixed: Vec<FixedStatus>,
    pub lp_assignments: Vec<u64>,
}

impl Node {
    /// The two vectors describe the same tests and every relaxation value
    /// lies in [0, 1].
    pub open spec fn wf(self) -> bool {
        &&& self.fixed@.len() == self.lp_assignments@.len()
        &&& forall|i: int|
            0 <= i < self.lp_assignments@.len() ==> #[trigger] self.lp_assignments@[i] <= SCALE
    }

    pub fn new(objective_val: u64, fixed: Vec<FixedStatus>, lp_assignments: Vec<u64>) -> (r: Node)
        ensures
            r == (Node { objective_val, fixed, lp_assignments }),
    {
        Node { objective_val, fixed, lp_assignments }
    }

    pub fn objective_value(&self) -> (r: u64)
        ensures
            r == self.objective_val,
    {
        self.objective_val
    }
}

/// What one LP relaxation solve reported, as plain values: the distinguished
/// infeasible outcome, or the objective and the per-variable values. Any
/// other engine failure is fatal outside the library and never reaches it.
#[derive(Clone, Debug)]
pub enum LpOutcome {
    Infeasible,
    Feasible { objective: u64, values: Vec<u64> },
}

impl LpOutcome {
    /// A feasible outcome for a problem over `n` tests: one value per test,
    /// each in [0, 1], and a finite objective.
    pub open spec fn wf(self, n: int) -> bool {
        match self {
            LpOutcome::Infeasible => true,
            LpOutcome::Feasible { objective, values } => {
                &&& values@.len() == n
                &&& objective < u64::MAX
                &&& forall|i: int| 0 <= i < values@.len() ==> #[trigger] values@[i] <= SCALE
            },
        }
    }
}

/// Decide integrality of a full relaxation solution, within tolerance.
pub fn is_integral(vals: &Vec<u64>) -> (r: bool)
    ensures
        r == all_integral(vals@),
{
    let mut i: usize = 0;
    while i < vals.len()
        invariant
            i <= vals@.len(),
            forall|k: int| 0 <= k < i ==> val_integral(#[trigger] vals@[k]),
        decreases vals@.len() - i,
    {
        let v = vals[i];
        if !(v <= INTEGRALITY_TOLERANCE || SCALE - INTEGRALITY_TOLERANCE <= v) {
            assert(!val_integral(vals@[i as int]));
            return false;
        }
        i = i + 1;
    }
    true
}

} // verus!
