//! The LP session's verified half: the problem, its derived table, and a
//! ledger of the model's variable bounds in fixed-point units. A solve
//! under a fixing vector is a scoped acquisition: the fixings are applied,
//! the relaxation is solved by the engine outside the library, and every
//! applied fixing is released again on every exit path, so the model the
//! next solve sees is the clean one.

use vstd::prelude::*;

use crate::common::FixedStatus;
use crate::common::SCALE;
use crate::instance::ProblemInstance;
use crate::table::num_pairs;
use crate::table::pair_entry;
use crate::table::col_index;
use crate::table::DistinguishTable;

verus! {

/// One variable's bounds span the whole interval [0, 1].
pub open spec fn clear_at(lb: Seq<u64>, ub: Seq<u64>, i: int) -> bool {
    lb[i] == 0 && ub[i] == SCALE
}

/// Every variable ranges over the whole interval [0, 1].
pub open spec fn bounds_clear(lb: Seq<u64>, ub: Seq<u64>) -> bool {
    &&& lb.len() == ub.len()
    &&& forall|i: int| 0 <= i < lb.len() ==> #[trigger] clear_at(lb, ub, i)
}

/// What applying a fixing does to one variable's bounds: a present test is
/// pinned to 1, an absent one to 0, an unassigned one is untouched.
pub open spec fn applied_at(
    lb0: Seq<u64>,
    ub0: Seq<u64>,
    lb1: Seq<u64>,
    ub1: Seq<u64>,
    fixed: Seq<FixedStatus>,
    i: int,
) -> bool {
    match fixed[i] {
        FixedStatus::Present => lb1[i] == SCALE && ub1[i] == SCALE,
        FixedStatus::Absent => lb1[i] == 0 && ub1[i] == 0,
        FixedStatus::Unassigned => lb1[i] == lb0[i] && ub1[i] == ub0[i],
    }
}

/// The bound change that applying a fixing vector makes.
pub open spec fn applied_fixings(
    lb0: Seq<u64>,
    ub0: Seq<u64>,
    lb1: Seq<u64>,
    ub1: Seq<u64>,
    fixed: Seq<FixedStatus>,
) -> bool {
    &&& lb1.len() == lb0.len()
    &&& ub1.len() == ub0.len()
    &&& lb0.len() == fixed.len()
    &&& ub0.len() == fixed.len()
    &&& forall|i: int| 0 <= i < fixed.len() ==> #[trigger] applied_at(lb0, ub0, lb1, ub1, fixed, i)
}

/// What releasing a fixing does to one variable's bounds: a decided test's
/// bounds are restored to [0, 1], an unassigned one is untouched.
pub open spec fn released_at(
    lb0: Seq<u64>,
    ub0: Seq<u64>,
    lb1: Seq<u64>,
    ub1: Seq<u64>,
    fixed: Seq<FixedStatus>,
    i: int,
) -> bool {
    if fixed[i] is Unassigned {
        lb1[i] == lb0[i] && ub1[i] == ub0[i]
    } else {
        lb1[i] == 0 && ub1[i] == SCALE
    }
}

/// The bound change that releasing a fixing vector makes.
pub open spec fn released_fixings(
    lb0: Seq<u64>,
    ub0: Seq<u64>,
    lb1: Seq<u64>,
    ub1: Seq<u64>,
    fixed: Seq<FixedStatus>,
) -> bool {
    &&& lb1.len() == lb0.len()
    &&& ub1.len() == ub0.len()
    &&& lb0.len() == fixed.len()
    &&& ub0.len() == fixed.len()
    &&& forall|i: int| 0 <= i < fixed.len() ==> #[trigger] released_at(lb0, ub0, lb1, ub1, fixed, i)
}

/// Fixing neutrality law: a solve that applies a fixing vector to a clean
/// model and releases the same vector afterwards leaves every variable
/// bound back at [0, 1], whatever the engine did in between with the
/// bounds unchanged.
pub proof fn lemma_fixing_neutrality(
    lb0: Seq<u64>,
    ub0: Seq<u64>,
    lb1: Seq<u64>,
    ub1: Seq<u64>,
    lb2: Seq<u64>,
    ub2: Seq<u64>,
    fixed: Seq<FixedStatus>,
)
    requires
        bounds_clear(lb0, ub0),
        applied_fixings(lb0, ub0, lb1, ub1, fixed),
        released_fixings(lb1, ub1, lb2, ub2, fixed),
    ensures
        bounds_clear(lb2, ub2),
{
    assert forall|i: int| 0 <= i < lb2.len() implies #[trigger] clear_at(lb2, ub2, i) by {
        assert(applied_at(lb0, ub0, lb1, ub1, fixed, i));
        assert(released_at(lb1, ub1, lb2, ub2, fixed, i));
        assert(clear_at(lb0, ub0, i));
    }
}

/// The verified state of one LP session: the instance, the derived table
/// that the constraints are built from, and the model's variable bounds.
pub struct LPSolver {
    pub problem_instance: ProblemInstance,
    pub table: DistinguishTable,
    pub lb: Vec<u64>,
    pub ub: Vec<u64>,
}

impl LPSolver {
    /// The table belongs to the instance and there is one bound pair per
    /// test.
    pub open spec fn wf(self) -> bool {
        &&& self.problem_instance.wf()
        &&& self.table.wf()
        &&& self.table.num_tests == self.problem_instance.num_tests
        &&& self.table.num_pair_cols == num_pairs(self.problem_instance.num_diseases as int)
        &&& self.lb@.len() == self.problem_instance.num_tests
        &&& self.ub@.len() == self.problem_instance.num_tests
    }

    /// Build the session state for an instance: derive the distinguish
    /// table and start with every bound clear.
    pub fn new(problem_instance: ProblemInstance) -> (r: LPSolver)
        requires
            problem_instance.wf(),
            num_pairs(problem_instance.num_diseases as int) <= usize::MAX,
        ensures
            r.wf(),
            r.problem_instance == problem_instance,
            bounds_clear(r.lb@, r.ub@),
            forall|t: int, i: int, j: int|
                0 <= t < problem_instance.num_tests && 0 <= i < j < problem_instance.num_diseases
                    ==> #[trigger] r.table.table()[t][col_index(
                    problem_instance.num_diseases as int,
                    i,
                    j,
                )] == pair_entry(problem_instance.mat(), t, i, j),
    {
        let table = DistinguishTable::derive(&problem_instance);
        let n = problem_instance.num_tests;
        let mut lb: Vec<u64> = Vec::new();
        let mut ub: Vec<u64> = Vec::new();
        let mut i: usize = 0;
        while i < n
            invariant
                i <= n,
                lb@.len() == i,
                ub@.len() == i,
                forall|k: int| 0 <= k < i ==> #[trigger] lb@[k] == 0,
                forall|k: int| 0 <= k < i ==> #[trigger] ub@[k] == SCALE,
            decreases n - i,
        {
            lb.push(0);
            ub.push(SCALE);
            i = i + 1;
        }
        proof {
            assert forall|k: int| 0 <= k < lb@.len() implies #[trigger] clear_at(lb@, ub@, k) by {
                assert(lb@[k] == 0);
            }
        }
        LPSolver { problem_instance, table, lb, ub }
    }

    /// Apply a fixing vector to the model bounds: pin the decided tests.
    pub fn apply_fixings(&mut self, fixed: &Vec<FixedStatus>)
        requires
            old(self).wf(),
            fixed@.len() == old(self).problem_instance.num_tests,
        ensures
            final(self).wf(),
            final(self).problem_instance == old(self).problem_instance,
            final(self).table == old(self).table,
            applied_fixings(old(self).lb@, old(self).ub@, final(self).lb@, final(self).ub@, fixed@),
    {
        let mut i: usize = 0;
        while i < fixed.len()
            invariant
                i <= fixed@.len(),
                self.wf(),
                old(self).wf(),
                fixed@.len() == self.problem_instance.num_tests,
                old(self).lb@.len() == fixed@.len(),
                old(self).ub@.len() == fixed@.len(),
                self.problem_instance == old(self).problem_instance,
                self.table == old(self).table,
                forall|k: int|
                    #![trigger fixed@[k]]
                    0 <= k < i ==> applied_at(
                        old(self).lb@,
                        old(self).ub@,
                        self.lb@,
                        self.ub@,
                        fixed@,
                        k,
                    ),
                forall|k: int|
                    i <= k < fixed@.len() ==> #[trigger] self.lb@[k] == old(self).lb@[k],
                forall|k: int|
                    i <= k < fixed@.len() ==> #[trigger] self.ub@[k] == old(self).ub@[k],
            decreases fixed@.len() - i,
        {
            match fixed[i] {
                FixedStatus::Present => {
                    self.lb.set(i, SCALE);
                    self.ub.set(i, SCALE);
                },
                FixedStatus::Absent => {
                    self.lb.set(i, 0);
                    self.ub.set(i, 0);
                },
                FixedStatus::Unassigned => {},
            }
            i = i + 1;
        }
        proof {
            assert forall|k: int| 0 <= k < fixed@.len() implies #[trigger] applied_at(
                old(self).lb@,
                old(self).ub@,
                self.lb@,
                self.ub@,
                fixed@,
                k,
            ) by {
                assert(fixed@[k] == fixed@[k]);
            }
        }
    }

    /// Release a fixing vector from the model bounds: restore [0, 1] for
    /// every decided test, on every exit path of a solve.
    pub fn release_fixings(&mut self, fixed: &Vec<FixedStatus>)
        requires
            old(self).wf(),
            fixed@.len() == old(self).problem_instance.num_tests,
        ensures
            final(self).wf(),
            final(self).problem_instance == old(self).problem_instance,
            final(self).table == old(self).table,
            released_fixings(
                old(self).lb@,
                old(self).ub@,
                final(self).lb@,
                final(self).ub@,
                fixed@,
            ),
    {
        let mut i: usize = 0;
        while i < fixed.len()
            invariant
                i <= fixed@.len(),
                self.wf(),
                old(self).wf(),
                fixed@.len() == self.problem_instance.num_tests,
                old(self).lb@.len() == fixed@.len(),
                old(self).ub@.len() == fixed@.len(),
                self.problem_instance == old(self).problem_instance,
                self.table == old(self).table,
                forall|k: int|
                    #![trigger fixed@[k]]
                    0 <= k < i ==> released_at(
                        old(self).lb@,
                        old(self).ub@,
                        self.lb@,
                        self.ub@,
                        fixed@,
                        k,
                    ),
                forall|k: int|
                    i <= k < fixed@.len() ==> #[trigger] self.lb@[k] == old(self).lb@[k],
                forall|k: int|
                    i <= k < fixed@.len() ==> #[trigger] self.ub@[k] == old(self).ub@[k],
            decreases fixed@.len() - i,
        {
            match fixed[i] {
                FixedStatus::Unassigned => {},
                _ => {
                    self.lb.set(i, 0);
                    self.ub.set(i, SCALE);
                },
            }
            i = i + 1;
        }
        proof {
            assert forall|k: int| 0 <= k < fixed@.len() implies #[trigger] released_at(
                old(self).lb@,
                old(self).ub@,
                self.lb@,
                self.ub@,
                fixed@,
                k,
            ) by {
                assert(fixed@[k] == fixed@[k]);
            }
        }
    }
}

} // verus!
