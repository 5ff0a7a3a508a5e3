//! The immutable problem instance: test count, disease count, one
//! nonnegative cost per test, and the 0/1 test-versus-disease matrix.

use vstd::prelude::*;

verus! {

/// Sum of a cost vector.
pub open spec fn sum_costs(cost: Seq<u64>) -> int
    decreases cost.len(),
{
    if cost.len() == 0 {
        0
    } else {
        sum_costs(cost.drop_last()) + cost.last()
    }
}

/// A prefix never sums to more than the whole vector: costs are
/// nonnegative.
pub proof fn lemma_sum_costs_prefix(cost: Seq<u64>, i: int)
    requires
        0 <= i <= cost.len(),
    ensures
        sum_costs(cost.take(i)) <= sum_costs(cost),
    decreases cost.len() - i,
{
    if i < cost.len() {
        assert(cost.take(i + 1).drop_last() =~= cost.take(i));
        assert(cost.take(i + 1).last() == cost[i]);
        lemma_sum_costs_prefix(cost, i + 1);
    } else {
        assert(cost.take(i) =~= cost);
    }
}

/// A diagnostic problem: `num_tests` tests with costs, `num_diseases`
/// diseases, and the matrix whose entry at test t, disease d is 1 exactly
/// when test t is positive for disease d.
#[derive(Clone, Debug)]
pub struct ProblemInstance {
    pub num_tests: usize,
    pub num_diseases: usize,
    pub cost: Vec<u64>,
    pub matrix: Vec<Vec<u8>>,
}

impl ProblemInstance {
    /// The costs, one per test.
    pub open spec fn costs(self) -> Seq<u64> {
        self.cost@
    }

    /// The 0/1 matrix, row per test, column per disease.
    pub open spec fn mat(self) -> Seq<Seq<u8>> {
        self.matrix@.map_values(|r: Vec<u8>| r@)
    }

    /// Dimensions agree, entries are 0/1, and the total cost fits a
    /// machine word so that no selection's cost can overflow.
    pub open spec fn wf(self) -> bool {
        &&& self.costs().len() == self.num_tests
        &&& self.mat().len() == self.num_tests
        &&& forall|t: int|
            0 <= t < self.mat().len() ==> (#[trigger] self.mat()[t]).len() == self.num_diseases
        &&& forall|t: int, d: int|
            0 <= t < self.mat().len() && 0 <= d < self.num_diseases ==> #[trigger] self.mat()[t][d]
                <= 1
        &&& sum_costs(self.costs()) <= u64::MAX
    }

    /// Build an instance after checking every well-formedness condition;
    /// None exactly when one fails.
    pub fn new(num_tests: usize, num_diseases: usize, cost: Vec<u64>, matrix: Vec<Vec<u8>>) -> (r:
        Option<ProblemInstance>)
        ensures
            match r {
                Some(inst) => {
                    &&& inst.wf()
                    &&& inst.num_tests == num_tests
                    &&& inst.num_diseases == num_diseases
                    &&& inst.costs() == cost@
                    &&& inst.mat() == matrix@.map_values(|row: Vec<u8>| row@)
                },
                None => !{
                    &&& cost@.len() == num_tests
                    &&& matrix@.len() == num_tests
                    &&& forall|t: int|
                        0 <= t < matrix@.len() ==> (#[trigger] matrix@[t])@.len() == num_diseases
                    &&& forall|t: int, d: int|
                        0 <= t < matrix@.len() && 0 <= d < num_diseases ==> #[trigger] matrix@[t]@[d]
                            <= 1
                    &&& sum_costs(cost@) <= u64::MAX
                },
            },
    {
        if cost.len() != num_tests || matrix.len() != num_tests {
            return None;
        }
        let mut t: usize = 0;
        while t < matrix.len()
            invariant
                t <= matrix@.len(),
                forall|k: int|
                    0 <= k < t ==> (#[trigger] matrix@[k])@.len() == num_diseases && forall|d: int|
                        0 <= d < num_diseases ==> matrix@[k]@[d] <= 1,
            decreases matrix@.len() - t,
        {
            let row = &matrix[t];
            if row.len() != num_diseases {
                return None;
            }
            let mut d: usize = 0;
            while d < row.len()
                invariant
                    d <= row@.len(),
                    t < matrix@.len(),
                    row@ == matrix@[t as int]@,
                    forall|k: int| 0 <= k < d ==> #[trigger] row@[k] <= 1,
                decreases row@.len() - d,
            {
                if row[d] > 1 {
                    return None;
                }
                d = d + 1;
            }
            t = t + 1;
        }
        let mut total: u64 = 0;
        let mut i: usize = 0;
        while i < cost.len()
            invariant
                i <= cost@.len(),
                total == sum_costs(cost@.take(i as int)),
            decreases cost@.len() - i,
        {
            proof {
                assert(cost@.take(i + 1).drop_last() =~= cost@.take(i as int));
                assert(cost@.take(i + 1).last() == cost@[i as int]);
            }
            if cost[i] > u64::MAX - total {
                proof {
                    lemma_sum_costs_prefix(cost@, i + 1);
                }
                return None;
            }
            total = total + cost[i];
            i = i + 1;
        }
        proof {
            assert(cost@.take(cost@.len() as int) =~= cost@);
        }
        let inst = ProblemInstance { num_tests, num_diseases, cost, matrix };
        proof {
            assert(inst.mat() =~= matrix@.map_values(|row: Vec<u8>| row@));
        }
        Some(inst)
    }

    /// Cost of one test.
    pub fn cost(&self, t: usize) -> (r: u64)
        requires
            self.wf(),
            t < self.num_tests,
        ensures
            r == self.costs()[t as int],
    {
        self.cost[t]
    }

    /// The whole cost vector.
    pub fn cost_vector(&self) -> (r: &Vec<u64>)
        ensures
            r@ == self.costs(),
    {
        &self.cost
    }

    /// One matrix entry.
    pub fn entry(&self, t: usize, d: usize) -> (r: u8)
        requires
            self.wf(),
            t < self.num_tests,
            d < self.num_diseases,
        ensures
            r == self.mat()[t as int][d as int],
    {
        proof {
            assert(self.mat()[t as int] == self.matrix@[t as int]@);
        }
        self.matrix[t][d]
    }
}

} // verus!
