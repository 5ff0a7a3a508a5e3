//! The derived pair-distinguishing table. For every unordered disease pair
//! (i, j) with i < j there is one column; its entry at test t is 1 exactly
//! when the matrix tells the two diseases apart at that test. The columns
//! are laid out in the order the pairs are enumerated: all pairs with first
//! disease 0, then all with first disease 1, and so on.

use vstd::prelude::*;

use crate::instance::ProblemInstance;
use crate::common::FixedStatus;

verus! {

/// Number of pair columns whose first disease is below `i`, out of `d`
/// diseases: the running base of the column layout.
pub open spec fn col_base(d: int, i: int) -> int
    decreases i,
{
    if i <= 0 {
        0
    } else {
        col_base(d, i - 1) + (d - i)
    }
}

/// Number of unordered disease pairs, and so of pair columns.
pub open spec fn num_pairs(d: int) -> int {
    col_base(d, d)
}

/// The column of pair (i, j), for 0 <= i < j < d.
pub open spec fn col_index(d: int, i: int, j: int) -> int {
    col_base(d, i) + (j - i - 1)
}

/// The base is non-decreasing in the first disease.
pub proof fn lemma_col_base_monotone(d: int, i1: int, i2: int)
    requires
        0 <= i1 <= i2 <= d,
    ensures
        col_base(d, i1) <= col_base(d, i2),
    decreases i2 - i1,
{
    if i1 < i2 {
        lemma_col_base_monotone(d, i1, i2 - 1);
    }
}

/// Each pair's column lies inside its first disease's block, and every
/// block lies inside the table.
pub proof fn lemma_col_index_in_range(d: int, i: int, j: int)
    requires
        0 <= i < j < d,
    ensures
        col_base(d, i) <= col_index(d, i, j),
        col_index(d, i, j) < col_base(d, i + 1),
        col_base(d, i + 1) <= num_pairs(d),
        0 <= col_index(d, i, j) < num_pairs(d),
{
    lemma_col_base_monotone(d, 0, i);
    lemma_col_base_monotone(d, i + 1, d);
}

/// Pairs enumerated earlier get strictly smaller columns.
pub proof fn lemma_col_index_lex(d: int, a: int, b: int, i: int, j: int)
    requires
        0 <= a < b < d,
        0 <= i < j < d,
        a < i || (a == i && b < j),
    ensures
        col_index(d, a, b) < col_index(d, i, j),
{
    if a < i {
        lemma_col_index_in_range(d, a, b);
        lemma_col_base_monotone(d, a + 1, i);
        lemma_col_index_in_range(d, i, j);
    }
}

/// The 0/1 indicator that test t tells diseases i and j apart.
pub open spec fn pair_entry(m: Seq<Seq<u8>>, t: int, i: int, j: int) -> u8 {
    if m[t][i] != m[t][j] {
        1u8
    } else {
        0u8
    }
}

/// The derived table: one row per test, one column per unordered disease
/// pair.
#[derive(Clone, Debug)]
pub struct DistinguishTable {
    pub num_tests: usize,
    pub num_pair_cols: usize,
    pub rows: Vec<Vec<u8>>,
}

impl DistinguishTable {
    /// The table as a sequence of rows.
    pub open spec fn table(self) -> Seq<Seq<u8>> {
        self.rows@.map_values(|r: Vec<u8>| r@)
    }

    /// Rectangular, 0/1 entries, dimensions as recorded.
    pub open spec fn wf(self) -> bool {
        &&& self.table().len() == self.num_tests
        &&& forall|t: int|
            0 <= t < self.table().len() ==> (#[trigger] self.table()[t]).len()
                == self.num_pair_cols
        &&& forall|t: int, c: int|
            0 <= t < self.table().len() && 0 <= c < self.num_pair_cols
                ==> #[trigger] self.table()[t][c] <= 1
    }

    /// Derive the table from an instance: entry at test t, pair column
    /// (i, j) is 1 exactly when the matrix rows of i and j differ at t.
    pub fn derive(inst: &ProblemInstance) -> (r: DistinguishTable)
        requires
            inst.wf(),
            num_pairs(inst.num_diseases as int) <= usize::MAX,
        ensures
            r.wf(),
            r.num_tests == inst.num_tests,
            r.num_pair_cols == num_pairs(inst.num_diseases as int),
            forall|t: int, i: int, j: int|
                0 <= t < inst.num_tests && 0 <= i < j < inst.num_diseases
                    ==> #[trigger] r.table()[t][col_index(inst.num_diseases as int, i, j)]
                    == pair_entry(inst.mat(), t, i, j),
    {
        let d: usize = inst.num_diseases;
        let ghost dd = d as int;
        let mut rows: Vec<Vec<u8>> = Vec::new();
        let mut t: usize = 0;
        while t < inst.num_tests
            invariant
                inst.wf(),
                num_pairs(dd) <= usize::MAX,
                d == inst.num_diseases,
                dd == d as int,
                t <= inst.num_tests,
                rows@.len() == t,
                forall|k: int| 0 <= k < t ==> (#[trigger] rows@[k])@.len() == num_pairs(dd),
                forall|k: int, c: int|
                    0 <= k < t && 0 <= c < num_pairs(dd) ==> #[trigger] rows@[k]@[c] <= 1,
                forall|k: int, i: int, j: int|
                    0 <= k < t && 0 <= i < j < dd ==> #[trigger] rows@[k]@[col_index(dd, i, j)]
                        == pair_entry(inst.mat(), k, i, j),
            decreases inst.num_tests - t,
        {
            let mut row: Vec<u8> = Vec::new();
            let mut i: usize = 0;
            while i < d
                invariant
                    inst.wf(),
                    num_pairs(dd) <= usize::MAX,
                    d == inst.num_diseases,
                    dd == d as int,
                    t < inst.num_tests,
                    i <= d,
                    row@.len() == col_base(dd, i as int),
                    forall|c: int| 0 <= c < row@.len() ==> #[trigger] row@[c] <= 1,
                    forall|a: int, b: int|
                        0 <= a < i && a < b < dd ==> #[trigger] row@[col_index(dd, a, b)]
                            == pair_entry(inst.mat(), t as int, a, b),
                decreases d - i,
            {
                let mut j: usize = i + 1;
                proof {
                    lemma_col_base_monotone(dd, i as int + 1, dd);
                }
                while j < d
                    invariant
                        inst.wf(),
                        num_pairs(dd) <= usize::MAX,
                        d == inst.num_diseases,
                        dd == d as int,
                        t < inst.num_tests,
                        i < d,
                        i < j <= d,
                        row@.len() == col_index(dd, i as int, j as int),
                        col_base(dd, i as int + 1) <= num_pairs(dd),
                        forall|c: int| 0 <= c < row@.len() ==> #[trigger] row@[c] <= 1,
                        forall|a: int, b: int|
                            0 <= a < i && a < b < dd ==> #[trigger] row@[col_index(dd, a, b)]
                                == pair_entry(inst.mat(), t as int, a, b),
                        forall|b: int|
                            i < b < j ==> #[trigger] row@[col_index(dd, i as int, b)]
                                == pair_entry(inst.mat(), t as int, i as int, b),
                    decreases d - j,
                {
                    let ei = inst.entry(t, i);
                    let ej = inst.entry(t, j);
                    let v: u8 = if ei != ej {
                        1
                    } else {
                        0
                    };
                    proof {
                        lemma_col_index_in_range(dd, i as int, j as int);
                    }
                    row.push(v);
                    proof {
                        assert forall|a: int, b: int|
                            0 <= a < i && a < b < dd implies #[trigger] row@[col_index(dd, a, b)]
                            == pair_entry(inst.mat(), t as int, a, b) by {
                            lemma_col_index_in_range(dd, a, b);
                            lemma_col_index_lex(dd, a, b, i as int, j as int);
                        }
                        assert forall|b: int|
                            i < b <= j implies #[trigger] row@[col_index(dd, i as int, b)]
                            == pair_entry(inst.mat(), t as int, i as int, b) by {
                            lemma_col_index_in_range(dd, i as int, b);
                            if b < j {
                                lemma_col_index_lex(dd, i as int, b, i as int, j as int);
                            }
                        }
                    }
                    j = j + 1;
                }
                i = i + 1;
            }
            proof {
                assert(col_base(dd, i as int) == num_pairs(dd));
            }
            rows.push(row);
            t = t + 1;
        }
        let num_cols: usize = if d == 0 {
            0
        } else {
            // The table is rectangular; read the recorded width off a row
            // when one exists, else count the pairs directly.
            if inst.num_tests > 0 {
                rows[0].len()
            } else {
                let mut acc: usize = 0;
                let mut i: usize = 0;
                while i < d
                    invariant
                        i <= d,
                        dd == d as int,
                        num_pairs(dd) <= usize::MAX,
                        acc == col_base(dd, i as int),
                    decreases d - i,
                {
                    proof {
                        lemma_col_base_monotone(dd, i as int + 1, dd);
                    }
                    acc = acc + (d - i - 1);
                    i = i + 1;
                }
                acc
            }
        };
        proof {
            if d == 0 {
                assert(num_pairs(dd) == 0);
            }
        }
        let r = DistinguishTable { num_tests: inst.num_tests, num_pair_cols: num_cols, rows };
        proof {
            assert forall|t2: int, i2: int, j2: int|
                0 <= t2 < inst.num_tests && 0 <= i2 < j2 < inst.num_diseases implies #[trigger] r
                .table()[t2][col_index(dd, i2, j2)] == pair_entry(inst.mat(), t2, i2, j2) by {
                assert(r.table()[t2] == r.rows@[t2]@);
            }
        }
        r
    }

    /// One table row, for building one LP constraint column set.
    pub fn row(&self, t: usize) -> (r: &Vec<u8>)
        requires
            t < self.rows@.len(),
        ensures
            r@ == self.table()[t as int],
    {
        &self.rows[t]
    }
}

/// A selection of tests covers a pair column when some selected test
/// distinguishes that pair.
pub open spec fn covers_pair(table: Seq<Seq<u8>>, sel: Seq<bool>, c: int) -> bool {
    exists|t: int| 0 <= t < table.len() && sel[t] && table[t][c] == 1
}

/// A selection is feasible when it covers every pair column.
pub open spec fn covers_all(table: Seq<Seq<u8>>, sel: Seq<bool>, ncols: int) -> bool {
    forall|c: int| 0 <= c < ncols ==> covers_pair(table, sel, c)
}

/// Total cost of the selected tests.
pub open spec fn selection_cost(cost: Seq<u64>, sel: Seq<bool>) -> int
    decreases cost.len(),
{
    if cost.len() == 0 {
        0
    } else {
        selection_cost(cost.drop_last(), sel.drop_last()) + if sel.last() {
            cost.last() as int
        } else {
            0
        }
    }
}

/// An integer selection completes a node's fixing vector when it keeps
/// every decided test as decided.
pub open spec fn respects_fixing(sel: Seq<bool>, fixed: Seq<FixedStatus>) -> bool {
    &&& sel.len() == fixed.len()
    &&& forall|i: int|
        0 <= i < fixed.len() ==> ((#[trigger] fixed[i]) is Present ==> sel[i]) && (fixed[i]
            is Absent ==> !sel[i])
}

/// Selecting nothing costs nothing.
pub proof fn lemma_empty_selection_cost(cost: Seq<u64>, sel: Seq<bool>)
    requires
        sel.len() == cost.len(),
        forall|i: int| 0 <= i < sel.len() ==> !(#[trigger] sel[i]),
    ensures
        selection_cost(cost, sel) == 0,
    decreases cost.len(),
{
    if cost.len() > 0 {
        lemma_empty_selection_cost(cost.drop_last(), sel.drop_last());
    }
}

/// Dropping one test from a selection lowers its cost by that test's cost
/// when it was selected, and changes nothing otherwise.
pub proof fn lemma_selection_cost_drop(cost: Seq<u64>, sel: Seq<bool>, t: int)
    requires
        sel.len() == cost.len(),
        0 <= t < sel.len(),
    ensures
        selection_cost(cost, sel.update(t, false)) == selection_cost(cost, sel) - if sel[t] {
            cost[t] as int
        } else {
            0
        },
    decreases cost.len(),
{
    if t == cost.len() - 1 {
        assert(sel.update(t, false).drop_last() =~= sel.drop_last());
    } else {
        assert(sel.update(t, false).drop_last() =~= sel.drop_last().update(t, false));
        assert(sel.update(t, false).last() == sel.last());
        lemma_selection_cost_drop(cost.drop_last(), sel.drop_last(), t);
    }
}

/// Boundary law: with at most one disease there is no pair column, the
/// empty selection is feasible, and the optimal cost is zero.
pub proof fn lemma_trivial_instance(table: Seq<Seq<u8>>, cost: Seq<u64>, d: int)
    requires
        0 <= d <= 1,
        cost.len() == table.len(),
    ensures
        num_pairs(d) == 0,
        covers_all(table, Seq::new(table.len(), |i: int| false), num_pairs(d)),
        selection_cost(cost, Seq::new(table.len(), |i: int| false)) == 0,
{
    if d == 1 {
        assert(col_base(1, 1) == col_base(1, 0) + 0);
    }
    lemma_empty_selection_cost(cost, Seq::new(table.len(), |i: int| false));
}

/// Infeasibility law: a pair column in which no test has a positive entry
/// cannot be covered, so no selection at all is feasible and the search
/// reports no solution.
pub proof fn lemma_zero_column_uncoverable(
    table: Seq<Seq<u8>>,
    sel: Seq<bool>,
    c: int,
    ncols: int,
)
    requires
        0 <= c < ncols,
        forall|t: int| 0 <= t < table.len() ==> #[trigger] table[t][c] != 1,
    ensures
        !covers_all(table, sel, ncols),
{
    assert(!covers_pair(table, sel, c));
}

/// Uselessness law: a test that distinguishes no pair can be dropped from
/// any feasible selection, keeping it feasible and not raising its cost;
/// an optimal solution therefore never needs it.
pub proof fn lemma_useless_test_droppable(
    table: Seq<Seq<u8>>,
    cost: Seq<u64>,
    sel: Seq<bool>,
    t: int,
    ncols: int,
)
    requires
        sel.len() == table.len(),
        cost.len() == table.len(),
        0 <= t < table.len(),
        forall|c: int| 0 <= c < ncols ==> #[trigger] table[t][c] != 1,
        covers_all(table, sel, ncols),
    ensures
        covers_all(table, sel.update(t, false), ncols),
        selection_cost(cost, sel.update(t, false)) <= selection_cost(cost, sel),
{
    assert forall|c: int| 0 <= c < ncols implies covers_pair(table, sel.update(t, false), c) by {
        assert(covers_pair(table, sel, c));
        let w = choose|w: int| 0 <= w < table.len() && sel[w] && table[w][c] == 1;
        assert(w != t);
        assert(sel.update(t, false)[w] && table[w][c] == 1);
    }
    lemma_selection_cost_drop(cost, sel, t);
}

} // verus!
