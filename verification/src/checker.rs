//! Bound-validity checking by enumeration. A node's LP relaxation value is
//! meant to be a lower bound on the cost of every feasible integer
//! completion below the node; on tiny instances this can be checked
//! outright by walking all completions of the node's fixing vector.

use vstd::prelude::*;

use crate::common::count_unassigned;
use crate::common::FixedStatus;
use crate::instance::lemma_sum_costs_prefix;
use crate::instance::sum_costs;
use crate::table::covers_all;
use crate::table::covers_pair;
use crate::table::respects_fixing;
use crate::table::selection_cost;
use crate::table::DistinguishTable;
use crate::worker::lemma_count_unassigned_update;

verus! {

/// A selection never costs more than all tests together, and never less
/// than nothing.
pub proof fn lemma_selection_cost_bounds(cost: Seq<u64>, sel: Seq<bool>)
    ensures
        0 <= selection_cost(cost, sel) <= sum_costs(cost),
    decreases cost.len(),
{
    if cost.len() > 0 {
        lemma_selection_cost_bounds(cost.drop_last(), sel.drop_last());
    }
}

/// Total cost of the selected tests.
pub fn selection_cost_exec(cost: &Vec<u64>, sel: &Vec<bool>) -> (r: u64)
    requires
        sel@.len() == cost@.len(),
        sum_costs(cost@) <= u64::MAX,
    ensures
        r == selection_cost(cost@, sel@),
{
    let mut total: u64 = 0;
    let mut i: usize = 0;
    while i < cost.len()
        invariant
            i <= cost@.len(),
            sel@.len() == cost@.len(),
            sum_costs(cost@) <= u64::MAX,
            total == selection_cost(cost@.take(i as int), sel@.take(i as int)),
        decreases cost@.len() - i,
    {
        proof {
            assert(cost@.take(i + 1).drop_last() =~= cost@.take(i as int));
            assert(sel@.take(i + 1).drop_last() =~= sel@.take(i as int));
            assert(cost@.take(i + 1).last() == cost@[i as int]);
            assert(sel@.take(i + 1).last() == sel@[i as int]);
            lemma_selection_cost_bounds(cost@.take(i + 1), sel@.take(i + 1));
            lemma_sum_costs_prefix(cost@, i + 1);
        }
        if sel[i] {
            total = total + cost[i];
        }
        i = i + 1;
    }
    proof {
        assert(cost@.take(cost@.len() as int) =~= cost@);
        assert(sel@.take(sel@.len() as int) =~= sel@);
    }
    total
}

/// Does the selection cover every pair column of the table?
pub fn covers_all_exec(table: &DistinguishTable, sel: &Vec<bool>) -> (r: bool)
    requires
        table.wf(),
        sel@.len() == table.num_tests,
    ensures
        r == covers_all(table.table(), sel@, table.num_pair_cols as int),
{
    let mut c: usize = 0;
    while c < table.num_pair_cols
        invariant
            table.wf(),
            sel@.len() == table.num_tests,
            c <= table.num_pair_cols,
            forall|c2: int| 0 <= c2 < c ==> covers_pair(table.table(), sel@, c2),
        decreases table.num_pair_cols - c,
    {
        let mut covered = false;
        let mut t: usize = 0;
        while t < table.num_tests
            invariant
                table.wf(),
                sel@.len() == table.num_tests,
                c < table.num_pair_cols,
                t <= table.num_tests,
                covered ==> covers_pair(table.table(), sel@, c as int),
                !covered ==> forall|t2: int|
                    0 <= t2 < t ==> !(sel@[t2] && #[trigger] table.table()[t2][c as int] == 1),
            decreases table.num_tests - t,
        {
            proof {
                assert(table.table()[t as int] == table.rows@[t as int]@);
            }
            if sel[t] && table.rows[t][c] == 1 {
                covered = true;
            }
            t = t + 1;
        }
        if !covered {
            proof {
                assert(!covers_pair(table.table(), sel@, c as int));
            }
            return false;
        }
        c = c + 1;
    }
    true
}

/// Why pruning loses no optimum: when a node's relaxation bound really is
/// a lower bound on every feasible completion below it, and the node is
/// dominated by the incumbent, then every feasible completion below it
/// costs at least the incumbent, so dropping the node forgoes nothing
/// better than what is already in hand.
pub proof fn lemma_pruned_node_loses_no_optimum(
    table: Seq<Seq<u8>>,
    cost: Seq<u64>,
    fixed: Seq<FixedStatus>,
    ncols: int,
    bound: u64,
    incumbent_obj: u64,
    sel: Seq<bool>,
)
    requires
        forall|s2: Seq<bool>|
            respects_fixing(s2, fixed) && covers_all(table, s2, ncols) ==> bound
                <= selection_cost(cost, s2),
        bound >= incumbent_obj,
        respects_fixing(sel, fixed),
        covers_all(table, sel, ncols),
    ensures
        selection_cost(cost, sel) >= incumbent_obj,
{
}

/// The one selection that a fully decided fixing vector admits.
pub open spec fn decided_selection(fixed: Seq<FixedStatus>) -> Seq<bool> {
    Seq::new(fixed.len(), |i: int| fixed[i] is Present)
}

/// Check by enumeration that `bound` is a lower bound on the cost of every
/// feasible integer completion of `fixed`: every selection that keeps the
/// decided tests as decided and covers every pair column costs at least
/// `bound`.
pub fn bound_valid_for_completions(
    table: &DistinguishTable,
    cost: &Vec<u64>,
    fixed: &Vec<FixedStatus>,
    bound: u64,
) -> (r: bool)
    requires
        table.wf(),
        cost@.len() == table.num_tests,
        fixed@.len() == table.num_tests,
        sum_costs(cost@) <= u64::MAX,
    ensures
        r == forall|sel: Seq<bool>|
            respects_fixing(sel, fixed@) && covers_all(
                table.table(),
                sel,
                table.num_pair_cols as int,
            ) ==> bound <= selection_cost(cost@, sel),
    decreases count_unassigned(fixed@),
{
    // Find the first undecided test.
    let mut i: usize = 0;
    while i < fixed.len() && !matches!(fixed[i], FixedStatus::Unassigned)
        invariant
            i <= fixed@.len(),
            forall|k: int| 0 <= k < i ==> !((#[trigger] fixed@[k]) is Unassigned),
        decreases fixed@.len() - i,
    {
        i = i + 1;
    }
    if i == fixed.len() {
        // Fully decided: exactly one completion remains.
        let mut sel: Vec<bool> = Vec::new();
        let mut k: usize = 0;
        while k < fixed.len()
            invariant
                k <= fixed@.len(),
                sel@.len() == k,
                forall|k2: int| 0 <= k2 < k ==> sel@[k2] == (fixed@[k2] is Present),
            decreases fixed@.len() - k,
        {
            sel.push(matches!(fixed[k], FixedStatus::Present));
            k = k + 1;
        }
        proof {
            assert(sel@ =~= decided_selection(fixed@));
        }
        let covers = covers_all_exec(table, &sel);
        let total = selection_cost_exec(cost, &sel);
        let result = !covers || bound <= total;
        proof {
            assert forall|s2: Seq<bool>| respects_fixing(s2, fixed@) implies s2
                == decided_selection(fixed@) by {
                assert(s2 =~= decided_selection(fixed@));
            }
            if result {
                assert forall|s2: Seq<bool>|
                    respects_fixing(s2, fixed@) && covers_all(
                        table.table(),
                        s2,
                        table.num_pair_cols as int,
                    ) implies bound <= selection_cost(cost@, s2) by {
                    assert(s2 == decided_selection(fixed@));
                }
            } else {
                assert(respects_fixing(sel@, fixed@));
            }
        }
        result
    } else {
        // Undecided: both completions of test i must keep the bound.
        let mut fixed_true = fixed.clone();
        fixed_true.set(i, FixedStatus::Present);
        let mut fixed_false = fixed.clone();
        fixed_false.set(i, FixedStatus::Absent);
        proof {
            lemma_count_unassigned_update(fixed@, i as int, FixedStatus::Present);
            lemma_count_unassigned_update(fixed@, i as int, FixedStatus::Absent);
            crate::common::lemma_count_unassigned_bounds(fixed_true@);
            crate::common::lemma_count_unassigned_bounds(fixed_false@);
        }
        let rt = bound_valid_for_completions(table, cost, &fixed_true, bound);
        let rf = bound_valid_for_completions(table, cost, &fixed_false, bound);
        let result = rt && rf;
        proof {
            // Any selection respecting a child also respects the parent.
            assert forall|s2: Seq<bool>, v: FixedStatus|
                respects_fixing(s2, fixed@.update(i as int, v)) implies respects_fixing(
                s2,
                fixed@,
            ) by {
                assert forall|k2: int|
                    0 <= k2 < fixed@.len() implies (((#[trigger] fixed@[k2]) is Present
                        ==> s2[k2]) && (fixed@[k2] is Absent ==> !s2[k2])) by {
                    if k2 != i {
                        assert(fixed@.update(i as int, v)[k2] == fixed@[k2]);
                    }
                }
            }
            if result {
                // Any completion of the parent respects one of the children.
                assert forall|s2: Seq<bool>|
                    respects_fixing(s2, fixed@) && covers_all(
                        table.table(),
                        s2,
                        table.num_pair_cols as int,
                    ) implies bound <= selection_cost(cost@, s2) by {
                    if s2[i as int] {
                        assert(respects_fixing(s2, fixed_true@));
                    } else {
                        assert(respects_fixing(s2, fixed_false@));
                    }
                }
            } else {
                if !rt {
                    let s2 = choose|s2: Seq<bool>|
                        respects_fixing(s2, fixed_true@) && covers_all(
                            table.table(),
                            s2,
                            table.num_pair_cols as int,
                        ) && !(bound <= selection_cost(cost@, s2));
                    assert(respects_fixing(s2, fixed@));
                } else {
                    let s2 = choose|s2: Seq<bool>|
                        respects_fixing(s2, fixed_false@) && covers_all(
                            table.table(),
                            s2,
                            table.num_pair_cols as int,
                        ) && !(bound <= selection_cost(cost@, s2));
                    assert(respects_fixing(s2, fixed@));
                }
            }
        }
        result
    }
}

} // verus!
