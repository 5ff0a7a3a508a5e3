//! The worker's verified step logic. A worker owns an LP session outside
//! the library and loops on its order channel; for each visited node it
//! builds the two branch children here, has the LP engine solve each, and
//! classifies each outcome here. Workers never see the incumbent: pruning
//! is the coordinator's job on reintegration.

use vstd::prelude::*;

use crate::branch::get_branch_var;
use crate::branch::is_branch_choice;
use crate::branch::has_unassigned;
use crate::common::all_integral;
use crate::common::count_unassigned;
use crate::common::FixedStatus;
use crate::common::LpOutcome;
use crate::common::Node;
use crate::solver::response_wf;
use crate::solver::WorkResponse;

verus! {

/// Counters a worker keeps about itself; the waiting times are carried in
/// microseconds.
#[derive(Clone, Copy, Debug)]
pub struct WorkerStats {
    pub solves: usize,
    pub waiting_for_orders_micros: u64,
    pub lp_solving_micros: u64,
}

impl Default for WorkerStats {
    fn default() -> (r: WorkerStats)
        ensures
            r.solves == 0,
            r.waiting_for_orders_micros == 0,
            r.lp_solving_micros == 0,
    {
        WorkerStats { solves: 0, waiting_for_orders_micros: 0, lp_solving_micros: 0 }
    }
}

/// Updating an unassigned position to a decision lowers the number of
/// unassigned tests by exactly one: the branch children of a node sit
/// strictly deeper, so every root-to-leaf path is finite.
pub proof fn lemma_count_unassigned_update(fixed: Seq<FixedStatus>, i: int, v: FixedStatus)
    requires
        0 <= i < fixed.len(),
        fixed[i] is Unassigned,
        !(v is Unassigned),
    ensures
        count_unassigned(fixed.update(i, v)) == count_unassigned(fixed) - 1,
    decreases fixed.len(),
{
    if i == fixed.len() - 1 {
        assert(fixed.update(i, v).drop_last() =~= fixed.drop_last());
    } else {
        assert(fixed.update(i, v).drop_last() =~= fixed.drop_last().update(i, v));
        assert(fixed.update(i, v).last() == fixed.last());
        lemma_count_unassigned_update(fixed.drop_last(), i, v);
    }
}

/// Build the two branch children of a node: pick the branching variable by
/// the branching rule and fix it to present in one child and to absent in
/// the other. None exactly when no test is unassigned, which cannot happen
/// on a fractional node that was classified correctly.
pub fn branch_fixings(node: &Node) -> (r: Option<(usize, Vec<FixedStatus>, Vec<FixedStatus>)>)
    requires
        node.wf(),
    ensures
        match r {
            None => !has_unassigned(node.fixed@),
            Some(p) => {
                &&& is_branch_choice(node.fixed@, node.lp_assignments@, p.0 as int)
                &&& p.1@ == node.fixed@.update(p.0 as int, FixedStatus::Present)
                &&& p.2@ == node.fixed@.update(p.0 as int, FixedStatus::Absent)
                &&& count_unassigned(p.1@) == count_unassigned(node.fixed@) - 1
                &&& count_unassigned(p.2@) == count_unassigned(node.fixed@) - 1
            },
        },
{
    let branch_var = get_branch_var(&node.fixed, &node.lp_assignments);
    match branch_var {
        None => None,
        Some(b) => {
            let mut fixed_true = node.fixed.clone();
            fixed_true.set(b, FixedStatus::Present);
            let mut fixed_false = node.fixed.clone();
            fixed_false.set(b, FixedStatus::Absent);
            proof {
                lemma_count_unassigned_update(node.fixed@, b as int, FixedStatus::Present);
                lemma_count_unassigned_update(node.fixed@, b as int, FixedStatus::Absent);
            }
            Some((b, fixed_true, fixed_false))
        },
    }
}

/// Classify one branch child's LP outcome into the response sent back to
/// the coordinator: the infeasible report, an integral solution (within
/// tolerance), or a new active node carrying the fractional relaxation.
pub fn classify(fixed: Vec<FixedStatus>, outcome: LpOutcome, n: usize) -> (r: WorkResponse)
    requires
        fixed@.len() == n,
        outcome.wf(n as int),
    ensures
        response_wf(r, n as int),
        match outcome {
            LpOutcome::Infeasible => r is Infeasible,
            LpOutcome::Feasible { objective, values } => {
                &&& all_integral(values@) ==> r == WorkResponse::IntegralSolution(
                    (Node { objective_val: objective, fixed: fixed, lp_assignments: values }),
                )
                &&& !all_integral(values@) ==> r == WorkResponse::NewActiveNode(
                    (Node { objective_val: objective, fixed: fixed, lp_assignments: values }),
                )
            },
        },
{
    match outcome {
        LpOutcome::Infeasible => WorkResponse::Infeasible,
        LpOutcome::Feasible { objective, values } => {
            let integral = crate::common::is_integral(&values);
            let this_node = Node::new(objective, fixed, values);
            if integral {
                WorkResponse::IntegralSolution(this_node)
            } else {
                WorkResponse::NewActiveNode(this_node)
            }
        },
    }
}

} // verus!
