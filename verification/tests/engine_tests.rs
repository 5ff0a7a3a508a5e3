//! Scenarios that drive the coordinator and worker step functions through
//! whole searches, with the LP outcomes supplied as plain values.

use ipsolver::common::{FixedStatus, LpOutcome, Node, SCALE};
use ipsolver::solver::{DispatchStep, IPSolver, SolverStats, WorkResponse};
use ipsolver::worker::{branch_fixings, classify, WorkerStats};

const S: u64 = SCALE;

#[test]
fn scenario_trivial_single_test() {
    // One test of cost 5 distinguishes the one disease pair.
    let mut solver = IPSolver::new(1);
    let (fixed_true, fixed_false) = solver.root_children().unwrap();
    assert_eq!(fixed_true, vec![FixedStatus::Present]);
    assert_eq!(fixed_false, vec![FixedStatus::Absent]);
    solver.search(
        fixed_true,
        LpOutcome::Feasible { objective: 5 * S, values: vec![S] },
    );
    solver.search(fixed_false, LpOutcome::Infeasible);
    assert!(solver.is_finished());
    let result = solver.into_result().unwrap();
    assert_eq!(result.0, 5 * S);
    assert_eq!(result.1, vec![S]);
}

#[test]
fn scenario_choice_cheapest_wins() {
    // Either of two tests suffices; the cheaper one (cost 3) wins.
    let mut solver = IPSolver::new(2);
    let (fixed_true, fixed_false) = solver.root_children().unwrap();
    solver.search(
        fixed_true,
        LpOutcome::Feasible { objective: 3 * S, values: vec![S, 0] },
    );
    // The other branch costs 7 and is pruned against the incumbent of 3.
    solver.search(
        fixed_false,
        LpOutcome::Feasible { objective: 7 * S, values: vec![0, S] },
    );
    assert!(solver.is_finished());
    let result = solver.into_result().unwrap();
    assert_eq!(result.0, 3 * S);
    assert_eq!(result.1, vec![S, 0]);
}

#[test]
fn scenario_infeasible_no_solution() {
    // A test positive for both diseases distinguishes nothing: both root
    // children are LP-infeasible and no incumbent ever appears.
    let mut solver = IPSolver::new(1);
    let (fixed_true, fixed_false) = solver.root_children().unwrap();
    solver.search(fixed_true, LpOutcome::Infeasible);
    solver.search(fixed_false, LpOutcome::Infeasible);
    assert!(solver.is_finished());
    assert!(solver.into_result().is_none());
}

fn run_cover_search() -> (u64, Vec<u64>, usize) {
    // Three tests of costs 2, 2, 3; any two of the three cover all pairs.
    let mut solver = IPSolver::new(3);
    let (fixed_true, fixed_false) = solver.root_children().unwrap();
    solver.search(
        fixed_true,
        LpOutcome::Feasible { objective: 2 * S, values: vec![S, S / 2, S / 2] },
    );
    solver.search(
        fixed_false,
        LpOutcome::Feasible { objective: 5 * S / 2, values: vec![0, S, S / 2] },
    );
    // Two fractional children are open; the one with bound 2 comes first.
    let first = match solver.dispatch() {
        DispatchStep::Dispatch(node) => node,
        _ => panic!("expected a dispatch"),
    };
    assert_eq!(first.objective_val, 2 * S);
    solver.record_heap_size();
    let (b, child_true, child_false) = branch_fixings(&first).unwrap();
    assert_eq!(b, 1);
    let resp_true = classify(
        child_true,
        LpOutcome::Feasible { objective: 4 * S, values: vec![S, S, 0] },
        3,
    );
    let resp_false = classify(
        child_false,
        LpOutcome::Feasible { objective: 5 * S, values: vec![S, 0, S] },
        3,
    );
    assert!(matches!(resp_true, WorkResponse::IntegralSolution(_)));
    solver.integrate(resp_true);
    solver.integrate(resp_false);
    assert!(!solver.is_finished());
    // The remaining open node (bound 2.5) still beats the incumbent of 4.
    let second = match solver.dispatch() {
        DispatchStep::Dispatch(node) => node,
        _ => panic!("expected a dispatch"),
    };
    assert_eq!(second.objective_val, 5 * S / 2);
    let (b2, child_true2, child_false2) = branch_fixings(&second).unwrap();
    assert_eq!(b2, 1);
    let resp_true2 = classify(
        child_true2,
        LpOutcome::Feasible { objective: 9 * S / 2, values: vec![0, S, S / 2] },
        3,
    );
    let resp_false2 = classify(child_false2, LpOutcome::Infeasible, 3);
    // A fractional child whose bound 4.5 is dominated by the incumbent 4
    // is pruned on reintegration.
    assert!(matches!(resp_true2, WorkResponse::NewActiveNode(_)));
    solver.integrate(resp_true2);
    solver.integrate(resp_false2);
    assert!(solver.is_finished());
    let max_heap = solver.stats().max_heap_size;
    let (cost, values) = solver.into_result().unwrap();
    (cost, values, max_heap)
}

#[test]
fn scenario_cover_full_search() {
    let (cost, values, max_heap) = run_cover_search();
    assert_eq!(cost, 4 * S);
    assert_eq!(values, vec![S, S, 0]);
    assert_eq!(max_heap, 1);
}

#[test]
fn scenario_same_search_twice_same_answer() {
    // Driving the engine twice through the same outcomes gives the same
    // optimal cost and the same selection.
    let first = run_cover_search();
    let second = run_cover_search();
    assert_eq!(first, second);
}

#[test]
fn incumbent_updates_strictly_decrease() {
    // Worse or equal integral solutions never move the incumbent; only a
    // strictly better one does.
    let mut solver = IPSolver::new(2);
    let (fixed_true, fixed_false) = solver.root_children().unwrap();
    solver.search(
        fixed_true,
        LpOutcome::Feasible { objective: 10 * S, values: vec![S, 0] },
    );
    solver.search(
        fixed_false,
        LpOutcome::Feasible { objective: 6 * S, values: vec![0, S] },
    );
    let result = solver.into_result().unwrap();
    assert_eq!(result.0, 6 * S);
    assert_eq!(result.1, vec![0, S]);
}

#[test]
fn prune_clears_whole_frontier() {
    // Once the best open node is dominated by the incumbent, the whole
    // frontier is dropped in one step.
    let mut solver = IPSolver::new(2);
    let (fixed_true, fixed_false) = solver.root_children().unwrap();
    solver.search(
        fixed_true.clone(),
        LpOutcome::Feasible { objective: 10 * S, values: vec![S, S / 2] },
    );
    solver.search(
        fixed_false,
        LpOutcome::Feasible { objective: 12 * S, values: vec![0, S / 2] },
    );
    let node = match solver.dispatch() {
        DispatchStep::Dispatch(node) => node,
        _ => panic!("expected a dispatch"),
    };
    assert_eq!(node.objective_val, 10 * S);
    // A worker reports an integral solution of cost 5 for one child and
    // infeasibility for the other.
    solver.integrate(WorkResponse::IntegralSolution(Node::new(
        5 * S,
        vec![FixedStatus::Present, FixedStatus::Present],
        vec![S, S],
    )));
    solver.integrate(WorkResponse::Infeasible);
    // The node of bound 12 left on the frontier is now dominated.
    assert!(matches!(solver.dispatch(), DispatchStep::PrunedRemaining));
    assert!(solver.is_finished());
    assert_eq!(solver.into_result().unwrap().0, 5 * S);
}

#[test]
fn dispatch_on_empty_frontier() {
    let mut solver = IPSolver::new(2);
    assert!(matches!(solver.dispatch(), DispatchStep::Empty));
    assert!(solver.is_finished());
}

#[test]
fn root_children_of_empty_instance() {
    let solver = IPSolver::new(0);
    assert!(solver.root_children().is_none());
}

#[test]
fn scenario_no_tests_trivially_optimal() {
    // Without tests there is no variable to branch on: the bare root's LP
    // outcome decides. With no pair to distinguish the relaxation is
    // feasible at cost zero and integral, so the result is 0 and OPT.
    let mut solver = IPSolver::new(0);
    assert!(solver.root_children().is_none());
    solver.search(vec![], LpOutcome::Feasible { objective: 0, values: vec![] });
    assert!(solver.is_finished());
    let result = solver.into_result().unwrap();
    assert_eq!(result.0, 0);
    assert_eq!(result.1, Vec::<u64>::new());
}

#[test]
fn in_flight_accounting() {
    let mut solver = IPSolver::new(1);
    let (fixed_true, _) = solver.root_children().unwrap();
    solver.search(
        fixed_true,
        LpOutcome::Feasible { objective: S, values: vec![S / 2] },
    );
    assert_eq!(solver.in_flight_count(), 0);
    match solver.dispatch() {
        DispatchStep::Dispatch(_) => {}
        _ => panic!("expected a dispatch"),
    }
    assert_eq!(solver.in_flight_count(), 2);
    solver.integrate(WorkResponse::Infeasible);
    assert_eq!(solver.in_flight_count(), 1);
    solver.integrate(WorkResponse::Infeasible);
    assert_eq!(solver.in_flight_count(), 0);
    assert!(solver.is_finished());
}

#[test]
fn worker_classify_outcomes() {
    let fixed = vec![FixedStatus::Present, FixedStatus::Unassigned];
    let resp = classify(fixed.clone(), LpOutcome::Infeasible, 2);
    assert!(matches!(resp, WorkResponse::Infeasible));
    let resp = classify(
        fixed.clone(),
        LpOutcome::Feasible { objective: 3 * S, values: vec![S, 0] },
        2,
    );
    match resp {
        WorkResponse::IntegralSolution(node) => {
            assert_eq!(node.objective_val, 3 * S);
            assert_eq!(node.fixed, fixed);
            assert_eq!(node.lp_assignments, vec![S, 0]);
        }
        _ => panic!("expected an integral solution"),
    }
    let resp = classify(
        fixed.clone(),
        LpOutcome::Feasible { objective: 3 * S, values: vec![S, S / 3] },
        2,
    );
    assert!(matches!(resp, WorkResponse::NewActiveNode(_)));
}

#[test]
fn worker_branch_fixings_updates_one_test() {
    let node = Node::new(
        2 * S,
        vec![FixedStatus::Present, FixedStatus::Unassigned, FixedStatus::Unassigned],
        vec![S, S / 4, 3 * S / 4],
    );
    let (b, fixed_true, fixed_false) = branch_fixings(&node).unwrap();
    // Index 2 is the unassigned value closest to 1.
    assert_eq!(b, 2);
    assert_eq!(
        fixed_true,
        vec![FixedStatus::Present, FixedStatus::Unassigned, FixedStatus::Present]
    );
    assert_eq!(
        fixed_false,
        vec![FixedStatus::Present, FixedStatus::Unassigned, FixedStatus::Absent]
    );
    let decided = Node::new(S, vec![FixedStatus::Absent], vec![0]);
    assert!(branch_fixings(&decided).is_none());
}

#[test]
fn stats_defaults() {
    let w = WorkerStats::default();
    assert_eq!(w.solves, 0);
    assert_eq!(w.waiting_for_orders_micros, 0);
    assert_eq!(w.lp_solving_micros, 0);
    let s = SolverStats::default();
    assert_eq!(s.max_heap_size, 0);
}
