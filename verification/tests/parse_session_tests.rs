//! The problem-description parser, the branching rule, integrality, the
//! frontier's ordering, and the LP session's bound ledger.

use ipsolver::branch::get_branch_var;
use ipsolver::common::{is_integral, FixedStatus, Node, SCALE};
use ipsolver::frontier::Frontier;
use ipsolver::parse::parse_data_file;
use ipsolver::session::LPSolver;

const S: u64 = SCALE;

#[test]
fn parse_plain_description() {
    let text = b"1\n2\n5\n0 1\n".to_vec();
    let inst = parse_data_file(&text).unwrap();
    assert_eq!(inst.num_tests, 1);
    assert_eq!(inst.num_diseases, 2);
    assert_eq!(inst.cost, vec![5 * S]);
    assert_eq!(inst.matrix, vec![vec![0, 1]]);
}

#[test]
fn parse_several_tests_and_trailing_newlines() {
    let text = b"2\n2\n3 7\n0 1\n1 0\n\n\n".to_vec();
    let inst = parse_data_file(&text).unwrap();
    assert_eq!(inst.cost, vec![3 * S, 7 * S]);
    assert_eq!(inst.matrix, vec![vec![0, 1], vec![1, 0]]);
}

#[test]
fn parse_decimal_costs() {
    let text = b"2\n2\n2.5 0.125\n0 1\n1 0\n".to_vec();
    let inst = parse_data_file(&text).unwrap();
    assert_eq!(inst.cost, vec![2_500_000_000, 125_000_000]);
}

#[test]
fn parse_carriage_returns() {
    let text = b"1\r\n2\r\n5\r\n0 1\r\n".to_vec();
    let inst = parse_data_file(&text).unwrap();
    assert_eq!(inst.cost, vec![5 * S]);
}

#[test]
fn parse_rejects_malformed_descriptions() {
    // A missing matrix row.
    assert!(parse_data_file(&b"2\n2\n3 7\n0 1\n".to_vec()).is_none());
    // Too few costs.
    assert!(parse_data_file(&b"2\n2\n3\n0 1\n1 0\n".to_vec()).is_none());
    // Extra token on the first line.
    assert!(parse_data_file(&b"1 2\n2\n5\n0 1\n".to_vec()).is_none());
    // A matrix entry that is neither 0 nor 1.
    assert!(parse_data_file(&b"1\n2\n5\n0 3\n".to_vec()).is_none());
    // Stray text after the matrix.
    assert!(parse_data_file(&b"1\n2\n5\n0 1\nleftover\n".to_vec()).is_none());
    // A fraction finer than the fixed point carries.
    assert!(parse_data_file(&b"1\n2\n1.0000000001\n0 1\n".to_vec()).is_none());
    // A bare full stop without fraction digits.
    assert!(parse_data_file(&b"1\n2\n5.\n0 1\n".to_vec()).is_none());
}

#[test]
fn branching_rule_closest_to_one() {
    let fixed = vec![
        FixedStatus::Unassigned,
        FixedStatus::Present,
        FixedStatus::Unassigned,
        FixedStatus::Unassigned,
    ];
    // Values: 0.25, (fixed), 0.75, 0.5 -- index 2 is closest to 1.
    let vals = vec![S / 4, S, 3 * S / 4, S / 2];
    assert_eq!(get_branch_var(&fixed, &vals), Some(2));
    // The fixed test is ignored even though its value is exactly 1.
    let all_done = vec![FixedStatus::Present, FixedStatus::Absent];
    assert_eq!(get_branch_var(&all_done, &vec![S, 0]), None);
}

#[test]
fn branching_rule_ties_break_low() {
    let fixed = vec![FixedStatus::Unassigned; 3];
    let vals = vec![S / 2, S / 2, S / 2];
    assert_eq!(get_branch_var(&fixed, &vals), Some(0));
}

#[test]
fn integrality_within_tolerance() {
    assert!(is_integral(&vec![0, S]));
    // One fixed-point unit off either bound is still integral.
    assert!(is_integral(&vec![1, S - 1]));
    assert!(!is_integral(&vec![2]));
    assert!(!is_integral(&vec![S / 2]));
    assert!(!is_integral(&vec![S, S / 3, 0]));
    assert!(is_integral(&vec![]));
}

#[test]
fn frontier_pops_in_objective_order() {
    let mut frontier = Frontier::new();
    assert!(frontier.is_empty());
    // The analog of objectives 1.0, 1.0001 and 0.9.
    frontier.push(Node::new(1_000_000_000, vec![], vec![]));
    frontier.push(Node::new(1_000_100_000, vec![], vec![]));
    frontier.push(Node::new(900_000_000, vec![], vec![]));
    assert_eq!(frontier.len(), 3);
    let mut pops: Vec<u64> = Vec::new();
    while let Some(node) = frontier.pop() {
        pops.push(node.objective_val);
    }
    assert_eq!(pops, vec![900_000_000, 1_000_000_000, 1_000_100_000]);
    assert!(frontier.pop().is_none());
}

#[test]
fn frontier_clear_discards_nodes() {
    let mut frontier = Frontier::new();
    frontier.push(Node::new(S, vec![], vec![]));
    frontier.push(Node::new(2 * S, vec![], vec![]));
    frontier.clear();
    assert!(frontier.is_empty());
    assert!(frontier.pop().is_none());
}

#[test]
fn session_fixing_neutrality() {
    let text = b"3\n2\n1 1 1\n0 1\n1 0\n1 1\n".to_vec();
    let inst = parse_data_file(&text).unwrap();
    let mut session = LPSolver::new(inst);
    assert_eq!(session.lb, vec![0, 0, 0]);
    assert_eq!(session.ub, vec![S, S, S]);
    let fixed = vec![FixedStatus::Present, FixedStatus::Absent, FixedStatus::Unassigned];
    session.apply_fixings(&fixed);
    assert_eq!(session.lb, vec![S, 0, 0]);
    assert_eq!(session.ub, vec![S, 0, S]);
    session.release_fixings(&fixed);
    // Every bound is back to [0, 1].
    assert_eq!(session.lb, vec![0, 0, 0]);
    assert_eq!(session.ub, vec![S, S, S]);
}

#[test]
fn session_derives_table() {
    let text = b"2\n2\n3 7\n0 1\n1 0\n".to_vec();
    let inst = parse_data_file(&text).unwrap();
    let session = LPSolver::new(inst);
    assert_eq!(session.table.rows, vec![vec![1], vec![1]]);
    assert_eq!(session.table.num_pair_cols, 1);
}
