//! The instance, the derived distinguish table, coverage, and the
//! enumeration checker for bound validity.

use ipsolver::checker::{bound_valid_for_completions, covers_all_exec, selection_cost_exec};
use ipsolver::common::{FixedStatus, SCALE};
use ipsolver::instance::ProblemInstance;
use ipsolver::table::DistinguishTable;

const S: u64 = SCALE;

fn cover_instance() -> ProblemInstance {
    // Three tests, three diseases: any two tests cover all three pairs.
    ProblemInstance::new(
        3,
        3,
        vec![2 * S, 2 * S, 3 * S],
        vec![vec![0, 1, 1], vec![1, 0, 1], vec![1, 1, 0]],
    )
    .unwrap()
}

#[test]
fn derive_cover_table() {
    let table = DistinguishTable::derive(&cover_instance());
    assert_eq!(table.num_tests, 3);
    assert_eq!(table.num_pair_cols, 3);
    // Columns in pair order (0,1), (0,2), (1,2).
    assert_eq!(table.rows, vec![vec![1, 1, 0], vec![1, 0, 1], vec![0, 1, 1]]);
}

#[test]
fn derive_fractional_table() {
    // Three tests over four diseases, six pair columns.
    let inst = ProblemInstance::new(
        3,
        4,
        vec![S, S, S],
        vec![vec![0, 0, 1, 1], vec![0, 1, 0, 1], vec![0, 1, 1, 0]],
    )
    .unwrap();
    let table = DistinguishTable::derive(&inst);
    assert_eq!(table.num_pair_cols, 6);
    assert_eq!(
        table.rows,
        vec![
            vec![0, 1, 1, 1, 1, 0],
            vec![1, 0, 1, 1, 0, 1],
            vec![1, 1, 0, 0, 1, 1],
        ]
    );
}

#[test]
fn derive_trivial_dimensions() {
    // With one disease there is no pair to distinguish.
    let inst = ProblemInstance::new(2, 1, vec![S, S], vec![vec![1], vec![0]]).unwrap();
    let table = DistinguishTable::derive(&inst);
    assert_eq!(table.num_pair_cols, 0);
    assert_eq!(table.rows, vec![vec![], vec![]]);
    // The empty selection is feasible at cost zero.
    assert!(covers_all_exec(&table, &vec![false, false]));
    assert_eq!(
        selection_cost_exec(&vec![S, S], &vec![false, false]),
        0
    );
}

#[test]
fn all_zero_column_uncoverable() {
    // A test positive for both diseases: the one pair column is all zero
    // and no selection covers it.
    let inst = ProblemInstance::new(1, 2, vec![S], vec![vec![1, 1]]).unwrap();
    let table = DistinguishTable::derive(&inst);
    assert_eq!(table.rows, vec![vec![0]]);
    assert!(!covers_all_exec(&table, &vec![true]));
    assert!(!covers_all_exec(&table, &vec![false]));
}

#[test]
fn useless_test_never_needed() {
    // The second test distinguishes no pair: dropping it keeps the
    // selection feasible and lowers its cost.
    let inst =
        ProblemInstance::new(2, 2, vec![3 * S, 4 * S], vec![vec![0, 1], vec![1, 1]]).unwrap();
    let table = DistinguishTable::derive(&inst);
    assert_eq!(table.rows, vec![vec![1], vec![0]]);
    let both = vec![true, true];
    let without = vec![true, false];
    assert!(covers_all_exec(&table, &both));
    assert!(covers_all_exec(&table, &without));
    let cost = inst.cost_vector().clone();
    assert!(selection_cost_exec(&cost, &without) < selection_cost_exec(&cost, &both));
}

#[test]
fn coverage_and_cost_values() {
    let inst = cover_instance();
    let table = DistinguishTable::derive(&inst);
    let cost = inst.cost_vector().clone();
    // One test alone covers only two of the three pairs.
    assert!(!covers_all_exec(&table, &vec![true, false, false]));
    // The two cheap tests cover everything at cost 4.
    assert!(covers_all_exec(&table, &vec![true, true, false]));
    assert_eq!(selection_cost_exec(&cost, &vec![true, true, false]), 4 * S);
    assert_eq!(selection_cost_exec(&cost, &vec![true, true, true]), 7 * S);
    assert_eq!(selection_cost_exec(&cost, &vec![false, false, false]), 0);
}

#[test]
fn bound_validity_by_enumeration() {
    // Two tests of costs 3 and 7, either of which covers the one pair: the
    // cheapest feasible completion costs 3.
    let inst = ProblemInstance::new(2, 2, vec![3 * S, 7 * S], vec![vec![0, 1], vec![1, 0]])
        .unwrap();
    let table = DistinguishTable::derive(&inst);
    let cost = inst.cost_vector().clone();
    let open = vec![FixedStatus::Unassigned, FixedStatus::Unassigned];
    assert!(bound_valid_for_completions(&table, &cost, &open, 3 * S));
    assert!(!bound_valid_for_completions(&table, &cost, &open, 3 * S + 1));
    // With the cheap test excluded, only the cost-7 completion is left.
    let restricted = vec![FixedStatus::Absent, FixedStatus::Unassigned];
    assert!(bound_valid_for_completions(&table, &cost, &restricted, 7 * S));
    assert!(!bound_valid_for_completions(&table, &cost, &restricted, 7 * S + 1));
}

#[test]
fn bound_validity_infeasible_fixing() {
    // Excluding every test leaves no feasible completion, so any bound is
    // vacuously valid.
    let inst = ProblemInstance::new(1, 2, vec![S], vec![vec![0, 1]]).unwrap();
    let table = DistinguishTable::derive(&inst);
    let cost = inst.cost_vector().clone();
    let none_allowed = vec![FixedStatus::Absent];
    assert!(bound_valid_for_completions(&table, &cost, &none_allowed, u64::MAX - 1));
}

#[test]
fn instance_rejects_bad_shapes() {
    // A cost vector of the wrong length.
    assert!(ProblemInstance::new(2, 2, vec![S], vec![vec![0, 1], vec![1, 0]]).is_none());
    // A short matrix row.
    assert!(ProblemInstance::new(2, 2, vec![S, S], vec![vec![0], vec![1, 0]]).is_none());
    // An entry that is neither 0 nor 1.
    assert!(ProblemInstance::new(1, 2, vec![S], vec![vec![0, 2]]).is_none());
    // A cost total beyond the machine word.
    assert!(ProblemInstance::new(
        2,
        1,
        vec![u64::MAX, u64::MAX],
        vec![vec![1], vec![1]]
    )
    .is_none());
}
