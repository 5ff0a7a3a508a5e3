//! Emitting the derived distinguish table as text and parsing it back.

use ipsolver::codec::{emit_table, parse_table};
use ipsolver::common::SCALE;
use ipsolver::instance::ProblemInstance;
use ipsolver::table::DistinguishTable;

const S: u64 = SCALE;

#[test]
fn emit_cover_table_text() {
    let inst = ProblemInstance::new(
        3,
        3,
        vec![2 * S, 2 * S, 3 * S],
        vec![vec![0, 1, 1], vec![1, 0, 1], vec![1, 1, 0]],
    )
    .unwrap();
    let table = DistinguishTable::derive(&inst);
    let text = emit_table(&table);
    assert_eq!(text, b"1 1 0\n1 0 1\n0 1 1\n".to_vec());
}

#[test]
fn round_trip_derived_table() {
    let inst = ProblemInstance::new(
        3,
        4,
        vec![S, S, S],
        vec![vec![0, 0, 1, 1], vec![0, 1, 0, 1], vec![0, 1, 1, 0]],
    )
    .unwrap();
    let table = DistinguishTable::derive(&inst);
    let text = emit_table(&table);
    let parsed = parse_table(&text).unwrap();
    assert_eq!(parsed, table.rows);
}

#[test]
fn round_trip_empty_table() {
    let empty = DistinguishTable { num_tests: 0, num_pair_cols: 0, rows: vec![] };
    let text = emit_table(&empty);
    assert_eq!(text, Vec::<u8>::new());
    assert_eq!(parse_table(&text).unwrap(), Vec::<Vec<u8>>::new());
}

#[test]
fn round_trip_rows_without_columns() {
    // Two tests over one disease: rows exist but hold no pair column.
    let table = DistinguishTable { num_tests: 2, num_pair_cols: 0, rows: vec![vec![], vec![]] };
    let text = emit_table(&table);
    assert_eq!(text, b"\n\n".to_vec());
    assert_eq!(parse_table(&text).unwrap(), vec![Vec::<u8>::new(), Vec::<u8>::new()]);
}

#[test]
fn parse_rejects_malformed_text() {
    // A digit other than 0 or 1.
    assert!(parse_table(&b"2\n".to_vec()).is_none());
    // A row without its closing newline.
    assert!(parse_table(&b"1 0".to_vec()).is_none());
    // A doubled separator.
    assert!(parse_table(&b"1  0\n".to_vec()).is_none());
    // A trailing separator before the newline.
    assert!(parse_table(&b"1 \n".to_vec()).is_none());
    // A stray letter.
    assert!(parse_table(&b"1 a\n".to_vec()).is_none());
}

#[test]
fn parse_accepts_plain_rows() {
    let parsed = parse_table(&b"0\n1\n".to_vec()).unwrap();
    assert_eq!(parsed, vec![vec![0], vec![1]]);
    let parsed = parse_table(&b"1 0 1\n".to_vec()).unwrap();
    assert_eq!(parsed, vec![vec![1, 0, 1]]);
}
