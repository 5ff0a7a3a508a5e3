//! A textual form of the derived distinguish table, and its parser. Each
//! row is emitted as its 0/1 entries written as digits separated by single
//! spaces and closed by a newline; the parser accepts exactly that shape.
//! Emitting a table and parsing the text back yields the table unchanged.

use vstd::prelude::*;

use crate::table::DistinguishTable;

verus! {

pub const NEWLINE_BYTE: u8 = 10;

pub const SPACE_BYTE: u8 = 32;

pub const ZERO_DIGIT: u8 = 48;

/// The digit byte of a 0/1 entry.
pub open spec fn digit_of(v: u8) -> u8 {
    if v == 0 {
        ZERO_DIGIT
    } else {
        (ZERO_DIGIT + 1) as u8
    }
}

/// One row's text: digits separated by single spaces, no newline yet.
pub open spec fn emit_row_spec(row: Seq<u8>) -> Seq<u8>
    decreases row.len(),
{
    if row.len() == 0 {
        Seq::empty()
    } else if row.len() == 1 {
        seq![digit_of(row[0])]
    } else {
        seq![digit_of(row[0]), SPACE_BYTE] + emit_row_spec(row.drop_first())
    }
}

/// The whole table's text: each row's text closed by a newline.
pub open spec fn emit_table_spec(rows: Seq<Seq<u8>>) -> Seq<u8>
    decreases rows.len(),
{
    if rows.len() == 0 {
        Seq::empty()
    } else {
        emit_row_spec(rows.first()) + seq![NEWLINE_BYTE] + emit_table_spec(rows.drop_first())
    }
}

/// Appending an entry extends a row's text at its end.
pub proof fn lemma_emit_row_snoc(row: Seq<u8>, v: u8)
    ensures
        emit_row_spec(row.push(v)) == if row.len() == 0 {
            seq![digit_of(v)]
        } else {
            emit_row_spec(row) + seq![SPACE_BYTE, digit_of(v)]
        },
    decreases row.len(),
{
    if row.len() == 0 {
        assert(emit_row_spec(row.push(v)) =~= seq![digit_of(v)]);
    } else {
        assert(row.push(v).drop_first() =~= row.drop_first().push(v));
        lemma_emit_row_snoc(row.drop_first(), v);
        assert(emit_row_spec(row.push(v)) =~= emit_row_spec(row) + seq![SPACE_BYTE, digit_of(v)]);
    }
}

/// Appending a row extends the table's text at its end.
pub proof fn lemma_emit_table_snoc(rows: Seq<Seq<u8>>, row: Seq<u8>)
    ensures
        emit_table_spec(rows.push(row)) == emit_table_spec(rows) + emit_row_spec(row) + seq![
            NEWLINE_BYTE,
        ],
    decreases rows.len(),
{
    if rows.len() == 0 {
        assert(rows.push(row).drop_first() =~= rows);
        assert(emit_table_spec(rows.push(row)) =~= emit_table_spec(rows) + emit_row_spec(row)
            + seq![NEWLINE_BYTE]);
    } else {
        assert(rows.push(row).drop_first() =~= rows.drop_first().push(row));
        assert(rows.push(row).first() == rows.first());
        lemma_emit_table_snoc(rows.drop_first(), row);
        assert(emit_table_spec(rows.push(row)) =~= emit_table_spec(rows) + emit_row_spec(row)
            + seq![NEWLINE_BYTE]);
    }
}

/// Emit the derived table as text.
pub fn emit_table(t: &DistinguishTable) -> (r: Vec<u8>)
    requires
        t.wf(),
    ensures
        r@ == emit_table_spec(t.table()),
{
    let mut out: Vec<u8> = Vec::new();
    let mut ti: usize = 0;
    while ti < t.rows.len()
        invariant
            t.wf(),
            ti <= t.rows@.len(),
            out@ == emit_table_spec(t.table().take(ti as int)),
        decreases t.rows@.len() - ti,
    {
        let row = &t.rows[ti];
        let mut ci: usize = 0;
        while ci < row.len()
            invariant
                t.wf(),
                ti < t.rows@.len(),
                ci <= row@.len(),
                row@ == t.table()[ti as int],
                out@ == emit_table_spec(t.table().take(ti as int)) + emit_row_spec(
                    row@.take(ci as int),
                ),
            decreases row@.len() - ci,
        {
            let v = row[ci];
            if ci > 0 {
                out.push(SPACE_BYTE);
            }
            if v == 0 {
                out.push(ZERO_DIGIT);
            } else {
                out.push(ZERO_DIGIT + 1);
            }
            proof {
                assert(row@.take(ci + 1).drop_last() =~= row@.take(ci as int));
                assert(row@.take(ci + 1) =~= row@.take(ci as int).push(row@[ci as int]));
                lemma_emit_row_snoc(row@.take(ci as int), row@[ci as int]);
                assert(out@ =~= emit_table_spec(t.table().take(ti as int)) + emit_row_spec(
                    row@.take(ci + 1),
                ));
            }
            ci = ci + 1;
        }
        out.push(NEWLINE_BYTE);
        proof {
            assert(row@.take(row@.len() as int) =~= row@);
            assert(t.table().take(ti + 1) =~= t.table().take(ti as int).push(
                t.table()[ti as int],
            ));
            lemma_emit_table_snoc(t.table().take(ti as int), t.table()[ti as int]);
            assert(out@ =~= emit_table_spec(t.table().take(ti + 1)));
        }
        ti = ti + 1;
    }
    proof {
        assert(t.table().take(t.table().len() as int) =~= t.table());
    }
    out
}

/// Parse one row from the front of the text: the entries up to and
/// including the closing newline, and what follows it.
pub open spec fn parse_row_spec(text: Seq<u8>) -> Option<(Seq<u8>, Seq<u8>)>
    decreases text.len(),
{
    if text.len() == 0 {
        None
    } else if text[0] == NEWLINE_BYTE {
        Some((Seq::empty(), text.drop_first()))
    } else if text[0] == ZERO_DIGIT || text[0] == ZERO_DIGIT + 1 {
        if text.len() >= 2 && text[1] == NEWLINE_BYTE {
            Some((seq![(text[0] - ZERO_DIGIT) as u8], text.subrange(2, text.len() as int)))
        } else if text.len() >= 2 && text[1] == SPACE_BYTE {
            match parse_row_spec(text.subrange(2, text.len() as int)) {
                None => None,
                Some(pr) => if pr.0.len() > 0 {
                    Some((seq![(text[0] - ZERO_DIGIT) as u8] + pr.0, pr.1))
                } else {
                    None
                },
            }
        } else {
            None
        }
    } else {
        None
    }
}

/// Parse the whole text as a table: rows until the text is used up.
pub open spec fn parse_rows_spec(text: Seq<u8>) -> Option<Seq<Seq<u8>>>
    decreases text.len(),
{
    if text.len() == 0 {
        Some(Seq::empty())
    } else {
        match parse_row_spec(text) {
            None => None,
            Some(pr) => if pr.1.len() < text.len() {
                match parse_rows_spec(pr.1) {
                    None => None,
                    Some(rs) => Some(seq![pr.0] + rs),
                }
            } else {
                None
            },
        }
    }
}

/// Round-trip law for one row: its text followed by a newline and anything
/// more parses back to the row, leaving exactly the rest.
pub proof fn lemma_parse_emit_row(row: Seq<u8>, rest: Seq<u8>)
    requires
        forall|c: int| 0 <= c < row.len() ==> #[trigger] row[c] <= 1,
    ensures
        parse_row_spec(emit_row_spec(row) + seq![NEWLINE_BYTE] + rest) == Some((row, rest)),
    decreases row.len(),
{
    let text = emit_row_spec(row) + seq![NEWLINE_BYTE] + rest;
    if row.len() == 0 {
        assert(text[0] == NEWLINE_BYTE);
        assert(text.drop_first() =~= rest);
        assert(parse_row_spec(text) == Some((row, rest))) by {
            assert(Seq::<u8>::empty() =~= row);
        }
    } else if row.len() == 1 {
        assert(text[0] == digit_of(row[0]));
        assert(text[1] == NEWLINE_BYTE);
        assert(text.subrange(2, text.len() as int) =~= rest);
        assert(seq![(text[0] - ZERO_DIGIT) as u8] =~= row);
    } else {
        assert(text[0] == digit_of(row[0]));
        assert(text[1] == SPACE_BYTE);
        assert(text.subrange(2, text.len() as int) =~= emit_row_spec(row.drop_first()) + seq![
            NEWLINE_BYTE,
        ] + rest);
        lemma_parse_emit_row(row.drop_first(), rest);
        assert(row.drop_first().len() > 0);
        assert(seq![(text[0] - ZERO_DIGIT) as u8] + row.drop_first() =~= row);
    }
}

/// Round-trip law for the table: emitting a 0/1 table and parsing the text
/// back yields exactly the emitted rows.
pub proof fn lemma_table_round_trip(rows: Seq<Seq<u8>>)
    requires
        forall|t: int, c: int|
            0 <= t < rows.len() && 0 <= c < rows[t].len() ==> #[trigger] rows[t][c] <= 1,
    ensures
        parse_rows_spec(emit_table_spec(rows)) == Some(rows),
    decreases rows.len(),
{
    if rows.len() == 0 {
        assert(Seq::<Seq<u8>>::empty() =~= rows);
    } else {
        let text = emit_table_spec(rows);
        let tail = emit_table_spec(rows.drop_first());
        lemma_parse_emit_row(rows.first(), tail);
        assert(text =~= emit_row_spec(rows.first()) + seq![NEWLINE_BYTE] + tail);
        assert(text.len() > 0);
        assert(tail.len() < text.len());
        assert(forall|t: int, c: int|
            0 <= t < rows.drop_first().len() && 0 <= c < rows.drop_first()[t].len()
                ==> #[trigger] rows.drop_first()[t][c] <= 1);
        lemma_table_round_trip(rows.drop_first());
        assert(seq![rows.first()] + rows.drop_first() =~= rows);
    }
}

/// Parse one row starting at byte `i`; on success the entries and the
/// position just past the row's newline.
fn parse_row_at(text: &Vec<u8>, i: usize) -> (r: Option<(Vec<u8>, usize)>)
    requires
        i <= text@.len(),
    ensures
        match r {
            None => parse_row_spec(text@.subrange(i as int, text@.len() as int)) is None,
            Some(p) => {
                &&& i < p.1 <= text@.len()
                &&& parse_row_spec(text@.subrange(i as int, text@.len() as int)) == Some(
                    (p.0@, text@.subrange(p.1 as int, text@.len() as int)),
                )
            },
        },
    decreases text@.len() - i,
{
    let ghost sub = text@.subrange(i as int, text@.len() as int);
    if i == text.len() {
        return None;
    }
    let b = text[i];
    assert(sub[0] == b);
    if b == NEWLINE_BYTE {
        proof {
            assert(sub.drop_first() =~= text@.subrange(i + 1, text@.len() as int));
        }
        return Some((Vec::new(), i + 1));
    }
    if b != ZERO_DIGIT && b != ZERO_DIGIT + 1 {
        return None;
    }
    if i + 1 == text.len() {
        return None;
    }
    let n = text[i + 1];
    assert(sub[1] == n);
    if n == NEWLINE_BYTE {
        let mut row: Vec<u8> = Vec::new();
        row.push(b - ZERO_DIGIT);
        proof {
            assert(sub.subrange(2, sub.len() as int) =~= text@.subrange(
                i + 2,
                text@.len() as int,
            ));
            assert(row@ =~= seq![(sub[0] - ZERO_DIGIT) as u8]);
        }
        return Some((row, i + 2));
    }
    if n != SPACE_BYTE {
        return None;
    }
    proof {
        assert(sub.subrange(2, sub.len() as int) =~= text@.subrange(i + 2, text@.len() as int));
    }
    match parse_row_at(text, i + 2) {
        None => None,
        Some((tail_row, j)) => {
            if tail_row.len() == 0 {
                None
            } else {
                let mut row: Vec<u8> = Vec::new();
                row.push(b - ZERO_DIGIT);
                let mut tail_row = tail_row;
                row.append(&mut tail_row);
                proof {
                    assert(row@ =~= seq![(sub[0] - ZERO_DIGIT) as u8] + parse_row_spec(
                        sub.subrange(2, sub.len() as int),
                    )->Some_0.0);
                }
                Some((row, j))
            }
        },
    }
}

/// Parse the rows from byte `i` to the end of the text.
fn parse_rows_at(text: &Vec<u8>, i: usize) -> (r: Option<Vec<Vec<u8>>>)
    requires
        i <= text@.len(),
    ensures
        match r {
            None => parse_rows_spec(text@.subrange(i as int, text@.len() as int)) is None,
            Some(v) => parse_rows_spec(text@.subrange(i as int, text@.len() as int)) == Some(
                v@.map_values(|row: Vec<u8>| row@),
            ),
        },
    decreases text@.len() - i,
{
    let ghost sub = text@.subrange(i as int, text@.len() as int);
    if i == text.len() {
        let v: Vec<Vec<u8>> = Vec::new();
        proof {
            assert(v@.map_values(|row: Vec<u8>| row@) =~= Seq::<Seq<u8>>::empty());
        }
        return Some(v);
    }
    match parse_row_at(text, i) {
        None => None,
        Some((row, j)) => {
            proof {
                assert(text@.subrange(j as int, text@.len() as int).len() < sub.len());
            }
            match parse_rows_at(text, j) {
                None => None,
                Some(mut rows) => {
                    rows.insert(0, row);
                    proof {
                        assert(rows@.map_values(|r2: Vec<u8>| r2@) =~= seq![row@]
                            + parse_rows_spec(
                            text@.subrange(j as int, text@.len() as int),
                        )->Some_0);
                    }
                    Some(rows)
                },
            }
        },
    }
}

/// Parse a whole table text; None exactly when the text is not a table's
/// emitted shape.
pub fn parse_table(text: &Vec<u8>) -> (r: Option<Vec<Vec<u8>>>)
    ensures
        match r {
            None => parse_rows_spec(text@) is None,
            Some(v) => parse_rows_spec(text@) == Some(v@.map_values(|row: Vec<u8>| row@)),
        },
{
    proof {
        assert(text@.subrange(0, text@.len() as int) =~= text@);
    }
    parse_rows_at(text, 0)
}

} // verus!
