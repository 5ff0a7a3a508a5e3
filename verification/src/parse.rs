//! The textual problem description, read into a `ProblemInstance`. The
//! format is line-oriented: the number of tests, the number of diseases,
//! one line of nonnegative costs, then one 0/1 matrix row per test, all
//! whitespace-separated; trailing whitespace and newlines are ignored. A
//! cost may carry a decimal fraction of up to nine digits; it is read in
//! fixed-point units of `SCALE`, the same unit in which LP objectives are
//! carried, so the emitted costs and the LP objective values compare
//! directly. The reader accepts exactly the texts that the specification
//! functions here describe, and rejects any malformed or trailing text as
//! a whole.

use vstd::prelude::*;

use crate::common::SCALE;
use crate::instance::sum_costs;
use crate::instance::ProblemInstance;

verus! {

pub const NEWLINE: u8 = 10;

pub const CARRIAGE_RETURN: u8 = 13;

pub const TAB: u8 = 9;

pub const SPACE: u8 = 32;

pub const DIGIT_ZERO: u8 = 48;

pub const FULL_STOP: u8 = 46;

/// A decimal digit byte.
pub open spec fn is_digit(b: u8) -> bool {
    DIGIT_ZERO <= b <= DIGIT_ZERO + 9
}

/// Whitespace inside a line.
pub open spec fn is_space(b: u8) -> bool {
    b == SPACE || b == TAB || b == CARRIAGE_RETURN
}

/// Value of a string of decimal digits.
pub open spec fn dec_value(s: Seq<u8>) -> int
    decreases s.len(),
{
    if s.len() == 0 {
        0
    } else {
        dec_value(s.drop_last()) * 10 + (s.last() - DIGIT_ZERO)
    }
}

/// Ten to the `n`.
pub open spec fn pow10(n: nat) -> int
    decreases n,
{
    if n == 0 {
        1
    } else {
        10 * pow10((n - 1) as nat)
    }
}

/// Where the digit run starting at `i` ends, within [i, end].
pub open spec fn digit_run_end(text: Seq<u8>, i: int, end: int) -> int
    decreases end - i,
{
    if i >= end || !is_digit(text[i]) {
        i
    } else {
        digit_run_end(text, i + 1, end)
    }
}

/// Where the whitespace run starting at `i` ends, within [i, end].
pub open spec fn ws_run_end(text: Seq<u8>, i: int, end: int) -> int
    decreases end - i,
{
    if i >= end || !is_space(text[i]) {
        i
    } else {
        ws_run_end(text, i + 1, end)
    }
}

/// The position of the newline that closes the line holding `i`, or the
/// text's end.
pub open spec fn line_end(text: Seq<u8>, i: int) -> int
    decreases text.len() - i,
{
    if i >= text.len() || text[i] == NEWLINE {
        i
    } else {
        line_end(text, i + 1)
    }
}

/// The start of the line after the one holding `i`.
pub open spec fn next_line(text: Seq<u8>, i: int) -> int {
    if line_end(text, i) < text.len() {
        line_end(text, i) + 1
    } else {
        line_end(text, i)
    }
}

/// Basic shape of a digit run: it is a run of digits and nothing more.
pub proof fn lemma_digit_run(text: Seq<u8>, i: int, end: int)
    requires
        0 <= i <= end <= text.len(),
    ensures
        i <= digit_run_end(text, i, end) <= end,
        forall|m: int| i <= m < digit_run_end(text, i, end) ==> is_digit(#[trigger] text[m]),
        digit_run_end(text, i, end) < end ==> !is_digit(text[digit_run_end(text, i, end)]),
    decreases end - i,
{
    if i < end && is_digit(text[i]) {
        lemma_digit_run(text, i + 1, end);
    }
}

/// Digit strings have nonnegative values below ten to their length.
pub proof fn lemma_dec_value_bounds(s: Seq<u8>)
    requires
        forall|m: int| 0 <= m < s.len() ==> is_digit(#[trigger] s[m]),
    ensures
        0 <= dec_value(s) < pow10(s.len()),
    decreases s.len(),
{
    if s.len() > 0 {
        lemma_dec_value_bounds(s.drop_last());
        assert((s.last() - DIGIT_ZERO) <= 9);
        assert(dec_value(s.drop_last()) * 10 + 9 < pow10(s.len())) by (nonlinear_arith)
            requires
                dec_value(s.drop_last()) < pow10((s.len() - 1) as nat),
                pow10(s.len()) == 10 * pow10((s.len() - 1) as nat),
        ;
    }
}

/// A digit string's value only grows as more digits follow.
pub proof fn lemma_dec_value_monotone(text: Seq<u8>, i: int, j: int, k: int)
    requires
        0 <= i <= j <= k <= text.len(),
        forall|m: int| i <= m < k ==> is_digit(#[trigger] text[m]),
    ensures
        dec_value(text.subrange(i, j)) <= dec_value(text.subrange(i, k)),
    decreases k - j,
{
    if j < k {
        assert(text.subrange(i, j + 1).drop_last() =~= text.subrange(i, j));
        assert(text.subrange(i, j + 1).last() == text[j]);
        assert(forall|m: int| 0 <= m < j - i ==> is_digit(#[trigger] text.subrange(i, j)[m]));
        lemma_dec_value_bounds(text.subrange(i, j));
        lemma_dec_value_monotone(text, i, j + 1, k);
    }
}

/// Ten to the `n` is positive.
proof fn lemma_pow10_pos(n: nat)
    ensures
        pow10(n) >= 1,
    decreases n,
{
    if n > 0 {
        lemma_pow10_pos((n - 1) as nat);
    }
}

/// The powers of ten the fixed point uses, written out.
proof fn lemma_pow10_eight()
    ensures
        pow10(8) == 100000000,
{
    assert(pow10(0) == 1);
    assert(pow10(1) == 10);
    assert(pow10(2) == 100);
    assert(pow10(3) == 1000);
    assert(pow10(4) == 10000);
    assert(pow10(5) == 100000);
    assert(pow10(6) == 1000000);
    assert(pow10(7) == 10000000);
    assert(pow10(8) == 100000000);
}

/// What an integer token at `i` is: the value and end of its digit run,
/// or nothing when no digit stands at `i` or the value does not fit.
pub open spec fn int_token(text: Seq<u8>, i: int, end: int) -> Option<(int, int)> {
    let ir = digit_run_end(text, i, end);
    if ir == i {
        None
    } else if dec_value(text.subrange(i, ir)) > u64::MAX {
        None
    } else {
        Some((dec_value(text.subrange(i, ir)), ir))
    }
}

/// What a fixed-point cost token at `i` is: an integer part and an
/// optional decimal fraction of one to nine digits, read in units of
/// `SCALE`; or nothing when the token is absent, malformed or too large.
pub open spec fn scaled_token(text: Seq<u8>, i: int, end: int) -> Option<(int, int)> {
    let ir = digit_run_end(text, i, end);
    if ir == i {
        None
    } else if dec_value(text.subrange(i, ir)) >= u64::MAX / SCALE {
        None
    } else {
        let whole = dec_value(text.subrange(i, ir)) * SCALE;
        if ir < end && text[ir] == FULL_STOP {
            let fr = digit_run_end(text, ir + 1, end);
            if fr == ir + 1 || fr - ir - 1 > 9 {
                None
            } else {
                Some(
                    (
                        whole + dec_value(text.subrange(ir + 1, fr)) * pow10(
                            (9 - (fr - ir - 1)) as nat,
                        ),
                        fr,
                    ),
                )
            }
        } else {
            Some((whole, ir))
        }
    }
}

/// Skip line-internal whitespace from `i` up to `end`.
fn skip_ws(text: &Vec<u8>, i: usize, end: usize) -> (r: usize)
    requires
        i <= end <= text@.len(),
    ensures
        i <= r <= end,
        r == ws_run_end(text@, i as int, end as int),
{
    let mut j = i;
    while j < end && (text[j] == SPACE || text[j] == TAB || text[j] == CARRIAGE_RETURN)
        invariant
            i <= j <= end <= text@.len(),
            ws_run_end(text@, i as int, end as int) == ws_run_end(text@, j as int, end as int),
        decreases end - j,
    {
        j = j + 1;
    }
    j
}

/// The current line's end (exclusive) and the start of the next line.
fn line_bounds(text: &Vec<u8>, i: usize) -> (r: (usize, usize))
    requires
        i <= text@.len(),
    ensures
        r.0 == line_end(text@, i as int),
        r.1 == next_line(text@, i as int),
        i <= r.0 <= text@.len(),
        r.0 <= r.1 <= text@.len(),
{
    let mut j = i;
    while j < text.len() && text[j] != NEWLINE
        invariant
            i <= j <= text@.len(),
            line_end(text@, i as int) == line_end(text@, j as int),
        decreases text@.len() - j,
    {
        j = j + 1;
    }
    if j < text.len() {
        (j, j + 1)
    } else {
        (j, j)
    }
}

/// Read a plain nonnegative integer at `i`, ending before `end`.
fn parse_u64_at(text: &Vec<u8>, i: usize, end: usize) -> (r: Option<(u64, usize)>)
    requires
        i <= end <= text@.len(),
    ensures
        match r {
            None => int_token(text@, i as int, end as int) is None,
            Some(p) => {
                &&& i < p.1 <= end
                &&& int_token(text@, i as int, end as int) == Some((p.0 as int, p.1 as int))
            },
        },
{
    proof {
        lemma_digit_run(text@, i as int, end as int);
    }
    if i == end {
        return None;
    }
    if !(DIGIT_ZERO <= text[i] && text[i] <= DIGIT_ZERO + 9) {
        return None;
    }
    let ghost run = digit_run_end(text@, i as int, end as int);
    let mut val: u64 = 0;
    let mut j = i;
    while j < end && DIGIT_ZERO <= text[j] && text[j] <= DIGIT_ZERO + 9
        invariant
            i <= j <= end <= text@.len(),
            run == digit_run_end(text@, i as int, end as int),
            run == digit_run_end(text@, j as int, end as int),
            val == dec_value(text@.subrange(i as int, j as int)),
        decreases end - j,
    {
        let d: u64 = (text[j] - DIGIT_ZERO) as u64;
        proof {
            assert(text@.subrange(i as int, j + 1).drop_last() =~= text@.subrange(
                i as int,
                j as int,
            ));
            assert(text@.subrange(i as int, j + 1).last() == text@[j as int]);
        }
        if val > u64::MAX / 10 || (val == u64::MAX / 10 && d > u64::MAX % 10) {
            proof {
                lemma_digit_run(text@, i as int, end as int);
                lemma_digit_run(text@, j + 1, end as int);
                assert(j + 1 <= run);
                lemma_dec_value_monotone(text@, i as int, j + 1, run);
            }
            return None;
        }
        val = val * 10 + d;
        j = j + 1;
    }
    Some((val, j))
}

/// Read a nonnegative cost at `i` in fixed-point units of `SCALE`.
fn parse_scaled_at(text: &Vec<u8>, i: usize, end: usize) -> (r: Option<(u64, usize)>)
    requires
        i <= end <= text@.len(),
    ensures
        match r {
            None => scaled_token(text@, i as int, end as int) is None,
            Some(p) => {
                &&& i < p.1 <= end
                &&& scaled_token(text@, i as int, end as int) == Some((p.0 as int, p.1 as int))
            },
        },
{
    proof {
        lemma_digit_run(text@, i as int, end as int);
    }
    if i == end {
        return None;
    }
    if !(DIGIT_ZERO <= text[i] && text[i] <= DIGIT_ZERO + 9) {
        return None;
    }
    let ghost run = digit_run_end(text@, i as int, end as int);
    let mut int_part: u64 = 0;
    let mut j = i;
    while j < end && DIGIT_ZERO <= text[j] && text[j] <= DIGIT_ZERO + 9
        invariant
            i <= j <= end <= text@.len(),
            run == digit_run_end(text@, i as int, end as int),
            run == digit_run_end(text@, j as int, end as int),
            int_part == dec_value(text@.subrange(i as int, j as int)),
        decreases end - j,
    {
        let d: u64 = (text[j] - DIGIT_ZERO) as u64;
        proof {
            assert(text@.subrange(i as int, j + 1).drop_last() =~= text@.subrange(
                i as int,
                j as int,
            ));
            assert(text@.subrange(i as int, j + 1).last() == text@[j as int]);
        }
        if int_part > u64::MAX / 10 || (int_part == u64::MAX / 10 && d > u64::MAX % 10) {
            proof {
                lemma_digit_run(text@, i as int, end as int);
                lemma_digit_run(text@, j + 1, end as int);
                assert(j + 1 <= run);
                lemma_dec_value_monotone(text@, i as int, j + 1, run);
            }
            return None;
        }
        int_part = int_part * 10 + d;
        j = j + 1;
    }
    if int_part >= u64::MAX / SCALE {
        return None;
    }
    proof {
        vstd::arithmetic::mul::lemma_mul_inequality(
            int_part as int,
            (u64::MAX / SCALE - 1) as int,
            SCALE as int,
        );
    }
    let val: u64 = int_part * SCALE;
    if !(j < end && text[j] == FULL_STOP) {
        return Some((val, j));
    }
    // A full stop: the decimal fraction follows.
    let fs = j + 1;
    proof {
        lemma_digit_run(text@, fs as int, end as int);
    }
    if !(fs < end && DIGIT_ZERO <= text[fs] && text[fs] <= DIGIT_ZERO + 9) {
        return None;
    }
    let ghost frun = digit_run_end(text@, fs as int, end as int);
    let mut mult: u64 = SCALE / 10;
    let mut frac: u64 = 0;
    let mut k = fs;
    proof {
        lemma_pow10_eight();
    }
    while k < end && DIGIT_ZERO <= text[k] && text[k] <= DIGIT_ZERO + 9
        invariant
            fs <= k <= end <= text@.len(),
            0 < fs,
            i < fs - 1 <= end,
            digit_run_end(text@, i as int, end as int) == fs - 1,
            text@[fs - 1] == FULL_STOP,
            dec_value(text@.subrange(i as int, fs - 1)) < u64::MAX / SCALE,
            val == dec_value(text@.subrange(i as int, fs - 1)) * SCALE,
            frun == digit_run_end(text@, fs as int, end as int),
            frun == digit_run_end(text@, k as int, end as int),
            k - fs <= 9,
            k - fs < 9 ==> mult == pow10((8 - (k - fs)) as nat),
            k - fs == 9 ==> mult == 0,
            frac == dec_value(text@.subrange(fs as int, k as int)) * pow10((9 - (k - fs)) as nat),
            frac + 10 * mult <= SCALE,
            frac < SCALE,
        decreases end - k,
    {
        if mult == 0 {
            // A tenth fraction digit: finer than the fixed point carries.
            proof {
                if k - fs < 9 {
                    lemma_pow10_pos((8 - (k - fs)) as nat);
                }
                assert(k - fs == 9);
                lemma_digit_run(text@, k + 1, end as int);
                assert(frun >= k + 1);
            }
            return None;
        }
        let d: u64 = (text[k] - DIGIT_ZERO) as u64;
        proof {
            vstd::arithmetic::mul::lemma_mul_inequality(d as int, 9, mult as int);
            assert(text@.subrange(fs as int, k + 1).drop_last() =~= text@.subrange(
                fs as int,
                k as int,
            ));
            assert(text@.subrange(fs as int, k + 1).last() == text@[k as int]);
            let dec = dec_value(text@.subrange(fs as int, k as int));
            let n9: nat = (9 - (k - fs)) as nat;
            assert(pow10(n9) == 10 * pow10((n9 - 1) as nat));
            assert((dec * 10 + (d as int)) * pow10((n9 - 1) as nat) == dec * (10 * pow10(
                (n9 - 1) as nat,
            )) + (d as int) * pow10((n9 - 1) as nat)) by (nonlinear_arith);
            assert(dec * (10 * pow10((n9 - 1) as nat)) == dec * pow10(n9));
        }
        frac = frac + d * mult;
        mult = mult / 10;
        k = k + 1;
    }
    proof {
        assert(k == frun);
        assert(val + frac <= u64::MAX) by {
            vstd::arithmetic::mul::lemma_mul_inequality(
                int_part as int,
                (u64::MAX / SCALE - 1) as int,
                SCALE as int,
            );
        }
    }
    Some((val + frac, k))
}

/// What one line holding exactly one plain integer is: the value and the
/// start of the next line.
pub open spec fn int_line(text: Seq<u8>, i: int) -> Option<(int, int)> {
    let le = line_end(text, i);
    let ts = ws_run_end(text, i, le);
    match int_token(text, ts, le) {
        None => None,
        Some(q) => if ws_run_end(text, q.1, le) == le {
            Some((q.0, next_line(text, i)))
        } else {
            None
        },
    }
}

/// Read one line holding exactly one plain integer.
fn parse_u64_line(text: &Vec<u8>, i: usize) -> (r: Option<(u64, usize)>)
    requires
        i <= text@.len(),
    ensures
        match r {
            None => int_line(text@, i as int) is None,
            Some(p) => {
                &&& i <= p.1 <= text@.len()
                &&& int_line(text@, i as int) == Some((p.0 as int, p.1 as int))
            },
        },
{
    let (line_e, next) = line_bounds(text, i);
    let j = skip_ws(text, i, line_e);
    match parse_u64_at(text, j, line_e) {
        None => None,
        Some((val, k)) => {
            let k2 = skip_ws(text, k, line_e);
            if k2 != line_e {
                None
            } else {
                Some((val, next))
            }
        },
    }
}

/// What the whitespace-separated cost tokens between `j` and `end` are,
/// when they are exactly `n` well-formed costs, each closed by whitespace
/// or the line's end.
pub open spec fn costs_tokens(text: Seq<u8>, j: int, end: int, n: nat) -> Option<Seq<u64>>
    decreases n,
{
    if n == 0 {
        if j == end {
            Some(Seq::empty())
        } else {
            None
        }
    } else {
        match scaled_token(text, j, end) {
            None => None,
            Some(q) => if !(q.1 == end || is_space(text[q.1])) {
                None
            } else {
                match costs_tokens(text, ws_run_end(text, q.1, end), end, (n - 1) as nat) {
                    None => None,
                    Some(rest) => Some(seq![q.0 as u64] + rest),
                }
            },
        }
    }
}

/// Read the cost line at `i`: exactly `n` costs and nothing more. On
/// success the costs and the start of the next line.
fn parse_cost_line(text: &Vec<u8>, i: usize, n: usize) -> (r: Option<(Vec<u64>, usize)>)
    requires
        i <= text@.len(),
    ensures
        match r {
            None => costs_tokens(
                text@,
                ws_run_end(text@, i as int, line_end(text@, i as int)),
                line_end(text@, i as int),
                n as nat,
            ) is None,
            Some(p) => {
                &&& costs_tokens(
                    text@,
                    ws_run_end(text@, i as int, line_end(text@, i as int)),
                    line_end(text@, i as int),
                    n as nat,
                ) == Some(p.0@)
                &&& p.0@.len() == n
                &&& p.1 == next_line(text@, i as int)
                &&& p.1 <= text@.len()
            },
        },
{
    let (cost_end, next) = line_bounds(text, i);
    let mut cost: Vec<u64> = Vec::new();
    let mut j = skip_ws(text, i, cost_end);
    while cost.len() < n
        invariant
            j <= cost_end <= text@.len(),
            cost_end == line_end(text@, i as int),
            cost@.len() <= n,
            costs_tokens(
                text@,
                ws_run_end(text@, i as int, cost_end as int),
                cost_end as int,
                n as nat,
            ) == match costs_tokens(text@, j as int, cost_end as int, (n - cost@.len()) as nat) {
                None => None::<Seq<u64>>,
                Some(rest) => Some(cost@ + rest),
            },
        decreases n - cost.len(),
    {
        match parse_scaled_at(text, j, cost_end) {
            None => {
                return None;
            },
            Some((val, k)) => {
                if !(k == cost_end || {
                    let b = text[k];
                    b == SPACE || b == TAB || b == CARRIAGE_RETURN
                }) {
                    return None;
                }
                cost.push(val);
                j = skip_ws(text, k, cost_end);
                proof {
                    assert(forall|rest: Seq<u64>|
                        cost@.drop_last() + (seq![val] + rest) =~= cost@ + rest);
                }
            },
        }
    }
    if j != cost_end {
        return None;
    }
    proof {
        assert(cost@ + Seq::<u64>::empty() =~= cost@);
    }
    Some((cost, next))
}

/// What the 0/1 entry tokens between `j` and `end` are, when they are
/// exactly `n` of them, each closed by whitespace or the line's end.
pub open spec fn entries_tokens(text: Seq<u8>, j: int, end: int, n: nat) -> Option<Seq<u8>>
    decreases n,
{
    if n == 0 {
        if j == end {
            Some(Seq::empty())
        } else {
            None
        }
    } else {
        match int_token(text, j, end) {
            None => None,
            Some(q) => if q.0 > 1 || !(q.1 == end || is_space(text[q.1])) {
                None
            } else {
                match entries_tokens(text, ws_run_end(text, q.1, end), end, (n - 1) as nat) {
                    None => None,
                    Some(rest) => Some(seq![q.0 as u8] + rest),
                }
            },
        }
    }
}

/// Read one matrix row line at `pos`: exactly `d` 0/1 entries and nothing
/// more. On success the row and the start of the next line.
fn parse_row_line(text: &Vec<u8>, pos: usize, d: usize) -> (r: Option<(Vec<u8>, usize)>)
    requires
        pos <= text@.len(),
    ensures
        match r {
            None => entries_tokens(
                text@,
                ws_run_end(text@, pos as int, line_end(text@, pos as int)),
                line_end(text@, pos as int),
                d as nat,
            ) is None,
            Some(p) => {
                &&& entries_tokens(
                    text@,
                    ws_run_end(text@, pos as int, line_end(text@, pos as int)),
                    line_end(text@, pos as int),
                    d as nat,
                ) == Some(p.0@)
                &&& p.0@.len() == d
                &&& forall|m: int| 0 <= m < p.0@.len() ==> #[trigger] p.0@[m] <= 1
                &&& p.1 == next_line(text@, pos as int)
                &&& p.1 <= text@.len()
            },
        },
{
    let (row_end, next) = line_bounds(text, pos);
    let mut row: Vec<u8> = Vec::new();
    let mut k = skip_ws(text, pos, row_end);
    while row.len() < d
        invariant
            k <= row_end <= text@.len(),
            row_end == line_end(text@, pos as int),
            row@.len() <= d,
            forall|m: int| 0 <= m < row@.len() ==> #[trigger] row@[m] <= 1,
            entries_tokens(
                text@,
                ws_run_end(text@, pos as int, row_end as int),
                row_end as int,
                d as nat,
            ) == match entries_tokens(text@, k as int, row_end as int, (d - row@.len()) as nat) {
                None => None::<Seq<u8>>,
                Some(rest) => Some(row@ + rest),
            },
        decreases d - row.len(),
    {
        match parse_u64_at(text, k, row_end) {
            None => {
                return None;
            },
            Some((val, k2)) => {
                if val > 1 {
                    return None;
                }
                if !(k2 == row_end || {
                    let b = text[k2];
                    b == SPACE || b == TAB || b == CARRIAGE_RETURN
                }) {
                    return None;
                }
                row.push(val as u8);
                k = skip_ws(text, k2, row_end);
                proof {
                    assert(forall|rest: Seq<u8>|
                        row@.drop_last() + (seq![(val as u8)] + rest) =~= row@ + rest);
                }
            },
        }
    }
    if k != row_end {
        return None;
    }
    proof {
        assert(row@ + Seq::<u8>::empty() =~= row@);
    }
    Some((row, next))
}

/// What the next `n` matrix lines hold, each of exactly `d` entries: the
/// rows and the position after the last row's line.
pub open spec fn rows_lines(text: Seq<u8>, pos: int, n: nat, d: nat) -> Option<(Seq<Seq<u8>>, int)>
    decreases n,
{
    if n == 0 {
        Some((Seq::empty(), pos))
    } else {
        let le = line_end(text, pos);
        match entries_tokens(text, ws_run_end(text, pos, le), le, d) {
            None => None,
            Some(row) => match rows_lines(text, next_line(text, pos), (n - 1) as nat, d) {
                None => None,
                Some(p) => Some((seq![row] + p.0, p.1)),
            },
        }
    }
}

/// Read the `n` matrix rows beginning at `pos`, each of `d` entries. On
/// success the rows and the position after the last row's line.
fn parse_matrix(text: &Vec<u8>, pos: usize, n: usize, d: usize) -> (r: Option<
    (Vec<Vec<u8>>, usize),
>)
    requires
        pos <= text@.len(),
    ensures
        match r {
            None => rows_lines(text@, pos as int, n as nat, d as nat) is None,
            Some(p) => {
                &&& rows_lines(text@, pos as int, n as nat, d as nat) == Some(
                    (p.0@.map_values(|row: Vec<u8>| row@), p.1 as int),
                )
                &&& p.0@.len() == n
                &&& forall|t: int| 0 <= t < p.0@.len() ==> (#[trigger] p.0@[t])@.len() == d
                &&& forall|t: int, m: int|
                    0 <= t < p.0@.len() && 0 <= m < d ==> #[trigger] p.0@[t]@[m] <= 1
                &&& p.1 <= text@.len()
            },
        },
{
    let mut matrix: Vec<Vec<u8>> = Vec::new();
    let mut at = pos;
    while matrix.len() < n
        invariant
            at <= text@.len(),
            matrix@.len() <= n,
            forall|t: int| 0 <= t < matrix@.len() ==> (#[trigger] matrix@[t])@.len() == d,
            forall|t: int, m: int|
                0 <= t < matrix@.len() && 0 <= m < d ==> #[trigger] matrix@[t]@[m] <= 1,
            rows_lines(text@, pos as int, n as nat, d as nat) == match rows_lines(
                text@,
                at as int,
                (n - matrix@.len()) as nat,
                d as nat,
            ) {
                None => None::<(Seq<Seq<u8>>, int)>,
                Some(p) => Some((matrix@.map_values(|row: Vec<u8>| row@) + p.0, p.1)),
            },
        decreases n - matrix.len(),
    {
        match parse_row_line(text, at, d) {
            None => {
                return None;
            },
            Some((row, next)) => {
                matrix.push(row);
                at = next;
                proof {
                    assert(forall|rows: Seq<Seq<u8>>|
                        matrix@.drop_last().map_values(|r2: Vec<u8>| r2@) + (seq![
                            matrix@.last()@,
                        ] + rows) =~= matrix@.map_values(|r2: Vec<u8>| r2@) + rows);
                }
            },
        }
    }
    proof {
        assert(matrix@.map_values(|r2: Vec<u8>| r2@) + Seq::<Seq<u8>>::empty() =~= matrix@
            .map_values(|r2: Vec<u8>| r2@));
    }
    Some((matrix, at))
}

/// Only whitespace and newlines stand at or after `t`.
pub open spec fn only_trailing_ws(text: Seq<u8>, t: int) -> bool {
    forall|m: int| t <= m < text.len() ==> is_space(#[trigger] text[m]) || text[m] == NEWLINE
}

/// Check that only whitespace and newlines remain at or after `t`.
fn trailing_ws_only(text: &Vec<u8>, t: usize) -> (r: bool)
    requires
        t <= text@.len(),
    ensures
        r == only_trailing_ws(text@, t as int),
{
    let mut m = t;
    while m < text.len()
        invariant
            t <= m <= text@.len(),
            forall|k: int| t <= k < m ==> is_space(#[trigger] text@[k]) || text@[k] == NEWLINE,
        decreases text@.len() - m,
    {
        let b = text[m];
        if !(b == SPACE || b == TAB || b == CARRIAGE_RETURN || b == NEWLINE) {
            return false;
        }
        m = m + 1;
    }
    true
}

/// What a whole problem description holds: the two dimensions, the cost
/// vector and the matrix rows; or nothing when any part is malformed,
/// when text other than whitespace trails it, or when the costs together
/// overflow a machine word.
pub open spec fn data_file_spec(text: Seq<u8>) -> Option<(int, int, Seq<u64>, Seq<Seq<u8>>)> {
    match int_line(text, 0) {
        None => None,
        Some(q1) => match int_line(text, q1.1) {
            None => None,
            Some(q2) => if q1.0 > usize::MAX as int || q2.0 > usize::MAX as int {
                None
            } else {
                let le = line_end(text, q2.1);
                match costs_tokens(text, ws_run_end(text, q2.1, le), le, q1.0 as nat) {
                    None => None,
                    Some(cost) => match rows_lines(
                        text,
                        next_line(text, q2.1),
                        q1.0 as nat,
                        q2.0 as nat,
                    ) {
                        None => None,
                        Some(rows) => if only_trailing_ws(text, rows.1) && sum_costs(cost)
                            <= u64::MAX {
                            Some((q1.0, q2.0, cost, rows.0))
                        } else {
                            None
                        },
                    },
                }
            },
        },
    }
}

/// Read the problem description and build the instance: the dimensions,
/// the cost line, then one matrix row per test. The instance returned is
/// well formed and holds exactly what the description's text says; any
/// malformed or trailing text rejects the whole description.
pub fn parse_data_file(text: &Vec<u8>) -> (r: Option<ProblemInstance>)
    ensures
        match r {
            None => data_file_spec(text@) is None,
            Some(inst) => {
                &&& inst.wf()
                &&& data_file_spec(text@) matches Some(q) && inst.num_tests == q.0
                    && inst.num_diseases == q.1 && inst.costs() == q.2 && inst.mat() == q.3
            },
        },
{
    let (num_tests_u64, i1) = match parse_u64_line(text, 0) {
        None => {
            return None;
        },
        Some(p) => p,
    };
    let (num_diseases_u64, i2) = match parse_u64_line(text, i1) {
        None => {
            return None;
        },
        Some(p) => p,
    };
    if num_tests_u64 > usize::MAX as u64 || num_diseases_u64 > usize::MAX as u64 {
        return None;
    }
    let num_tests: usize = num_tests_u64 as usize;
    let num_diseases: usize = num_diseases_u64 as usize;

    let (cost, i3) = match parse_cost_line(text, i2, num_tests) {
        None => {
            return None;
        },
        Some(p) => p,
    };
    let (matrix, after) = match parse_matrix(text, i3, num_tests, num_diseases) {
        None => {
            return None;
        },
        Some(p) => p,
    };
    if !trailing_ws_only(text, after) {
        return None;
    }
    let r = ProblemInstance::new(num_tests, num_diseases, cost, matrix);
    proof {
        if r is None {
            // Every structural condition holds by construction, so the
            // instance can only have been refused for its cost total.
            assert(sum_costs(cost@) > u64::MAX);
        }
    }
    r
}

} // verus!
