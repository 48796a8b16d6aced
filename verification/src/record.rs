//! The record format: `name;temperature`, one record per line.
//!
//! A temperature is an optional `-`, one or more digits, a point and one
//! digit. Its value is counted in tenths of a degree, so `-12.3` is `-123`.

use crate::scan::{
    find_memchr, lemma_next_index, lemma_next_index_advance, lemma_next_index_is,
    lemma_next_index_rest, next_index, semicolon_pos, DELIMITER, TERMINATOR,
};
use vstd::slice::slice_subrange;
use vstd::prelude::*;

verus! {

/// The byte `-`.
pub const MINUS: u8 = 45;

/// The byte `.`.
pub const POINT: u8 = 46;

/// The byte `0`.
pub const ZERO: u8 = 48;

/// The largest temperature, in tenths of a degree, that a record may hold.
pub const MAX_TENTHS: i16 = 32767;

/// One record: the bytes of the station's name and the temperature in tenths.
pub struct Record {
    pub name: Seq<u8>,
    pub temp: int,
}

/// Whether `b` is one of the bytes `0` to `9`.
pub open spec fn is_digit(b: u8) -> bool {
    48 <= b && b <= 57
}

/// The number that the digit `b` stands for.
pub open spec fn digit_of(b: u8) -> nat {
    if b >= 48 {
        (b - 48) as nat
    } else {
        0
    }
}

/// The number that a run of digits spells in base ten.
pub open spec fn digits_value(ds: Seq<u8>) -> nat
    decreases ds.len(),
{
    if ds.len() == 0 {
        0
    } else {
        digits_value(ds.drop_last()) * 10 + digit_of(ds.last())
    }
}

/// Whether `f` is one or more digits, a point and one digit.
pub open spec fn unsigned_ok(f: Seq<u8>) -> bool {
    &&& f.len() >= 3
    &&& f[f.len() - 2] == POINT
    &&& is_digit(f[f.len() - 1])
    &&& forall|i: int| 0 <= i < f.len() - 2 ==> is_digit(#[trigger] f[i])
}

/// The tenths that an unsigned field spells: ten times the whole part, plus
/// the digit after the point.
pub open spec fn unsigned_tenths(f: Seq<u8>) -> nat {
    digits_value(f.subrange(0, f.len() - 2)) * 10 + digit_of(f[f.len() - 1])
}

/// Whether the field starts with a minus sign.
pub open spec fn field_negative(f: Seq<u8>) -> bool {
    f.len() > 0 && f[0] == MINUS
}

/// The field without its sign.
pub open spec fn field_body(f: Seq<u8>) -> Seq<u8> {
    if field_negative(f) {
        f.subrange(1, f.len() as int)
    } else {
        f
    }
}

/// Whether `f` is a temperature: a well-shaped field within the limit.
pub open spec fn field_ok(f: Seq<u8>) -> bool {
    unsigned_ok(field_body(f)) && unsigned_tenths(field_body(f)) <= MAX_TENTHS
}

/// The temperature that `f` spells, in tenths of a degree.
pub open spec fn field_tenths(f: Seq<u8>) -> int {
    if field_negative(f) {
        -(unsigned_tenths(field_body(f)) as int)
    } else {
        unsigned_tenths(field_body(f)) as int
    }
}

/// Where the line that starts at `pos` ends: at its terminator, or at the end
/// of the input.
pub open spec fn line_end(s: Seq<u8>, pos: int) -> int {
    next_index(s, TERMINATOR, pos)
}

/// Where the name of the record at `pos` ends: at the first delimiter.
pub open spec fn name_end(s: Seq<u8>, pos: int) -> int {
    next_index(s, DELIMITER, pos)
}

/// Whether a record starts at `pos`: a name that is not empty, a delimiter on
/// the same line, and a temperature up to the end of the line.
pub open spec fn record_ok(s: Seq<u8>, pos: int) -> bool {
    &&& pos < name_end(s, pos) < line_end(s, pos)
    &&& field_ok(s.subrange(name_end(s, pos) + 1, line_end(s, pos)))
}

/// The record that starts at `pos`.
pub open spec fn record_at(s: Seq<u8>, pos: int) -> Record {
    Record {
        name: s.subrange(pos, name_end(s, pos)),
        temp: field_tenths(s.subrange(name_end(s, pos) + 1, line_end(s, pos))),
    }
}

/// Where the record after the one at `pos` starts: one past the terminator,
/// or at the end of the input where the last line has none.
pub open spec fn record_next(s: Seq<u8>, pos: int) -> int {
    if line_end(s, pos) < s.len() {
        line_end(s, pos) + 1
    } else {
        line_end(s, pos)
    }
}

/// Where reading records from `pos` on stops: at the start of the first line
/// that is no record, or at the end of the input.
pub open spec fn stop(s: Seq<u8>, pos: int) -> int
    decreases s.len() - pos,
    via stop_terminates
{
    if pos < 0 || pos >= s.len() {
        s.len() as int
    } else if !record_ok(s, pos) {
        pos
    } else {
        stop(s, record_next(s, pos))
    }
}

/// The records read from `pos` on, up to where reading stops.
pub open spec fn records(s: Seq<u8>, pos: int) -> Seq<Record>
    decreases s.len() - pos,
    via records_terminates
{
    if pos < 0 || pos >= s.len() || !record_ok(s, pos) {
        Seq::empty()
    } else {
        seq![record_at(s, pos)] + records(s, record_next(s, pos))
    }
}

#[via_fn]
proof fn stop_terminates(s: Seq<u8>, pos: int) {
    if 0 <= pos < s.len() {
        lemma_next_index(s, TERMINATOR, pos);
    }
}

#[via_fn]
proof fn records_terminates(s: Seq<u8>, pos: int) {
    if 0 <= pos < s.len() {
        lemma_next_index(s, TERMINATOR, pos);
    }
}

/// Whether the input is records from its first byte to its last.
pub open spec fn well_formed(s: Seq<u8>) -> bool {
    stop(s, 0) == s.len()
}

/// A shorter run of digits spells no more than the run it starts.
pub proof fn lemma_digits_monotone(ds: Seq<u8>, k: int)
    requires
        0 <= k <= ds.len(),
    ensures
        digits_value(ds.subrange(0, k)) <= digits_value(ds),
    decreases ds.len() - k,
{
    if k == ds.len() {
        assert(ds.subrange(0, k) =~= ds);
    } else {
        lemma_digits_monotone(ds.drop_last(), k);
        assert(ds.drop_last().subrange(0, k) =~= ds.subrange(0, k));
    }
}

/// One more digit at the end: ten times the value so far, plus the digit.
pub proof fn lemma_digits_push(s: Seq<u8>, from: int, to: int)
    requires
        0 <= from <= to < s.len(),
    ensures
        digits_value(s.subrange(from, to + 1)) == digits_value(s.subrange(from, to)) * 10
            + digit_of(s[to]),
{
    assert(s.subrange(from, to + 1).drop_last() =~= s.subrange(from, to));
}

/// The digits of a well-shaped field, read as one number with the point left
/// out, are its tenths: ten times the whole part, plus the digit after the
/// point.
pub proof fn lemma_tenths_without_point(f: Seq<u8>)
    requires
        unsigned_ok(f),
    ensures
        unsigned_tenths(f) == digits_value(f.subrange(0, f.len() - 2).push(f[f.len() - 1])),
{
    let joined = f.subrange(0, f.len() - 2).push(f[f.len() - 1]);
    assert(joined.drop_last() =~= f.subrange(0, f.len() - 2));
}

/// The sign of a field changes the sign of its value and nothing else.
pub proof fn lemma_sign_negates(f: Seq<u8>)
    requires
        unsigned_ok(f),
    ensures
        field_tenths(seq![MINUS] + f) == -field_tenths(f),
        field_ok(seq![MINUS] + f) == field_ok(f),
{
    let g = seq![MINUS] + f;
    assert(g[0] == MINUS);
    assert(field_body(g) =~= f);
    assert(is_digit(f[0]));
    assert(!field_negative(f));
}

/// The result of reading a temperature: its value, and where the next record starts.
pub struct Reading {
    pub tenths: i16,
    pub next: usize,
}

/// Reads the temperature that starts at `from` and runs to the end of the
/// line. The digits are taken left to right, `value * 10 + digit`, and the
/// point is stepped over. `None` where the field is no temperature.
pub fn parse_temperature(bytes: &[u8], from: usize) -> (r: Option<Reading>)
    requires
        from <= bytes@.len(),
    ensures
        match r {
            Some(t) => {
                &&& field_ok(bytes@.subrange(from as int, line_end(bytes@, from as int)))
                &&& t.tenths == field_tenths(
                    bytes@.subrange(from as int, line_end(bytes@, from as int)),
                )
                &&& t.next == record_next(bytes@, from as int)
            },
            None => !field_ok(bytes@.subrange(from as int, line_end(bytes@, from as int))),
        },
{
    let n = bytes.len();
    let ghost e = line_end(bytes@, from as int);
    let ghost f = bytes@.subrange(from as int, e);
    proof {
        lemma_next_index(bytes@, TERMINATOR, from as int);
    }
    let mut pos: usize = from;
    let mut negative = false;
    if pos < n && bytes[pos] == MINUS {
        negative = true;
        pos = pos + 1;
    }
    let start: usize = pos;
    let ghost body = field_body(f);
    assert(negative == field_negative(f)) by {
        if from < e {
            assert(f[0] == bytes@[from as int]);
        }
    }
    assert(start <= e ==> body =~= bytes@.subrange(start as int, e));
    assert(start > e ==> body.len() == 0);
    let mut value: u32 = 0;
    while pos < n && ZERO <= bytes[pos] && bytes[pos] <= 57
        invariant
            n == bytes@.len(),
            from <= start <= pos <= n,
            forall|j: int| start <= j < pos ==> is_digit(#[trigger] bytes@[j]),
            value == digits_value(bytes@.subrange(start as int, pos as int)),
            value <= 32767,
            e == line_end(bytes@, from as int),
            f == bytes@.subrange(from as int, e),
            body == field_body(f),
            from <= e <= n,
            forall|j: int| from <= j < e ==> bytes@[j] != TERMINATOR,
            e < n ==> bytes@[e] == TERMINATOR,
            start <= e ==> body =~= bytes@.subrange(start as int, e),
            start > e ==> body.len() == 0,
        decreases n - pos,
    {
        let digit: u32 = (bytes[pos] - ZERO) as u32;
        let grown: u32 = value * 10 + digit;
        proof {
            lemma_digits_push(bytes@, start as int, pos as int);
        }
        if grown > 32767 {
            proof {
                if unsigned_ok(body) {
                    lemma_whole_part(bytes@, start as int, pos + 1, e);
                    let whole = body.subrange(0, body.len() - 2);
                    lemma_digits_monotone(whole, pos + 1 - start);
                    assert(whole.subrange(0, pos + 1 - start) =~= bytes@.subrange(
                        start as int,
                        pos + 1,
                    ));
                }
            }
            return None;
        }
        value = grown;
        pos = pos + 1;
    }
    proof {
        if unsigned_ok(body) {
            lemma_whole_part(bytes@, start as int, pos as int, e);
            if pos == e - 2 {
                assert(body.subrange(0, body.len() - 2) =~= bytes@.subrange(
                    start as int,
                    pos as int,
                ));
                assert(body[body.len() - 1] == bytes@[pos + 1]);
                assert(body[body.len() - 2] == bytes@[pos as int]);
            } else {
                assert(is_digit(body[pos - start]));
                assert(body[pos - start] == bytes@[pos as int]);
            }
        }
    }
    if pos == start || pos >= n || bytes[pos] != POINT {
        return None;
    }
    if n - pos < 2 || !(ZERO <= bytes[pos + 1] && bytes[pos + 1] <= 57) {
        return None;
    }
    if n - pos > 2 && bytes[pos + 2] != TERMINATOR {
        return None;
    }
    let tenths: u32 = value * 10 + (bytes[pos + 1] - ZERO) as u32;
    proof {
        lemma_next_index_is(bytes@, TERMINATOR, from as int, pos + 2);
        assert(body =~= bytes@.subrange(start as int, pos + 2));
        assert(body.subrange(0, body.len() - 2) =~= bytes@.subrange(start as int, pos as int));
        assert forall|i: int| 0 <= i < body.len() - 2 implies is_digit(#[trigger] body[i]) by {
            assert(body[i] == bytes@[start + i]);
        }
    }
    if tenths > 32767 {
        return None;
    }
    let next: usize = if n - pos > 2 {
        pos + 3
    } else {
        n
    };
    let magnitude: i16 = tenths as i16;
    let signed: i16 = if negative {
        -magnitude
    } else {
        magnitude
    };
    Some(Reading { tenths: signed, next })
}

/// One record as it lies in the input: where its name ends, its temperature,
/// and where the next record starts.
pub struct Span {
    pub name_end: usize,
    pub tenths: i16,
    pub next: usize,
}

/// Reads the record that starts at `pos`: finds the delimiter, checks that the
/// name is not empty and stays on the line, and reads the temperature. `None`
/// where no record starts at `pos`.
pub fn read_record(bytes: &[u8], pos: usize) -> (r: Option<Span>)
    requires
        pos < bytes@.len(),
    ensures
        match r {
            Some(x) => {
                &&& record_ok(bytes@, pos as int)
                &&& pos < x.name_end < x.next <= bytes@.len()
                &&& x.name_end == name_end(bytes@, pos as int)
                &&& x.tenths == record_at(bytes@, pos as int).temp
                &&& x.next == record_next(bytes@, pos as int)
            },
            None => !record_ok(bytes@, pos as int),
        },
{
    let n = bytes.len();
    let rest = slice_subrange(bytes, pos, n);
    proof {
        lemma_next_index_rest(bytes@, DELIMITER, pos as int);
        lemma_next_index(bytes@, DELIMITER, pos as int);
        lemma_next_index(bytes@, TERMINATOR, pos as int);
    }
    let d = match semicolon_pos(rest) {
        Some(d) => d,
        None => {
            return None;
        },
    };
    if d == 0 {
        return None;
    }
    let name = slice_subrange(rest, 0, d);
    let inside = find_memchr(name, TERMINATOR);
    proof {
        lemma_next_index(name@, TERMINATOR, 0);
        assert forall|j: int| 0 <= j < d implies name@[j] == bytes@[pos + j] by {
            assert(name@[j] == rest@[j]);
        }
    }
    if inside.is_some() {
        proof {
            let t = next_index(name@, TERMINATOR, 0);
            assert(bytes@[pos + t] == TERMINATOR);
        }
        return None;
    }
    proof {
        assert forall|j: int| pos <= j < pos + d + 1 implies bytes@[j] != TERMINATOR by {
            if j < pos + d {
                assert(name@[j - pos] == bytes@[j]);
            }
        }
        lemma_next_index_advance(bytes@, TERMINATOR, pos as int, pos + d + 1);
    }
    match parse_temperature(bytes, pos + d + 1) {
        Some(t) => Some(Span { name_end: pos + d, tenths: t.tenths, next: t.next }),
        None => None,
    }
}

/// In a well-shaped body that starts at `start`, a run of digits from `start`
/// to `pos` lies inside the whole part.
proof fn lemma_whole_part(s: Seq<u8>, start: int, pos: int, e: int)
    requires
        0 <= start <= pos <= s.len(),
        start <= e <= s.len(),
        unsigned_ok(s.subrange(start, e)),
        forall|j: int| start <= j < pos ==> is_digit(#[trigger] s[j]),
    ensures
        pos <= e - 2,
{
    let body = s.subrange(start, e);
    if pos > e - 2 {
        assert(body[body.len() - 2] == s[e - 2]);
        assert(is_digit(s[e - 2]));
    }
}

} // verus!
