//! One pass over well-formed input with each of the three search strategies.
//!
//! Each pass adds up the lengths of the names and the temperatures. The three
//! differ only in how the delimiter is found, and give the same totals.

use crate::record::{
    digits_value, field_body, field_ok, field_tenths, is_digit, lemma_digits_monotone,
    lemma_digits_push, line_end, name_end, record_at, record_next, record_ok, records, stop,
    well_formed, Reading, Record, MINUS, POINT, ZERO,
};
use crate::scan::{
    find_bytewise, find_memchr, lemma_next_index, lemma_next_index_advance, lemma_next_index_rest,
    semicolon_pos, DELIMITER, TERMINATOR,
};
use crate::stats::MAX_COUNT;
use vstd::prelude::*;
use vstd::slice::slice_subrange;

verus! {

/// How the delimiter of a record is searched for.
#[derive(Clone, Copy, Debug, PartialEq, Eq)]
pub enum Strategy {
    /// One byte at a time.
    Bytewise,
    /// By the `memchr` crate.
    Memchr,
    /// Eight bytes at a time, `memchr` for short slices.
    Wide,
}

/// The lengths of the names of the records, added up.
pub open spec fn total_name_len(rs: Seq<Record>) -> int
    decreases rs.len(),
{
    if rs.len() == 0 {
        0
    } else {
        total_name_len(rs.drop_last()) + rs.last().name.len()
    }
}

/// The temperatures of the records, added up.
pub open spec fn total_temp(rs: Seq<Record>) -> int
    decreases rs.len(),
{
    if rs.len() == 0 {
        0
    } else {
        total_temp(rs.drop_last()) + rs.last().temp
    }
}

/// Reads the temperature that starts at `from` without checking its shape:
/// a leading `-` sets the sign, every byte but the point is taken as a digit,
/// `value * 10 + digit`, up to the terminator or the end of the input.
pub fn accumulate_temperature(bytes: &[u8], from: usize) -> (r: Reading)
    requires
        from <= bytes@.len(),
        field_ok(bytes@.subrange(from as int, line_end(bytes@, from as int))),
    ensures
        r.tenths == field_tenths(bytes@.subrange(from as int, line_end(bytes@, from as int))),
        r.next == record_next(bytes@, from as int),
{
    let n = bytes.len();
    let ghost e = line_end(bytes@, from as int);
    let ghost f = bytes@.subrange(from as int, e);
    proof {
        lemma_next_index(bytes@, TERMINATOR, from as int);
        assert(f[0] == bytes@[from as int]);
    }
    let mut pos: usize = from;
    let mut negative = false;
    if bytes[pos] == MINUS {
        negative = true;
        pos = pos + 1;
    }
    let start: usize = pos;
    let ghost body = field_body(f);
    let ghost point = e - 2;
    assert(body =~= bytes@.subrange(start as int, e));
    assert(body.subrange(0, body.len() - 2) =~= bytes@.subrange(start as int, point));
    assert forall|j: int| start <= j < point implies is_digit(#[trigger] bytes@[j]) by {
        assert(body[j - start] == bytes@[j]);
    }
    assert(bytes@[point] == POINT) by {
        assert(body[body.len() - 2] == bytes@[point]);
    }
    assert(is_digit(bytes@[point + 1])) by {
        assert(body[body.len() - 1] == bytes@[point + 1]);
    }
    let ghost whole = bytes@.subrange(start as int, point);
    let mut temperature: i16 = 0;
    while pos < n && bytes[pos] != TERMINATOR
        invariant
            n == bytes@.len(),
            from <= start <= pos <= e <= n,
            start < point == e - 2,
            forall|j: int| from <= j < e ==> bytes@[j] != TERMINATOR,
            e < n ==> bytes@[e] == TERMINATOR,
            forall|j: int| start <= j < point ==> is_digit(#[trigger] bytes@[j]),
            bytes@[point] == POINT,
            is_digit(bytes@[point + 1]),
            whole == bytes@.subrange(start as int, point),
            digits_value(whole) * 10 + (bytes@[point + 1] - 48) <= 32767,
            pos <= point ==> temperature == digits_value(bytes@.subrange(start as int, pos as int)),
            pos == point + 1 ==> temperature == digits_value(whole),
            pos == e ==> temperature == digits_value(whole) * 10 + (bytes@[point + 1] - 48),
            0 <= temperature,
        decreases n - pos,
    {
        if bytes[pos] != POINT {
            proof {
                if pos < point {
                    lemma_digits_push(bytes@, start as int, pos as int);
                    lemma_digits_monotone(whole, pos + 1 - start);
                    assert(whole.subrange(0, pos + 1 - start) =~= bytes@.subrange(
                        start as int,
                        pos + 1,
                    ));
                }
            }
            let curr: i16 = (bytes[pos] - ZERO) as i16;
            temperature = temperature * 10 + curr;
        }
        pos = pos + 1;
    }
    if pos < n {
        pos = pos + 1;
    }
    let signed: i16 = if negative {
        -temperature
    } else {
        temperature
    };
    Reading { tenths: signed, next: pos }
}

/// The first delimiter of `bytes`, searched for in the way asked for.
pub fn locate(bytes: &[u8], strategy: Strategy) -> (r: Option<usize>)
    ensures
        crate::scan::locates(r, bytes@, DELIMITER),
{
    match strategy {
        Strategy::Bytewise => find_bytewise(bytes, DELIMITER),
        Strategy::Memchr => find_memchr(bytes, DELIMITER),
        Strategy::Wide => semicolon_pos(bytes),
    }
}

/// One pass over well-formed input: the lengths of all names and all
/// temperatures, each added up. The totals do not depend on the strategy.
pub fn scan_totals(bytes: &[u8], strategy: Strategy) -> (r: (usize, i64))
    requires
        well_formed(bytes@),
        bytes@.len() <= MAX_COUNT,
    ensures
        r.0 == total_name_len(records(bytes@, 0)),
        r.1 == total_temp(records(bytes@, 0)),
{
    let n = bytes.len();
    let mut result: usize = 0;
    let mut net_temp: i64 = 0;
    let mut pos: usize = 0;
    let ghost mut done: Seq<Record> = Seq::empty();
    while pos < n
        invariant
            n == bytes@.len(),
            n <= MAX_COUNT,
            pos <= n,
            stop(bytes@, pos as int) == n,
            records(bytes@, 0) == done + records(bytes@, pos as int),
            result == total_name_len(done),
            net_temp == total_temp(done),
            result <= pos,
            -32767 * pos <= net_temp <= 32767 * pos,
        decreases n - pos,
    {
        let ghost rec = record_at(bytes@, pos as int);
        proof {
            lemma_next_index(bytes@, DELIMITER, pos as int);
            lemma_next_index(bytes@, TERMINATOR, pos as int);
            lemma_next_index_rest(bytes@, DELIMITER, pos as int);
            assert(record_ok(bytes@, pos as int));
        }
        let rest = slice_subrange(bytes, pos, n);
        let found = locate(rest, strategy);
        assert(found is Some);
        let s = found.unwrap();
        proof {
            assert(pos + s == name_end(bytes@, pos as int));
            lemma_next_index_advance(bytes@, TERMINATOR, pos as int, pos + s + 1);
        }
        result = result + s;
        let step = accumulate_temperature(bytes, pos + s + 1);
        net_temp = net_temp + step.tenths as i64;
        proof {
            assert(done.push(rec).drop_last() =~= done);
            assert(done + (seq![rec] + records(bytes@, step.next as int)) =~= done.push(rec)
                + records(bytes@, step.next as int));
            done = done.push(rec);
        }
        pos = step.next;
    }
    proof {
        assert(done + records(bytes@, pos as int) =~= done);
    }
    (result, net_temp)
}

/// The totals of the input, the delimiter searched for one byte at a time.
pub fn base_line(bytes: &[u8]) -> (r: (usize, i64))
    requires
        well_formed(bytes@),
        bytes@.len() <= MAX_COUNT,
    ensures
        r.0 == total_name_len(records(bytes@, 0)),
        r.1 == total_temp(records(bytes@, 0)),
{
    scan_totals(bytes, Strategy::Bytewise)
}

/// The totals of the input, the delimiter searched for by the `memchr` crate.
pub fn using_memchr(bytes: &[u8]) -> (r: (usize, i64))
    requires
        well_formed(bytes@),
        bytes@.len() <= MAX_COUNT,
    ensures
        r.0 == total_name_len(records(bytes@, 0)),
        r.1 == total_temp(records(bytes@, 0)),
{
    scan_totals(bytes, Strategy::Memchr)
}

/// The totals of the input, the delimiter searched for eight bytes at a time.
pub fn using_simd(bytes: &[u8]) -> (r: (usize, i64))
    requires
        well_formed(bytes@),
        bytes@.len() <= MAX_COUNT,
    ensures
        r.0 == total_name_len(records(bytes@, 0)),
        r.1 == total_temp(records(bytes@, 0)),
{
    scan_totals(bytes, Strategy::Wide)
}

} // verus!
