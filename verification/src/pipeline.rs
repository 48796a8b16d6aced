//! From the bytes of the input to the report: plan, fold, merge, render.

use crate::batch::{
    batch_outcome, names_are_text, observe_into, table_of, text_table, BatchError, WeatherBatch,
};
use crate::merge::{batch_views, lemma_merge_empty, merge, merge_maps, merged};
use crate::plan::{chunk_sizes, plan_failure, plan_ranges, valid_plan, ByteRange, PlanError};
use crate::record::{
    line_end, name_end, record_at, record_next, record_ok, records, stop, well_formed, Record,
};
use crate::report::{format_report, report_bytes};
use crate::scan::{
    lemma_next_index, lemma_next_index_front, lemma_next_index_rest, next_index, DELIMITER,
    TERMINATOR,
};
use crate::stats::{Stats, MAX_COUNT};
use vstd::prelude::*;
use vstd::slice::slice_subrange;
use vstd::utf8::{decode_utf8, valid_utf8};

verus! {

/// The bytes of a range.
pub open spec fn chunk(s: Seq<u8>, r: ByteRange) -> Seq<u8> {
    s.subrange(r.start as int, r.end as int)
}

/// The records of the ranges, one range after the other.
pub open spec fn chunk_records(s: Seq<u8>, ranges: Seq<ByteRange>) -> Seq<Record>
    decreases ranges.len(),
{
    if ranges.len() == 0 {
        Seq::empty()
    } else {
        chunk_records(s, ranges.drop_last()) + records(chunk(s, ranges.last()), 0)
    }
}

/// The table of each range, keyed by the bytes of the name.
pub open spec fn chunk_tables(s: Seq<u8>, ranges: Seq<ByteRange>) -> Seq<Map<Seq<u8>, Stats>> {
    Seq::new(ranges.len(), |i: int| table_of(records(chunk(s, ranges[i]), 0)))
}

/// The table of each range, keyed by text.
pub open spec fn chunk_views(s: Seq<u8>, ranges: Seq<ByteRange>) -> Seq<Map<Seq<char>, Stats>> {
    Seq::new(ranges.len(), |i: int| text_table(table_of(records(chunk(s, ranges[i]), 0))))
}

/// Whether every aggregate of the table counts at most `n` observations.
pub open spec fn count_bounded<K>(m: Map<K, Stats>, n: int) -> bool {
    forall|k: K| m.dom().contains(k) ==> (#[trigger] m[k]).count <= n
}

/// A search in the rest of `s` from `k` on finds what the search in `s` finds.
pub proof fn lemma_next_index_shift(s: Seq<u8>, b: u8, k: int, i: int)
    requires
        0 <= k <= s.len(),
        0 <= i <= s.len() - k,
    ensures
        next_index(s.subrange(k, s.len() as int), b, i) + k == next_index(s, b, k + i),
{
    let t = s.subrange(k, s.len() as int);
    lemma_next_index_rest(t, b, i);
    assert(t.subrange(i, t.len() as int) =~= s.subrange(k + i, s.len() as int));
    lemma_next_index_rest(s, b, k + i);
}

/// Reading the rest of `s` from `k` on gives the records that reading `s`
/// from there gives, and stops at the same place.
pub proof fn lemma_records_shift(s: Seq<u8>, k: int, pos: int)
    requires
        0 <= k <= s.len(),
        0 <= pos <= s.len() - k,
    ensures
        stop(s.subrange(k, s.len() as int), pos) + k == stop(s, pos + k),
        records(s.subrange(k, s.len() as int), pos) == records(s, pos + k),
    decreases s.len() - k - pos,
{
    let t = s.subrange(k, s.len() as int);
    if pos < t.len() {
        lemma_next_index_shift(s, DELIMITER, k, pos);
        lemma_next_index_shift(s, TERMINATOR, k, pos);
        lemma_next_index(t, TERMINATOR, pos);
        lemma_next_index(t, DELIMITER, pos);
        let d = name_end(t, pos);
        let e = line_end(t, pos);
        if pos < d < e {
            assert(t.subrange(d + 1, e) =~= s.subrange(d + k + 1, e + k));
            assert(t.subrange(pos, d) =~= s.subrange(pos + k, d + k));
        }
        assert(record_ok(t, pos) == record_ok(s, pos + k));
        if record_ok(t, pos) {
            assert(record_at(t, pos) == record_at(s, pos + k));
            lemma_records_shift(s, k, record_next(t, pos));
        }
    }
}

/// In well-formed input, reading up to a terminator and reading on after it
/// gives all records: none is lost and none is cut in two.
pub proof fn lemma_records_split(s: Seq<u8>, pos: int, p: int)
    requires
        0 <= pos <= p < s.len(),
        s[p] == TERMINATOR,
        stop(s, pos) == s.len(),
    ensures
        stop(s.subrange(0, p), pos) == p,
        stop(s, p + 1) == s.len(),
        records(s, pos) == records(s.subrange(0, p), pos) + records(s, p + 1),
    decreases p - pos,
{
    let a = s.subrange(0, p);
    lemma_next_index(s, TERMINATOR, pos);
    lemma_next_index(s, DELIMITER, pos);
    let d = name_end(s, pos);
    let e = line_end(s, pos);
    assert(record_ok(s, pos));
    assert(e <= p);
    lemma_next_index_front(s, TERMINATOR, pos, p);
    lemma_next_index_front(s, DELIMITER, pos, p);
    assert(a.subrange(d + 1, e) =~= s.subrange(d + 1, e));
    assert(a.subrange(pos, d) =~= s.subrange(pos, d));
    assert(record_ok(a, pos));
    assert(record_at(a, pos) == record_at(s, pos));
    if e == p {
        assert(record_next(a, pos) == p);
        assert(stop(a, p) == p);
        assert(stop(a, pos) == stop(a, record_next(a, pos)));
        assert(records(a, p) =~= Seq::<Record>::empty());
        assert(records(a, pos) =~= seq![record_at(s, pos)]);
    } else {
        lemma_records_split(s, e + 1, p);
        assert(record_next(a, pos) == e + 1);
        assert(record_next(s, pos) == e + 1);
        assert(stop(a, pos) == stop(a, record_next(a, pos)));
        assert(records(a, pos) == seq![record_at(a, pos)] + records(a, e + 1));
        assert(records(s, pos) == seq![record_at(s, pos)] + records(s, e + 1));
        assert(records(s, pos) =~= records(a, pos) + records(s, p + 1));
    }
}

/// The table of two runs of records, one after the other, is the two tables merged.
pub proof fn lemma_table_of_concat(r1: Seq<Record>, r2: Seq<Record>)
    ensures
        table_of(r1 + r2) == merge_maps(table_of(r1), table_of(r2)),
    decreases r2.len(),
{
    if r2.len() == 0 {
        assert(r1 + r2 =~= r1);
        lemma_merge_empty(table_of(r1));
    } else {
        lemma_table_of_concat(r1, r2.drop_last());
        assert((r1 + r2).drop_last() =~= r1 + r2.drop_last());
        assert((r1 + r2).last() == r2.last());
        let x = r2.last();
        let t1 = table_of(r1);
        let t2 = table_of(r2.drop_last());
        assert(observe_into(merge_maps(t1, t2), x) =~= merge_maps(t1, observe_into(t2, x)));
    }
}

/// Keying by text and merging may be done in either order.
pub proof fn lemma_text_table_merge(a: Map<Seq<u8>, Stats>, b: Map<Seq<u8>, Stats>)
    ensures
        text_table(merge_maps(a, b)) == merge_maps(text_table(a), text_table(b)),
{
    assert(text_table(merge_maps(a, b)) =~= merge_maps(text_table(a), text_table(b)));
}

/// No aggregate of a table counts more observations than the table has records.
pub proof fn lemma_table_count(rs: Seq<Record>)
    ensures
        count_bounded(table_of(rs), rs.len() as int),
        forall|k: Seq<u8>| table_of(rs).dom().contains(k) ==> (#[trigger] table_of(rs)[k]).count >= 1,
    decreases rs.len(),
{
    if rs.len() > 0 {
        lemma_table_count(rs.drop_last());
    }
}

/// Input holds at most as many records as bytes.
pub proof fn lemma_records_len(s: Seq<u8>, pos: int)
    requires
        0 <= pos <= s.len(),
    ensures
        records(s, pos).len() <= s.len() - pos,
    decreases s.len() - pos,
{
    if pos < s.len() && record_ok(s, pos) {
        lemma_next_index(s, TERMINATOR, pos);
        lemma_records_len(s, record_next(s, pos));
    }
}

/// In well-formed input, the input up to the end of a range of a valid plan
/// is well formed.
pub proof fn lemma_plan_front(s: Seq<u8>, ranges: Seq<ByteRange>, k: int)
    requires
        well_formed(s),
        valid_plan(s, ranges),
        1 <= k <= ranges.len(),
    ensures
        well_formed(s.subrange(0, ranges[k - 1].end as int)),
{
    let end = ranges[k - 1].end as int;
    if k == ranges.len() {
        assert(s.subrange(0, end) =~= s);
    } else {
        lemma_records_split(s, 0, end);
    }
}

/// In well-formed input, range `k` of a valid plan is well formed, and the
/// records up to its end are the records up to the end of the range before
/// it, then its own.
pub proof fn lemma_plan_step(s: Seq<u8>, ranges: Seq<ByteRange>, k: int)
    requires
        well_formed(s),
        valid_plan(s, ranges),
        1 <= k < ranges.len(),
    ensures
        well_formed(chunk(s, ranges[k])),
        records(s.subrange(0, ranges[k].end as int), 0) == records(
            s.subrange(0, ranges[k - 1].end as int),
            0,
        ) + records(chunk(s, ranges[k]), 0),
{
    let end = ranges[k].end as int;
    let before = ranges[k - 1].end as int;
    let a = s.subrange(0, end);
    lemma_plan_front(s, ranges, k + 1);
    assert(ranges[k].start == before + 1);
    assert(before < end);
    assert(a[before] == s[before]);
    lemma_records_split(a, 0, before);
    assert(a.subrange(0, before) =~= s.subrange(0, before));
    lemma_records_shift(a, before + 1, 0);
    assert(a.subrange(before + 1, a.len() as int) =~= chunk(s, ranges[k]));
}

/// In well-formed input every range of a valid plan is well formed, and the
/// records of the first `k` ranges are the records up to the end of range `k`.
pub proof fn lemma_plan_prefix(s: Seq<u8>, ranges: Seq<ByteRange>, k: int)
    requires
        well_formed(s),
        valid_plan(s, ranges),
        1 <= k <= ranges.len(),
    ensures
        records(s.subrange(0, ranges[k - 1].end as int), 0) == chunk_records(s, ranges.take(k)),
        forall|i: int| 0 <= i < k ==> well_formed(#[trigger] chunk(s, ranges[i])),
    decreases k,
{
    assert(ranges.take(k).drop_last() =~= ranges.take(k - 1));
    assert(ranges.take(k).last() == ranges[k - 1]);
    if k == 1 {
        lemma_plan_front(s, ranges, 1);
        assert(chunk(s, ranges[0]) =~= s.subrange(0, ranges[0].end as int));
        assert(ranges.take(0) =~= Seq::<ByteRange>::empty());
        assert(chunk_records(s, ranges.take(0)) =~= Seq::<Record>::empty());
        assert(chunk_records(s, ranges.take(1)) =~= chunk_records(s, ranges.take(0)) + records(
            chunk(s, ranges[0]),
            0,
        ));
    } else {
        lemma_plan_prefix(s, ranges, k - 1);
        lemma_plan_step(s, ranges, k - 1);
        assert(chunk_records(s, ranges.take(k)) == chunk_records(s, ranges.take(k - 1)) + records(
            chunk(s, ranges[k - 1]),
            0,
        ));
    }
}

/// Merging the tables of the ranges gives the table of their records.
pub proof fn lemma_chunk_tables(s: Seq<u8>, ranges: Seq<ByteRange>)
    ensures
        merged(chunk_tables(s, ranges)) == table_of(chunk_records(s, ranges)),
        merged(chunk_views(s, ranges)) == text_table(table_of(chunk_records(s, ranges))),
    decreases ranges.len(),
{
    if ranges.len() == 0 {
        assert(text_table(Map::<Seq<u8>, Stats>::empty()) =~= Map::<Seq<char>, Stats>::empty());
    } else {
        let front = ranges.drop_last();
        lemma_chunk_tables(s, front);
        assert(chunk_tables(s, ranges).drop_last() =~= chunk_tables(s, front));
        assert(chunk_views(s, ranges).drop_last() =~= chunk_views(s, front));
        lemma_table_of_concat(chunk_records(s, front), records(chunk(s, ranges.last()), 0));
        lemma_text_table_merge(
            table_of(chunk_records(s, front)),
            table_of(records(chunk(s, ranges.last()), 0)),
        );
    }
}

/// The number of ranges does not change the result: for well-formed input, the
/// tables of the ranges of any valid plan merge to the table of the whole
/// input, and every range is itself well formed.
pub proof fn lemma_chunks_agree(s: Seq<u8>, ranges: Seq<ByteRange>)
    requires
        well_formed(s),
        valid_plan(s, ranges),
    ensures
        forall|i: int| 0 <= i < ranges.len() ==> well_formed(#[trigger] chunk(s, ranges[i])),
        chunk_records(s, ranges) == records(s, 0),
        merged(chunk_tables(s, ranges)) == table_of(records(s, 0)),
        merged(chunk_views(s, ranges)) == text_table(table_of(records(s, 0))),
{
    lemma_plan_prefix(s, ranges, ranges.len() as int);
    assert(ranges.take(ranges.len() as int) =~= ranges);
    assert(s.subrange(0, s.len() as int) =~= s);
    lemma_chunk_tables(s, ranges);
}

/// Merging keeps counts within the sum of the two bounds.
pub proof fn lemma_merge_count<K>(a: Map<K, Stats>, b: Map<K, Stats>, x: int, y: int)
    requires
        count_bounded(a, x),
        count_bounded(b, y),
        0 <= x,
        0 <= y,
    ensures
        count_bounded(merge_maps(a, b), x + y),
{
    assert forall|k: K| merge_maps(a, b).dom().contains(k) implies (#[trigger] merge_maps(
        a,
        b,
    )[k]).count <= x + y by {
        if a.dom().contains(k) {
            assert(a[k].count <= x);
        }
        if b.dom().contains(k) {
            assert(b[k].count <= y);
        }
    }
}

/// The table of a range counts no station more often than the range has bytes.
pub proof fn lemma_chunk_count(c: Seq<u8>)
    ensures
        count_bounded(text_table(table_of(records(c, 0))), c.len() as int),
{
    lemma_table_count(records(c, 0));
    lemma_records_len(c, 0);
    let t = table_of(records(c, 0));
    assert forall|k: Seq<char>| text_table(t).dom().contains(k) implies (#[trigger] text_table(
        t,
    )[k]).count <= c.len() by {
        assert(t[vstd::utf8::encode_utf8(k)].count <= records(c, 0).len());
    }
}

/// Where the input is well formed and all its names are text, every range of
/// a valid plan folds without error.
pub proof fn lemma_chunks_fold(s: Seq<u8>, ranges: Seq<ByteRange>)
    requires
        well_formed(s),
        names_are_text(table_of(records(s, 0))),
        valid_plan(s, ranges),
    ensures
        forall|i: int| 0 <= i < ranges.len() ==> batch_outcome(#[trigger] chunk(s, ranges[i])) is Ok,
{
    lemma_chunks_agree(s, ranges);
    assert forall|i: int| 0 <= i < ranges.len() implies batch_outcome(
        #[trigger] chunk(s, ranges[i]),
    ) is Ok by {
        let t = table_of(records(chunk(s, ranges[i]), 0));
        assert forall|k: Seq<u8>| t.dom().contains(k) implies valid_utf8(k) by {
            lemma_table_in_merged(chunk_tables(s, ranges), i, k);
        }
    }
}

/// A key of one of the tables is a key of all of them merged.
pub proof fn lemma_table_in_merged<K>(tables: Seq<Map<K, Stats>>, i: int, k: K)
    requires
        0 <= i < tables.len(),
        tables[i].dom().contains(k),
    ensures
        merged(tables).dom().contains(k),
    decreases tables.len(),
{
    if i < tables.len() - 1 {
        lemma_table_in_merged(tables.drop_last(), i, k);
    }
}

/// One more range folded: the merged counts stay within the end of that range.
proof fn lemma_summary_step(
    s: Seq<u8>,
    plan: Seq<ByteRange>,
    i: int,
    held: Seq<WeatherBatch>,
    grown: Seq<WeatherBatch>,
)
    requires
        valid_plan(s, plan),
        0 <= i < plan.len(),
        held.len() == i,
        grown.len() == i + 1,
        forall|j: int| 0 <= j < i ==> grown[j] == held[j],
        batch_outcome(chunk(s, plan[i])) matches Ok(m) && m == grown[i]@,
        count_bounded(
            merged(batch_views(held)),
            if i == 0 {
                0
            } else {
                plan[i - 1].end as int
            },
        ),
    ensures
        count_bounded(merged(batch_views(grown)), plan[i].end as int),
{
    let bound: int = if i == 0 {
        0
    } else {
        plan[i - 1].end as int
    };
    let part = chunk(s, plan[i]);
    lemma_chunk_count(part);
    assert(plan[i].start <= plan[i].end <= s.len());
    if i > 0 {
        assert(plan[i - 1].start <= plan[i - 1].end <= s.len());
        assert(plan[i - 1 + 1].start == plan[i - 1].end + 1);
    }
    lemma_merge_count(merged(batch_views(held)), grown[i]@, bound, part.len() as int);
    assert(batch_views(grown).drop_last() =~= batch_views(held));
    assert(batch_views(grown).last() == grown[i]@);
}

/// Why the input could not be summarised.
#[derive(Clone, Copy, Debug, PartialEq, Eq)]
pub enum SummaryError {
    /// The input could not be cut into ranges.
    Plan(PlanError),
    /// Range `chunk` of the plan, counted from zero, could not be folded.
    Batch { chunk: usize, error: BatchError },
}

/// Whether `batch` is what folding `c` gives.
pub open spec fn folded_from(batch: WeatherBatch, c: Seq<u8>) -> bool {
    batch.wf() && (batch_outcome(c) matches Ok(m) && m == batch@)
}

/// The report of the input: cuts it into `chunk_count` ranges, folds each,
/// merges the tables and renders the result. Fails at the first cut that
/// cannot be made, or at the first range that cannot be folded. For
/// well-formed input the report is that of the whole input, whatever the
/// number of ranges.
pub fn summarize(bytes: &[u8], chunk_count: usize) -> (r: Result<String, SummaryError>)
    requires
        chunk_count >= 1,
        chunk_count == 1 || chunk_count <= bytes@.len(),
        bytes@.len() <= MAX_COUNT,
    ensures
        match r {
            Ok(text) => {
                &&& plan_failure(bytes@, chunk_count as nat, (chunk_count - 1) as nat) is None
                &&& forall|i: int|
                    0 <= i < chunk_count ==> batch_outcome(
                        #[trigger] chunk(bytes@, plan_ranges(bytes@, chunk_count as nat)[i]),
                    ) is Ok
                &&& text@ == decode_utf8(
                    report_bytes(
                        merged(chunk_views(bytes@, plan_ranges(bytes@, chunk_count as nat))),
                    ),
                )
                &&& well_formed(bytes@) ==> text@ == decode_utf8(
                    report_bytes(text_table(table_of(records(bytes@, 0)))),
                )
            },
            Err(SummaryError::Plan(e)) => plan_failure(
                bytes@,
                chunk_count as nat,
                (chunk_count - 1) as nat,
            ) == Some(e),
            Err(SummaryError::Batch { chunk: at, error }) => {
                &&& plan_failure(bytes@, chunk_count as nat, (chunk_count - 1) as nat) is None
                &&& at < chunk_count
                &&& forall|i: int|
                    0 <= i < at ==> batch_outcome(
                        #[trigger] chunk(bytes@, plan_ranges(bytes@, chunk_count as nat)[i]),
                    ) is Ok
                &&& (batch_outcome(chunk(bytes@, plan_ranges(bytes@, chunk_count as nat)[at as int]))
                    matches Err(x) && x == error)
            },
        },
{
    let ranges = match chunk_sizes(bytes, chunk_count) {
        Ok(ranges) => ranges,
        Err(e) => {
            return Err(SummaryError::Plan(e));
        },
    };
    let ghost s = bytes@;
    let ghost plan = ranges@;
    let mut batches: Vec<WeatherBatch> = Vec::new();
    let mut i: usize = 0;
    proof {
        assert(batch_views(batches@) =~= Seq::<Map<Seq<char>, Stats>>::empty());
    }
    while i < ranges.len()
        invariant
            s == bytes@,
            s.len() <= MAX_COUNT,
            plan == ranges@,
            plan == plan_ranges(s, chunk_count as nat),
            plan_failure(s, chunk_count as nat, (chunk_count - 1) as nat) is None,
            plan.len() == chunk_count,
            valid_plan(s, plan),
            i <= plan.len(),
            batches@.len() == i,
            forall|j: int| 0 <= j < i ==> folded_from(#[trigger] batches@[j], chunk(s, plan[j])),
            count_bounded(
                merged(batch_views(batches@)),
                if i == 0 {
                    0
                } else {
                    plan[i - 1].end as int
                },
            ),
        decreases plan.len() - i,
    {
        let range = ranges[i];
        let part = slice_subrange(bytes, range.start, range.end);
        let ghost held = batches@;
        assert(part@ == chunk(s, plan[i as int]));
        let batch = match WeatherBatch::new(part) {
            Ok(batch) => batch,
            Err(error) => {
                proof {
                    assert forall|j: int| 0 <= j < i implies batch_outcome(
                        #[trigger] chunk(s, plan[j]),
                    ) is Ok by {
                        assert(folded_from(batches@[j], chunk(s, plan[j])));
                    }
                }
                return Err(SummaryError::Batch { chunk: i, error });
            },
        };
        batches.push(batch);
        proof {
            lemma_summary_step(s, plan, i as int, held, batches@);
            assert forall|j: int| 0 <= j < i + 1 implies folded_from(
                #[trigger] batches@[j],
                chunk(s, plan[j]),
            ) by {
                if j < i {
                    assert(batches@[j] == held[j]);
                }
            }
        }
        i = i + 1;
    }
    proof {
        assert(batch_views(batches@) =~= chunk_views(s, plan)) by {
            assert forall|j: int| 0 <= j < plan.len() implies batch_views(batches@)[j]
                == chunk_views(s, plan)[j] by {
                assert(folded_from(batches@[j], chunk(s, plan[j])));
            }
        }
        assert forall|j: int| 0 <= j < batches@.len() implies (#[trigger] batches@[j]).wf() by {
            assert(folded_from(batches@[j], chunk(s, plan[j])));
        }
        assert forall|j: int| 0 <= j < chunk_count implies batch_outcome(
            #[trigger] chunk(s, plan[j]),
        ) is Ok by {
            assert(folded_from(batches@[j], chunk(s, plan[j])));
        }
        if well_formed(s) {
            lemma_chunks_agree(s, plan);
        }
    }
    let table = merge(&batches);
    Ok(format_report(&table))
}

} // verus!
