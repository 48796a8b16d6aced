//! Cutting the input into ranges that end on line terminators.

use crate::scan::{lemma_next_index, lemma_next_index_is, next_index, TERMINATOR};
use vstd::prelude::*;

verus! {

/// How many bytes are searched for a terminator at each cut.
pub const WINDOW: usize = 128;

/// A range of the input: the bytes from `start` up to, not including, `end`.
#[derive(Clone, Copy, Debug, PartialEq, Eq)]
pub struct ByteRange {
    pub start: usize,
    pub end: usize,
}

/// Why a search for a terminator failed.
#[derive(Clone, Copy, Debug, PartialEq, Eq)]
pub enum ProbeError {
    /// Fewer than `WINDOW` bytes are left at the place searched.
    WindowPastEnd,
    /// The window holds no terminator.
    NoTerminator,
}

/// Why the input could not be cut: which cut, counted from one, and why.
#[derive(Clone, Copy, Debug, PartialEq, Eq)]
pub struct PlanError {
    pub boundary: usize,
    pub cause: ProbeError,
}

/// Whether a search at `at` succeeds: the window lies within the input and
/// holds a terminator.
pub open spec fn probe_ok(s: Seq<u8>, at: int) -> bool {
    at + WINDOW <= s.len() && next_index(s, TERMINATOR, at) < at + WINDOW
}

/// Why a search at `at` fails, where it does.
pub open spec fn probe_cause(s: Seq<u8>, at: int) -> ProbeError {
    if at + WINDOW > s.len() {
        ProbeError::WindowPastEnd
    } else {
        ProbeError::NoTerminator
    }
}

/// The place of cut `i`: the first terminator at or after `size` bytes past
/// the cut before it. Cut zero is the start of the input.
pub open spec fn cut(s: Seq<u8>, size: int, i: nat) -> int
    decreases i,
{
    if i == 0 {
        0
    } else {
        next_index(s, TERMINATOR, cut(s, size, (i - 1) as nat) + size)
    }
}

/// Range `i` of a plan of `n` ranges: it starts after cut `i`, or at the start
/// of the input, and ends at cut `i + 1`, or at the end of the input.
pub open spec fn planned(s: Seq<u8>, size: int, n: nat, i: nat) -> (int, int) {
    (
        if i == 0 {
            0
        } else {
            cut(s, size, i) + 1
        },
        if i + 1 == n {
            s.len() as int
        } else {
            cut(s, size, i + 1)
        },
    )
}

/// The size that the ranges of a plan of `n` aim for.
pub open spec fn chunk_size(s: Seq<u8>, n: nat) -> int {
    s.len() as int / n as int
}

/// The first failure among the searches for the cuts one to `k` of a plan of
/// `n` ranges; `None` where all succeed.
pub open spec fn plan_failure(s: Seq<u8>, n: nat, k: nat) -> Option<PlanError>
    decreases k,
{
    if k == 0 {
        None
    } else {
        match plan_failure(s, n, (k - 1) as nat) {
            Some(e) => Some(e),
            None => {
                let at = cut(s, chunk_size(s, n), (k - 1) as nat) + chunk_size(s, n);
                if probe_ok(s, at) {
                    None
                } else {
                    Some(PlanError { boundary: k as usize, cause: probe_cause(s, at) })
                }
            },
        }
    }
}

/// The plan of `n` ranges.
pub open spec fn plan_ranges(s: Seq<u8>, n: nat) -> Seq<ByteRange> {
    Seq::new(
        n,
        |i: int|
            ByteRange {
                start: planned(s, chunk_size(s, n), n, i as nat).0 as usize,
                end: planned(s, chunk_size(s, n), n, i as nat).1 as usize,
            },
    )
}

/// A failure at an earlier cut is the failure of the plan.
pub proof fn lemma_failure_persists(s: Seq<u8>, n: nat, k: nat, later: nat)
    requires
        k <= later,
        plan_failure(s, n, k) is Some,
    ensures
        plan_failure(s, n, later) == plan_failure(s, n, k),
    decreases later,
{
    if k < later {
        lemma_failure_persists(s, n, k, (later - 1) as nat);
    }
}

/// Whether the ranges divide the input: the first starts at its start, the
/// last ends at its end, and between two neighbours lies exactly one byte, a
/// terminator.
pub open spec fn valid_plan(s: Seq<u8>, ranges: Seq<ByteRange>) -> bool {
    &&& ranges.len() >= 1
    &&& ranges[0].start == 0
    &&& ranges[ranges.len() - 1].end == s.len()
    &&& forall|i: int|
        0 <= i < ranges.len() ==> (#[trigger] ranges[i]).start <= ranges[i].end <= s.len()
    &&& forall|i: int|
        0 <= i < ranges.len() - 1 ==> s[(#[trigger] ranges[i]).end as int] == TERMINATOR
            && ranges[i + 1].start == ranges[i].end + 1
}

/// Searches the window that starts at `seek_position` for the first
/// terminator and gives its place in the input.
pub fn next_end(bytes: &[u8], seek_position: usize) -> (r: Result<usize, ProbeError>)
    ensures
        match r {
            Ok(end) => probe_ok(bytes@, seek_position as int) && end == next_index(
                bytes@,
                TERMINATOR,
                seek_position as int,
            ),
            Err(cause) => !probe_ok(bytes@, seek_position as int) && cause == probe_cause(
                bytes@,
                seek_position as int,
            ),
        },
{
    let n = bytes.len();
    if n < WINDOW || seek_position > n - WINDOW {
        return Err(ProbeError::WindowPastEnd);
    }
    let mut pos: usize = 0;
    while pos < WINDOW
        invariant
            n == bytes@.len(),
            seek_position + WINDOW <= n,
            pos <= WINDOW,
            forall|j: int| seek_position <= j < seek_position + pos ==> bytes@[j] != TERMINATOR,
        decreases WINDOW - pos,
    {
        if bytes[seek_position + pos] == TERMINATOR {
            proof {
                lemma_next_index_is(
                    bytes@,
                    TERMINATOR,
                    seek_position as int,
                    seek_position + pos,
                );
            }
            return Ok(seek_position + pos);
        }
        pos = pos + 1;
    }
    proof {
        lemma_next_index(bytes@, TERMINATOR, seek_position as int);
    }
    Err(ProbeError::NoTerminator)
}

/// Cuts the input into `chunk_count` ranges of about equal size. Each cut is
/// searched for `len / chunk_count` bytes after the one before it and falls on
/// the first terminator found there, so no record lies in two ranges. Fails at
/// the first cut whose search fails.
pub fn chunk_sizes(bytes: &[u8], chunk_count: usize) -> (r: Result<Vec<ByteRange>, PlanError>)
    requires
        chunk_count >= 1,
        chunk_count == 1 || chunk_count <= bytes@.len(),
    ensures
        match r {
            Ok(ranges) => {
                &&& plan_failure(bytes@, chunk_count as nat, (chunk_count - 1) as nat) is None
                &&& ranges@ == plan_ranges(bytes@, chunk_count as nat)
                &&& valid_plan(bytes@, ranges@)
            },
            Err(e) => plan_failure(bytes@, chunk_count as nat, (chunk_count - 1) as nat) == Some(e),
        },
{
    let n = bytes.len();
    let size: usize = n / chunk_count;
    let ghost s = bytes@;
    let ghost count = chunk_count as nat;
    let mut result: Vec<ByteRange> = Vec::new();
    let mut prev_end: usize = 0;
    let mut start: usize = 0;
    let mut k: usize = 1;
    assert(chunk_count >= 2 ==> size >= 1) by (nonlinear_arith)
        requires
            size == n / chunk_count,
            1 <= chunk_count <= n || chunk_count == 1,
    ;
    while k < chunk_count
        invariant
            n == s.len(),
            s == bytes@,
            count == chunk_count,
            size as int == chunk_size(s, count),
            chunk_count >= 2 ==> size >= 1,
            1 <= k <= chunk_count,
            plan_failure(s, count, (k - 1) as nat) is None,
            prev_end == cut(s, size as int, (k - 1) as nat),
            prev_end <= n,
            start <= n,
            start == planned(s, size as int, count, (k - 1) as nat).0,
            result@.len() == k - 1,
            forall|i: int|
                0 <= i < k - 1 ==> ((#[trigger] result@[i]).start as int, result@[i].end as int)
                    == planned(s, size as int, count, i as nat),
            forall|i: int|
                0 <= i < k - 1 ==> (#[trigger] result@[i]).start <= result@[i].end < n && s[result@[i].end as int]
                    == TERMINATOR,
            k >= 2 ==> start == result@[k - 2].end + 1,
            k == 1 ==> start == 0,
        decreases chunk_count - k,
    {
        if size > n - prev_end {
            proof {
                lemma_failure_persists(s, count, k as nat, (chunk_count - 1) as nat);
            }
            return Err(PlanError { boundary: k, cause: ProbeError::WindowPastEnd });
        }
        let end = match next_end(bytes, prev_end + size) {
            Ok(end) => end,
            Err(cause) => {
                proof {
                    lemma_failure_persists(s, count, k as nat, (chunk_count - 1) as nat);
                }
                return Err(PlanError { boundary: k, cause });
            },
        };
        proof {
            lemma_next_index(s, TERMINATOR, prev_end + size);
            assert(cut(s, size as int, k as nat) == end);
        }
        let ghost before = result@;
        result.push(ByteRange { start, end });
        proof {
            assert forall|i: int| 0 <= i < k implies ((#[trigger] result@[i]).start as int, result@[i].end as int)
                == planned(s, size as int, count, i as nat) by {
                if i < k - 1 {
                    assert(result@[i] == before[i]);
                }
            }
            assert forall|i: int| 0 <= i < k implies (#[trigger] result@[i]).start <= result@[i].end < n
                && s[result@[i].end as int] == TERMINATOR by {
                if i < k - 1 {
                    assert(result@[i] == before[i]);
                }
            }
        }
        start = end + 1;
        prev_end = end;
        k = k + 1;
    }
    let ghost before = result@;
    result.push(ByteRange { start, end: n });
    proof {
        assert forall|i: int| 0 <= i < chunk_count implies ((#[trigger] result@[i]).start as int, result@[i].end as int)
            == planned(s, size as int, count, i as nat) by {
            if i < chunk_count - 1 {
                assert(result@[i] == before[i]);
            }
        }
        assert forall|i: int| 0 <= i < result@.len() implies (#[trigger] result@[i]).start
            <= result@[i].end <= s.len() by {
            if i < chunk_count - 1 {
                assert(result@[i] == before[i]);
            }
        }
        assert forall|i: int| 0 <= i < result@.len() - 1 implies s[(#[trigger] result@[i]).end as int]
            == TERMINATOR && result@[i + 1].start == result@[i].end + 1 by {
            assert(result@[i] == before[i]);
            if i + 1 < chunk_count - 1 {
                assert(result@[i + 1] == before[i + 1]);
                assert((result@[i + 1].start as int, result@[i + 1].end as int) == planned(
                    s,
                    size as int,
                    count,
                    (i + 1) as nat,
                ));
                assert((result@[i].start as int, result@[i].end as int) == planned(
                    s,
                    size as int,
                    count,
                    i as nat,
                ));
            }
        }
    }
    proof {
        assert(result@ =~= plan_ranges(s, count));
    }
    Ok(result)
}

} // verus!
