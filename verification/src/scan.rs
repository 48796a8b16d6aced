//! Searching a byte slice for the field delimiter.
//!
//! Three strategies are offered: byte by byte, eight bytes at a time, and the
//! vectorised search of the `memchr` crate. All three are specified by
//! [`next_index`], so they agree on every input.

use vstd::prelude::*;

verus! {

/// The byte between a station's name and its temperature: `;`.
pub const DELIMITER: u8 = 59;

/// The byte that ends a record: a line feed.
pub const TERMINATOR: u8 = 10;

/// A slice shorter than this is handed to `memchr` at once.
pub const WIDE_MIN: usize = 64;

/// The least index at or after `from` at which `s` holds `b`; the length of
/// `s` where there is none.
pub open spec fn next_index(s: Seq<u8>, b: u8, from: int) -> int
    decreases s.len() - from,
{
    if from >= s.len() {
        s.len() as int
    } else if from >= 0 && s[from] == b {
        from
    } else {
        next_index(s, b, from + 1)
    }
}

/// Whether `r` is the answer of a search for the first `b` in `s`.
pub open spec fn locates(r: Option<usize>, s: Seq<u8>, b: u8) -> bool {
    match r {
        Some(i) => i < s.len() && next_index(s, b, 0) == i,
        None => next_index(s, b, 0) == s.len(),
    }
}

/// `next_index` lies between `from` and the length, skips no `b`, and stops on one.
pub proof fn lemma_next_index(s: Seq<u8>, b: u8, from: int)
    requires
        0 <= from <= s.len(),
    ensures
        from <= next_index(s, b, from) <= s.len(),
        forall|j: int| from <= j < next_index(s, b, from) ==> s[j] != b,
        next_index(s, b, from) < s.len() ==> s[next_index(s, b, from)] == b,
    decreases s.len() - from,
{
    if from < s.len() && s[from] != b {
        lemma_next_index(s, b, from + 1);
    }
}

/// An index that skips no `b` and stops on one, or at the end, is `next_index`.
pub proof fn lemma_next_index_is(s: Seq<u8>, b: u8, from: int, i: int)
    requires
        0 <= from <= i <= s.len(),
        forall|j: int| from <= j < i ==> s[j] != b,
        i < s.len() ==> s[i] == b,
    ensures
        next_index(s, b, from) == i,
    decreases i - from,
{
    if from < i {
        lemma_next_index_is(s, b, from + 1, i);
    }
}

/// Searching the rest of `s` from `from` on finds what searching `s` from
/// `from` finds, counted from `from`.
pub proof fn lemma_next_index_rest(s: Seq<u8>, b: u8, from: int)
    requires
        0 <= from <= s.len(),
    ensures
        next_index(s.subrange(from, s.len() as int), b, 0) + from == next_index(s, b, from),
{
    let rest = s.subrange(from, s.len() as int);
    lemma_next_index(rest, b, 0);
    let k = next_index(rest, b, 0);
    assert forall|j: int| from <= j < from + k implies s[j] != b by {
        assert(rest[j - from] == s[j]);
    }
    if k < rest.len() {
        assert(rest[k] == s[from + k]);
    }
    lemma_next_index_is(s, b, from, from + k);
}

/// A search may start later, as long as it steps over no `b`.
pub proof fn lemma_next_index_advance(s: Seq<u8>, b: u8, from: int, to: int)
    requires
        0 <= from <= to <= s.len(),
        forall|j: int| from <= j < to ==> s[j] != b,
    ensures
        next_index(s, b, from) == next_index(s, b, to),
{
    lemma_next_index(s, b, to);
    lemma_next_index_is(s, b, from, next_index(s, b, to));
}

/// Searching the first `to` bytes of `s` finds what searching `s` finds, or
/// stops at `to`.
pub proof fn lemma_next_index_front(s: Seq<u8>, b: u8, from: int, to: int)
    requires
        0 <= from <= to <= s.len(),
    ensures
        next_index(s.subrange(0, to), b, from) == if next_index(s, b, from) < to {
            next_index(s, b, from)
        } else {
            to
        },
{
    let front = s.subrange(0, to);
    lemma_next_index(s, b, from);
    let k = next_index(s, b, from);
    let i = if k < to { k } else { to };
    assert forall|j: int| from <= j < i implies front[j] != b by {
        assert(front[j] == s[j]);
    }
    if i < front.len() {
        assert(front[i] == s[i]);
    }
    lemma_next_index_is(front, b, from, i);
}

/// Two answers for one search are the same answer, whichever strategy gave them.
pub proof fn lemma_strategies_agree(s: Seq<u8>, b: u8, r1: Option<usize>, r2: Option<usize>)
    requires
        locates(r1, s, b),
        locates(r2, s, b),
    ensures
        r1 == r2,
{
}

/// `memchr::memchr`: the index of the first byte of `haystack` equal to
/// `needle`, or `None` where no byte of it is.
pub assume_specification[ memchr::memchr ](needle: u8, haystack: &[u8]) -> (r: Option<usize>)
    ensures
        match r {
            Some(i) => i < haystack@.len() && haystack@[i as int] == needle && forall|j: int|
                0 <= j < i ==> haystack@[j] != needle,
            None => forall|j: int| 0 <= j < haystack@.len() ==> haystack@[j] != needle,
        },
;

/// The first `needle` in `bytes`, found by the `memchr` crate.
pub fn find_memchr(bytes: &[u8], needle: u8) -> (r: Option<usize>)
    ensures
        locates(r, bytes@, needle),
{
    let r = memchr::memchr(needle, bytes);
    proof {
        match r {
            Some(i) => lemma_next_index_is(bytes@, needle, 0, i as int),
            None => lemma_next_index_is(bytes@, needle, 0, bytes@.len() as int),
        }
    }
    r
}

/// The first `needle` in `bytes`, found one byte at a time.
pub fn find_bytewise(bytes: &[u8], needle: u8) -> (r: Option<usize>)
    ensures
        locates(r, bytes@, needle),
{
    let mut i: usize = 0;
    while i < bytes.len()
        invariant
            i <= bytes@.len(),
            forall|j: int| 0 <= j < i ==> bytes@[j] != needle,
        decreases bytes@.len() - i,
    {
        if bytes[i] == needle {
            proof {
                lemma_next_index_is(bytes@, needle, 0, i as int);
            }
            return Some(i);
        }
        i = i + 1;
    }
    proof {
        lemma_next_index_is(bytes@, needle, 0, bytes@.len() as int);
    }
    None
}

/// Eight bytes as one word, the first in the lowest place.
pub open spec fn pack8(b0: u8, b1: u8, b2: u8, b3: u8, b4: u8, b5: u8, b6: u8, b7: u8) -> u64 {
    (b0 as u64) | (b1 as u64) << 8 | (b2 as u64) << 16 | (b3 as u64) << 24 | (b4 as u64) << 32 | (
    b5 as u64) << 40 | (b6 as u64) << 48 | (b7 as u64) << 56
}

/// A word whose byte `k` has its top bit set exactly where byte `k` of `w` is
/// the delimiter.
pub open spec fn delimiter_mask(w: u64) -> u64 {
    let x = w ^ 0x3B3B_3B3B_3B3B_3B3Bu64;
    let y = ((x & 0x7F7F_7F7F_7F7F_7F7Fu64) + 0x7F7F_7F7F_7F7F_7F7Fu64) as u64;
    !(y | x | 0x7F7F_7F7F_7F7F_7F7Fu64)
}

/// A word with an empty mask holds no delimiter.
pub proof fn lemma_mask_empty(b0: u8, b1: u8, b2: u8, b3: u8, b4: u8, b5: u8, b6: u8, b7: u8)
    by (bit_vector)
    ensures
        delimiter_mask(pack8(b0, b1, b2, b3, b4, b5, b6, b7)) == 0 ==> b0 != 59 && b1 != 59 && b2
            != 59 && b3 != 59 && b4 != 59 && b5 != 59 && b6 != 59 && b7 != 59,
{
}

/// The eight bytes of `bytes` from `at` on, as one word.
fn load_word(bytes: &[u8], at: usize) -> (w: u64)
    requires
        at + 8 <= bytes@.len(),
    ensures
        w == pack8(
            bytes@[at as int],
            bytes@[at + 1],
            bytes@[at + 2],
            bytes@[at + 3],
            bytes@[at + 4],
            bytes@[at + 5],
            bytes@[at + 6],
            bytes@[at + 7],
        ),
{
    (bytes[at] as u64) | (bytes[at + 1] as u64) << 8 | (bytes[at + 2] as u64) << 16 | (bytes[at
        + 3] as u64) << 24 | (bytes[at + 4] as u64) << 32 | (bytes[at + 5] as u64) << 40 | (bytes[at
        + 6] as u64) << 48 | (bytes[at + 7] as u64) << 56
}

/// Whether the word may hold a delimiter: its mask is not empty.
fn word_has_delimiter(w: u64) -> (r: bool)
    ensures
        r == (delimiter_mask(w) != 0),
{
    let x: u64 = w ^ 0x3B3B_3B3B_3B3B_3B3Bu64;
    let low: u64 = x & 0x7F7F_7F7F_7F7F_7F7Fu64;
    assert(low <= 0x7F7F_7F7F_7F7F_7F7Fu64) by (bit_vector)
        requires
            low == x & 0x7F7F_7F7F_7F7F_7F7Fu64,
    ;
    let y: u64 = low + 0x7F7F_7F7F_7F7F_7F7Fu64;
    !(y | x | 0x7F7F_7F7F_7F7F_7F7Fu64) != 0
}

/// The first delimiter in `bytes`, found eight bytes at a time: each word is
/// compared with eight delimiters at once, a word that answers is searched
/// byte by byte, and so is the remainder shorter than a word.
pub fn find_wide(bytes: &[u8]) -> (r: Option<usize>)
    ensures
        locates(r, bytes@, DELIMITER),
{
    let n = bytes.len();
    let mut i: usize = 0;
    while n - i >= 8
        invariant
            n == bytes@.len(),
            i <= n,
            forall|j: int| 0 <= j < i ==> bytes@[j] != DELIMITER,
        decreases n - i,
    {
        let w = load_word(bytes, i);
        if word_has_delimiter(w) {
            let mut k: usize = 0;
            while k < 8
                invariant
                    n == bytes@.len(),
                    i + 8 <= n,
                    k <= 8,
                    forall|j: int| 0 <= j < i + k ==> bytes@[j] != DELIMITER,
                decreases 8 - k,
            {
                if bytes[i + k] == DELIMITER {
                    proof {
                        lemma_next_index_is(bytes@, DELIMITER, 0, i + k);
                    }
                    return Some(i + k);
                }
                k = k + 1;
            }
        } else {
            proof {
                lemma_mask_empty(
                    bytes@[i as int],
                    bytes@[i + 1],
                    bytes@[i + 2],
                    bytes@[i + 3],
                    bytes@[i + 4],
                    bytes@[i + 5],
                    bytes@[i + 6],
                    bytes@[i + 7],
                );
            }
        }
        i = i + 8;
    }
    while i < n
        invariant
            n == bytes@.len(),
            i <= n,
            forall|j: int| 0 <= j < i ==> bytes@[j] != DELIMITER,
        decreases n - i,
    {
        if bytes[i] == DELIMITER {
            proof {
                lemma_next_index_is(bytes@, DELIMITER, 0, i as int);
            }
            return Some(i);
        }
        i = i + 1;
    }
    proof {
        lemma_next_index_is(bytes@, DELIMITER, 0, n as int);
    }
    None
}

/// The first delimiter in `bytes`. A short slice goes to `memchr`, a longer
/// one is searched eight bytes at a time; the answer is the same either way.
pub fn semicolon_pos(bytes: &[u8]) -> (r: Option<usize>)
    ensures
        locates(r, bytes@, DELIMITER),
{
    if bytes.len() < WIDE_MIN {
        find_memchr(bytes, DELIMITER)
    } else {
        find_wide(bytes)
    }
}

/// The offset of the first delimiter of a slice that holds one.
pub fn find_delimiter(bytes: &[u8]) -> (offset: usize)
    requires
        exists|i: int| 0 <= i < bytes@.len() && bytes@[i] == DELIMITER,
    ensures
        offset < bytes@.len(),
        offset == next_index(bytes@, DELIMITER, 0),
{
    let r = semicolon_pos(bytes);
    proof {
        lemma_next_index(bytes@, DELIMITER, 0);
    }
    r.unwrap()
}

} // verus!
