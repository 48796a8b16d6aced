//! Rendering the merged table as one line of text.
//!
//! The line is `{name=min/mean/max, ...}`, the stations in ascending order of
//! the bytes of their names, each value with one digit after the point. The
//! mean is the sum divided by the count in exact arithmetic, rounded to the
//! nearest tenth, a tie to the even tenth.

use crate::merge::{listed, GlobalTable};
use crate::record::{MINUS, POINT, ZERO};
use crate::stats::{lemma_consistent_bounds, Stats, Weather};
use vstd::prelude::*;
use vstd::utf8::{decode_utf8, encode_utf8, valid_utf8};

verus! {

/// The digits of `n` in base ten, the highest first.
pub open spec fn decimal(n: nat) -> Seq<u8>
    decreases n,
{
    if n < 10 {
        seq![(48 + n) as u8]
    } else {
        decimal(n / 10).push((48 + n % 10) as u8)
    }
}

/// A number of tenths as text: a minus sign where asked for, the whole part,
/// a point and the last digit.
pub open spec fn tenths_text(negative: bool, magnitude: nat) -> Seq<u8> {
    (if negative {
        seq![MINUS]
    } else {
        Seq::<u8>::empty()
    }) + decimal(magnitude / 10) + seq![POINT, (48 + magnitude % 10) as u8]
}

/// The absolute value of `v`.
pub open spec fn magnitude_of(v: int) -> nat {
    if v < 0 {
        (-v) as nat
    } else {
        v as nat
    }
}

/// A signed number of tenths as text.
pub open spec fn signed_text(v: int) -> Seq<u8> {
    tenths_text(v < 0, magnitude_of(v))
}

/// The size of the mean of `count` observations that sum to `sum`: the
/// quotient rounded to the nearest whole number of tenths, a tie to the even
/// one.
pub open spec fn mean_magnitude(sum: int, count: nat) -> nat {
    let a = magnitude_of(sum);
    let q = a / count;
    let r = a % count;
    if 2 * r < count {
        q
    } else if 2 * r > count {
        q + 1
    } else if q % 2 == 0 {
        q
    } else {
        q + 1
    }
}

/// The three values of an aggregate as text: `min/mean/max`. The mean bears
/// the sign of the sum.
pub open spec fn stats_text(st: Stats) -> Seq<u8> {
    signed_text(st.min) + seq![47u8] + tenths_text(st.sum < 0, mean_magnitude(st.sum, st.count))
        + seq![47u8] + signed_text(st.max)
}

/// One station as text: `name=min/mean/max`.
pub open spec fn entry_text(name: Seq<char>, st: Stats) -> Seq<u8> {
    encode_utf8(name) + seq![61u8] + stats_text(st)
}

/// The stations `names` as text, in that order, with `, ` between two of them.
pub open spec fn joined(names: Seq<Seq<char>>, m: Map<Seq<char>, Stats>) -> Seq<u8>
    decreases names.len(),
{
    if names.len() == 0 {
        Seq::empty()
    } else if names.len() == 1 {
        entry_text(names[0], m[names[0]])
    } else {
        joined(names.drop_last(), m) + seq![44u8, 32u8] + entry_text(names.last(), m[names.last()])
    }
}

/// Whether `a` comes before `b`, or is `b`, in the order of their bytes.
pub open spec fn lex_le(a: Seq<u8>, b: Seq<u8>) -> bool
    decreases a.len(),
{
    if a.len() == 0 {
        true
    } else if b.len() == 0 {
        false
    } else if a[0] != b[0] {
        a[0] < b[0]
    } else {
        lex_le(a.subrange(1, a.len() as int), b.subrange(1, b.len() as int))
    }
}

/// Whether `names` holds the keys `dom`, each once, in ascending order of
/// their bytes.
pub open spec fn sorted_listing(names: Seq<Seq<char>>, dom: Set<Seq<char>>) -> bool {
    &&& forall|i: int, j: int| 0 <= i < j < names.len() ==> names[i] != names[j]
    &&& forall|c: Seq<char>| dom.contains(c) <==> names.contains(c)
    &&& forall|i: int, j: int|
        0 <= i < j < names.len() ==> lex_le(encode_utf8(names[i]), encode_utf8(names[j]))
}

/// The keys of the table in ascending order of their bytes.
pub open spec fn sorted_names(m: Map<Seq<char>, Stats>) -> Seq<Seq<char>> {
    choose|names: Seq<Seq<char>>| sorted_listing(names, m.dom())
}

/// The report of a table: its stations in ascending order, between braces.
pub open spec fn report_bytes(m: Map<Seq<char>, Stats>) -> Seq<u8> {
    seq![123u8] + joined(sorted_names(m), m) + seq![125u8]
}

/// Two byte strings that each come before the other are the same.
pub proof fn lemma_lex_antisymmetric(a: Seq<u8>, b: Seq<u8>)
    requires
        lex_le(a, b),
        lex_le(b, a),
    ensures
        a == b,
    decreases a.len(),
{
    if a.len() == 0 || b.len() == 0 {
        assert(a =~= b);
    } else {
        lemma_lex_antisymmetric(a.subrange(1, a.len() as int), b.subrange(1, b.len() as int));
        assert(a =~= seq![a[0]] + a.subrange(1, a.len() as int));
        assert(b =~= seq![b[0]] + b.subrange(1, b.len() as int));
    }
}

/// A set of keys has one ascending listing only.
pub proof fn lemma_sorted_listing_unique(a: Seq<Seq<char>>, b: Seq<Seq<char>>, dom: Set<Seq<char>>)
    requires
        sorted_listing(a, dom),
        sorted_listing(b, dom),
    ensures
        a == b,
    decreases a.len(),
{
    if a.len() == 0 {
        if b.len() > 0 {
            assert(b.contains(b[0]));
        }
        assert(a =~= b);
    } else {
        assert(a.contains(a[0]));
        assert(b.contains(a[0]));
        let j = choose|j: int| 0 <= j < b.len() && b[j] == a[0];
        assert(b.contains(b[0]));
        assert(a.contains(b[0]));
        let i = choose|i: int| 0 <= i < a.len() && a[i] == b[0];
        if i > 0 && j > 0 {
            lemma_lex_antisymmetric(encode_utf8(a[0]), encode_utf8(b[0]));
            vstd::utf8::encode_utf8_decode_utf8(a[0]);
            vstd::utf8::encode_utf8_decode_utf8(b[0]);
        }
        assert(a[0] == b[0]);
        let a1 = a.drop_first();
        let b1 = b.drop_first();
        let rest = dom.remove(a[0]);
        assert forall|c: Seq<char>| rest.contains(c) <==> a1.contains(c) by {
            if rest.contains(c) {
                assert(a.contains(c));
                let k = choose|k: int| 0 <= k < a.len() && a[k] == c;
                assert(a1[k - 1] == c);
            }
            if a1.contains(c) {
                let k = choose|k: int| 0 <= k < a1.len() && a1[k] == c;
                assert(a[k + 1] == c);
                assert(a.contains(c));
            }
        }
        assert forall|c: Seq<char>| rest.contains(c) <==> b1.contains(c) by {
            if rest.contains(c) {
                assert(b.contains(c));
                let k = choose|k: int| 0 <= k < b.len() && b[k] == c;
                assert(b1[k - 1] == c);
            }
            if b1.contains(c) {
                let k = choose|k: int| 0 <= k < b1.len() && b1[k] == c;
                assert(b[k + 1] == c);
                assert(b.contains(c));
            }
        }
        assert(sorted_listing(a1, rest)) by {
            assert forall|x: int, y: int| 0 <= x < y < a1.len() implies a1[x] != a1[y] && lex_le(
                encode_utf8(a1[x]),
                encode_utf8(a1[y]),
            ) by {
                assert(a1[x] == a[x + 1] && a1[y] == a[y + 1]);
            }
        }
        assert(sorted_listing(b1, rest)) by {
            assert forall|x: int, y: int| 0 <= x < y < b1.len() implies b1[x] != b1[y] && lex_le(
                encode_utf8(b1[x]),
                encode_utf8(b1[y]),
            ) by {
                assert(b1[x] == b[x + 1] && b1[y] == b[y + 1]);
            }
        }
        lemma_sorted_listing_unique(a1, b1, rest);
        assert(a =~= seq![a[0]] + a1);
        assert(b =~= seq![b[0]] + b1);
    }
}

/// The mean of a consistent aggregate lies between its minimum and its maximum.
pub proof fn lemma_mean_between(st: Stats)
    requires
        st.consistent(),
    ensures
        st.sum >= 0 ==> st.min <= mean_magnitude(st.sum, st.count) <= st.max,
        st.sum < 0 ==> st.min <= -(mean_magnitude(st.sum, st.count) as int) <= st.max,
{
    let a = magnitude_of(st.sum) as int;
    let n = st.count as int;
    let q = a / n;
    let r = a % n;
    assert(a == q * n + r && 0 <= r < n) by (nonlinear_arith)
        requires
            q == a / n,
            r == a % n,
            n >= 1,
            a >= 0,
    ;
    let m = mean_magnitude(st.sum, st.count) as int;
    assert(q <= m <= q + 1);
    assert(m == q + 1 ==> r > 0);
    if st.sum >= 0 {
        // n * min <= a = q * n + r < (q + 1) * n, and q * n <= a <= n * max
        assert(st.min <= q) by (nonlinear_arith)
            requires
                n * st.min <= q * n + r,
                r < n,
                n >= 1,
        ;
        assert(q <= st.max) by (nonlinear_arith)
            requires
                q * n + r <= n * st.max,
                r >= 0,
                n >= 1,
        ;
        assert(r > 0 ==> q + 1 <= st.max) by (nonlinear_arith)
            requires
                q * n + r <= n * st.max,
                n >= 1,
        ;
    } else {
        // n * min <= -a <= n * max, so -max <= a / n and a <= n * -min
        assert(q <= -st.min) by (nonlinear_arith)
            requires
                n * st.min <= -(q * n + r),
                r >= 0,
                n >= 1,
        ;
        assert(r > 0 ==> q + 1 <= -st.min) by (nonlinear_arith)
            requires
                n * st.min <= -(q * n + r),
                n >= 1,
        ;
        assert(-st.max <= q) by (nonlinear_arith)
            requires
                -(q * n + r) <= n * st.max,
                r < n,
                n >= 1,
        ;
    }
}

/// Bytes below 128 are UTF-8.
pub proof fn lemma_ascii_valid(a: Seq<u8>)
    requires
        forall|i: int| 0 <= i < a.len() ==> a[i] < 128,
    ensures
        valid_utf8(a),
{
    assert(a.subrange(0, 0) =~= Seq::<u8>::empty());
    assert(valid_utf8(a.subrange(0, 0)));
    vstd::utf8::partial_valid_utf8_extend_ascii_block(a, 0, a.len() as int);
    assert(a.subrange(0, a.len() as int) =~= a);
}

/// The digits of a number are bytes below 128.
pub proof fn lemma_decimal_ascii(n: nat)
    ensures
        decimal(n).len() >= 1,
        forall|i: int| 0 <= i < decimal(n).len() ==> 48 <= #[trigger] decimal(n)[i] <= 57,
    decreases n,
{
    if n >= 10 {
        lemma_decimal_ascii(n / 10);
    }
}

/// The text of a number of tenths is UTF-8.
pub proof fn lemma_tenths_text_valid(negative: bool, magnitude: nat)
    ensures
        valid_utf8(tenths_text(negative, magnitude)),
{
    lemma_decimal_ascii(magnitude / 10);
    lemma_ascii_valid(tenths_text(negative, magnitude));
}

/// The text of an aggregate is UTF-8.
pub proof fn lemma_stats_text_valid(st: Stats)
    ensures
        valid_utf8(stats_text(st)),
{
    lemma_decimal_ascii(magnitude_of(st.min) / 10);
    lemma_decimal_ascii(magnitude_of(st.max) / 10);
    lemma_decimal_ascii(mean_magnitude(st.sum, st.count) / 10);
    lemma_ascii_valid(stats_text(st));
}

/// Appends the digits of `n`.
fn push_decimal(out: &mut Vec<u8>, n: u64)
    ensures
        final(out)@ == old(out)@ + decimal(n as nat),
    decreases n,
{
    if n >= 10 {
        push_decimal(out, n / 10);
    }
    out.push(ZERO + (n % 10) as u8);
    assert(out@ =~= old(out)@ + decimal(n as nat));
}

/// Appends a number of tenths as text.
fn push_tenths(out: &mut Vec<u8>, negative: bool, magnitude: u64)
    ensures
        final(out)@ == old(out)@ + tenths_text(negative, magnitude as nat),
{
    if negative {
        out.push(MINUS);
    }
    push_decimal(out, magnitude / 10);
    out.push(POINT);
    out.push(ZERO + (magnitude % 10) as u8);
    assert(out@ =~= old(out)@ + tenths_text(negative, magnitude as nat));
}

/// The size of a sixteen-bit number.
fn magnitude16(v: i16) -> (m: u64)
    ensures
        m == magnitude_of(v as int),
{
    if v < 0 {
        (-(v as i64)) as u64
    } else {
        v as u64
    }
}

impl Weather {
    /// The size of the mean in tenths, rounded to the nearest tenth, a tie to
    /// the even one.
    pub fn mean_magnitude(&self) -> (m: u64)
        requires
            self.wf(),
        ensures
            m == mean_magnitude(self@.sum, self@.count),
    {
        proof {
            lemma_consistent_bounds(self@);
        }
        let a: u64 = if self.net_temp < 0 {
            (-(self.net_temp + 1)) as u64 + 1
        } else {
            self.net_temp as u64
        };
        let q: u64 = a / self.count;
        let r: u64 = a % self.count;
        assert(q <= a) by (nonlinear_arith)
            requires
                q == a / self.count,
                self.count >= 1,
        ;
        if 2 * r < self.count {
            q
        } else if 2 * r > self.count {
            q + 1
        } else if q % 2 == 0 {
            q
        } else {
            q + 1
        }
    }

    /// Appends `min/mean/max` to `out`.
    pub fn render_into(&self, out: &mut Vec<u8>)
        requires
            self.wf(),
        ensures
            final(out)@ == old(out)@ + stats_text(self@),
    {
        push_tenths(out, self.min_temp < 0, magnitude16(self.min_temp));
        out.push(47u8);
        let mean = self.mean_magnitude();
        push_tenths(out, self.net_temp < 0, mean);
        out.push(47u8);
        push_tenths(out, self.max_temp < 0, magnitude16(self.max_temp));
        assert(out@ =~= old(out)@ + stats_text(self@));
    }

    /// The aggregate as text: `min/mean/max`, each with one digit after the point.
    pub fn to_text(&self) -> (text: String)
        requires
            self.wf(),
        ensures
            text@ == decode_utf8(stats_text(self@)),
    {
        let mut out: Vec<u8> = Vec::new();
        self.render_into(&mut out);
        proof {
            lemma_stats_text_valid(self@);
            assert(out@ =~= stats_text(self@));
        }
        match String::from_utf8(out) {
            Ok(text) => text,
            Err(_) => String::new(),
        }
    }
}

/// The texts of a list of names.
pub open spec fn name_texts(names: Seq<String>) -> Seq<Seq<char>> {
    Seq::new(names.len(), |i: int| names[i]@)
}

/// `sort_unstable` of a slice of `String`: the same names, each as often as
/// before, in ascending order of their bytes.
#[verifier::external_body]
fn sort_names(names: &mut Vec<String>)
    ensures
        name_texts(final(names)@).to_multiset() == name_texts(old(names)@).to_multiset(),
        forall|i: int, j: int|
            0 <= i < j < final(names)@.len() ==> lex_le(
                encode_utf8(final(names)@[i]@),
                encode_utf8(final(names)@[j]@),
            ),
{
    names.sort_unstable();
}

/// A joined list with one more station at its end.
proof fn lemma_joined_step(names: Seq<Seq<char>>, m: Map<Seq<char>, Stats>, i: int)
    requires
        0 <= i < names.len(),
    ensures
        joined(names.take(i + 1), m) == if i == 0 {
            entry_text(names[0], m[names[0]])
        } else {
            joined(names.take(i), m) + seq![44u8, 32u8] + entry_text(names[i], m[names[i]])
        },
{
    assert(names.take(i + 1).drop_last() =~= names.take(i));
    assert(names.take(i + 1).last() == names[i]);
    assert(names.take(i + 1)[0] == names[0]);
}

/// Renders the table as one line: `{name=min/mean/max, ...}`, the stations in
/// ascending order of the bytes of their names. The line depends on what the
/// table holds and on nothing else, so an unchanged table gives the same line
/// again.
pub fn format_report(table: &GlobalTable) -> (text: String)
    requires
        table.wf(),
    ensures
        valid_utf8(report_bytes(table@)),
        text@ == decode_utf8(report_bytes(table@)),
{
    let ghost m = table@;
    let mut names: Vec<String> = Vec::new();
    let mut i: usize = 0;
    while i < table.names.len()
        invariant
            i <= table.names@.len(),
            names@.len() == i,
            forall|j: int| 0 <= j < i ==> (#[trigger] names@[j])@ == table.names@[j]@,
        decreases table.names@.len() - i,
    {
        names.push(table.names[i].clone());
        i = i + 1;
    }
    let ghost listing = name_texts(table.names@);
    let ghost copied = name_texts(names@);
    assert(copied =~= listing);
    sort_names(&mut names);
    let ghost order = name_texts(names@);
    proof {
        order.to_multiset_ensures();
        listing.to_multiset_ensures();
        assert(listing.no_duplicates()) by {
            assert forall|a: int, b: int|
                0 <= a < listing.len() && 0 <= b < listing.len() && a != b implies listing[a]
                != listing[b] by {
                if a < b {
                    assert(table.names@[a]@ != table.names@[b]@);
                } else {
                    assert(table.names@[b]@ != table.names@[a]@);
                }
            }
        }
        listing.lemma_multiset_has_no_duplicates();
        order.lemma_multiset_has_no_duplicates_conv();
        assert forall|c: Seq<char>| m.dom().contains(c) <==> order.contains(c) by {
            if m.dom().contains(c) {
                assert(listed(table.names@, c));
                let a = choose|a: int|
                    0 <= a < table.names@.len() && (#[trigger] table.names@[a])@ == c;
                assert(listing[a] == c);
                assert(listing.contains(c));
                assert(order.to_multiset().count(c) > 0);
            }
            if order.contains(c) {
                assert(listing.to_multiset().count(c) > 0);
                assert(listing.contains(c));
                let a = choose|a: int| 0 <= a < listing.len() && listing[a] == c;
                assert(table.names@[a]@ == c);
                assert(listed(table.names@, c));
            }
        }
        assert forall|a: int, b: int| 0 <= a < b < order.len() implies lex_le(
            encode_utf8(order[a]),
            encode_utf8(order[b]),
        ) by {
            assert(order[a] == names@[a]@ && order[b] == names@[b]@);
        }
        assert(sorted_listing(order, m.dom()));
        lemma_sorted_listing_unique(order, sorted_names(m), m.dom());
    }
    let mut out: Vec<u8> = Vec::new();
    out.push(123u8);
    proof {
        lemma_ascii_valid(out@);
        assert(order.take(0) =~= Seq::<Seq<char>>::empty());
        assert(out@ =~= seq![123u8] + joined(order.take(0), m));
    }
    let mut k: usize = 0;
    while k < names.len()
        invariant
            k <= names@.len(),
            table.wf(),
            m == table@,
            order == name_texts(names@),
            forall|c: Seq<char>| m.dom().contains(c) <==> order.contains(c),
            valid_utf8(out@),
            out@ == seq![123u8] + joined(order.take(k as int), m),
        decreases names@.len() - k,
    {
        let ghost before = out@;
        if k > 0 {
            out.push(44u8);
            out.push(32u8);
        }
        let name = &names[k];
        out.extend_from_slice(name.as_str().as_bytes());
        out.push(61u8);
        let ghost head = out@;
        proof {
            assert(order[k as int] == name@);
            assert(order.contains(name@));
            assert(m.dom().contains(name@));
            let sep = if k > 0 {
                seq![44u8, 32u8]
            } else {
                Seq::<u8>::empty()
            };
            assert(head =~= before + sep + encode_utf8(name@) + seq![61u8]);
        }
        match table.map.get(name.as_str()) {
            Some(w) => {
                w.render_into(&mut out);
            },
            None => {},
        }
        proof {
            let st = m[name@];
            let sep = if k > 0 {
                seq![44u8, 32u8]
            } else {
                Seq::<u8>::empty()
            };
            lemma_joined_step(order, m, k as int);
            assert(out@ =~= before + sep + entry_text(name@, st));
            assert(out@ =~= seq![123u8] + joined(order.take(k + 1), m));
            lemma_ascii_valid(sep);
            lemma_ascii_valid(seq![61u8]);
            lemma_stats_text_valid(st);
            vstd::utf8::encode_utf8_valid_utf8(name@);
            vstd::utf8::valid_utf8_concat(before, sep);
            vstd::utf8::valid_utf8_concat(before + sep, encode_utf8(name@));
            vstd::utf8::valid_utf8_concat(before + sep + encode_utf8(name@), seq![61u8]);
            vstd::utf8::valid_utf8_concat(head, stats_text(st));
            assert(out@ =~= head + stats_text(st));
        }
        k = k + 1;
    }
    let ghost body = out@;
    out.push(125u8);
    proof {
        assert(order.take(order.len() as int) =~= order);
        assert(out@ =~= report_bytes(m));
        lemma_ascii_valid(seq![125u8]);
        vstd::utf8::valid_utf8_concat(body, seq![125u8]);
        assert(out@ =~= body + seq![125u8]);
    }
    match String::from_utf8(out) {
        Ok(text) => text,
        Err(_) => String::new(),
    }
}

} // verus!
