//! Folding one range of records into a table of per-station statistics.

use crate::record::{read_record, record_at, records, stop, well_formed, Record};
use crate::stats::{Stats, Weather, MAX_COUNT};
use ahash::AHashMap;
use std::string::FromUtf8Error;
use vstd::prelude::*;
use vstd::slice::slice_subrange;
use vstd::utf8::{decode_utf8, encode_utf8, valid_utf8};

verus! {

/// How many stations a fresh table has room for.
pub const STATION_ROOM: usize = 20000;

/// `ahash::AHashMap`, the hash table that a range is folded into.
#[verifier::external_type_specification]
#[verifier::external_body]
#[verifier::reject_recursive_types(K)]
#[verifier::reject_recursive_types(V)]
#[verifier::reject_recursive_types(S)]
pub struct ExAHashMap<K, V, S>(AHashMap<K, V, S>);

/// `ahash::RandomState`, the hasher of that table.
#[verifier::external_type_specification]
#[verifier::external_body]
pub struct ExRandomState(ahash::RandomState);

/// `std::string::FromUtf8Error`, the error of `String::from_utf8`.
#[verifier::external_type_specification]
#[verifier::external_body]
pub struct ExFromUtf8Error(FromUtf8Error);

/// What a table holds: the aggregate of each name in it.
pub uninterp spec fn table_contents(t: AHashMap<&[u8], Weather>) -> Map<Seq<u8>, Weather>;

/// `AHashMap::with_capacity`: a table that holds nothing.
#[verifier::external_body]
fn table_with_capacity<'a>(capacity: usize) -> (table: AHashMap<&'a [u8], Weather>)
    requires
        capacity <= 0x10_0000,
    ensures
        table_contents(table).dom() == Set::<Seq<u8>>::empty(),
{
    AHashMap::with_capacity(capacity)
}

/// `AHashMap::get_mut`: the aggregate stored under `key`, to be changed in
/// place, or `None` where the table has no such key. Nothing else in the
/// table changes.
#[verifier::external_body]
fn table_get_mut<'a, 'b>(t: &'b mut AHashMap<&'a [u8], Weather>, key: &'a [u8]) -> (r: Option<
    &'b mut Weather,
>)
    ensures
        match r {
            Some(v) => {
                &&& table_contents(*old(t)).dom().contains(key@)
                &&& *v == table_contents(*old(t))[key@]
                &&& table_contents(*final(t)) == table_contents(*old(t)).insert(key@, *final(v))
            },
            None => {
                &&& !table_contents(*old(t)).dom().contains(key@)
                &&& table_contents(*final(t)) == table_contents(*old(t))
            },
        },
{
    t.get_mut(&key)
}

/// `AHashMap::insert`: afterwards the table holds `value` under `key`, and
/// under every other key what it held before.
#[verifier::external_body]
fn table_insert<'a>(t: &mut AHashMap<&'a [u8], Weather>, key: &'a [u8], value: Weather)
    ensures
        table_contents(*final(t)) == table_contents(*old(t)).insert(key@, value),
{
    t.insert(key, value);
}

/// `HashMap::iter`, reached through `AHashMap`'s `Deref`: every key of the
/// table once, in no stated order, each with its aggregate.
#[verifier::external_body]
fn table_entries(t: &AHashMap<&[u8], Weather>) -> (r: Vec<(Vec<u8>, Weather)>)
    ensures
        forall|i: int|
            0 <= i < r@.len() ==> table_contents(*t).contains_pair(
                (#[trigger] r@[i]).0@,
                r@[i].1,
            ),
        forall|k: Seq<u8>|
            table_contents(*t).dom().contains(k) ==> exists|i: int|
                0 <= i < r@.len() && (#[trigger] r@[i]).0@ == k,
        forall|i: int, j: int| 0 <= i < j < r@.len() ==> r@[i].0@ != r@[j].0@,
{
    t.iter().map(|(k, v)| (k.to_vec(), *v)).collect()
}

/// `String::from_utf8`: the text that `vec` encodes where it is UTF-8, and an
/// error where it is not.
pub assume_specification[ String::from_utf8 ](vec: Vec<u8>) -> (r: Result<String, FromUtf8Error>)
    ensures
        match r {
            Ok(s) => valid_utf8(vec@) && s@ == decode_utf8(vec@),
            Err(_) => !valid_utf8(vec@),
        },
;

/// The table after one more record: a new station starts with the single
/// observation, a known one has it folded in.
pub open spec fn observe_into(t: Map<Seq<u8>, Stats>, r: Record) -> Map<Seq<u8>, Stats> {
    if t.dom().contains(r.name) {
        t.insert(r.name, t[r.name].observe(r.temp))
    } else {
        t.insert(r.name, Stats::single(r.temp))
    }
}

/// The table of a sequence of records, folded left to right.
pub open spec fn table_of(rs: Seq<Record>) -> Map<Seq<u8>, Stats>
    decreases rs.len(),
{
    if rs.len() == 0 {
        Map::empty()
    } else {
        observe_into(table_of(rs.drop_last()), rs.last())
    }
}

/// The temperatures of the records of the station `name`, in their order.
pub open spec fn temps_of(rs: Seq<Record>, name: Seq<u8>) -> Seq<int>
    decreases rs.len(),
{
    if rs.len() == 0 {
        Seq::empty()
    } else if rs.last().name == name {
        temps_of(rs.drop_last(), name).push(rs.last().temp)
    } else {
        temps_of(rs.drop_last(), name)
    }
}

/// The table holds the stations that occur in the records, and for each the
/// aggregate of all its temperatures.
pub proof fn lemma_table_is_stats(rs: Seq<Record>)
    ensures
        forall|name: Seq<u8>| #[trigger]
            table_of(rs).dom().contains(name) <==> temps_of(rs, name).len() > 0,
        forall|name: Seq<u8>| #[trigger]
            table_of(rs).dom().contains(name) ==> temps_of(rs, name).len() >= 1 && table_of(
                rs,
            )[name] == Stats::of(temps_of(rs, name)),
    decreases rs.len(),
{
    if rs.len() > 0 {
        let front = rs.drop_last();
        let x = rs.last();
        lemma_table_is_stats(front);
        assert forall|name: Seq<u8>| #[trigger]
            table_of(rs).dom().contains(name) <==> temps_of(rs, name).len() > 0 by {
            assert(table_of(front).dom().contains(name) <==> temps_of(front, name).len() > 0);
            if name != x.name {
                assert(table_of(rs).dom().contains(name) == table_of(front).dom().contains(name));
            }
        }
        assert forall|name: Seq<u8>| #[trigger]
            table_of(rs).dom().contains(name) implies temps_of(rs, name).len() >= 1 && table_of(
            rs,
        )[name] == Stats::of(temps_of(rs, name)) by {
            if name == x.name {
                let seen = temps_of(front, name);
                assert(temps_of(rs, name).drop_last() =~= seen);
                if table_of(front).dom().contains(name) {
                    assert(seen.len() > 0);
                }
            } else {
                assert(table_of(front).dom().contains(name));
            }
        }
    }
}

/// Input of exactly one record gives one station, whose minimum and maximum
/// are the record's temperature, whose sum is that temperature, and whose
/// count is one.
pub proof fn lemma_single_record(s: Seq<u8>)
    requires
        records(s, 0).len() == 1,
    ensures
        table_of(records(s, 0)).dom() == set![records(s, 0)[0].name],
        table_of(records(s, 0))[records(s, 0)[0].name] == Stats::single(records(s, 0)[0].temp),
        table_of(records(s, 0))[records(s, 0)[0].name].min == table_of(
            records(s, 0),
        )[records(s, 0)[0].name].max,
        table_of(records(s, 0))[records(s, 0)[0].name].count == 1,
{
    let rs = records(s, 0);
    assert(rs.drop_last() =~= Seq::<Record>::empty());
    assert(table_of(rs.drop_last()) =~= Map::<Seq<u8>, Stats>::empty());
    assert(table_of(rs).dom() =~= set![rs[0].name]);
}

/// The values of the aggregates of a table.
pub open spec fn stats_table(m: Map<Seq<u8>, Weather>) -> Map<Seq<u8>, Stats> {
    Map::new(|k: Seq<u8>| m.dom().contains(k), |k: Seq<u8>| m[k]@)
}

/// The table keyed by text: each name that is UTF-8, under the text it encodes.
pub open spec fn text_table(t: Map<Seq<u8>, Stats>) -> Map<Seq<char>, Stats> {
    Map::new(|c: Seq<char>| t.dom().contains(encode_utf8(c)), |c: Seq<char>| t[encode_utf8(c)])
}

/// Whether every name in the table is UTF-8.
pub open spec fn names_are_text(t: Map<Seq<u8>, Stats>) -> bool {
    forall|k: Seq<u8>| t.dom().contains(k) ==> valid_utf8(k)
}

/// The map that a list of entries stands for; a later entry replaces an
/// earlier one of the same name.
pub open spec fn entries_map(es: Seq<(String, Weather)>) -> Map<Seq<char>, Stats>
    decreases es.len(),
{
    if es.len() == 0 {
        Map::empty()
    } else {
        entries_map(es.drop_last()).insert(es.last().0@, es.last().1@)
    }
}

/// Whether no name occurs twice in the list.
pub open spec fn distinct_names(es: Seq<(String, Weather)>) -> bool {
    forall|i: int, j: int| 0 <= i < j < es.len() ==> es[i].0@ != es[j].0@
}

/// The names of a list without repeats are the keys of its map, and each
/// entry's aggregate is the value under its name.
pub proof fn lemma_entries_map(es: Seq<(String, Weather)>)
    requires
        distinct_names(es),
    ensures
        forall|c: Seq<char>|
            entries_map(es).dom().contains(c) <==> exists|i: int|
                0 <= i < es.len() && (#[trigger] es[i]).0@ == c,
        forall|i: int| 0 <= i < es.len() ==> entries_map(es)[(#[trigger] es[i]).0@] == es[i].1@,
        entries_map(es).dom().finite(),
    decreases es.len(),
{
    if es.len() > 0 {
        let front = es.drop_last();
        lemma_entries_map(front);
        assert forall|c: Seq<char>|
            entries_map(es).dom().contains(c) <==> exists|i: int|
                0 <= i < es.len() && (#[trigger] es[i]).0@ == c by {
            if entries_map(es).dom().contains(c) {
                if c == es.last().0@ {
                    assert(es[es.len() - 1].0@ == c);
                } else {
                    let i = choose|i: int| 0 <= i < front.len() && (#[trigger] front[i]).0@ == c;
                    assert(es[i].0@ == c);
                }
            }
            if exists|i: int| 0 <= i < es.len() && (#[trigger] es[i]).0@ == c {
                let i = choose|i: int| 0 <= i < es.len() && (#[trigger] es[i]).0@ == c;
                if i < front.len() {
                    assert(front[i].0@ == c);
                }
            }
        }
        assert forall|i: int| 0 <= i < es.len() implies entries_map(es)[(#[trigger] es[i]).0@]
            == es[i].1@ by {
            if i < front.len() {
                assert(front[i] == es[i]);
                assert(es[i].0@ != es[es.len() - 1].0@);
            }
        }
    }
}

/// Whether entry `j` of `es` is entry `j` from the end of `raw`, its name decoded.
pub open spec fn decoded_from(es: Seq<(String, Weather)>, raw: Seq<(Vec<u8>, Weather)>, j: int) -> bool {
    &&& valid_utf8(raw[raw.len() - 1 - j].0@)
    &&& es[j].0@ == decode_utf8(raw[raw.len() - 1 - j].0@)
    &&& es[j].1 == raw[raw.len() - 1 - j].1
}

/// Why a range could not be folded.
#[derive(Clone, Copy, Debug, PartialEq, Eq)]
pub enum BatchError {
    /// The line that starts at `offset` is no record.
    Malformed { offset: usize },
    /// A station's name is not UTF-8.
    NameNotText,
}

/// What folding the records of `s` gives: the table keyed by text, or the
/// reason why there is none.
pub open spec fn batch_outcome(s: Seq<u8>) -> Result<Map<Seq<char>, Stats>, BatchError> {
    if !well_formed(s) {
        Err(BatchError::Malformed { offset: stop(s, 0) as usize })
    } else if !names_are_text(table_of(records(s, 0))) {
        Err(BatchError::NameNotText)
    } else {
        Ok(text_table(table_of(records(s, 0))))
    }
}

/// The statistics of one range of records, keyed by the station's name as text.
pub struct WeatherBatch {
    pub entries: Vec<(String, Weather)>,
}

impl View for WeatherBatch {
    type V = Map<Seq<char>, Stats>;

    open spec fn view(&self) -> Map<Seq<char>, Stats> {
        entries_map(self.entries@)
    }
}

/// Folds the records of `bytes` into a table keyed by the bytes of the name.
/// Stops at the first line that is no record and gives its offset.
fn fold_records<'a>(bytes: &'a [u8]) -> (r: Result<AHashMap<&'a [u8], Weather>, usize>)
    requires
        bytes@.len() <= MAX_COUNT,
    ensures
        match r {
            Ok(table) => {
                &&& well_formed(bytes@)
                &&& stats_table(table_contents(table)) == table_of(records(bytes@, 0))
                &&& forall|k: Seq<u8>| #[trigger]
                    table_contents(table).dom().contains(k) ==> table_contents(table)[k].wf()
            },
            Err(offset) => !well_formed(bytes@) && offset == stop(bytes@, 0),
        },
{
    let n = bytes.len();
    let mut table = table_with_capacity(STATION_ROOM);
    let mut pos: usize = 0;
    let ghost mut done: Seq<Record> = Seq::empty();
    assert(stats_table(table_contents(table)) =~= table_of(done));
    while pos < n
        invariant
            n == bytes@.len(),
            n <= MAX_COUNT,
            pos <= n,
            stop(bytes@, 0) == stop(bytes@, pos as int),
            records(bytes@, 0) == done + records(bytes@, pos as int),
            done.len() <= pos,
            stats_table(table_contents(table)) == table_of(done),
            forall|k: Seq<u8>| #[trigger]
                table_contents(table).dom().contains(k) ==> table_contents(table)[k].wf()
                    && table_contents(table)[k].count <= done.len(),
        decreases n - pos,
    {
        let x = match read_record(bytes, pos) {
            Some(x) => x,
            None => {
                return Err(pos);
            },
        };
        let name = slice_subrange(bytes, pos, x.name_end);
        let ghost before = table_contents(table);
        let ghost rec = record_at(bytes@, pos as int);
        assert(name@ == rec.name);
        match table_get_mut(&mut table, name) {
            Some(v) => {
                v.add(x.tenths);
            },
            None => {
                table_insert(&mut table, name, Weather::new(x.tenths));
            },
        }
        proof {
            let after = table_contents(table);
            assert(after.dom() =~= before.dom().insert(rec.name));
            assert(stats_table(after) =~= observe_into(stats_table(before), rec));
            assert(done.push(rec).drop_last() =~= done);
            assert(done + (seq![rec] + records(bytes@, x.next as int)) =~= done.push(rec) + records(
                bytes@,
                x.next as int,
            ));
            done = done.push(rec);
        }
        pos = x.next;
    }
    proof {
        assert(done + records(bytes@, pos as int) =~= done);
    }
    Ok(table)
}

impl WeatherBatch {
    /// The invariant of a batch: no name twice, and every aggregate well formed.
    pub open spec fn wf(&self) -> bool {
        &&& distinct_names(self.entries@)
        &&& forall|i: int| 0 <= i < self.entries@.len() ==> (#[trigger] self.entries@[i]).1.wf()
    }

    /// Folds the records of `bytes` into a batch: a station seen for the first
    /// time starts with that one observation, a station seen before has the
    /// observation folded in. The names are decoded to text once, at the end.
    pub fn new(bytes: &[u8]) -> (r: Result<WeatherBatch, BatchError>)
        requires
            bytes@.len() <= MAX_COUNT,
        ensures
            match r {
                Ok(batch) => batch.wf() && (batch_outcome(bytes@) matches Ok(m) && m == batch@),
                Err(e) => (batch_outcome(bytes@) matches Err(x) && x == e),
            },
    {
        let table = match fold_records(bytes) {
            Ok(table) => table,
            Err(offset) => {
                return Err(BatchError::Malformed { offset });
            },
        };
        let ghost folded = table_of(records(bytes@, 0));
        let ghost held = table_contents(table);
        let mut raw = table_entries(&table);
        let ghost all = raw@;
        let mut entries: Vec<(String, Weather)> = Vec::new();
        while raw.len() > 0
            invariant
                raw@.len() <= all.len(),
                raw@ == all.subrange(0, raw@.len() as int),
                entries@.len() == all.len() - raw@.len(),
                forall|j: int| 0 <= j < entries@.len() ==> decoded_from(entries@, all, j),
                well_formed(bytes@),
                folded == table_of(records(bytes@, 0)),
                stats_table(held) == folded,
                forall|i: int|
                    0 <= i < all.len() ==> held.contains_pair((#[trigger] all[i]).0@, all[i].1),
            decreases raw@.len(),
        {
            let ghost at = raw@.len() - 1;
            let ghost built = entries@;
            let (key, stats) = raw.pop().unwrap();
            assert(key@ == all[at].0@ && stats == all[at].1);
            let name = match String::from_utf8(key) {
                Ok(name) => name,
                Err(_) => {
                    proof {
                        assert(held.contains_pair(all[at].0@, all[at].1));
                        assert(folded.dom().contains(all[at].0@));
                    }
                    return Err(BatchError::NameNotText);
                },
            };
            entries.push((name, stats));
            proof {
                assert(all.len() - 1 - built.len() == at);
                assert forall|j: int| 0 <= j < entries@.len() implies decoded_from(
                    entries@,
                    all,
                    j,
                ) by {
                    if j < built.len() {
                        assert(decoded_from(built, all, j));
                        assert(entries@[j] == built[j]);
                    }
                }
            }
        }
        let batch = WeatherBatch { entries };
        proof {
            let es = batch.entries@;
            let last = all.len() - 1;
            assert(es.len() == all.len());
            assert forall|i: int, j: int| 0 <= i < j < es.len() implies es[i].0@ != es[j].0@ by {
                assert(decoded_from(es, all, i) && decoded_from(es, all, j));
                vstd::utf8::decode_utf8_encode_utf8(all[last - i].0@);
                vstd::utf8::decode_utf8_encode_utf8(all[last - j].0@);
                assert(all[last - j].0@ != all[last - i].0@);
            }
            lemma_entries_map(es);
            assert forall|k: Seq<u8>| folded.dom().contains(k) implies valid_utf8(k) by {
                assert(held.dom().contains(k));
                let i = choose|i: int| 0 <= i < all.len() && (#[trigger] all[i]).0@ == k;
                assert(decoded_from(es, all, last - i));
            }
            assert forall|c: Seq<char>| entries_map(es).dom().contains(c) implies text_table(
                folded,
            ).dom().contains(c) && entries_map(es)[c] == text_table(folded)[c] by {
                let j = choose|j: int| 0 <= j < es.len() && (#[trigger] es[j]).0@ == c;
                assert(decoded_from(es, all, j));
                let k = all[last - j].0@;
                vstd::utf8::decode_utf8_encode_utf8(k);
                assert(held.contains_pair(all[last - j].0@, all[last - j].1));
                assert(folded.dom().contains(k));
            }
            assert forall|c: Seq<char>| text_table(folded).dom().contains(c) implies entries_map(
                es,
            ).dom().contains(c) by {
                let k = encode_utf8(c);
                assert(held.dom().contains(k));
                let i = choose|i: int| 0 <= i < all.len() && (#[trigger] all[i]).0@ == k;
                vstd::utf8::encode_utf8_decode_utf8(c);
                assert(decoded_from(es, all, last - i));
                assert(es[last - i].0@ == c);
            }
            assert(entries_map(es) =~= text_table(folded));
            assert forall|i: int| 0 <= i < es.len() implies (#[trigger] es[i]).1.wf() by {
                assert(decoded_from(es, all, i));
                assert(held.contains_pair(all[last - i].0@, all[last - i].1));
            }
        }
        Ok(batch)
    }
}

} // verus!
