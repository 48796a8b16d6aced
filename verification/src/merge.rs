//! Merging the tables of several ranges into one.

use crate::batch::{distinct_names, entries_map, lemma_entries_map, WeatherBatch};
use crate::stats::{Stats, Weather, MAX_COUNT};
use vstd::hash_map::StringHashMap;
use vstd::prelude::*;

verus! {

/// Two tables as one: a key of both has its aggregates combined, a key of one
/// keeps its aggregate.
pub open spec fn merge_maps<K>(a: Map<K, Stats>, b: Map<K, Stats>) -> Map<K, Stats> {
    Map::new(
        |k: K| a.dom().contains(k) || b.dom().contains(k),
        |k: K|
            if a.dom().contains(k) && b.dom().contains(k) {
                a[k].combine(b[k])
            } else if a.dom().contains(k) {
                a[k]
            } else {
                b[k]
            },
    )
}

/// A sequence of tables as one, merged left to right from the empty table.
pub open spec fn merged<K>(tables: Seq<Map<K, Stats>>) -> Map<K, Stats>
    decreases tables.len(),
{
    if tables.len() == 0 {
        Map::empty()
    } else {
        merge_maps(merged(tables.drop_last()), tables.last())
    }
}

/// Whether every aggregate of the table is within the count limit.
pub open spec fn within_limit<K>(m: Map<K, Stats>) -> bool {
    forall|k: K| m.dom().contains(k) ==> (#[trigger] m[k]).count <= MAX_COUNT
}

/// Merging is commutative: either order of two tables gives the same table.
pub proof fn lemma_merge_commutative<K>(a: Map<K, Stats>, b: Map<K, Stats>)
    ensures
        merge_maps(a, b) == merge_maps(b, a),
{
    assert(merge_maps(a, b) =~= merge_maps(b, a));
}

/// Merging is associative: either grouping of three tables gives the same table.
pub proof fn lemma_merge_associative<K>(a: Map<K, Stats>, b: Map<K, Stats>, c: Map<K, Stats>)
    ensures
        merge_maps(merge_maps(a, b), c) == merge_maps(a, merge_maps(b, c)),
{
    assert(merge_maps(merge_maps(a, b), c) =~= merge_maps(a, merge_maps(b, c)));
}

/// Merging with the empty table changes nothing.
pub proof fn lemma_merge_empty<K>(a: Map<K, Stats>)
    ensures
        merge_maps(Map::empty(), a) == a,
        merge_maps(a, Map::empty()) == a,
{
    assert(merge_maps(Map::empty(), a) =~= a);
    assert(merge_maps(a, Map::empty()) =~= a);
}

/// Any table of a sequence may be merged last.
pub proof fn lemma_merged_move_last<K>(tables: Seq<Map<K, Stats>>, i: int)
    requires
        0 <= i < tables.len(),
    ensures
        merged(tables) == merge_maps(merged(tables.remove(i)), tables[i]),
    decreases tables.len(),
{
    let last = tables.len() - 1;
    if i == last {
        assert(tables.remove(i) =~= tables.drop_last());
    } else {
        let front = tables.drop_last();
        lemma_merged_move_last(front, i);
        assert(front.remove(i) =~= tables.remove(i).drop_last());
        assert(tables.remove(i).last() == tables.last());
        let rest = merged(front.remove(i));
        lemma_merge_associative(rest, tables[i], tables.last());
        lemma_merge_commutative(tables[i], tables.last());
        lemma_merge_associative(rest, tables.last(), tables[i]);
    }
}

/// Merging does not depend on the order of the tables: two sequences that
/// hold the same tables, each as often as the other, merge to the same table.
pub proof fn lemma_merged_permutation<K>(s1: Seq<Map<K, Stats>>, s2: Seq<Map<K, Stats>>)
    requires
        s1.to_multiset() == s2.to_multiset(),
    ensures
        merged(s1) == merged(s2),
    decreases s2.len(),
{
    s1.to_multiset_ensures();
    s2.to_multiset_ensures();
    assert(s1.len() == s2.len());
    if s2.len() > 0 {
        let x = s2.last();
        assert(s2.contains(x));
        assert(s2.to_multiset().count(x) > 0);
        assert(s1.to_multiset().count(x) > 0);
        assert(s1.contains(x));
        let i = choose|i: int| 0 <= i < s1.len() && s1[i] == x;
        assert(s2.drop_last() =~= s2.remove(s2.len() - 1));
        assert(s1.remove(i).to_multiset() =~= s1.to_multiset().remove(x));
        assert(s2.remove(s2.len() - 1).to_multiset() =~= s2.to_multiset().remove(x));
        assert(s1.remove(i).to_multiset() == s2.drop_last().to_multiset());
        lemma_merged_permutation(s1.remove(i), s2.drop_last());
        lemma_merged_move_last(s1, i);
    }
}

/// Merging further tables can only add stations and raise counts.
pub proof fn lemma_merged_grows<K>(tables: Seq<Map<K, Stats>>, n: int)
    requires
        0 <= n <= tables.len(),
    ensures
        forall|k: K| #[trigger]
            merged(tables.take(n)).dom().contains(k) ==> merged(tables).dom().contains(k)
                && merged(tables.take(n))[k].count <= merged(tables)[k].count,
    decreases tables.len() - n,
{
    if n == tables.len() {
        assert(tables.take(n) =~= tables);
    } else {
        lemma_merged_grows(tables.drop_last(), n);
        assert(tables.drop_last().take(n) =~= tables.take(n));
    }
}

/// Whether some name of the list spells `c`.
pub open spec fn listed(names: Seq<String>, c: Seq<char>) -> bool {
    exists|i: int| 0 <= i < names.len() && (#[trigger] names[i])@ == c
}

/// The statistics of every station of the input, keyed by the station's name.
pub struct GlobalTable {
    pub map: StringHashMap<Weather>,
    pub names: Vec<String>,
}

impl View for GlobalTable {
    type V = Map<Seq<char>, Stats>;

    open spec fn view(&self) -> Map<Seq<char>, Stats> {
        Map::new(|c: Seq<char>| self.map@.dom().contains(c), |c: Seq<char>| self.map@[c]@)
    }
}

impl GlobalTable {
    /// The invariant of the table: the list of names holds each key once and
    /// nothing else, and every aggregate is well formed.
    pub open spec fn wf(&self) -> bool {
        &&& forall|i: int, j: int|
            0 <= i < j < self.names@.len() ==> self.names@[i]@ != self.names@[j]@
        &&& forall|c: Seq<char>| self.map@.dom().contains(c) <==> listed(self.names@, c)
        &&& forall|c: Seq<char>| self.map@.dom().contains(c) ==> (#[trigger] self.map@[c]).wf()
    }

    /// The table of no station.
    pub fn new() -> (table: GlobalTable)
        ensures
            table.wf(),
            table@ == Map::<Seq<char>, Stats>::empty(),
    {
        let table = GlobalTable { map: StringHashMap::new(), names: Vec::new() };
        assert(table@ =~= Map::<Seq<char>, Stats>::empty());
        table
    }

    /// How many stations the table holds.
    pub fn len(&self) -> (n: usize)
        requires
            self.wf(),
        ensures
            n == self.names@.len(),
    {
        self.names.len()
    }

    /// The aggregate of the station `name`, where the table holds one.
    pub fn get(&self, name: &str) -> (r: Option<Weather>)
        requires
            self.wf(),
        ensures
            match r {
                Some(w) => self@.dom().contains(name@) && w@ == self@[name@] && w.wf(),
                None => !self@.dom().contains(name@),
            },
    {
        match self.map.get(name) {
            Some(w) => Some(*w),
            None => None,
        }
    }
}

impl WeatherBatch {
    /// Folds this batch into `result`: a station new to `result` gets a copy of
    /// its aggregate, a station known to it has the two aggregates combined.
    pub fn append_to(&self, result: &mut GlobalTable)
        requires
            self.wf(),
            old(result).wf(),
            within_limit(merge_maps(old(result)@, self@)),
        ensures
            final(result).wf(),
            final(result)@ == merge_maps(old(result)@, self@),
    {
        let ghost start = result@;
        let ghost es = self.entries@;
        let mut i: usize = 0;
        proof {
            lemma_entries_map(es);
            assert(es.take(0) =~= Seq::<(String, Weather)>::empty());
            assert(result@ =~= merge_maps(start, entries_map(es.take(0))));
        }
        while i < self.entries.len()
            invariant
                i <= es.len(),
                es == self.entries@,
                self.wf(),
                result.wf(),
                within_limit(merge_maps(start, self@)),
                result@ == merge_maps(start, entries_map(es.take(i as int))),
            decreases es.len() - i,
        {
            let entry = &self.entries[i];
            let name: String = entry.0.clone();
            let stats: Weather = entry.1;
            let ghost seen = entries_map(es.take(i as int));
            let ghost before = result@;
            let ghost names_before = result.names@;
            let ghost map_before = result.map@;
            proof {
                lemma_entries_map(es);
                assert(distinct_names(es.take(i as int))) by {
                    assert forall|a: int, b: int| 0 <= a < b < es.take(i as int).len() implies es.take(
                        i as int,
                    )[a].0@ != es.take(i as int)[b].0@ by {
                        assert(es.take(i as int)[a] == es[a] && es.take(i as int)[b] == es[b]);
                    }
                }
                lemma_entries_map(es.take(i as int));
                assert(!seen.dom().contains(name@)) by {
                    if seen.dom().contains(name@) {
                        let a = choose|a: int|
                            0 <= a < es.take(i as int).len() && (#[trigger] es.take(i as int)[a]).0@
                                == name@;
                        assert(es.take(i as int)[a] == es[a]);
                        assert(es[a].0@ != es[i as int].0@);
                    }
                }
                assert(es.take(i + 1).drop_last() =~= es.take(i as int));
                assert(entries_map(es.take(i + 1)) == seen.insert(name@, stats@));
                assert(self@[name@] == stats@);
                assert(self@.dom().contains(name@)) by {
                    assert(es[i as int].0@ == name@);
                }
                assert(merge_maps(start, self@).dom().contains(name@));
            }
            let found = match result.map.get(name.as_str()) {
                Some(w) => Some(*w),
                None => None,
            };
            match found {
                Some(known) => {
                    let mut sum = known;
                    proof {
                        assert(before.dom().contains(name@));
                        assert(start.dom().contains(name@));
                        assert(before[name@] == start[name@]);
                        assert(merge_maps(start, self@)[name@] == start[name@].combine(stats@));
                    }
                    sum.add_other(&stats);
                    result.map.insert(name, sum);
                    proof {
                        let goal = merge_maps(start, seen.insert(name@, stats@));
                        let after = result@;
                        assert forall|c: Seq<char>| #[trigger]
                            after.dom().contains(c) == goal.dom().contains(c) by {
                            if c != name@ {
                                assert(result.map@.dom().contains(c) == map_before.dom().contains(c));
                                assert(before.dom().contains(c) == goal.dom().contains(c));
                            }
                        }
                        assert(after.dom() =~= goal.dom());
                        assert forall|c: Seq<char>| #[trigger]
                            after.dom().contains(c) implies after[c] == goal[c] by {
                            if c != name@ {
                                assert(result.map@.dom().contains(c) == map_before.dom().contains(c));
                                assert(after[c] == before[c]);
                            }
                        }
                        assert(after =~= goal);
                        assert forall|c: Seq<char>| result.map@.dom().contains(c) <==> listed(
                            result.names@,
                            c,
                        ) by {
                            assert(result.map@.dom().contains(c) <==> map_before.dom().contains(c));
                        }
                    }
                },
                None => {
                    result.names.push(name.clone());
                    result.map.insert(name, stats);
                    proof {
                        let goal = merge_maps(start, seen.insert(name@, stats@));
                        assert(!before.dom().contains(name@));
                        assert(!start.dom().contains(name@));
                        let after = result@;
                        assert forall|c: Seq<char>| #[trigger]
                            after.dom().contains(c) == goal.dom().contains(c) by {
                            if c != name@ {
                                assert(result.map@.dom().contains(c) == map_before.dom().contains(c));
                                assert(before.dom().contains(c) == goal.dom().contains(c));
                            }
                        }
                        assert(after.dom() =~= goal.dom());
                        assert forall|c: Seq<char>| #[trigger]
                            after.dom().contains(c) implies after[c] == goal[c] by {
                            if c != name@ {
                                assert(result.map@.dom().contains(c) == map_before.dom().contains(c));
                                assert(after[c] == before[c]);
                            }
                        }
                        assert(after =~= goal);
                        let names_after = result.names@;
                        assert forall|c: Seq<char>| result.map@.dom().contains(c) <==> listed(
                            names_after,
                            c,
                        ) by {
                            if listed(names_after, c) {
                                let a = choose|a: int|
                                    0 <= a < names_after.len() && (#[trigger] names_after[a])@ == c;
                                if a < names_before.len() {
                                    assert(names_before[a]@ == c);
                                    assert(listed(names_before, c));
                                }
                            }
                            if map_before.dom().contains(c) {
                                assert(listed(names_before, c));
                                let a = choose|a: int|
                                    0 <= a < names_before.len() && (#[trigger] names_before[a])@
                                        == c;
                                assert(names_after[a]@ == c);
                            }
                            if c == name@ {
                                assert(names_after[names_before.len() as int]@ == c);
                            }
                        }
                        assert forall|a: int, b: int|
                            0 <= a < b < names_after.len() implies names_after[a]@
                            != names_after[b]@ by {
                            if b == names_before.len() {
                                assert(names_before[a]@ == names_after[a]@);
                                if names_after[a]@ == name@ {
                                    assert(listed(names_before, name@));
                                }
                            } else {
                                assert(names_before[a] == names_after[a]);
                                assert(names_before[b] == names_after[b]);
                            }
                        }
                    }
                },
            }
            i = i + 1;
        }
        proof {
            assert(es.take(es.len() as int) =~= es);
        }
    }
}

/// The views of a sequence of batches.
pub open spec fn batch_views(batches: Seq<WeatherBatch>) -> Seq<Map<Seq<char>, Stats>> {
    Seq::new(batches.len(), |i: int| batches[i]@)
}

/// Merges the tables of all ranges into one table: for every station, the
/// aggregates of all ranges that saw it, combined. The order of the batches
/// does not change the result.
pub fn merge(batches: &Vec<WeatherBatch>) -> (table: GlobalTable)
    requires
        forall|i: int| 0 <= i < batches@.len() ==> (#[trigger] batches@[i]).wf(),
        within_limit(merged(batch_views(batches@))),
    ensures
        table.wf(),
        table@ == merged(batch_views(batches@)),
{
    let mut table = GlobalTable::new();
    let ghost views = batch_views(batches@);
    let mut i: usize = 0;
    proof {
        assert(views.take(0) =~= Seq::<Map<Seq<char>, Stats>>::empty());
    }
    while i < batches.len()
        invariant
            i <= batches@.len(),
            views == batch_views(batches@),
            forall|j: int| 0 <= j < batches@.len() ==> (#[trigger] batches@[j]).wf(),
            within_limit(merged(views)),
            table.wf(),
            table@ == merged(views.take(i as int)),
        decreases batches@.len() - i,
    {
        proof {
            assert(views.take(i + 1).drop_last() =~= views.take(i as int));
            assert(views.take(i + 1).last() == batches@[i as int]@);
            lemma_merged_grows(views, i + 1);
            let step = merge_maps(table@, batches@[i as int]@);
            assert(step == merged(views.take(i + 1)));
            assert forall|k: Seq<char>| step.dom().contains(k) implies (#[trigger] step[k]).count
                <= MAX_COUNT by {
                assert(merged(views.take(i + 1)).dom().contains(k));
                assert(merged(views)[k].count <= MAX_COUNT);
            }
        }
        batches[i].append_to(&mut table);
        i = i + 1;
    }
    proof {
        assert(views.take(views.len() as int) =~= views);
    }
    table
}

} // verus!
