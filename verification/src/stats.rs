//! Running statistics of one station.

use vstd::prelude::*;

verus! {

/// The largest number of observations one aggregate can hold. With sixteen-bit
/// observations it keeps the sum inside sixty-four bits.
pub const MAX_COUNT: u64 = 0x1_0000_0000_0000;

/// The mathematical value of an aggregate: extremes, sum and number of the
/// observations folded into it.
pub struct Stats {
    pub min: int,
    pub max: int,
    pub sum: int,
    pub count: nat,
}

impl Stats {
    /// The aggregate of the single observation `v`.
    pub open spec fn single(v: int) -> Stats {
        Stats { min: v, max: v, sum: v, count: 1 }
    }

    /// The aggregate of the observations of `self` together with those of `other`.
    pub open spec fn combine(self, other: Stats) -> Stats {
        Stats {
            min: if other.min < self.min { other.min } else { self.min },
            max: if other.max > self.max { other.max } else { self.max },
            sum: self.sum + other.sum,
            count: self.count + other.count,
        }
    }

    /// The aggregate of the observations of `self` and one more, `v`.
    pub open spec fn observe(self, v: int) -> Stats {
        self.combine(Stats::single(v))
    }

    /// What every aggregate of at least one sixteen-bit observation satisfies.
    pub open spec fn consistent(self) -> bool {
        &&& self.count >= 1
        &&& i16::MIN <= self.min <= self.max <= i16::MAX
        &&& self.count * self.min <= self.sum <= self.count * self.max
    }

    /// The aggregate of a non-empty sequence of observations, folded left to right.
    pub open spec fn of(values: Seq<int>) -> Stats
        recommends
            values.len() >= 1,
        decreases values.len(),
    {
        if values.len() <= 1 {
            Stats::single(values[0])
        } else {
            Stats::of(values.drop_last()).observe(values.last())
        }
    }
}

/// Running statistics of one station, in tenths of a degree.
#[derive(Clone, Copy, Debug)]
pub struct Weather {
    pub min_temp: i16,
    pub max_temp: i16,
    pub net_temp: i64,
    pub count: u64,
}

impl View for Weather {
    type V = Stats;

    open spec fn view(&self) -> Stats {
        Stats {
            min: self.min_temp as int,
            max: self.max_temp as int,
            sum: self.net_temp as int,
            count: self.count as nat,
        }
    }
}

impl Weather {
    /// The invariant of an aggregate: it is consistent and below the count limit.
    pub open spec fn wf(&self) -> bool {
        self@.consistent() && self.count <= MAX_COUNT
    }

    /// The aggregate of one observation.
    pub fn new(temperature: i16) -> (w: Weather)
        ensures
            w.wf(),
            w@ == Stats::single(temperature as int),
    {
        Weather { min_temp: temperature, max_temp: temperature, net_temp: temperature as i64, count: 1 }
    }

    /// Folds one more observation in.
    pub fn add(&mut self, temperature: i16)
        requires
            old(self).wf(),
            old(self).count < MAX_COUNT,
        ensures
            final(self).wf(),
            final(self)@ == old(self)@.observe(temperature as int),
    {
        proof {
            lemma_combine_consistent(self@, Stats::single(temperature as int));
            lemma_consistent_bounds(self@);
        }
        if temperature < self.min_temp {
            self.min_temp = temperature;
        }
        if temperature > self.max_temp {
            self.max_temp = temperature;
        }
        self.net_temp = self.net_temp + temperature as i64;
        self.count = self.count + 1;
    }

    /// Folds another aggregate in.
    pub fn add_other(&mut self, other: &Weather)
        requires
            old(self).wf(),
            other.wf(),
            old(self).count + other.count <= MAX_COUNT,
        ensures
            final(self).wf(),
            final(self)@ == old(self)@.combine(other@),
    {
        proof {
            lemma_combine_consistent(self@, other@);
            lemma_consistent_bounds(self@);
            lemma_consistent_bounds(other@);
            lemma_consistent_bounds(self@.combine(other@));
        }
        if other.min_temp < self.min_temp {
            self.min_temp = other.min_temp;
        }
        if other.max_temp > self.max_temp {
            self.max_temp = other.max_temp;
        }
        self.net_temp = self.net_temp + other.net_temp;
        self.count = self.count + other.count;
    }
}

/// The sum of a sequence of observations.
pub open spec fn total(values: Seq<int>) -> int
    decreases values.len(),
{
    if values.len() == 0 {
        0
    } else {
        total(values.drop_last()) + values.last()
    }
}

/// The aggregate of a sequence of observations counts them, holds their sum,
/// and its extremes are the least and the greatest of them.
pub proof fn lemma_stats_of(values: Seq<int>)
    requires
        values.len() >= 1,
    ensures
        Stats::of(values).count == values.len(),
        Stats::of(values).sum == total(values),
        forall|i: int|
            0 <= i < values.len() ==> Stats::of(values).min <= #[trigger] values[i] <= Stats::of(
                values,
            ).max,
        exists|i: int| 0 <= i < values.len() && values[i] == Stats::of(values).min,
        exists|i: int| 0 <= i < values.len() && values[i] == Stats::of(values).max,
    decreases values.len(),
{
    if values.len() == 1 {
        assert(values.drop_last() =~= Seq::<int>::empty());
        assert(total(values.drop_last()) == 0);
        assert(values[0] == Stats::of(values).min);
        assert(values[0] == Stats::of(values).max);
    } else {
        let front = values.drop_last();
        lemma_stats_of(front);
        let all = Stats::of(values);
        let before = Stats::of(front);
        assert forall|i: int| 0 <= i < values.len() implies all.min <= #[trigger] values[i]
            <= all.max by {
            if i < front.len() {
                assert(front[i] == values[i]);
            }
        }
        let low = choose|i: int| 0 <= i < front.len() && front[i] == before.min;
        let high = choose|i: int| 0 <= i < front.len() && front[i] == before.max;
        if values.last() < before.min {
            assert(values[values.len() - 1] == all.min);
        } else {
            assert(values[low] == all.min);
        }
        if values.last() > before.max {
            assert(values[values.len() - 1] == all.max);
        } else {
            assert(values[high] == all.max);
        }
    }
}

/// The aggregate of sixteen-bit observations is consistent.
pub proof fn lemma_stats_of_consistent(values: Seq<int>)
    requires
        values.len() >= 1,
        forall|i: int| 0 <= i < values.len() ==> i16::MIN <= #[trigger] values[i] <= i16::MAX,
    ensures
        Stats::of(values).consistent(),
    decreases values.len(),
{
    if values.len() > 1 {
        lemma_stats_of_consistent(values.drop_last());
        lemma_combine_consistent(Stats::of(values.drop_last()), Stats::single(values.last()));
    }
}

/// Combining two consistent aggregates gives a consistent one.
pub proof fn lemma_combine_consistent(a: Stats, b: Stats)
    requires
        a.consistent(),
        b.consistent(),
    ensures
        a.combine(b).consistent(),
{
    let c = a.combine(b);
    assert(a.count * c.min <= a.count * a.min) by (nonlinear_arith)
        requires c.min <= a.min, a.count >= 0;
    assert(b.count * c.min <= b.count * b.min) by (nonlinear_arith)
        requires c.min <= b.min, b.count >= 0;
    assert(a.count * a.max <= a.count * c.max) by (nonlinear_arith)
        requires a.max <= c.max, a.count >= 0;
    assert(b.count * b.max <= b.count * c.max) by (nonlinear_arith)
        requires b.max <= c.max, b.count >= 0;
    assert(c.count * c.min == a.count * c.min + b.count * c.min) by (nonlinear_arith)
        requires c.count == a.count + b.count;
    assert(c.count * c.max == a.count * c.max + b.count * c.max) by (nonlinear_arith)
        requires c.count == a.count + b.count;
}

/// The sum of a consistent aggregate is at most 32768 times its count in size.
pub proof fn lemma_consistent_bounds(a: Stats)
    requires
        a.consistent(),
    ensures
        -32768 * a.count <= a.sum <= 32767 * a.count,
{
    assert(a.count * a.min >= a.count * (-32768)) by (nonlinear_arith)
        requires a.min >= -32768, a.count >= 0;
    assert(a.count * a.max <= a.count * 32767) by (nonlinear_arith)
        requires a.max <= 32767, a.count >= 0;
}

/// Combining is commutative: the order of two aggregates does not matter.
pub proof fn lemma_combine_commutative(a: Stats, b: Stats)
    ensures
        a.combine(b) == b.combine(a),
{
}

/// Combining is associative: the grouping of three aggregates does not matter.
pub proof fn lemma_combine_associative(a: Stats, b: Stats, c: Stats)
    ensures
        a.combine(b).combine(c) == a.combine(b.combine(c)),
{
}

} // verus!
