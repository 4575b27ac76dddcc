//! The value model: scalar samples and the min/max/sum/count statistics kept
//! for aggregated groups of samples.
//!
//! Aggregation of two [`SampleMetrics`] is associative and commutative; that
//! is the invariant that makes hierarchical pre-aggregation independent of
//! merge order and tree shape, and it is proved here
//! ([`lemma_merge_associative`], [`lemma_partition_independent`]).

use crate::time::{TimeSpan, TimeStamp};
use vstd::prelude::*;

verus! {

/// Largest magnitude a sample value may have.
///
/// Bounding values at `2^62` keeps the running sum of any group of at most
/// `usize::MAX` samples inside `i128`, so aggregation never overflows.
pub const VALUE_LIMIT: i64 = 0x4000_0000_0000_0000;

/// One scalar measurement.
#[derive(Clone, Copy, PartialEq, Eq, Structural, Debug)]
pub struct Sample {
    pub value: i64,
}

impl Sample {
    /// A sample is acceptable to the engine when its magnitude is within
    /// [`VALUE_LIMIT`].
    pub open spec fn spec_ok(self) -> bool {
        -VALUE_LIMIT <= self.value <= VALUE_LIMIT
    }

    pub fn new(value: i64) -> (r: Sample)
        ensures
            r.value == value,
    {
        Sample { value }
    }
}

/// One `(timestamp, value)` pair appended to a signal.
#[derive(Clone, Copy, PartialEq, Eq, Structural, Debug)]
pub struct Observation {
    pub timestamp: TimeStamp,
    pub sample: Sample,
}

impl Observation {
    pub fn new(timestamp: TimeStamp, sample: Sample) -> (r: Observation)
        ensures
            r.timestamp == timestamp,
            r.sample == sample,
    {
        Observation { timestamp, sample }
    }
}

/// All observations of a sequence carry acceptable values.
pub open spec fn obs_bounded(s: Seq<Observation>) -> bool {
    forall|i: int| 0 <= i < s.len() ==> (#[trigger] s[i]).sample.spec_ok()
}

/// Statistics derived from one or more samples: the least and greatest value,
/// the exact running sum, and how many samples contributed.  The mean is
/// derived from `sum` and `count` on demand, so merging stays exact.
#[derive(Clone, Copy, PartialEq, Eq, Structural, Debug)]
pub struct SampleMetrics {
    pub min: i64,
    pub max: i64,
    pub sum: i128,
    pub count: usize,
}

/// The metrics of a single sample.
pub open spec fn spec_single(s: Sample) -> SampleMetrics {
    SampleMetrics { min: s.value, max: s.value, sum: s.value as i128, count: 1 }
}

/// The associative, commutative merge of two metrics.
pub open spec fn spec_merge(a: SampleMetrics, b: SampleMetrics) -> SampleMetrics {
    SampleMetrics {
        min: if a.min <= b.min { a.min } else { b.min },
        max: if a.max >= b.max { a.max } else { b.max },
        sum: (a.sum + b.sum) as i128,
        count: (a.count + b.count) as usize,
    }
}

/// The metrics of a non-empty sequence of observations, merged left to right.
pub open spec fn metrics_of(s: Seq<Observation>) -> SampleMetrics
    recommends
        s.len() >= 1,
    decreases s.len(),
{
    if s.len() <= 1 {
        spec_single(s[0].sample)
    } else {
        spec_merge(metrics_of(s.drop_last()), spec_single(s.last().sample))
    }
}

impl SampleMetrics {
    /// Well-formedness: metrics that genuinely summarize between 1 and
    /// `usize::MAX` acceptable samples satisfy this, and it is exactly what
    /// merging needs to stay free of overflow.
    pub open spec fn bounded(self) -> bool {
        &&& 1 <= self.count
        &&& -VALUE_LIMIT <= self.min <= VALUE_LIMIT
        &&& -VALUE_LIMIT <= self.max <= VALUE_LIMIT
        &&& self.min <= self.max
        &&& -((self.count as int) * (VALUE_LIMIT as int)) <= self.sum as int
            <= (self.count as int) * (VALUE_LIMIT as int)
    }

    /// The metrics of one raw sample.
    pub fn from_sample(s: Sample) -> (r: SampleMetrics)
        requires
            s.spec_ok(),
        ensures
            r == spec_single(s),
            r.bounded(),
    {
        SampleMetrics { min: s.value, max: s.value, sum: s.value as i128, count: 1 }
    }

    /// Merge two metrics into the metrics of the combined group.
    pub fn merge(&self, other: &SampleMetrics) -> (r: SampleMetrics)
        requires
            self.bounded(),
            other.bounded(),
            self.count + other.count <= usize::MAX,
        ensures
            r == spec_merge(*self, *other),
            r.bounded(),
    {
        proof {
            lemma_merge_bounded(*self, *other);
        }
        SampleMetrics {
            min: if self.min <= other.min { self.min } else { other.min },
            max: if self.max >= other.max { self.max } else { other.max },
            sum: self.sum + other.sum,
            count: self.count + other.count,
        }
    }

    /// The mean value of the summarized group, rounded toward zero.
    pub fn mean(&self) -> (r: i64)
        requires
            self.bounded(),
        ensures
            self.sum >= 0 ==> r == self.sum as int / self.count as int,
            self.sum < 0 ==> r == -((-(self.sum as int)) / self.count as int),
            -VALUE_LIMIT <= r <= VALUE_LIMIT,
    {
        if self.sum >= 0 {
            let q: i128 = self.sum / (self.count as i128);
            assert(q <= VALUE_LIMIT as i128) by {
                vstd::arithmetic::div_mod::lemma_div_is_ordered(
                    self.sum as int,
                    (self.count as int) * (VALUE_LIMIT as int),
                    self.count as int,
                );
                vstd::arithmetic::div_mod::lemma_div_multiples_vanish(
                    VALUE_LIMIT as int,
                    self.count as int,
                );
            }
            q as i64
        } else {
            let neg: i128 = -self.sum;
            let q: i128 = neg / (self.count as i128);
            assert(q <= VALUE_LIMIT as i128) by {
                vstd::arithmetic::div_mod::lemma_div_is_ordered(
                    neg as int,
                    (self.count as int) * (VALUE_LIMIT as int),
                    self.count as int,
                );
                vstd::arithmetic::div_mod::lemma_div_multiples_vanish(
                    VALUE_LIMIT as int,
                    self.count as int,
                );
            }
            -(q as i64)
        }
    }
}

/// One unit of an aggregated query result: the statistics of a group of
/// observations together with the time span the group covers (first to last
/// covered timestamp).
#[derive(Clone, Copy, PartialEq, Eq, Structural, Debug)]
pub struct Aggregation {
    pub span: TimeSpan,
    pub metrics: SampleMetrics,
}

/// Merging two well-formed metrics yields well-formed metrics.
pub proof fn lemma_merge_bounded(a: SampleMetrics, b: SampleMetrics)
    requires
        a.bounded(),
        b.bounded(),
        a.count + b.count <= usize::MAX,
    ensures
        spec_merge(a, b).bounded(),
        a.sum + b.sum == spec_merge(a, b).sum,
        a.count + b.count == spec_merge(a, b).count,
{
    assert((a.count as int) * (VALUE_LIMIT as int) + (b.count as int) * (VALUE_LIMIT as int)
        == ((a.count + b.count) as int) * (VALUE_LIMIT as int)) by {
        vstd::arithmetic::mul::lemma_mul_is_distributive_add_other_way(
            VALUE_LIMIT as int,
            a.count as int,
            b.count as int,
        );
    }
}

/// Merging metrics is commutative.
pub proof fn lemma_merge_commutative(a: SampleMetrics, b: SampleMetrics)
    ensures
        spec_merge(a, b) == spec_merge(b, a),
{
}

/// Merging metrics is associative (on well-formed metrics, where no merge
/// overflows).
pub proof fn lemma_merge_associative(a: SampleMetrics, b: SampleMetrics, c: SampleMetrics)
    requires
        a.bounded(),
        b.bounded(),
        c.bounded(),
        a.count + b.count + c.count <= usize::MAX,
    ensures
        spec_merge(spec_merge(a, b), c) == spec_merge(a, spec_merge(b, c)),
{
    lemma_merge_bounded(a, b);
    lemma_merge_bounded(b, c);
}

/// The metrics of a non-empty sequence of acceptable observations are
/// well-formed, and count exactly the observations.
pub proof fn lemma_metrics_of_bounded(s: Seq<Observation>)
    requires
        1 <= s.len() <= usize::MAX,
        obs_bounded(s),
    ensures
        metrics_of(s).bounded(),
        metrics_of(s).count == s.len(),
    decreases s.len(),
{
    if s.len() > 1 {
        assert(obs_bounded(s.drop_last()));
        lemma_metrics_of_bounded(s.drop_last());
        lemma_merge_bounded(metrics_of(s.drop_last()), spec_single(s.last().sample));
    }
}

/// Splitting a group anywhere and merging the two halves gives the metrics
/// of the whole group.
pub proof fn lemma_metrics_of_concat(a: Seq<Observation>, b: Seq<Observation>)
    requires
        a.len() >= 1,
        b.len() >= 1,
        a.len() + b.len() <= usize::MAX,
        obs_bounded(a),
        obs_bounded(b),
    ensures
        metrics_of(a + b) == spec_merge(metrics_of(a), metrics_of(b)),
    decreases b.len(),
{
    if b.len() == 1 {
        assert((a + b).drop_last() =~= a);
        assert((a + b).last() == b[0]);
        assert(metrics_of(b) == spec_single(b[0].sample));
    } else {
        assert((a + b).drop_last() =~= a + b.drop_last());
        assert(obs_bounded(b.drop_last()));
        lemma_metrics_of_concat(a, b.drop_last());
        lemma_metrics_of_bounded(a);
        lemma_metrics_of_bounded(b.drop_last());
        lemma_merge_associative(
            metrics_of(a),
            metrics_of(b.drop_last()),
            spec_single(b.last().sample),
        );
        assert((a + b).last() == b.last());
    }
}

/// The concatenation of a sequence of buckets.
pub open spec fn concat_all(parts: Seq<Seq<Observation>>) -> Seq<Observation>
    decreases parts.len(),
{
    if parts.len() == 0 {
        Seq::empty()
    } else {
        concat_all(parts.drop_last()) + parts.last()
    }
}

/// The merge of the per-bucket metrics of a sequence of buckets.
pub open spec fn merge_all(parts: Seq<Seq<Observation>>) -> SampleMetrics
    recommends
        parts.len() >= 1,
    decreases parts.len(),
{
    if parts.len() <= 1 {
        metrics_of(parts[0])
    } else {
        spec_merge(merge_all(parts.drop_last()), metrics_of(parts.last()))
    }
}

/// Every bucket of a partition is non-empty and holds acceptable values.
pub open spec fn parts_ok(parts: Seq<Seq<Observation>>) -> bool {
    forall|i: int| 0 <= i < parts.len() ==> (#[trigger] parts[i]).len() >= 1 && obs_bounded(
        parts[i],
    )
}

/// Merging the buckets of any partition of a group of observations yields
/// the metrics of the whole group, whatever the partition.
pub proof fn lemma_merge_all_partition(parts: Seq<Seq<Observation>>)
    requires
        parts.len() >= 1,
        parts_ok(parts),
        concat_all(parts).len() <= usize::MAX,
    ensures
        merge_all(parts) == metrics_of(concat_all(parts)),
        concat_all(parts).len() >= 1,
        obs_bounded(concat_all(parts)),
    decreases parts.len(),
{
    if parts.len() == 1 {
        assert(concat_all(parts) =~= parts[0]);
    } else {
        assert(parts_ok(parts.drop_last()));
        assert(concat_all(parts.drop_last()).len() <= concat_all(parts).len()) by {
            assert(concat_all(parts) == concat_all(parts.drop_last()) + parts.last());
        }
        lemma_merge_all_partition(parts.drop_last());
        assert(obs_bounded(concat_all(parts))) by {
            assert(concat_all(parts) == concat_all(parts.drop_last()) + parts.last());
            assert(forall|i: int|
                0 <= i < concat_all(parts).len() ==> (#[trigger] concat_all(parts)[i]).sample.spec_ok());
        }
        lemma_metrics_of_concat(concat_all(parts.drop_last()), parts.last());
    }
}

/// Associativity law: for any set of observations partitioned two different
/// ways into buckets, merging all bucket metrics yields identical results.
pub proof fn lemma_partition_independent(p1: Seq<Seq<Observation>>, p2: Seq<Seq<Observation>>)
    requires
        p1.len() >= 1,
        p2.len() >= 1,
        parts_ok(p1),
        parts_ok(p2),
        concat_all(p1) == concat_all(p2),
        concat_all(p1).len() <= usize::MAX,
    ensures
        merge_all(p1) == merge_all(p2),
{
    lemma_merge_all_partition(p1);
    lemma_merge_all_partition(p2);
}

} // verus!
