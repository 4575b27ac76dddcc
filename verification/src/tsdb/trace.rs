//! The per-signal hierarchical aggregation index.
//!
//! A [`Trace`] stores its raw observations in append order.  Conceptually the
//! observations form fixed-capacity leaf chunks of [`BRANCHING`] samples;
//! whenever a chunk fills up it is sealed and a summary entry (time span plus
//! merged [`SampleMetrics`]) is appended to level 0 of the index.  Whenever
//! [`BRANCHING`] entries of a level complete a group, the group is sealed
//! into one entry of the next level up, growing the index in height.  Every
//! entry of level `k` therefore summarizes exactly `BRANCHING^(k+1)`
//! consecutive raw observations, and range aggregates can be assembled from
//! the coarsest cached entries that fit, instead of scanning every sample.

use crate::time::TimeSpan;
use crate::tsdb::query::{Query, QueryError, QueryResult, RangeQueryResult};
use crate::tsdb::sample::{
    concat_all, lemma_metrics_of_bounded, lemma_metrics_of_concat, merge_all, metrics_of,
    obs_bounded, spec_single, Aggregation, Observation, SampleMetrics,
};
use vstd::arithmetic::div_mod::{
    lemma_basic_div, lemma_fundamental_div_mod, lemma_fundamental_div_mod_converse,
    lemma_mod_multiples_basic,
};
use vstd::arithmetic::mul::{
    lemma_mul_inequality, lemma_mul_is_associative, lemma_mul_is_commutative,
    lemma_mul_is_distributive_add, lemma_mul_is_distributive_add_other_way,
};
use vstd::arithmetic::power::{lemma_pow_adds, lemma_pow_positive, pow};
use vstd::prelude::*;

verus! {

/// Branching factor of the aggregation index: capacity of a leaf chunk, and
/// number of entries of one level that are summarized by one entry of the
/// next level up.
pub const BRANCHING: usize = 16;

/// Number of consecutive raw observations covered by one entry of level `k`.
pub open spec fn chunk_size(k: int) -> int
    recommends
        k >= 0,
{
    (BRANCHING as int) * pow(BRANCHING as int, k as nat)
}

/// The observations of a sequence appear in non-decreasing timestamp order.
pub open spec fn ts_sorted(s: Seq<Observation>) -> bool {
    forall|i: int, j: int|
        0 <= i <= j < s.len() ==> (#[trigger] s[i]).timestamp <= (#[trigger] s[j]).timestamp
}

/// An index entry faithfully summarizes the observations it covers: its
/// metrics are their merged metrics and its span runs from their first to
/// their last timestamp.
pub open spec fn entry_wf(e: Aggregation, cover: Seq<Observation>) -> bool {
    &&& cover.len() >= 1
    &&& e.metrics == metrics_of(cover)
    &&& e.span.start == cover.first().timestamp
    &&& e.span.end == cover.last().timestamp
}

/// Every entry of one index level summarizes its slice of the raw
/// observations, and the level does not reach past the stored data.
pub open spec fn level_entries_wf(samples: Seq<Observation>, level: Seq<Aggregation>, k: int) -> bool {
    &&& level.len() * chunk_size(k) <= samples.len()
    &&& forall|j: int|
        0 <= j < level.len() ==> entry_wf(
            #[trigger] level[j],
            samples.subrange(j * chunk_size(k), (j + 1) * chunk_size(k)),
        )
}

proof fn lemma_chunk_size_pos(k: int)
    requires
        k >= 0,
    ensures
        chunk_size(k) >= BRANCHING as int,
{
    lemma_pow_positive(BRANCHING as int, k as nat);
    assert(chunk_size(k) >= BRANCHING as int) by (nonlinear_arith)
        requires
            pow(BRANCHING as int, k as nat) >= 1,
            chunk_size(k) == (BRANCHING as int) * pow(BRANCHING as int, k as nat),
    ;
}

proof fn lemma_chunk_size_step(k: int)
    requires
        k >= 0,
    ensures
        chunk_size(k + 1) == (BRANCHING as int) * chunk_size(k),
{
    assert(pow(BRANCHING as int, (k + 1) as nat) == (BRANCHING as int) * pow(
        BRANCHING as int,
        k as nat,
    )) by {
        lemma_pow_adds(BRANCHING as int, 1, k as nat);
        vstd::arithmetic::power::lemma_pow1(BRANCHING as int);
    }
    lemma_mul_is_associative(
        BRANCHING as int,
        BRANCHING as int,
        pow(BRANCHING as int, k as nat),
    );
}

/// A coarser level's chunk is a whole multiple of a finer level's chunk.
proof fn lemma_chunk_size_divides(k1: int, k2: int)
    requires
        0 <= k1 <= k2,
    ensures
        chunk_size(k1) <= chunk_size(k2),
        chunk_size(k2) % chunk_size(k1) == 0,
        chunk_size(k2) == chunk_size(k1) * pow(BRANCHING as int, (k2 - k1) as nat),
{
    let b = BRANCHING as int;
    let p1 = pow(b, k1 as nat);
    let p2 = pow(b, (k2 - k1) as nat);
    lemma_pow_adds(b, k1 as nat, (k2 - k1) as nat);
    assert(pow(b, k2 as nat) == p1 * p2);
    lemma_mul_is_associative(b, p1, p2);
    assert(chunk_size(k2) == (b * p1) * p2);
    lemma_pow_positive(b, k1 as nat);
    lemma_pow_positive(b, (k2 - k1) as nat);
    lemma_chunk_size_pos(k1);
    assert(chunk_size(k1) * 1 <= chunk_size(k1) * p2) by {
        vstd::arithmetic::mul::lemma_mul_left_inequality(chunk_size(k1), 1, p2);
    }
    assert(chunk_size(k2) % chunk_size(k1) == 0) by {
        lemma_mod_multiples_basic(p2, chunk_size(k1));
        lemma_mul_is_commutative(p2, chunk_size(k1));
    }
}

/// How a quotient changes when the dividend grows by one.
proof fn lemma_succ_div(m: int, c: int)
    requires
        m >= 0,
        c >= 1,
    ensures
        (m + 1) % c == 0 ==> (m + 1) / c == m / c + 1,
        (m + 1) % c != 0 ==> (m + 1) / c == m / c,
{
    lemma_fundamental_div_mod(m, c);
    let q = m / c;
    let r = m % c;
    lemma_mul_is_commutative(c, q);
    if r + 1 < c {
        lemma_fundamental_div_mod_converse(m + 1, c, q, r + 1);
    } else {
        assert(r + 1 == c);
        assert(m + 1 == c * (q + 1) + 0) by {
            lemma_mul_is_distributive_add(c, q, 1);
        }
        lemma_mul_is_commutative(c, q + 1);
        lemma_fundamental_div_mod_converse(m + 1, c, q + 1, 0);
    }
}

/// If the new length `n` is not a whole number of level-`k` chunks, then no
/// level at `k` or above gains an entry when the length grows from `n - 1`
/// to `n`.
proof fn lemma_high_levels_stable(k: int, lvl: int, n: int)
    requires
        0 <= k <= lvl,
        n >= 1,
        n % chunk_size(k) != 0 || n < chunk_size(k),
    ensures
        n / chunk_size(lvl) == (n - 1) / chunk_size(lvl),
{
    let c = chunk_size(lvl);
    lemma_chunk_size_pos(lvl);
    lemma_chunk_size_pos(k);
    lemma_chunk_size_divides(k, lvl);
    if n < chunk_size(k) {
        lemma_basic_div(n, c);
        lemma_basic_div(n - 1, c);
    } else {
        // n % chunk_size(k) != 0, hence n % c != 0 either
        if n % c == 0 {
            lemma_fundamental_div_mod(n, c);
            let p = pow(BRANCHING as int, (lvl - k) as nat);
            assert(n == (c * (n / c)));
            assert(c == chunk_size(k) * p);
            assert(n == (chunk_size(k) * p) * (n / c));
            lemma_mul_is_associative(chunk_size(k), p, n / c);
            assert(n == chunk_size(k) * (p * (n / c)));
            lemma_mul_is_commutative(chunk_size(k), p * (n / c));
            lemma_mod_multiples_basic(p * (n / c), chunk_size(k));
            assert(false);
        }
        lemma_succ_div(n - 1, c);
    }
}

/// The per-signal aggregation index.
///
/// The raw observations are kept in append order; `levels` is the
/// hierarchical summary index described at the module level.  `sorted`
/// records whether every append so far arrived in non-decreasing timestamp
/// order; out-of-order appends are accepted and merely disable the
/// sorted-data fast paths.
pub struct Trace {
    samples: Vec<Observation>,
    levels: Vec<Vec<Aggregation>>,
    sorted: bool,
}

impl View for Trace {
    type V = Seq<Observation>;

    closed spec fn view(&self) -> Seq<Observation> {
        self.samples@
    }
}

impl Trace {
    /// Internal well-formedness: values are acceptable, the sorted flag is
    /// honest, every index level summarizes its slices faithfully and has
    /// exactly one entry per completed chunk, and no level beyond the last
    /// is needed yet.
    pub closed spec fn wf(&self) -> bool {
        let n = self.samples@.len() as int;
        &&& obs_bounded(self.samples@)
        &&& (self.sorted ==> ts_sorted(self.samples@))
        &&& chunk_size(self.levels@.len() as int) > n
        &&& forall|k: int|
            0 <= k < self.levels@.len() ==> (#[trigger] self.levels@[k])@.len() == n / chunk_size(k)
        &&& forall|k: int|
            0 <= k < self.levels@.len() ==> level_entries_wf(
                self.samples@,
                (#[trigger] self.levels@[k])@,
                k,
            )
    }

    /// Whether all observations appended so far arrived in non-decreasing
    /// timestamp order.
    pub closed spec fn spec_sorted(&self) -> bool {
        self.sorted
    }

    /// Create an empty trace.
    pub fn new() -> (r: Trace)
        ensures
            r.wf(),
            r@ == Seq::<Observation>::empty(),
            r.spec_sorted(),
    {
        proof {
            lemma_chunk_size_pos(0);
        }
        Trace { samples: Vec::new(), levels: Vec::new(), sorted: true }
    }

    /// Number of stored observations.
    pub fn len(&self) -> (r: usize)
        ensures
            r == self@.len(),
    {
        self.samples.len()
    }
}

/// The observations of `s` whose timestamps fall inside the half-open
/// interval `span`, in stored order.
pub open spec fn select_range(s: Seq<Observation>, span: TimeSpan) -> Seq<Observation>
    decreases s.len(),
{
    if s.len() == 0 {
        Seq::empty()
    } else if span.spec_contains(s.last().timestamp) {
        select_range(s.drop_last(), span).push(s.last())
    } else {
        select_range(s.drop_last(), span)
    }
}

/// Selection keeps values acceptable and never grows the sequence.
pub proof fn lemma_select_range_bounded(s: Seq<Observation>, span: TimeSpan)
    requires
        obs_bounded(s),
    ensures
        obs_bounded(select_range(s, span)),
        select_range(s, span).len() <= s.len(),
    decreases s.len(),
{
    if s.len() > 0 {
        assert(obs_bounded(s.drop_last()));
        lemma_select_range_bounded(s.drop_last(), span);
    }
}

/// On sorted data the selected observations are one contiguous run: the
/// run `[lo, hi)` delimited by the first timestamp reaching `span.start`
/// and the first reaching `span.end`.
pub proof fn lemma_select_is_subrange(s: Seq<Observation>, span: TimeSpan, lo: int, hi: int)
    requires
        0 <= lo <= hi <= s.len(),
        forall|i: int| 0 <= i < lo ==> (#[trigger] s[i]).timestamp < span.start,
        forall|i: int| lo <= i < hi ==> span.spec_contains((#[trigger] s[i]).timestamp),
        forall|i: int| hi <= i < s.len() ==> (#[trigger] s[i]).timestamp >= span.end,
    ensures
        select_range(s, span) == s.subrange(lo, hi),
    decreases s.len(),
{
    if s.len() == 0 {
        assert(select_range(s, span) =~= s.subrange(lo, hi));
    } else if hi == s.len() {
        if lo < hi {
            lemma_select_is_subrange(s.drop_last(), span, lo, hi - 1);
            assert(s.subrange(lo, hi) =~= s.drop_last().subrange(lo, hi - 1).push(s.last()));
        } else {
            // lo == hi == s.len(): everything lies before the interval
            lemma_select_is_subrange(s.drop_last(), span, lo - 1, hi - 1);
            assert(!span.spec_contains(s.last().timestamp));
            assert(s.subrange(lo, hi) =~= s.drop_last().subrange(lo - 1, hi - 1));
        }
    } else {
        assert(!span.spec_contains(s.last().timestamp));
        lemma_select_is_subrange(s.drop_last(), span, lo, hi);
        assert(s.subrange(lo, hi) =~= s.drop_last().subrange(lo, hi));
    }
}

/// An empty interval selects nothing.
pub proof fn lemma_select_empty(s: Seq<Observation>, span: TimeSpan)
    requires
        span.start >= span.end,
    ensures
        select_range(s, span).len() == 0,
    decreases s.len(),
{
    if s.len() > 0 {
        lemma_select_empty(s.drop_last(), span);
    }
}

/// The observations a summary speaks about: all of them, or those inside
/// the given interval.
pub open spec fn summary_target(s: Seq<Observation>, timespan: Option<&TimeSpan>) -> Seq<
    Observation,
> {
    match timespan {
        None => s,
        Some(span) => select_range(s, *span),
    }
}

/// Size of each aggregation bucket when `n` selected observations are to be
/// decimated to at most `amount` buckets: the ceiling of `n / amount`.
pub open spec fn spec_chunk_len(n: int, amount: int) -> int
    recommends
        n >= 1,
        amount >= 1,
{
    if n % amount == 0 {
        n / amount
    } else {
        n / amount + 1
    }
}

/// Number of buckets produced when `n` observations are grouped into chunks
/// of `c`: the ceiling of `n / c`.
pub open spec fn spec_bucket_count(n: int, c: int) -> int
    recommends
        n >= 1,
        c >= 1,
{
    if n % c == 0 {
        n / c
    } else {
        n / c + 1
    }
}

/// Bucket `j` of a selection grouped into chunks of `c`: one of the
/// consecutive runs that together cover the selection exactly once.
pub open spec fn bucket_of(sel: Seq<Observation>, c: int, j: int) -> Seq<Observation> {
    sel.subrange(
        j * c,
        if (j + 1) * c <= sel.len() {
            (j + 1) * c
        } else {
            sel.len() as int
        },
    )
}

/// What a successful query promises: raw data when the budget reaches raw
/// density, otherwise buckets that each faithfully summarize their run of
/// the selection.
pub open spec fn query_result_ok(
    sel: Seq<Observation>,
    amount: int,
    inner: Option<RangeQueryResult>,
) -> bool {
    if sel.len() <= amount {
        inner matches Some(RangeQueryResult::Raw(v)) && v@ == sel
    } else {
        let c = spec_chunk_len(sel.len() as int, amount);
        &&& inner matches Some(RangeQueryResult::Aggregations(v)) && v@.len() == spec_bucket_count(
            sel.len() as int,
            c,
        ) && (forall|j: int| 0 <= j < v@.len() ==> entry_wf(#[trigger] v@[j], bucket_of(sel, c, j)))
    }
}

/// Number of entries a query over `n` selected observations returns when
/// asked for `amount` buckets.
pub open spec fn spec_result_len(n: int, amount: int) -> int
    recommends
        n >= 0,
        amount >= 1,
{
    if n <= amount {
        n
    } else {
        spec_bucket_count(n, spec_chunk_len(n, amount))
    }
}

/// The ceiling of `n / d`, written with floor division, for positive `n`.
proof fn lemma_ceil_div(n: int, d: int)
    requires
        n >= 1,
        d >= 1,
    ensures
        (if n % d == 0 {
            n / d
        } else {
            n / d + 1
        }) == (n - 1) / d + 1,
{
    lemma_succ_div(n - 1, d);
}

/// Coverage law: when a selection of `n` observations is grouped into
/// buckets of `c`, every selected observation falls into exactly one bucket
/// -- the buckets cover the selection with no gaps and no overlaps -- and
/// every bucket is non-empty.
pub proof fn lemma_buckets_cover(n: int, c: int, i: int)
    requires
        1 <= c,
        0 <= i < n,
    ensures
        ({
            let j = i / c;
            let count = spec_bucket_count(n, c);
            &&& 0 <= j < count
            &&& j * c <= i < if (j + 1) * c <= n {
                (j + 1) * c
            } else {
                n
            }
            &&& forall|j2: int|
                0 <= j2 < count && j2 != j ==> !(#[trigger] (j2 * c) <= i < if (j2 + 1) * c <= n {
                    (j2 + 1) * c
                } else {
                    n
                })
            &&& forall|j2: int| 0 <= j2 < count ==> #[trigger] (j2 * c) < n
        }),
{
    let j = i / c;
    let count = spec_bucket_count(n, c);
    lemma_fundamental_div_mod(i, c);
    vstd::arithmetic::div_mod::lemma_div_pos_is_pos(i, c);
    lemma_mul_is_commutative(c, j);
    lemma_mul_succ(j, c);
    assert(j * c <= i < (j + 1) * c) by {
        vstd::arithmetic::div_mod::lemma_mod_bound(i, c);
    }
    assert(count == (n - 1) / c + 1) by {
        lemma_ceil_div(n, c);
    }
    assert(j <= (n - 1) / c) by {
        vstd::arithmetic::div_mod::lemma_div_is_ordered(i, n - 1, c);
    }
    assert forall|j2: int| 0 <= j2 < count && j2 != j implies !(#[trigger] (j2 * c) <= i < if (j2
        + 1) * c <= n {
        (j2 + 1) * c
    } else {
        n
    }) by {
        lemma_mul_succ(j2, c);
        if j2 * c <= i < j2 * c + c {
            lemma_mul_is_commutative(j2, c);
            lemma_fundamental_div_mod_converse(i, c, j2, i - j2 * c);
        }
    }
    assert forall|j2: int| 0 <= j2 < count implies #[trigger] (j2 * c) < n by {
        assert(j2 <= (n - 1) / c);
        lemma_mul_inequality(j2, (n - 1) / c, c);
        lemma_fundamental_div_mod(n - 1, c);
        vstd::arithmetic::div_mod::lemma_mod_bound(n - 1, c);
        lemma_mul_is_commutative((n - 1) / c, c);
    }
}

/// On sorted data the buckets appear in time order: an earlier bucket ends
/// no later than a later bucket begins.
pub proof fn lemma_buckets_ordered(sel: Seq<Observation>, c: int, j1: int, j2: int)
    requires
        ts_sorted(sel),
        sel.len() >= 1,
        1 <= c,
        0 <= j1 < j2 < spec_bucket_count(sel.len() as int, c),
    ensures
        bucket_of(sel, c, j1).last().timestamp <= bucket_of(sel, c, j2).first().timestamp,
{
    let n = sel.len() as int;
    lemma_buckets_cover(n, c, 0);
    assert(j1 * c < n && j2 * c < n);
    lemma_mul_succ(j1, c);
    lemma_mul_succ(j2, c);
    assert((j1 + 1) * c <= j2 * c) by {
        lemma_mul_inequality(j1 + 1, j2, c);
    }
    let hi1 = if (j1 + 1) * c <= n {
        (j1 + 1) * c
    } else {
        n
    };
    assert(bucket_of(sel, c, j1).last() == sel[hi1 - 1]);
    assert(bucket_of(sel, c, j2).first() == sel[j2 * c]);
    assert(hi1 - 1 <= j2 * c);
}

proof fn lemma_buckets_concat_prefix(sel: Seq<Observation>, c: int, m: int)
    requires
        1 <= c,
        1 <= sel.len(),
        0 <= m <= spec_bucket_count(sel.len() as int, c),
    ensures
        concat_all(Seq::new(m as nat, |j: int| bucket_of(sel, c, j))) == sel.take(
            if m * c <= sel.len() {
                m * c
            } else {
                sel.len() as int
            },
        ),
    decreases m,
{
    let n = sel.len() as int;
    if m == 0 {
        assert(0 * c == 0) by (nonlinear_arith);
        assert(concat_all(Seq::new(0, |j: int| bucket_of(sel, c, j))) =~= sel.take(0));
    } else {
        lemma_buckets_concat_prefix(sel, c, m - 1);
        lemma_mul_succ(m - 1, c);
        lemma_buckets_cover(n, c, 0);
        assert((m - 1) * c < n);
        let parts = Seq::new(m as nat, |j: int| bucket_of(sel, c, j));
        assert(parts.drop_last() =~= Seq::new((m - 1) as nat, |j: int| bucket_of(sel, c, j)));
        assert(parts.last() == bucket_of(sel, c, m - 1));
        let hi = if m * c <= n {
            m * c
        } else {
            n
        };
        assert(sel.take((m - 1) * c) + sel.subrange((m - 1) * c, hi) =~= sel.take(hi));
    }
}

/// The bucket summaries of a query form a partition of the selected
/// observations -- concatenated they are exactly the selection -- and merged
/// they give the summary of the whole selection.
pub proof fn lemma_buckets_merge_to_summary(sel: Seq<Observation>, c: int)
    requires
        1 <= c,
        1 <= sel.len() <= usize::MAX,
        obs_bounded(sel),
    ensures
        ({
            let parts = Seq::new(
                spec_bucket_count(sel.len() as int, c) as nat,
                |j: int| bucket_of(sel, c, j),
            );
            &&& concat_all(parts) == sel
            &&& merge_all(parts) == metrics_of(sel)
        }),
{
    let n = sel.len() as int;
    let count = spec_bucket_count(n, c);
    let parts = Seq::new(count as nat, |j: int| bucket_of(sel, c, j));
    lemma_ceil_div(n, c);
    lemma_buckets_cover(n, c, 0);
    // enough buckets to reach the end: count * c >= n
    assert(count * c >= n) by {
        lemma_fundamental_div_mod(n - 1, c);
        vstd::arithmetic::div_mod::lemma_mod_bound(n - 1, c);
        lemma_mul_is_distributive_add_other_way(c, (n - 1) / c, 1);
        lemma_mul_is_commutative((n - 1) / c, c);
        assert(1 * c == c) by (nonlinear_arith);
    }
    lemma_buckets_concat_prefix(sel, c, count);
    if count * c <= n {
        assert(sel.take(count * c) =~= sel);
    } else {
        assert(sel.take(n) =~= sel);
    }
    assert(concat_all(parts) == sel);
    assert(crate::tsdb::sample::parts_ok(parts)) by {
        assert forall|j: int| 0 <= j < parts.len() implies (#[trigger] parts[j]).len() >= 1
            && obs_bounded(parts[j]) by {
            lemma_mul_succ(j, c);
            assert(j * c < n);
            assert(parts[j] == bucket_of(sel, c, j));
            assert forall|x: int| 0 <= x < parts[j].len() implies (#[trigger] parts[j][x]).sample.spec_ok() by {
                assert(parts[j][x] == sel[j * c + x]);
            }
        }
    }
    crate::tsdb::sample::lemma_merge_all_partition(parts);
}

/// Monotonic resolution law: raising the bucket budget, with the interval
/// held fixed, never decreases the number of returned entries, and the
/// number of entries never exceeds the number of selected raw observations.
pub proof fn lemma_resolution_monotonic(n: int, a1: int, a2: int)
    requires
        0 <= n,
        1 <= a1 <= a2,
    ensures
        spec_result_len(n, a1) <= spec_result_len(n, a2),
        spec_result_len(n, a2) <= n,
{
    if n > a1 {
        // chunk lengths, as floor expressions
        lemma_ceil_div(n, a1);
        lemma_ceil_div(n, a2);
        let c1 = spec_chunk_len(n, a1);
        let c2 = spec_chunk_len(n, a2);
        vstd::arithmetic::div_mod::lemma_div_pos_is_pos(n - 1, a1);
        vstd::arithmetic::div_mod::lemma_div_pos_is_pos(n - 1, a2);
        assert(c2 <= c1) by {
            vstd::arithmetic::div_mod::lemma_div_is_ordered_by_denominator(n - 1, a1, a2);
        }
        lemma_ceil_div(n, c1);
        lemma_ceil_div(n, c2);
        assert(spec_bucket_count(n, c1) <= spec_bucket_count(n, c2)) by {
            vstd::arithmetic::div_mod::lemma_div_is_ordered_by_denominator(n - 1, c2, c1);
        }
        assert(spec_bucket_count(n, c1) <= n && spec_bucket_count(n, c2) <= n) by {
            vstd::arithmetic::div_mod::lemma_div_nonincreasing(n - 1, c1);
            vstd::arithmetic::div_mod::lemma_div_nonincreasing(n - 1, c2);
        }
        if n > a2 {
        } else {
        }
    }
}

/// Idempotent summary law: a query with a budget of one bucket returns, for
/// more than one selected observation, exactly one aggregation -- and it is
/// the summary of the whole selection; for a single selected observation it
/// returns that raw observation, whose implied metrics again match the
/// summary.
pub proof fn lemma_summary_idempotent(
    sel: Seq<Observation>,
    inner: Option<RangeQueryResult>,
    a: Aggregation,
)
    requires
        sel.len() >= 1,
        query_result_ok(sel, 1, inner),
        entry_wf(a, sel),
    ensures
        sel.len() > 1 ==> (inner matches Some(RangeQueryResult::Aggregations(v)) && v@.len() == 1
            && v@[0] == a),
        sel.len() == 1 ==> (inner matches Some(RangeQueryResult::Raw(v)) && v@ == sel && a.metrics
            == spec_single(sel[0].sample) && a.span.start == sel[0].timestamp && a.span.end
            == sel[0].timestamp),
{
    let n = sel.len() as int;
    if n > 1 {
        let c = spec_chunk_len(n, 1);
        assert(n % 1 == 0 && n / 1 == n) by {
            assert(n * 1 == n) by (nonlinear_arith);
            lemma_fundamental_div_mod_converse(n, 1, n, 0);
        }
        assert(c == n);
        assert(n % n == 0 && n / n == n / n) by {
            lemma_mod_multiples_basic(1, n);
            assert(1 * n == n) by (nonlinear_arith);
        }
        vstd::arithmetic::div_mod::lemma_div_by_self(n);
        assert(spec_bucket_count(n, c) == 1);
        assert(bucket_of(sel, n, 0) =~= sel) by {
            assert(0 * n == 0 && 1 * n == n) by (nonlinear_arith);
        }
        let v = inner.unwrap()->Aggregations_0;
        assert(entry_wf(v@[0], sel));
    }
}

proof fn lemma_mul_succ(j: int, c: int)
    requires
        j >= 0,
        c >= 0,
    ensures
        (j + 1) * c == j * c + c,
        0 <= j * c,
        j * c <= (j + 1) * c,
{
    assert((j + 1) * c == j * c + c && 0 <= j * c) by (nonlinear_arith)
        requires
            j >= 0,
            c >= 0,
    ;
}

/// Summarize `v[lo..hi)` by scanning the raw observations.
#[verifier::loop_isolation(false)]
fn aggregate_slice(v: &Vec<Observation>, lo: usize, hi: usize) -> (r: Aggregation)
    requires
        obs_bounded(v@),
        lo < hi <= v@.len(),
    ensures
        entry_wf(r, v@.subrange(lo as int, hi as int)),
        r.metrics.bounded(),
{
    let first = v[lo];
    let mut m = SampleMetrics::from_sample(first.sample);
    let span_start = first.timestamp;
    let mut span_end = first.timestamp;
    let mut i = lo + 1;
    proof {
        assert(v@.subrange(lo as int, lo as int + 1) =~= seq![first]);
    }
    while i < hi
        invariant
            lo < i <= hi,
            m == metrics_of(v@.subrange(lo as int, i as int)),
            m.bounded(),
            m.count == i - lo,
            span_end == v@[i as int - 1].timestamp,
        decreases hi - i,
    {
        let o = v[i];
        proof {
            assert(v@.subrange(lo as int, i as int + 1).drop_last() =~= v@.subrange(
                lo as int,
                i as int,
            ));
            assert(v@.subrange(lo as int, i as int + 1).last() == o);
            lemma_metrics_of_bounded(v@.subrange(lo as int, i as int + 1));
        }
        m = m.merge(&SampleMetrics::from_sample(o.sample));
        span_end = o.timestamp;
        i = i + 1;
    }
    Aggregation { span: TimeSpan { start: span_start, end: span_end }, metrics: m }
}

/// Combine two adjacent summaries into the summary of the combined cover.
fn combine_entries(
    a: &Aggregation,
    b: &Aggregation,
    Ghost(s1): Ghost<Seq<Observation>>,
    Ghost(s2): Ghost<Seq<Observation>>,
) -> (r: Aggregation)
    requires
        entry_wf(*a, s1),
        entry_wf(*b, s2),
        obs_bounded(s1),
        obs_bounded(s2),
        s1.len() + s2.len() <= usize::MAX,
    ensures
        entry_wf(r, s1 + s2),
        r.metrics.bounded(),
{
    proof {
        lemma_metrics_of_bounded(s1);
        lemma_metrics_of_bounded(s2);
        lemma_metrics_of_concat(s1, s2);
        assert((s1 + s2).first() == s1.first());
        assert((s1 + s2).last() == s2.last());
    }
    let metrics = a.metrics.merge(&b.metrics);
    Aggregation { span: TimeSpan { start: a.span.start, end: b.span.end }, metrics }
}

impl Trace {
    /// Assemble the summary of `samples[lo..hi)` from the coarsest cached
    /// index entries that are aligned and available, falling back to raw
    /// samples in between.
    #[verifier::loop_isolation(false)]
    fn aggregate_range(&self, lo: usize, hi: usize) -> (r: Aggregation)
        requires
            obs_bounded(self.samples@),
            forall|k: int|
                0 <= k < self.levels@.len() ==> level_entries_wf(
                    self.samples@,
                    (#[trigger] self.levels@[k])@,
                    k,
                ),
            lo < hi <= self.samples@.len(),
        ensures
            entry_wf(r, self.samples@.subrange(lo as int, hi as int)),
            r.metrics.bounded(),
    {
        let n = self.samples.len();
        let nlevels = self.levels.len();
        let mut acc: Option<Aggregation> = None;
        let mut i = lo;
        while i < hi
            invariant
                lo <= i <= hi,
                (i == lo) <==> acc is None,
                acc matches Some(a) ==> entry_wf(a, self.samples@.subrange(lo as int, i as int))
                    && a.metrics.bounded(),
            decreases hi - i,
        {
            // pick the largest cached block that starts at i and fits in [i, hi)
            let mut step: usize = 1;
            let mut lvl: usize = 0;
            let mut found = false;
            let mut c: usize = BRANCHING;
            let mut k: usize = 0;
            proof {
                vstd::arithmetic::power::lemma_pow0(BRANCHING as int);
            }
            while k < nlevels && c <= hi - i && i % c == 0
                invariant
                    k <= nlevels,
                    i < hi,
                    c >= BRANCHING,
                    c == chunk_size(k as int),
                    found ==> lvl < nlevels && step == chunk_size(lvl as int) && i % step == 0
                        && i + step <= hi && step >= 1 && (i as int) / (step as int) < (
                    self.levels@[lvl as int])@.len(),
                    !found ==> step == 1,
                decreases nlevels - k,
            {
                let j = i / c;
                if j < self.levels[k].len() {
                    found = true;
                    step = c;
                    lvl = k;
                    proof {
                        lemma_chunk_size_pos(k as int);
                    }
                }
                if c > (hi - i) / BRANCHING {
                    break;
                }
                proof {
                    lemma_chunk_size_step(k as int);
                    lemma_fundamental_div_mod((hi - i) as int, BRANCHING as int);
                    lemma_mul_inequality(
                        c as int,
                        ((hi - i) as int) / (BRANCHING as int),
                        BRANCHING as int,
                    );
                }
                c = c * BRANCHING;
                k = k + 1;
            }
            let ghost prev = self.samples@.subrange(lo as int, i as int);
            let ghost cover = self.samples@.subrange(i as int, i as int + step as int);
            let piece: Aggregation = if found {
                let j = i / step;
                proof {
                    lemma_fundamental_div_mod(i as int, step as int);
                    lemma_mul_is_commutative(step as int, j as int);
                    assert(j * step == i);
                    lemma_mul_is_distributive_add_other_way(step as int, j as int, 1);
                    assert((j + 1) * step == i + step);
                    assert(level_entries_wf(self.samples@, (self.levels@[lvl as int])@, lvl as int));
                    assert(entry_wf(
                        (self.levels@[lvl as int])@[j as int],
                        self.samples@.subrange(
                            (j as int) * chunk_size(lvl as int),
                            (j as int + 1) * chunk_size(lvl as int),
                        ),
                    ));
                }
                self.levels[lvl][j]
            } else {
                let o = self.samples[i];
                proof {
                    assert(cover.len() == 1);
                    assert(cover[0] == o);
                }
                Aggregation {
                    span: TimeSpan { start: o.timestamp, end: o.timestamp },
                    metrics: SampleMetrics::from_sample(o.sample),
                }
            };
            proof {
                assert(entry_wf(piece, cover));
                assert(obs_bounded(cover));
                assert(obs_bounded(prev));
            }
            acc = match acc {
                None => {
                    proof {
                        assert(prev + cover =~= self.samples@.subrange(
                            lo as int,
                            i as int + step as int,
                        ));
                        assert(prev.len() == 0);
                        lemma_metrics_of_bounded(cover);
                    }
                    Some(piece)
                },
                Some(a) => {
                    let combined = combine_entries(&a, &piece, Ghost(prev), Ghost(cover));
                    proof {
                        assert(prev + cover =~= self.samples@.subrange(
                            lo as int,
                            i as int + step as int,
                        ));
                    }
                    Some(combined)
                },
            };
            proof {
                if i == lo {
                    assert(self.samples@.subrange(lo as int, i as int + step as int) =~= cover);
                }
            }
            i = i + step;
        }
        acc.unwrap()
    }

    /// First index whose timestamp reaches `t`, found by binary search over
    /// the sorted timestamps.
    #[verifier::loop_isolation(false)]
    fn lower_bound(&self, t: i64) -> (r: usize)
        requires
            ts_sorted(self.samples@),
        ensures
            r <= self.samples@.len(),
            forall|i: int| 0 <= i < r ==> (#[trigger] self.samples@[i]).timestamp < t,
            forall|i: int|
                r <= i < self.samples@.len() ==> (#[trigger] self.samples@[i]).timestamp >= t,
    {
        let mut lo: usize = 0;
        let mut hi: usize = self.samples.len();
        while lo < hi
            invariant
                lo <= hi <= self.samples@.len(),
                forall|i: int| 0 <= i < lo ==> (#[trigger] self.samples@[i]).timestamp < t,
                forall|i: int|
                    hi <= i < self.samples@.len() ==> (#[trigger] self.samples@[i]).timestamp >= t,
            decreases hi - lo,
        {
            let mid = lo + (hi - lo) / 2;
            if self.samples[mid].timestamp < t {
                lo = mid + 1;
            } else {
                hi = mid;
            }
        }
        lo
    }

    /// Copy the stored observations `[lo, hi)` out into a vector.
    #[verifier::loop_isolation(false)]
    fn copy_range(&self, lo: usize, hi: usize) -> (r: Vec<Observation>)
        requires
            lo <= hi <= self.samples@.len(),
        ensures
            r@ == self.samples@.subrange(lo as int, hi as int),
    {
        let mut out: Vec<Observation> = Vec::new();
        let mut i = lo;
        while i < hi
            invariant
                lo <= i <= hi,
                out@ == self.samples@.subrange(lo as int, i as int),
            decreases hi - i,
        {
            out.push(self.samples[i]);
            proof {
                assert(self.samples@.subrange(lo as int, i as int + 1) =~= self.samples@.subrange(
                    lo as int,
                    i as int,
                ).push(self.samples@[i as int]));
            }
            i = i + 1;
        }
        out
    }

    /// Collect the observations falling inside `span`, in stored order, by
    /// scanning; works whether or not the data arrived sorted.
    #[verifier::loop_isolation(false)]
    fn collect_range(&self, span: TimeSpan) -> (r: Vec<Observation>)
        ensures
            r@ == select_range(self.samples@, span),
    {
        let n = self.samples.len();
        let mut out: Vec<Observation> = Vec::new();
        let mut i: usize = 0;
        proof {
            assert(self.samples@.subrange(0, 0) =~= Seq::<Observation>::empty());
        }
        while i < n
            invariant
                i <= n,
                out@ == select_range(self.samples@.subrange(0, i as int), span),
            decreases n - i,
        {
            let o = self.samples[i];
            proof {
                assert(self.samples@.subrange(0, i as int + 1).drop_last() =~= self.samples@.subrange(
                    0,
                    i as int,
                ));
                assert(self.samples@.subrange(0, i as int + 1).last() == o);
            }
            if o.timestamp >= span.start && o.timestamp < span.end {
                out.push(o);
            }
            i = i + 1;
        }
        proof {
            assert(self.samples@.subrange(0, n as int) =~= self.samples@);
        }
        out
    }

    /// Group `sel` into chunks of `c` and summarize each by scanning; the
    /// fallback bucketing for data that did not arrive sorted.
    #[verifier::loop_isolation(false)]
    fn bucketize_vec(sel: &Vec<Observation>, c: usize) -> (r: Vec<Aggregation>)
        requires
            obs_bounded(sel@),
            c >= 1,
            sel@.len() >= 1,
        ensures
            r@.len() == spec_bucket_count(sel@.len() as int, c as int),
            forall|j: int| 0 <= j < r@.len() ==> entry_wf(#[trigger] r@[j], bucket_of(sel@, c as int, j)),
    {
        let n = sel.len();
        let mut out: Vec<Aggregation> = Vec::new();
        let mut l: usize = 0;
        proof {
            assert(0int * c == 0) by (nonlinear_arith);
        }
        while l < n
            invariant
                l <= n,
                l < n ==> l == out@.len() * c,
                l == n ==> out@.len() == spec_bucket_count(n as int, c as int),
                forall|j: int|
                    0 <= j < out@.len() ==> entry_wf(#[trigger] out@[j], bucket_of(sel@, c as int, j)),
            decreases n - l,
        {
            let ghost j = out@.len() as int;
            proof {
                lemma_mul_succ(j, c as int);
            }
            let r_end = if n - l <= c {
                n
            } else {
                l + c
            };
            let a = aggregate_slice(sel, l, r_end);
            proof {
                assert(sel@.subrange(l as int, r_end as int) == bucket_of(sel@, c as int, j));
            }
            out.push(a);
            proof {
                let nn = n as int;
                let cc = c as int;
                if r_end == n {
                    if nn - l == cc {
                        lemma_fundamental_div_mod_converse(nn, cc, j + 1, 0);
                    } else {
                        lemma_fundamental_div_mod_converse(nn, cc, j, nn - l);
                    }
                }
            }
            l = r_end;
        }
        out
    }
}

impl Trace {
    /// Group the stored run `[lo, hi)` into chunks of `c` and summarize each
    /// from the hierarchical index.
    #[verifier::loop_isolation(false)]
    fn bucketize_index(&self, lo: usize, hi: usize, c: usize) -> (r: Vec<Aggregation>)
        requires
            obs_bounded(self.samples@),
            forall|k: int|
                0 <= k < self.levels@.len() ==> level_entries_wf(
                    self.samples@,
                    (#[trigger] self.levels@[k])@,
                    k,
                ),
            lo < hi <= self.samples@.len(),
            c >= 1,
        ensures
            r@.len() == spec_bucket_count((hi - lo) as int, c as int),
            forall|j: int|
                0 <= j < r@.len() ==> entry_wf(
                    #[trigger] r@[j],
                    bucket_of(self.samples@.subrange(lo as int, hi as int), c as int, j),
                ),
    {
        let ghost sel = self.samples@.subrange(lo as int, hi as int);
        let n = hi - lo;
        let mut out: Vec<Aggregation> = Vec::new();
        let mut l: usize = 0;
        proof {
            assert(0int * c == 0) by (nonlinear_arith);
        }
        while l < n
            invariant
                l <= n,
                l < n ==> l == out@.len() * c,
                l == n ==> out@.len() == spec_bucket_count(n as int, c as int),
                forall|j: int|
                    0 <= j < out@.len() ==> entry_wf(#[trigger] out@[j], bucket_of(sel, c as int, j)),
            decreases n - l,
        {
            let ghost j = out@.len() as int;
            proof {
                lemma_mul_succ(j, c as int);
            }
            let r_end = if n - l <= c {
                n
            } else {
                l + c
            };
            let a = self.aggregate_range(lo + l, lo + r_end);
            proof {
                assert(self.samples@.subrange((lo + l) as int, (lo + r_end) as int) =~= sel.subrange(
                    l as int,
                    r_end as int,
                ));
                assert(sel.subrange(l as int, r_end as int) == bucket_of(sel, c as int, j));
            }
            out.push(a);
            proof {
                let nn = n as int;
                let cc = c as int;
                if r_end == n {
                    if nn - l == cc {
                        lemma_fundamental_div_mod_converse(nn, cc, j + 1, 0);
                    } else {
                        lemma_fundamental_div_mod_converse(nn, cc, j, nn - l);
                    }
                }
            }
            l = r_end;
        }
        out
    }

    /// Answer a range query.
    ///
    /// A malformed query (empty interval, or a zero bucket budget) is
    /// signalled as [`QueryError::InvalidRange`].  Otherwise the
    /// observations inside the interval are selected; if they fit the
    /// budget they are returned raw, else they are grouped into consecutive
    /// buckets -- at most `amount` of them -- each summarized exactly.  An
    /// empty trace, or an interval outside the data, yields an empty raw
    /// result, never an error.
    pub fn query(&self, query: Query) -> (r: Result<QueryResult, QueryError>)
        requires
            self.wf(),
        ensures
            (r is Err) <==> !query.spec_valid(),
            r matches Err(e) ==> e == QueryError::InvalidRange,
            r matches Ok(qr) ==> qr.query == query && query_result_ok(
                select_range(self@, query.interval),
                query.amount as int,
                qr.inner,
            ),
            r matches Ok(qr) ==> qr.spec_len() == spec_result_len(
                select_range(self@, query.interval).len() as int,
                query.amount as int,
            ),
    {
        if query.amount == 0 || query.interval.end <= query.interval.start {
            return Err(QueryError::InvalidRange);
        }
        let ghost sel = select_range(self.samples@, query.interval);
        if self.sorted {
            let lo = self.lower_bound(query.interval.start);
            let hi = self.lower_bound(query.interval.end);
            proof {
                assert(lo <= hi) by {
                    if hi < lo {
                        assert(self.samples@[hi as int].timestamp < query.interval.start);
                        assert(self.samples@[hi as int].timestamp >= query.interval.end);
                    }
                }
                lemma_select_is_subrange(self.samples@, query.interval, lo as int, hi as int);
            }
            let n_sel = hi - lo;
            if n_sel <= query.amount {
                let v = self.copy_range(lo, hi);
                Ok(QueryResult { query, inner: Some(RangeQueryResult::Raw(v)) })
            } else {
                proof {
                    let nn = n_sel as int;
                    let aa = query.amount as int;
                    vstd::arithmetic::div_mod::lemma_div_non_zero(nn, aa);
                    if nn % aa != 0 {
                        if aa == 1 {
                            assert(nn * 1 == nn) by (nonlinear_arith);
                            lemma_fundamental_div_mod_converse(nn, 1, nn, 0);
                            assert(false);
                        }
                        vstd::arithmetic::div_mod::lemma_div_is_strictly_smaller(nn, aa);
                    }
                }
                let c = n_sel / query.amount + (if n_sel % query.amount == 0 {
                    0
                } else {
                    1
                });
                let buckets = self.bucketize_index(lo, hi, c);
                Ok(QueryResult { query, inner: Some(RangeQueryResult::Aggregations(buckets)) })
            }
        } else {
            let v = self.collect_range(query.interval);
            let n_sel = v.len();
            if n_sel <= query.amount {
                Ok(QueryResult { query, inner: Some(RangeQueryResult::Raw(v)) })
            } else {
                proof {
                    lemma_select_range_bounded(self.samples@, query.interval);
                }
                proof {
                    let nn = n_sel as int;
                    let aa = query.amount as int;
                    vstd::arithmetic::div_mod::lemma_div_non_zero(nn, aa);
                    if nn % aa != 0 {
                        if aa == 1 {
                            assert(nn * 1 == nn) by (nonlinear_arith);
                            lemma_fundamental_div_mod_converse(nn, 1, nn, 0);
                            assert(false);
                        }
                        vstd::arithmetic::div_mod::lemma_div_is_strictly_smaller(nn, aa);
                    }
                }
                let c = n_sel / query.amount + (if n_sel % query.amount == 0 {
                    0
                } else {
                    1
                });
                let buckets = Self::bucketize_vec(&v, c);
                Ok(QueryResult { query, inner: Some(RangeQueryResult::Aggregations(buckets)) })
            }
        }
    }

    /// The single merged summary over an interval, or over the whole trace
    /// when no interval is given; `None` exactly when no data lies in range.
    pub fn summary(&self, timespan: Option<&TimeSpan>) -> (r: Option<Aggregation>)
        requires
            self.wf(),
        ensures
            (r is None) <==> summary_target(self@, timespan).len() == 0,
            r matches Some(a) ==> entry_wf(a, summary_target(self@, timespan))
                && a.metrics.bounded(),
    {
        match timespan {
            None => {
                let n = self.samples.len();
                if n == 0 {
                    None
                } else {
                    let a = self.aggregate_range(0, n);
                    proof {
                        assert(self.samples@.subrange(0, n as int) =~= self.samples@);
                    }
                    Some(a)
                }
            },
            Some(span) => {
                if span.end <= span.start {
                    proof {
                        lemma_select_empty(self.samples@, *span);
                    }
                    None
                } else if self.sorted {
                    let lo = self.lower_bound(span.start);
                    let hi = self.lower_bound(span.end);
                    proof {
                        assert(lo <= hi) by {
                            if hi < lo {
                                assert(self.samples@[hi as int].timestamp < span.start);
                                assert(self.samples@[hi as int].timestamp >= span.end);
                            }
                        }
                        lemma_select_is_subrange(self.samples@, *span, lo as int, hi as int);
                    }
                    if lo == hi {
                        None
                    } else {
                        Some(self.aggregate_range(lo, hi))
                    }
                } else {
                    let v = self.collect_range(*span);
                    let n = v.len();
                    if n == 0 {
                        None
                    } else {
                        proof {
                            lemma_select_range_bounded(self.samples@, *span);
                        }
                        let a = aggregate_slice(&v, 0, n);
                        proof {
                            assert(v@.subrange(0, n as int) =~= v@);
                        }
                        Some(a)
                    }
                }
            },
        }
    }

    /// Append one observation: it joins the current open leaf chunk, and
    /// every chunk group it completes is sealed into a summary entry of the
    /// next level up, growing the index in height when the top level fills.
    #[verifier::loop_isolation(false)]
    pub fn add_sample(&mut self, observation: Observation)
        requires
            old(self).wf(),
            observation.sample.spec_ok(),
        ensures
            final(self).wf(),
            final(self)@ == old(self)@.push(observation),
            final(self).spec_sorted() == (old(self).spec_sorted() && (old(self)@.len() == 0
                || old(self)@.last().timestamp <= observation.timestamp)),
    {
        let n0 = self.samples.len();
        if n0 > 0 {
            let last_ts = self.samples[n0 - 1].timestamp;
            if observation.timestamp < last_ts {
                self.sorted = false;
            } else {
                proof {
                    if self.sorted {
                        assert(ts_sorted(self.samples@.push(observation)));
                    }
                }
            }
        }
        let ghost olds = self.samples@;
        self.samples.push(observation);
        let n = self.samples.len();
        proof {
            assert forall|lvl: int| 0 <= lvl < self.levels@.len() implies level_entries_wf(
                self.samples@,
                (#[trigger] self.levels@[lvl])@,
                lvl,
            ) by {
                lemma_chunk_size_pos(lvl);
                let level = (self.levels@[lvl])@;
                let cs = chunk_size(lvl);
                assert(level_entries_wf(olds, (old(self).levels@[lvl])@, lvl));
                assert((old(self).levels@[lvl])@ == level);
                assert(level.len() * cs <= olds.len());
                assert(self.samples@ == olds.push(observation));
                assert forall|j: int| 0 <= j < level.len() implies entry_wf(
                    #[trigger] level[j],
                    self.samples@.subrange(j * cs, (j + 1) * cs),
                ) by {
                    lemma_mul_inequality(j + 1, level.len() as int, cs);
                    assert((j + 1) * cs <= olds.len());
                    assert(j * cs >= 0) by {
                        lemma_mul_inequality(0, j, cs);
                        assert(0 * cs == 0) by (nonlinear_arith);
                    }
                    assert((j + 1) * cs == j * cs + cs) by {
                        lemma_mul_is_distributive_add_other_way(cs, j, 1);
                        assert(1 * cs == cs) by (nonlinear_arith);
                    }
                    assert(self.samples@.subrange(j * cs, (j + 1) * cs) =~= olds.subrange(
                        j * cs,
                        (j + 1) * cs,
                    ));
                }
            }
        }
        proof {
            vstd::arithmetic::power::lemma_pow0(BRANCHING as int);
        }
        let mut k: usize = 0;
        let mut c: usize = BRANCHING;
        let mut done = false;
        while !done && c <= n && n % c == 0
            invariant
                n == self.samples@.len(),
                1 <= n,
                self.samples@ == old(self)@.push(observation),
                obs_bounded(self.samples@),
                self.sorted ==> ts_sorted(self.samples@),
                self.sorted == (old(self).spec_sorted() && (old(self)@.len() == 0 || old(
                    self,
                )@.last().timestamp <= observation.timestamp)),
                c >= BRANCHING,
                k <= self.levels@.len(),
                !done ==> c == chunk_size(k as int),
                done ==> chunk_size(k as int) > n,
                chunk_size(self.levels@.len() as int) >= n,
                forall|lvl: int|
                    0 <= lvl < k ==> lvl < self.levels@.len() && (#[trigger] self.levels@[lvl])@.len()
                        == n as int / chunk_size(lvl),
                forall|lvl: int|
                    k <= lvl < self.levels@.len() ==> (#[trigger] self.levels@[lvl])@.len() == (
                    n - 1) as int / chunk_size(lvl),
                forall|lvl: int|
                    0 <= lvl < self.levels@.len() ==> level_entries_wf(
                        self.samples@,
                        (#[trigger] self.levels@[lvl])@,
                        lvl,
                    ),
            decreases (if done { 0int } else { n + 1 - c }),
        {
            let lo_seal = n - c;
            let entry = self.aggregate_range(lo_seal, n);
            proof {
                lemma_chunk_size_pos(k as int);
                lemma_succ_div(n as int - 1, c as int);
                lemma_fundamental_div_mod(n as int, c as int);
                assert(n as int == c * (n as int / c as int));
            }
            if k == self.levels.len() {
                proof {
                    lemma_basic_div(n as int - 1, chunk_size(k as int));
                }
                self.levels.push(Vec::new());
                proof {
                    lemma_chunk_size_step(k as int);
                    assert(chunk_size(k as int + 1) >= n) by {
                        lemma_chunk_size_pos(k as int);
                        lemma_mul_inequality(
                            1,
                            BRANCHING as int,
                            chunk_size(k as int),
                        );
                        lemma_mul_is_commutative(BRANCHING as int, chunk_size(k as int));
                    }
                }
            }
            let ghost oldlevels = self.levels@;
            let ghost oldlevel = (self.levels@[k as int])@;
            self.levels[k].push(entry);
            proof {
                let cs = c as int;
                let nn = n as int;
                let j = nn / cs - 1;
                // the new entry sits at index j and covers [n - c, n)
                assert(oldlevel.len() == j);
                assert((self.levels@[k as int])@ == oldlevel.push(entry));
                assert(j * cs == nn - cs) by {
                    lemma_mul_is_distributive_add_other_way(cs, nn / cs - 1, 1);
                }
                assert((j + 1) * cs == nn) by {
                    lemma_mul_is_distributive_add_other_way(cs, j, 1);
                }
                assert(entry_wf(entry, self.samples@.subrange(j * cs, (j + 1) * cs)));
                assert(level_entries_wf(self.samples@, (self.levels@[k as int])@, k as int)) by {
                    assert(oldlevel.push(entry).len() * cs == nn) by {
                        lemma_mul_is_commutative(oldlevel.push(entry).len() as int, cs);
                    }
                    assert forall|j2: int| 0 <= j2 < oldlevel.push(entry).len() implies entry_wf(
                        #[trigger] oldlevel.push(entry)[j2],
                        self.samples@.subrange(j2 * cs, (j2 + 1) * cs),
                    ) by {
                        if j2 < j {
                            assert(entry_wf(
                                oldlevel[j2],
                                self.samples@.subrange(j2 * cs, (j2 + 1) * cs),
                            ));
                        }
                    }
                }
                assert forall|lvl: int|
                    0 <= lvl < self.levels@.len() implies level_entries_wf(
                    self.samples@,
                    (#[trigger] self.levels@[lvl])@,
                    lvl,
                ) by {
                    if lvl != k {
                        assert(self.levels@[lvl] == oldlevels[lvl]);
                    }
                }
            }
            let nl = self.levels.len();
            proof {
                assert(k < nl);
            }
            k = k + 1;
            if c <= n / BRANCHING {
                proof {
                    lemma_chunk_size_step(k as int - 1);
                    lemma_fundamental_div_mod(n as int, BRANCHING as int);
                    lemma_mul_inequality(
                        c as int,
                        (n as int) / (BRANCHING as int),
                        BRANCHING as int,
                    );
                    lemma_mul_is_commutative(c as int, BRANCHING as int);
                }
                c = c * BRANCHING;
            } else {
                proof {
                    lemma_chunk_size_step(k as int - 1);
                    lemma_fundamental_div_mod(n as int, BRANCHING as int);
                    lemma_mul_inequality(
                        (n as int) / (BRANCHING as int) + 1,
                        c as int,
                        BRANCHING as int,
                    );
                    lemma_mul_is_distributive_add_other_way(
                        BRANCHING as int,
                        (n as int) / (BRANCHING as int),
                        1,
                    );
                    lemma_mul_is_commutative(c as int, BRANCHING as int);
                    assert(chunk_size(k as int) > n);
                }
                done = true;
            }
        }
        proof {
            let nn = n as int;
            let ll = self.levels@.len() as int;
            // on exit the sealing frontier k refuses: its chunk either does
            // not divide n or exceeds n
            assert(chunk_size(k as int) > nn || nn % chunk_size(k as int) != 0);
            assert forall|lvl: int| k <= lvl < ll implies (#[trigger] self.levels@[lvl])@.len()
                == nn / chunk_size(lvl) by {
                lemma_high_levels_stable(k as int, lvl, nn);
            }
            // and no level beyond the existing ones is needed
            assert(chunk_size(ll) > nn) by {
                if chunk_size(ll) == nn {
                    if k as int == ll {
                        assert(nn % chunk_size(ll) == 0) by {
                            lemma_chunk_size_pos(ll);
                            lemma_mod_multiples_basic(1, chunk_size(ll));
                        }
                        assert(false);
                    } else {
                        lemma_chunk_size_divides(k as int, ll);
                        let p = pow(BRANCHING as int, (ll - k) as nat);
                        assert(nn == chunk_size(k as int) * p);
                        assert(nn % chunk_size(k as int) == 0) by {
                            lemma_chunk_size_pos(k as int);
                            lemma_mul_is_commutative(chunk_size(k as int), p);
                            lemma_mod_multiples_basic(p, chunk_size(k as int));
                        }
                        lemma_chunk_size_pos(k as int);
                        assert(false);
                    }
                }
            }
        }
    }

    /// Append a batch of observations in the given order; equivalent to
    /// repeated single appends.
    #[verifier::loop_isolation(false)]
    pub fn add_values(&mut self, samples: Vec<Observation>)
        requires
            old(self).wf(),
            obs_bounded(samples@),
        ensures
            final(self).wf(),
            final(self)@ == old(self)@ + samples@,
    {
        let m = samples.len();
        let mut i: usize = 0;
        proof {
            assert(self@ =~= old(self)@ + samples@.subrange(0, 0));
        }
        while i < m
            invariant
                i <= m,
                self.wf(),
                self@ == old(self)@ + samples@.subrange(0, i as int),
            decreases m - i,
        {
            let o = samples[i];
            self.add_sample(o);
            proof {
                assert(old(self)@ + samples@.subrange(0, i as int + 1) =~= (old(self)@
                    + samples@.subrange(0, i as int)).push(o));
            }
            i = i + 1;
        }
        proof {
            assert(samples@.subrange(0, m as int) =~= samples@);
        }
    }
}

impl Default for Trace {
    /// An empty trace.
    fn default() -> (r: Trace)
        ensures
            r.wf(),
            r@ == Seq::<Observation>::empty(),
            r.spec_sorted(),
    {
        Trace::new()
    }
}

} // verus!
