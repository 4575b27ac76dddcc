//! Tests of the sample metrics, the per-signal trace, and the registry.

use lognplot::time::TimeSpan;
use lognplot::tsdb::query::{Query, QueryError, RangeQueryResult, Resolution};
use lognplot::tsdb::sample::{Observation, Sample, SampleMetrics};
use lognplot::tsdb::trace::Trace;
use lognplot::tsdb::TsDb;

fn obs(t: i64, v: i64) -> Observation {
    Observation::new(t, Sample::new(v))
}

fn merge_all(parts: &[SampleMetrics]) -> SampleMetrics {
    let mut acc = parts[0];
    for m in &parts[1..] {
        acc = acc.merge(m);
    }
    acc
}

#[test]
fn metrics_of_single_sample() {
    let m = SampleMetrics::from_sample(Sample::new(42));
    assert_eq!(m.min, 42);
    assert_eq!(m.max, 42);
    assert_eq!(m.sum, 42);
    assert_eq!(m.count, 1);
    assert_eq!(m.mean(), 42);
}

#[test]
fn metrics_merge_exact() {
    let a = SampleMetrics::from_sample(Sample::new(2));
    let b = SampleMetrics::from_sample(Sample::new(4));
    let m = a.merge(&b);
    assert_eq!(m.min, 2);
    assert_eq!(m.max, 4);
    assert_eq!(m.sum, 6);
    assert_eq!(m.count, 2);
    assert_eq!(m.mean(), 3);
}

#[test]
fn metrics_mean_rounds_toward_zero() {
    let a = SampleMetrics::from_sample(Sample::new(-2));
    let b = SampleMetrics::from_sample(Sample::new(-3));
    let m = a.merge(&b);
    assert_eq!(m.sum, -5);
    assert_eq!(m.mean(), -2);
}

#[test]
fn merge_is_associative_and_commutative() {
    // the associativity law on concrete values: two different partitions of
    // the same samples merge to identical metrics
    let values = [1i64, 5, 3, 7, -2, 9];
    let ms: Vec<SampleMetrics> = values
        .iter()
        .map(|v| SampleMetrics::from_sample(Sample::new(*v)))
        .collect();
    let left = ms[0].merge(&ms[1]).merge(&ms[2].merge(&ms[3])).merge(&ms[4].merge(&ms[5]));
    let right = ms[0].merge(&ms[1].merge(&ms[2].merge(&ms[3].merge(&ms[4].merge(&ms[5])))));
    assert_eq!(left, right);
    assert_eq!(left, merge_all(&ms));
    let ab = ms[0].merge(&ms[1]);
    let ba = ms[1].merge(&ms[0]);
    assert_eq!(ab, ba);
}

#[test]
fn empty_trace_answers_empty() {
    let t = Trace::default();
    assert_eq!(t.len(), 0);
    assert!(t.summary(None).is_none());
    let q = Query::new(TimeSpan::new(0, 100), Resolution::NanoSeconds, 10);
    let r = t.query(q).unwrap();
    assert_eq!(r.len(), 0);
}

#[test]
fn malformed_query_is_signalled() {
    let t = Trace::default();
    let empty_interval = Query::new(TimeSpan::new(5, 5), Resolution::NanoSeconds, 10);
    assert_eq!(t.query(empty_interval).unwrap_err(), QueryError::InvalidRange);
    let reversed = Query::new(TimeSpan::new(9, 2), Resolution::NanoSeconds, 10);
    assert_eq!(t.query(reversed).unwrap_err(), QueryError::InvalidRange);
    let zero_budget = Query::new(TimeSpan::new(0, 10), Resolution::NanoSeconds, 0);
    assert_eq!(t.query(zero_budget).unwrap_err(), QueryError::InvalidRange);
}

#[test]
fn raw_result_when_budget_reaches_raw_density() {
    let mut t = Trace::default();
    for i in 0..5i64 {
        t.add_sample(obs(i * 10, i));
    }
    let q = Query::new(TimeSpan::new(0, 100), Resolution::NanoSeconds, 10);
    let r = t.query(q).unwrap();
    assert_eq!(r.len(), 5);
    match r.inner.unwrap() {
        RangeQueryResult::Raw(v) => {
            assert_eq!(v.len(), 5);
            assert_eq!(v[0], obs(0, 0));
            assert_eq!(v[4], obs(40, 4));
        }
        RangeQueryResult::Aggregations(_) => panic!("expected raw samples"),
    }
}

#[test]
fn raw_result_clipped_to_interval() {
    let mut t = Trace::default();
    for i in 0..10i64 {
        t.add_sample(obs(i, i + 100));
    }
    // half-open interval: 3 included, 7 excluded
    let q = Query::new(TimeSpan::new(3, 7), Resolution::NanoSeconds, 100);
    let r = t.query(q).unwrap();
    match r.inner.unwrap() {
        RangeQueryResult::Raw(v) => {
            let ts: Vec<i64> = v.iter().map(|o| o.timestamp).collect();
            assert_eq!(ts, vec![3, 4, 5, 6]);
        }
        RangeQueryResult::Aggregations(_) => panic!("expected raw samples"),
    }
}

#[test]
fn aggregated_buckets_cover_everything_once() {
    // coverage: bucket counts sum to the number of selected samples, spans
    // are ordered and non-overlapping, and the merged aggregate matches the
    // summary
    let mut t = Trace::default();
    let n = 1000i64;
    for i in 0..n {
        t.add_sample(obs(i, i % 17));
    }
    let q = Query::new(TimeSpan::new(0, n), Resolution::NanoSeconds, 7);
    let r = t.query(q).unwrap();
    match r.inner.unwrap() {
        RangeQueryResult::Aggregations(v) => {
            assert_eq!(v.len(), 7);
            let total: usize = v.iter().map(|a| a.metrics.count).sum();
            assert_eq!(total, n as usize);
            for w in v.windows(2) {
                assert!(w[0].span.end < w[1].span.start);
            }
            let merged = merge_all(&v.iter().map(|a| a.metrics).collect::<Vec<_>>());
            let s = t.summary(Some(&TimeSpan::new(0, n))).unwrap();
            assert_eq!(merged, s.metrics);
        }
        RangeQueryResult::Raw(_) => panic!("expected aggregations"),
    }
}

#[test]
fn more_buckets_when_amount_grows() {
    // monotonic resolution: a larger budget never returns fewer entries,
    // capped at the number of raw samples in range
    let mut t = Trace::default();
    let n = 300i64;
    for i in 0..n {
        t.add_sample(obs(i, i));
    }
    let span = TimeSpan::new(0, n);
    let mut last_len = 0;
    for amount in [1usize, 2, 3, 10, 50, 299, 300, 1000] {
        let q = Query::new(span, Resolution::NanoSeconds, amount);
        let len = t.query(q).unwrap().len();
        assert!(len >= last_len, "amount {} gave {} < {}", amount, len, last_len);
        assert!(len <= n as usize);
        last_len = len;
    }
    // once the budget reaches the raw density the result is the raw data
    let q = Query::new(span, Resolution::NanoSeconds, 300);
    assert_eq!(t.query(q).unwrap().len(), 300);
}

#[test]
fn summary_equals_single_bucket_query() {
    // idempotent summary: summary(span) equals the single bucket of a query
    // with a budget of one
    let mut t = Trace::default();
    for i in 0..100i64 {
        t.add_sample(obs(i, 3 * i - 50));
    }
    let span = TimeSpan::new(10, 60);
    let s = t.summary(Some(&span)).unwrap();
    let q = Query::new(span, Resolution::NanoSeconds, 1);
    match t.query(q).unwrap().inner.unwrap() {
        RangeQueryResult::Aggregations(v) => {
            assert_eq!(v.len(), 1);
            assert_eq!(v[0], s);
        }
        RangeQueryResult::Raw(_) => panic!("expected one aggregation"),
    }
}

#[test]
fn bucket_contents_are_exact() {
    // five samples decimated to two buckets: chunks of ceil(5/2) = 3, so
    // the first bucket holds three samples and the second the remaining two
    let mut t = Trace::default();
    let values = [4i64, -1, 7, 2, 5];
    for (i, v) in values.iter().enumerate() {
        t.add_sample(obs(i as i64 * 10, *v));
    }
    let q = Query::new(TimeSpan::new(0, 50), Resolution::NanoSeconds, 2);
    match t.query(q).unwrap().inner.unwrap() {
        RangeQueryResult::Aggregations(v) => {
            assert_eq!(v.len(), 2);
            assert_eq!(v[0].metrics.count, 3);
            assert_eq!(v[0].metrics.min, -1);
            assert_eq!(v[0].metrics.max, 7);
            assert_eq!(v[0].metrics.sum, 10);
            assert_eq!(v[0].span.start, 0);
            assert_eq!(v[0].span.end, 20);
            assert_eq!(v[1].metrics.count, 2);
            assert_eq!(v[1].metrics.min, 2);
            assert_eq!(v[1].metrics.max, 5);
            assert_eq!(v[1].metrics.sum, 7);
            assert_eq!(v[1].span.start, 30);
            assert_eq!(v[1].span.end, 40);
        }
        RangeQueryResult::Raw(_) => panic!("expected aggregations"),
    }
}

#[test]
fn summary_of_empty_interval_is_none() {
    let mut t = Trace::default();
    t.add_sample(obs(5, 1));
    assert!(t.summary(Some(&TimeSpan::new(7, 7))).is_none());
    assert!(t.summary(Some(&TimeSpan::new(9, 2))).is_none());
    assert!(t.summary(Some(&TimeSpan::new(100, 200))).is_none());
}

#[test]
fn summary_of_whole_trace() {
    let mut t = Trace::default();
    for i in 0..1000i64 {
        t.add_sample(obs(i, if i == 400 { -999 } else { i }));
    }
    let s = t.summary(None).unwrap();
    assert_eq!(s.metrics.count, 1000);
    assert_eq!(s.metrics.min, -999);
    assert_eq!(s.metrics.max, 999);
    assert_eq!(s.span.start, 0);
    assert_eq!(s.span.end, 999);
}

#[test]
fn out_of_order_appends_still_answer() {
    let mut t = Trace::default();
    t.add_sample(obs(50, 1));
    t.add_sample(obs(10, 2));
    t.add_sample(obs(30, 3));
    let s = t.summary(Some(&TimeSpan::new(0, 100))).unwrap();
    assert_eq!(s.metrics.count, 3);
    assert_eq!(s.metrics.min, 1);
    assert_eq!(s.metrics.max, 3);
    let q = Query::new(TimeSpan::new(0, 40), Resolution::NanoSeconds, 10);
    let r = t.query(q).unwrap();
    assert_eq!(r.len(), 2);
}

#[test]
fn add_values_matches_repeated_add_sample() {
    let batch: Vec<Observation> = (0..40i64).map(|i| obs(i, i * i % 23)).collect();
    let mut a = Trace::default();
    a.add_values(batch.clone());
    let mut b = Trace::default();
    for o in &batch {
        b.add_sample(*o);
    }
    assert_eq!(a.summary(None).unwrap(), b.summary(None).unwrap());
    assert_eq!(a.len(), b.len());
}

#[test]
fn sinusoidal_bulk_load_and_decimation() {
    // 20000 samples spanning 2 seconds with a sinusoidal pattern; a query
    // over [0, 2e9) with a budget of 10 returns 10 aggregate buckets whose
    // merged aggregate equals the whole-trace summary
    let mut db = TsDb::default();
    let n = 20000i64;
    let span_ns = 2_000_000_000i64;
    for i in 0..n {
        let phase = (i as f64) / (n as f64) * std::f64::consts::TAU;
        let value = (phase.sin() * 1000.0) as i64;
        db.add_value("x", obs(i * (span_ns / n), value));
    }
    let q = Query::new(TimeSpan::new(0, span_ns), Resolution::NanoSeconds, 10);
    let r = db.query("x", q).unwrap();
    assert_eq!(r.len(), 10);
    match r.inner.unwrap() {
        RangeQueryResult::Aggregations(v) => {
            assert_eq!(v.len(), 10);
            let merged = merge_all(&v.iter().map(|a| a.metrics).collect::<Vec<_>>());
            let s = db.summary("x", None).unwrap();
            assert_eq!(merged, s.metrics);
            assert_eq!(s.metrics.count, n as usize);
        }
        RangeQueryResult::Raw(_) => panic!("expected aggregations"),
    }
}

#[test]
fn unseen_name_appears_exactly_once() {
    let mut db = TsDb::default();
    db.add_value("y", obs(1, 10));
    db.add_value("y", obs(2, 20));
    let names = db.get_signal_names();
    assert_eq!(names.iter().filter(|n| n.as_str() == "y").count(), 1);
}

#[test]
fn unknown_name_is_safe() {
    // unknown-name safety: queries and summaries for unregistered names
    // answer empty or none, never an error
    let db = TsDb::default();
    let q = Query::new(TimeSpan::new(0, 10), Resolution::NanoSeconds, 10);
    let r = db.query("ghostly", q).unwrap();
    assert_eq!(r.len(), 0);
    assert!(r.inner.is_none());
    assert_eq!(r.query.amount, 10);
    assert!(db.summary("ghostly", None).is_none());
    assert!(db.summary("ghostly", Some(&TimeSpan::new(0, 10))).is_none());
}

#[test]
fn new_trace_replaces_data() {
    let mut db = TsDb::default();
    db.add_value("a", obs(1, 5));
    db.new_trace("a");
    assert!(db.summary("a", None).is_none());
    assert_eq!(db.get_signal_names().len(), 1);
}

#[test]
fn query_builder_defaults_and_chaining() {
    let q = Query::create().start(3).end(9).build();
    assert_eq!(q.interval.start, 3);
    assert_eq!(q.interval.end, 9);
    assert_eq!(q.amount, 10);
    assert_eq!(q.resolution, Resolution::NanoSeconds);
    let q2 = Query::create().amount(25).end(100).start(-5).build();
    assert_eq!(q2.amount, 25);
    assert_eq!(q2.interval.start, -5);
    assert_eq!(q2.interval.end, 100);
}

#[test]
fn query_result_len_counts_inner() {
    let q = Query::new(TimeSpan::new(0, 1), Resolution::NanoSeconds, 1);
    let empty = lognplot::tsdb::query::QueryResult { query: q, inner: None };
    assert_eq!(empty.len(), 0);
}
