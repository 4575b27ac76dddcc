//! Tests of the handle and its change-notification fan-out.

use lognplot::time::TimeSpan;
use lognplot::tsdb::query::{Query, Resolution};
use lognplot::tsdb::sample::{Observation, Sample};
use lognplot::tsdb::TsDb;

fn obs(t: i64, v: i64) -> Observation {
    Observation::new(t, Sample::new(v))
}

#[test]
fn writes_reach_the_database_through_the_handle() {
    let mut h = TsDb::default().into_handle();
    h.add_value("a", obs(1, 10));
    h.add_values("a", vec![obs(2, 20), obs(3, 30)]);
    let s = h.summary("a", None).unwrap();
    assert_eq!(s.metrics.count, 3);
    assert_eq!(s.metrics.min, 10);
    assert_eq!(s.metrics.max, 30);
    let q = Query::new(TimeSpan::new(0, 10), Resolution::NanoSeconds, 10);
    assert_eq!(h.query("a", q).unwrap().len(), 3);
    let names = h.get_signal_names();
    assert_eq!(names.len(), 1);
    assert_eq!(names[0].as_str(), "a");
}

#[test]
fn each_write_notifies_each_subscriber() {
    let mut h = TsDb::default().into_handle();
    let s1 = h.register_subscriber();
    let s2 = h.register_subscriber();
    assert_ne!(s1, s2);
    h.add_value("a", obs(1, 1));
    h.add_value("b", obs(2, 2));
    for id in [s1, s2] {
        let events = h.poll_events(id);
        assert_eq!(events.len(), 2);
        assert_eq!(events[0].changed_signal_names, vec!["a".to_string()]);
        assert_eq!(events[1].changed_signal_names, vec!["b".to_string()]);
    }
    // polling drained the queues
    assert_eq!(h.poll_events(s1).len(), 0);
    assert_eq!(h.poll_events(s2).len(), 0);
}

#[test]
fn empty_batch_notifies_nobody() {
    let mut h = TsDb::default().into_handle();
    let s1 = h.register_subscriber();
    h.add_values("quiet", Vec::new());
    assert_eq!(h.poll_events(s1).len(), 0);
}

#[test]
fn batch_event_carries_each_touched_name_once() {
    // two subscribers, one batch touching the names {"a", "b"}: both
    // subscribers receive exactly one event naming exactly {"a", "b"}
    let mut h = TsDb::default().into_handle();
    let s1 = h.register_subscriber();
    let s2 = h.register_subscriber();
    let batch = vec![
        ("a".to_string(), obs(1, 1)),
        ("b".to_string(), obs(1, 2)),
        ("a".to_string(), obs(2, 3)),
        ("b".to_string(), obs(2, 4)),
    ];
    h.add_batch(batch);
    for id in [s1, s2] {
        let events = h.poll_events(id);
        assert_eq!(events.len(), 1);
        let mut names = events[0].changed_signal_names.clone();
        names.sort();
        assert_eq!(names, vec!["a".to_string(), "b".to_string()]);
    }
    // the data of both signals arrived
    assert_eq!(h.summary("a", None).unwrap().metrics.count, 2);
    assert_eq!(h.summary("b", None).unwrap().metrics.count, 2);
}

#[test]
fn late_subscriber_misses_earlier_events() {
    let mut h = TsDb::default().into_handle();
    h.add_value("a", obs(1, 1));
    let s1 = h.register_subscriber();
    h.add_value("a", obs(2, 2));
    let events = h.poll_events(s1);
    assert_eq!(events.len(), 1);
    assert_eq!(events[0].changed_signal_names, vec!["a".to_string()]);
}
