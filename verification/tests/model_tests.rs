use atlas_metrics::correlation::{CorrelationEvent, CorrelationCounterTracker, CorrelationTracker, CorrelationEventOccurrence};
use atlas_metrics::data::{next_position, AdditionalMetricData, MetricData, MetricKind, MetricLevel, SafeMetricData};
use atlas_metrics::metric::Metric;
use atlas_metrics::welford::WelfordState;
use chrono::NaiveDateTime;

fn at(secs: i64) -> NaiveDateTime {
    chrono::DateTime::from_timestamp(secs, 0).unwrap().naive_utc()
}

#[test]
fn levels_are_ordered() {
    assert!(MetricLevel::Trace.is_below(&MetricLevel::Debug));
    assert!(MetricLevel::Debug.is_below(&MetricLevel::Info));
    assert!(!MetricLevel::Info.is_below(&MetricLevel::Info));
    assert!(!MetricLevel::Info.is_below(&MetricLevel::Trace));
    assert_eq!(MetricLevel::Info.rank(), 2);
}

#[test]
fn additional_data_by_kind() {
    assert!(matches!(MetricKind::Duration.gen_additional_data(), AdditionalMetricData::Duration(None)));
    assert!(matches!(MetricKind::Count.gen_additional_data(), AdditionalMetricData::Count));
    assert!(matches!(MetricKind::Counter.gen_additional_data(), AdditionalMetricData::Counter));
    assert!(matches!(MetricKind::CountMax(3).gen_additional_data(), AdditionalMetricData::Counter));
    assert!(matches!(MetricKind::CounterCorrelation.gen_additional_data(), AdditionalMetricData::Counter));
    assert!(matches!(MetricKind::Correlation.gen_additional_data(), AdditionalMetricData::Correlation));
    assert!(matches!(
        MetricKind::CorrelationAggrDurationTracker.gen_additional_data(),
        AdditionalMetricData::Correlation
    ));
}

#[test]
fn layout_by_kind() {
    assert!(matches!(MetricKind::Counter.gen_metric_type(4), SafeMetricData::Atomic(MetricData::Counter(0))));
    assert!(matches!(MetricKind::Duration.gen_metric_type(4), SafeMetricData::Atomic(MetricData::Duration(_))));
    assert!(matches!(
        MetricKind::Correlation.gen_metric_type(4),
        SafeMetricData::ThreadSafe(MetricData::Correlation(_))
    ));
    match MetricKind::CountMax(1).gen_metric_type(3) {
        SafeMetricData::Sequential(b, _) => assert_eq!(b.len(), 3),
        _ => panic!("count max must be sequential"),
    }
}

#[test]
fn metric_new_and_getters() {
    let m = Metric::new("n".to_string(), MetricKind::Count, MetricLevel::Debug, 2);
    assert_eq!(m.name(), "n");
    assert_eq!(*m.metric_type(), MetricKind::Count);
    assert_eq!(*m.metric_level(), MetricLevel::Debug);
    assert!(matches!(m.additional_data(), AdditionalMetricData::Count));
    assert!(matches!(m.value().get_metric_data(), MetricData::Count(w) if w.count == 0));
}

#[test]
fn round_robin_and_locked_bucket() {
    // The position is the calling thread's own: this thread starts at 0.
    let mut v = MetricKind::CountMax(2).gen_metric_type(2);
    assert_eq!(v.get_round_robin(), 0);
    assert_eq!(v.get_round_robin(), 1);
    if let MetricData::CountMax(list) = v.locked_metric_data() {
        list.push((4, at(0)));
    }
    assert_eq!(v.get_round_robin(), 3);
    match &v {
        SafeMetricData::Sequential(b, _) => {
            assert!(matches!(&b[0], MetricData::CountMax(l) if l.len() == 1));
            assert!(matches!(&b[1], MetricData::CountMax(l) if l.is_empty()));
        }
        _ => panic!("count max must be sequential"),
    }
    // Position 5 of a round over 2 buckets points at bucket 1.
    if let MetricData::CountMax(list) = v.bucket_at(5) {
        list.push((6, at(1)));
    }
    match &v {
        SafeMetricData::Sequential(b, _) => {
            assert!(matches!(&b[1], MetricData::CountMax(l) if l.len() == 1 && l[0].0 == 6));
        }
        _ => panic!("count max must be sequential"),
    }
    let atomic = MetricKind::Counter.gen_metric_type(1);
    assert_eq!(atomic.get_round_robin(), 0);
    let t = MetricKind::Correlation.gen_metric_type(1);
    assert!(matches!(t.get_thread_safe_read(), MetricData::Correlation(_)));
}

#[test]
fn merge_adds_counters_and_appends_counts() {
    let mut c = MetricData::Counter(u64::MAX);
    c.merge(MetricData::Counter(3));
    assert!(matches!(c, MetricData::Counter(2)));
    let mut l = MetricData::CountMax(vec![(1, at(1))]);
    l.merge(MetricData::CountMax(vec![(2, at(2)), (3, at(3))]));
    assert!(matches!(l, MetricData::CountMax(ref v) if v.iter().map(|x| x.0).collect::<Vec<_>>() == vec![1, 2, 3]));
}

#[test]
fn welford_first_measurement_is_the_mean() {
    let mut w = WelfordState::new();
    w.record(42);
    assert_eq!((w.m, w.s, w.count, w.sum), (42, 0, 1, 42));
}

#[test]
fn welford_mean_stays_within_the_measurements() {
    let mut w = WelfordState::new();
    for x in [100u64, 3, 57, 99, 3, 64] {
        w.record(x);
        assert!(w.m >= 3 && w.m <= 100);
    }
    assert_eq!(w.count, 6);
    assert_eq!(w.sum, 326);
}

#[test]
fn welford_spread_never_decreases_without_overflow() {
    let mut w = WelfordState::new();
    let mut last = w.s;
    for x in [5u64, 1, 9, 9, 2, 7, 0] {
        w.record(x);
        assert!(w.s >= last);
        last = w.s;
    }
}

#[test]
fn welford_large_measurement_wraps_into_negative() {
    let mut w = WelfordState::new();
    w.record(u64::MAX);
    assert_eq!((w.m, w.sum, w.count), (-1, -1, 1));
    assert!(w.has_room());
}

#[test]
fn event_names() {
    assert_eq!(CorrelationEvent::Initialized.name(), "Initialized");
    assert_eq!(CorrelationEvent::Passed.name(), "Passed");
    assert_eq!(CorrelationEvent::Encapsulated(1, "x".to_string()).name(), "Encapsulated");
    assert_eq!(CorrelationEvent::Decapsulated.name(), "Decapsulated");
    assert_eq!(CorrelationEvent::Ended.name(), "Ended");
}

#[test]
fn trackers_record_directly() {
    let mut t = CorrelationTracker::new();
    t.record("i".to_string(), CorrelationEventOccurrence { date: at(1), event: CorrelationEvent::Passed, location: "l".to_string() });
    t.record("i".to_string(), CorrelationEventOccurrence { date: at(2), event: CorrelationEvent::Ended, location: "m".to_string() });
    let entries = t.into_entries();
    assert_eq!(entries.len(), 1);
    let (id, list) = &entries[0];
    assert_eq!(id, "i");
    assert_eq!(list.iter().map(|o| o.date).collect::<Vec<_>>(), vec![at(1), at(2)]);
    let mut c = CorrelationCounterTracker::new();
    c.increment("k".to_string(), u64::MAX);
    c.increment("k".to_string(), 2);
    assert_eq!(c.count_of("k"), Some(1));
    assert_eq!(c.count_of("other"), None);
    assert_eq!(c.counter_count(), 1);
    assert_eq!(c.into_counts(), vec![("k".to_string(), 1)]);
}

#[test]
fn positions_move_on_by_one_and_wrap() {
    assert_eq!(next_position(0), 1);
    assert_eq!(next_position(41), 42);
    assert_eq!(next_position(usize::MAX), 0);
}
