use atlas_metrics::data::{MetricData, MetricKind, MetricLevel};
use atlas_metrics::readings::{readings_for, MetricReading};
use atlas_metrics::recording::{
    metric_correlation_counter_increment, metric_correlation_id_encapsulated, metric_correlation_id_passed,
    metric_correlation_time_end, metric_correlation_time_start, metric_increment,
    metric_initialize_correlation_id, metric_store_count, metric_store_count_max,
};
use atlas_metrics::registry::{init, MetricRegistry, Metrics};

fn one(kind: MetricKind) -> Metrics {
    let r = MetricRegistry {
        index: 0,
        name: "m".to_string(),
        kind,
        level: MetricLevel::Info,
        concurrency_override: None,
    };
    init(vec![r], 1, MetricLevel::Info)
}

fn collect_one(metrics: &mut Metrics) -> MetricData {
    let mut collected = metrics.collect_all_measurements(&MetricLevel::Trace);
    assert_eq!(collected.len(), 1);
    collected.pop().unwrap().1
}

#[test]
fn counter_reads_back_the_wrapped_sum() {
    let mut metrics = one(MetricKind::Counter);
    metric_increment(&mut metrics, 0, Some(u64::MAX));
    metric_increment(&mut metrics, 0, Some(2));
    metric_increment(&mut metrics, 0, None);
    let data = collect_one(&mut metrics);
    assert!(matches!(data, MetricData::Counter(2)));
    let r = readings_for(&MetricKind::Counter, data);
    assert!(matches!(r.as_slice(), [MetricReading::Counter { value: 2 }]));
    assert!(matches!(collect_one(&mut metrics), MetricData::Counter(0)));
}

#[test]
fn statistics_read_back_count_and_sum() {
    let mut metrics = one(MetricKind::Count);
    for c in [1usize, 2, 3] {
        metric_store_count(&mut metrics, 0, c);
    }
    let data = collect_one(&mut metrics);
    let r = readings_for(&MetricKind::Count, data);
    assert_eq!(r.len(), 1);
    match &r[0] {
        MetricReading::Stats { count, sum, s } => {
            assert_eq!((*count, *sum), (3, 6));
            // m: 1, then 1 + 1 / 2 = 1, then 1 + 2 / 3 = 1;
            // s: 0, then (2 - 1) * (2 - 1) = 1, then 1 + (3 - 1) * (3 - 1) = 5
            assert_eq!(*s, 5);
        }
        _ => panic!("not statistics"),
    }
    let again = readings_for(&MetricKind::Count, collect_one(&mut metrics));
    assert!(again.is_empty());
}

#[test]
fn one_identifier_reads_back_its_events_in_order() {
    let mut metrics = one(MetricKind::Correlation);
    metric_initialize_correlation_id(&mut metrics, 0, "id", "a".to_string());
    metric_correlation_id_passed(&mut metrics, 0, "id", "b".to_string());
    metric_correlation_id_encapsulated(&mut metrics, 0, "id", "c".to_string(), (3, "outer"));
    let data = collect_one(&mut metrics);
    let r = readings_for(&MetricKind::Correlation, data);
    let got: Vec<(String, String)> = r
        .iter()
        .map(|x| match x {
            MetricReading::Correlation { correlation_id, location, event, .. } => {
                assert_eq!(correlation_id, "id");
                (location.clone(), event.to_string())
            }
            _ => panic!("not an event reading"),
        })
        .collect();
    assert_eq!(
        got,
        vec![
            ("a".to_string(), "Initialized".to_string()),
            ("b".to_string(), "Passed".to_string()),
            ("c".to_string(), "Encapsulated".to_string()),
        ]
    );
}

#[test]
fn correlation_counter_reads_back_its_sum_at_the_first_offset() {
    let mut metrics = one(MetricKind::CounterCorrelation);
    metric_correlation_counter_increment(&mut metrics, 0, "x", Some(2));
    metric_correlation_counter_increment(&mut metrics, 0, "x", Some(3));
    let r = readings_for(&MetricKind::CounterCorrelation, collect_one(&mut metrics));
    match r.as_slice() {
        [MetricReading::CorrelationCounter { offset, correlation_id, value }] => {
            assert_eq!((*offset, correlation_id.as_str(), *value), (1, "x", 5));
        }
        _ => panic!("expected one counter reading"),
    }
    assert!(readings_for(&MetricKind::CounterCorrelation, collect_one(&mut metrics)).is_empty());
}

#[test]
fn started_and_ended_measurement_is_reported_once() {
    let mut metrics = one(MetricKind::CorrelationAggrDurationTracker);
    metric_correlation_time_start(&mut metrics, 0, "t");
    metric_correlation_time_end(&mut metrics, 0, "t");
    let data = collect_one(&mut metrics);
    let finished = match &data {
        MetricData::CorrelationAggrDurationTracker(t) => {
            assert_eq!(t.pending_count(), 0);
            assert_eq!(t.finished_count(), 1);
            t.finished("t").unwrap()
        }
        _ => panic!("not a time tracker"),
    };
    let r = readings_for(&MetricKind::CorrelationAggrDurationTracker, data);
    assert!(matches!(r.as_slice(), [MetricReading::CorrelationAggrTime { value }] if *value == finished as i64));
    match collect_one(&mut metrics) {
        MetricData::CorrelationAggrDurationTracker(t) => {
            assert_eq!(t.pending_count(), 0);
            assert_eq!(t.finished_count(), 0);
        }
        _ => panic!("not a time tracker"),
    }
}

#[test]
fn count_max_reads_back_every_stored_count() {
    let r = MetricRegistry {
        index: 0,
        name: "cm".to_string(),
        kind: MetricKind::CountMax(10),
        level: MetricLevel::Info,
        concurrency_override: Some(3),
    };
    let mut metrics = init(vec![r], 1, MetricLevel::Info);
    let stored = [4usize, 1, 4, 9, 2];
    for c in stored {
        metric_store_count_max(&mut metrics, 0, c);
    }
    let mut collected = metrics.collect_all_measurements(&MetricLevel::Trace);
    let (_, joined) = collected.pop().unwrap();
    let mut counts: Vec<u64> = match &joined {
        MetricData::CountMax(v) => v.iter().map(|(c, _)| *c).collect(),
        _ => panic!("not counts"),
    };
    counts.sort();
    assert_eq!(counts, vec![1, 2, 4, 4, 9]);
    match collect_one(&mut metrics) {
        MetricData::CountMax(v) => assert!(v.is_empty()),
        _ => panic!("not counts"),
    }
}

#[test]
fn event_dates_come_from_the_wall_clock() {
    let mut metrics = one(MetricKind::Correlation);
    metric_initialize_correlation_id(&mut metrics, 0, "id", "a".to_string());
    let r = readings_for(&MetricKind::Correlation, collect_one(&mut metrics));
    match r.as_slice() {
        // Any date after 2017 is past 1.5e9 seconds since the Unix epoch.
        [MetricReading::Correlation { time, .. }] => assert!(time.and_utc().timestamp() > 1_500_000_000),
        _ => panic!("expected one event reading"),
    }
}
