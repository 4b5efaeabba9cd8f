use atlas_metrics::data::{MetricData, MetricKind, MetricLevel, SafeMetricData};
use atlas_metrics::readings::{largest_counts, readings_for, MetricReading};
use atlas_metrics::recording::{
    metric_correlation_counter_increment, metric_correlation_id_ended, metric_correlation_time_end,
    metric_correlation_time_start, metric_increment, metric_initialize_correlation_id, metric_store_count,
    metric_store_count_max,
};
use atlas_metrics::registry::{collect_measurements, init, join_metrics, MetricRegistry, Metrics};
use atlas_metrics::correlation::CorrelationTimeTracker;
use chrono::NaiveDateTime;

fn at(secs: i64, nanos: u32) -> NaiveDateTime {
    chrono::DateTime::from_timestamp(secs, nanos).unwrap().naive_utc()
}

fn reg(index: usize, name: &str, kind: MetricKind, level: MetricLevel) -> MetricRegistry {
    MetricRegistry { index, name: name.to_string(), kind, level, concurrency_override: None }
}

fn one(kind: MetricKind) -> Metrics {
    init(vec![reg(0, "m", kind, MetricLevel::Info)], 2, MetricLevel::Info)
}

fn values(r: &[MetricReading]) -> Vec<i64> {
    r.iter()
        .map(|x| match x {
            MetricReading::CountMax { value, .. } => *value,
            MetricReading::Counter { value } => *value,
            MetricReading::CorrelationAggrTime { value } => *value,
            MetricReading::CorrelationTime { value, .. } => *value,
            MetricReading::CorrelationCounter { value, .. } => *value,
            _ => panic!("reading without a single value"),
        })
        .collect()
}

#[test]
fn collecting_hands_over_and_resets_a_counter() {
    let mut metrics = one(MetricKind::Counter);
    metric_increment(&mut metrics, 0, Some(3));
    let first = metrics.collect_all_measurements(&MetricLevel::Trace);
    assert_eq!(first.len(), 1);
    assert_eq!(first[0].0, 0);
    assert!(matches!(first[0].1, MetricData::Counter(3)));
    let second = metrics.collect_all_measurements(&MetricLevel::Trace);
    assert!(matches!(second[0].1, MetricData::Counter(0)));
}

#[test]
fn collecting_skips_metrics_below_the_level() {
    let mut metrics = init(
        vec![
            reg(0, "low", MetricKind::Counter, MetricLevel::Trace),
            reg(1, "high", MetricKind::Counter, MetricLevel::Info),
        ],
        1,
        MetricLevel::Trace,
    );
    metric_increment(&mut metrics, 0, None);
    metric_increment(&mut metrics, 1, None);
    let collected = metrics.collect_all_measurements(&MetricLevel::Debug);
    assert_eq!(collected.len(), 1);
    assert_eq!(collected[0].0, 1);
    match metrics.metrics[0].as_ref().unwrap().value() {
        SafeMetricData::Atomic(MetricData::Counter(c)) => assert_eq!(*c, 1),
        _ => panic!("not a counter"),
    }
}

#[test]
fn collecting_statistics_resets_them() {
    let mut metrics = one(MetricKind::Count);
    metric_store_count(&mut metrics, 0, 7);
    let collected = metrics.collect_all_measurements(&MetricLevel::Trace);
    match &collected[0].1 {
        MetricData::Count(w) => assert_eq!((w.m, w.count, w.sum), (7, 1, 7)),
        _ => panic!("not a count"),
    }
    let again = metrics.collect_all_measurements(&MetricLevel::Trace);
    let readings = readings_for(&MetricKind::Count, again.into_iter().next().unwrap().1);
    assert!(readings.is_empty());
}

#[test]
fn collecting_count_max_joins_buckets_and_reports_largest() {
    let mut metrics = one(MetricKind::CountMax(2));
    for c in [5usize, 7, 9, 7] {
        metric_store_count_max(&mut metrics, 0, c);
    }
    let mut collected = metrics.collect_all_measurements(&MetricLevel::Trace);
    let (index, joined) = collected.pop().unwrap();
    assert_eq!(index, 0);
    let times = match &joined {
        MetricData::CountMax(v) => {
            assert_eq!(v.iter().map(|(c, _)| *c).collect::<Vec<_>>(), vec![5, 9, 7, 7]);
            v.iter().map(|(_, t)| *t).collect::<Vec<_>>()
        }
        _ => panic!("not counts"),
    };
    let readings = readings_for(&MetricKind::CountMax(2), joined);
    assert_eq!(values(&readings), vec![9, 7]);
    match &readings[1] {
        MetricReading::CountMax { time, .. } => assert_eq!(*time, times[2]),
        _ => panic!("not a count reading"),
    }
    match metrics.metrics[0].as_ref().unwrap().value() {
        SafeMetricData::Sequential(buckets, _) => {
            assert!(buckets.iter().all(|b| matches!(b, MetricData::CountMax(v) if v.is_empty())))
        }
        _ => panic!("count max must be sequential"),
    }
}

#[test]
fn largest_counts_keep_stored_order_among_equals() {
    let counts = vec![(3u64, at(10, 0)), (8, at(11, 5)), (3, at(12, 0)), (8, at(13, 0)), (1, at(14, 0))];
    let r = largest_counts(counts, 3);
    let got: Vec<(i64, NaiveDateTime)> = r
        .iter()
        .map(|x| match x {
            MetricReading::CountMax { time, value } => (*value, *time),
            _ => panic!("not a count reading"),
        })
        .collect();
    // Dates come back exactly as stored, to the nanosecond.
    assert_eq!(got, vec![(8, at(11, 5)), (8, at(13, 0)), (3, at(10, 0))]);
    assert_eq!(largest_counts(vec![(2, at(1, 0))], 5).len(), 1);
    assert!(largest_counts(vec![(2, at(1, 0))], 0).is_empty());
}

#[test]
fn count_max_readings_need_a_count_max_kind() {
    let r = readings_for(&MetricKind::Counter, MetricData::CountMax(vec![(1, at(1, 0))]));
    assert!(r.is_empty());
    let r = readings_for(&MetricKind::CountMax(4), MetricData::CountMax(vec![]));
    assert!(r.is_empty());
}

#[test]
fn counter_reading_reinterprets_as_signed() {
    let r = readings_for(&MetricKind::Counter, MetricData::Counter(u64::MAX));
    assert_eq!(values(&r), vec![-1]);
}

#[test]
fn statistics_reading_carries_the_accumulators() {
    let mut metrics = one(MetricKind::Duration);
    atlas_metrics::recording::metric_duration(&mut metrics, 0, std::time::Duration::from_nanos(10));
    atlas_metrics::recording::metric_duration(&mut metrics, 0, std::time::Duration::from_nanos(20));
    let collected = metrics.collect_all_measurements(&MetricLevel::Trace);
    let r = readings_for(&MetricKind::Duration, collected.into_iter().next().unwrap().1);
    assert_eq!(r.len(), 1);
    match &r[0] {
        MetricReading::Stats { s, count, sum } => {
            assert_eq!((*count, *sum), (2, 30));
            // m: 10 then 15; s: 0 then (20 - 15) * (20 - 10) = 50
            assert_eq!(*s, 50);
        }
        _ => panic!("not statistics"),
    }
}

#[test]
fn correlation_readings_list_every_event() {
    let mut metrics = one(MetricKind::Correlation);
    metric_initialize_correlation_id(&mut metrics, 0, "a", "p".to_string());
    metric_correlation_id_ended(&mut metrics, 0, "a", "q".to_string());
    metric_initialize_correlation_id(&mut metrics, 0, "b", "r".to_string());
    let collected = metrics.collect_all_measurements(&MetricLevel::Trace);
    let r = readings_for(&MetricKind::Correlation, collected.into_iter().next().unwrap().1);
    let mut seen: Vec<(String, String, String)> = r
        .iter()
        .map(|x| match x {
            MetricReading::Correlation { correlation_id, location, event, .. } => {
                (correlation_id.clone(), location.clone(), event.to_string())
            }
            _ => panic!("not an event reading"),
        })
        .collect();
    let a_events: Vec<_> = seen.iter().filter(|e| e.0 == "a").cloned().collect();
    assert_eq!(
        a_events,
        vec![
            ("a".to_string(), "p".to_string(), "Initialized".to_string()),
            ("a".to_string(), "q".to_string(), "Ended".to_string()),
        ]
    );
    seen.sort();
    assert_eq!(seen.len(), 3);
    let again = metrics.collect_all_measurements(&MetricLevel::Trace);
    assert!(readings_for(&MetricKind::Correlation, again.into_iter().next().unwrap().1).is_empty());
}

#[test]
fn collecting_time_trackers_keeps_pending_measurements() {
    let mut metrics = one(MetricKind::CorrelationDurationTracker);
    metric_correlation_time_start(&mut metrics, 0, "done");
    metric_correlation_time_end(&mut metrics, 0, "done");
    metric_correlation_time_start(&mut metrics, 0, "open");
    let collected = metrics.collect_all_measurements(&MetricLevel::Trace);
    match &collected[0].1 {
        MetricData::CorrelationDurationTracker(t) => {
            assert_eq!(t.pending_count(), 0);
            assert!(t.finished("done").is_some());
            assert_eq!(t.finished_count(), 1);
        }
        _ => panic!("not a time tracker"),
    }
    match metrics.metrics[0].as_ref().unwrap().value() {
        SafeMetricData::ThreadSafe(MetricData::CorrelationDurationTracker(t)) => {
            assert!(t.is_pending("open"));
            assert_eq!(t.finished_count(), 0);
        }
        _ => panic!("not a time tracker"),
    }
    let r = readings_for(
        &MetricKind::CorrelationDurationTracker,
        collected.into_iter().next().unwrap().1,
    );
    assert_eq!(r.len(), 1);
    match &r[0] {
        MetricReading::CorrelationTime { offset, correlation_id, .. } => {
            assert_eq!(*offset, 1);
            assert_eq!(correlation_id, "done");
        }
        _ => panic!("not a time reading"),
    }
}

#[test]
fn aggregated_time_is_the_rounded_down_mean() {
    let mut metrics = one(MetricKind::CorrelationAggrDurationTracker);
    for id in ["a", "b", "c"] {
        metric_correlation_time_start(&mut metrics, 0, id);
    }
    for id in ["a", "b", "c"] {
        metric_correlation_time_end(&mut metrics, 0, id);
    }
    let data = metrics.collect_all_measurements(&MetricLevel::Trace).pop().unwrap().1;
    let total: u128 = match &data {
        MetricData::CorrelationAggrDurationTracker(t) => {
            ["a", "b", "c"].iter().map(|id| t.finished(id).unwrap()).sum()
        }
        _ => panic!("not a time tracker"),
    };
    let r = readings_for(&MetricKind::CorrelationAggrDurationTracker, data);
    assert_eq!(values(&r), vec![(total / 3) as i64]);
    let empty = CorrelationTimeTracker::new();
    let r = readings_for(&MetricKind::CorrelationAggrDurationTracker, MetricData::CorrelationAggrDurationTracker(empty));
    assert_eq!(values(&r), vec![0]);
}

#[test]
fn correlation_counter_readings_get_distinct_offsets() {
    let mut metrics = one(MetricKind::CounterCorrelation);
    metric_correlation_counter_increment(&mut metrics, 0, "x", Some(2));
    metric_correlation_counter_increment(&mut metrics, 0, "y", None);
    let collected = metrics.collect_all_measurements(&MetricLevel::Trace);
    let r = readings_for(&MetricKind::CounterCorrelation, collected.into_iter().next().unwrap().1);
    let mut got: Vec<(u64, String, i64)> = r
        .iter()
        .map(|x| match x {
            MetricReading::CorrelationCounter { offset, correlation_id, value } => {
                (*offset, correlation_id.clone(), *value)
            }
            _ => panic!("not a counter reading"),
        })
        .collect();
    let mut offsets: Vec<u64> = got.iter().map(|g| g.0).collect();
    offsets.sort();
    assert_eq!(offsets, vec![1, 2]);
    got.sort_by(|a, b| a.1.cmp(&b.1));
    assert_eq!((got[0].1.as_str(), got[0].2), ("x", 2));
    assert_eq!((got[1].1.as_str(), got[1].2), ("y", 1));
}

#[test]
fn join_adds_counters_with_wrapping() {
    let joined = join_metrics(vec![MetricData::Counter(1), MetricData::Counter(2), MetricData::Counter(u64::MAX)]);
    assert!(matches!(joined, MetricData::Counter(2)));
    let single = join_metrics(vec![MetricData::Counter(9)]);
    assert!(matches!(single, MetricData::Counter(9)));
}

#[test]
fn join_concatenates_counts_last_first() {
    let joined = join_metrics(vec![
        MetricData::CountMax(vec![(1, at(0, 0))]),
        MetricData::CountMax(vec![(2, at(0, 0))]),
        MetricData::CountMax(vec![(3, at(0, 0))]),
        MetricData::CountMax(vec![(4, at(0, 0))]),
    ]);
    match joined {
        MetricData::CountMax(v) => {
            assert_eq!(v.iter().map(|(c, _)| *c).collect::<Vec<_>>(), vec![1, 3, 2, 4]);
        }
        _ => panic!("not counts"),
    }
}

#[test]
fn collect_measurements_of_one_metric() {
    let mut metrics = one(MetricKind::Counter);
    metric_increment(&mut metrics, 0, Some(4));
    let metric = metrics.metrics[0].as_mut().unwrap();
    let taken = collect_measurements(metric);
    assert_eq!(taken.len(), 1);
    assert!(matches!(taken[0], MetricData::Counter(4)));
}
