use atlas_metrics::correlation::{CorrelationEvent, CorrelationEventOccurrence};
use atlas_metrics::data::{AdditionalMetricData, MetricData, MetricKind, MetricLevel, SafeMetricData};
use atlas_metrics::recording::{
    metric_correlation_counter_increment, metric_correlation_counter_increment_arc,
    metric_correlation_id_encapsulated, metric_correlation_id_ended, metric_correlation_id_passed,
    metric_correlation_time_end, metric_correlation_time_start, metric_decapsulate_correlation_id,
    metric_duration, metric_duration_end, metric_duration_start, metric_increment,
    metric_initialize_correlation_id, metric_local_duration_end, metric_local_duration_start,
    metric_store_count, metric_store_count_max,
};
use atlas_metrics::registry::{init, MetricRegistry, Metrics};
use std::time::Duration;

fn reg(index: usize, name: &str, kind: MetricKind, level: MetricLevel) -> MetricRegistry {
    MetricRegistry { index, name: name.to_string(), kind, level, concurrency_override: None }
}

fn one(kind: MetricKind) -> Metrics {
    init(vec![reg(0, "m", kind, MetricLevel::Info)], 2, MetricLevel::Info)
}

fn data(metrics: &Metrics, index: usize) -> &SafeMetricData {
    metrics.metrics[index].as_ref().unwrap().value()
}

fn counter(metrics: &Metrics, index: usize) -> u64 {
    match data(metrics, index) {
        SafeMetricData::Atomic(MetricData::Counter(c)) => *c,
        _ => panic!("not a counter"),
    }
}

fn stats(metrics: &Metrics, index: usize) -> (i64, i64, usize, i64) {
    match data(metrics, index) {
        SafeMetricData::Atomic(MetricData::Duration(w)) | SafeMetricData::Atomic(MetricData::Count(w)) => {
            (w.m, w.s, w.count, w.sum)
        }
        _ => panic!("not a statistics metric"),
    }
}

#[test]
fn last_registration_of_an_index_wins() {
    let metrics = init(
        vec![
            reg(0, "a", MetricKind::Counter, MetricLevel::Info),
            reg(2, "b", MetricKind::Count, MetricLevel::Info),
            reg(0, "c", MetricKind::Duration, MetricLevel::Debug),
        ],
        1,
        MetricLevel::Trace,
    );
    assert_eq!(metrics.metrics.len(), 3);
    assert_eq!(metrics.live_indexes, vec![0, 2, 0]);
    let first = metrics.metrics[0].as_ref().unwrap();
    assert_eq!(first.name(), "c");
    assert_eq!(*first.metric_type(), MetricKind::Duration);
    assert_eq!(*first.metric_level(), MetricLevel::Debug);
    assert!(metrics.metrics[1].is_none());
    assert_eq!(metrics.metrics[2].as_ref().unwrap().name(), "b");
    assert_eq!(metrics.current_level, MetricLevel::Trace);
}

#[test]
fn empty_registration_has_one_empty_slot() {
    let metrics = init(vec![], 4, MetricLevel::Info);
    assert_eq!(metrics.metrics.len(), 1);
    assert!(metrics.metrics[0].is_none());
    assert!(metrics.live_indexes.is_empty());
}

#[test]
fn count_max_gets_its_own_buckets() {
    let mut r = reg(0, "cm", MetricKind::CountMax(3), MetricLevel::Info);
    r.concurrency_override = Some(5);
    let metrics = init(vec![r, reg(1, "cm2", MetricKind::CountMax(3), MetricLevel::Info)], 2, MetricLevel::Info);
    match data(&metrics, 0) {
        SafeMetricData::Sequential(buckets, _) => {
            assert_eq!(buckets.len(), 5);
            assert_eq!(data(&metrics, 0).get_round_robin(), 0);
        }
        _ => panic!("count max must be sequential"),
    }
    match data(&metrics, 1) {
        SafeMetricData::Sequential(buckets, _) => assert_eq!(buckets.len(), 2),
        _ => panic!("count max must be sequential"),
    }
}

#[test]
fn increment_adds_one_or_the_amount() {
    let mut metrics = one(MetricKind::Counter);
    metric_increment(&mut metrics, 0, None);
    assert_eq!(counter(&metrics, 0), 1);
    metric_increment(&mut metrics, 0, Some(5));
    assert_eq!(counter(&metrics, 0), 6);
}

#[test]
fn increment_wraps_around() {
    let mut metrics = one(MetricKind::Counter);
    metric_increment(&mut metrics, 0, Some(u64::MAX));
    metric_increment(&mut metrics, 0, Some(2));
    assert_eq!(counter(&metrics, 0), 1);
}

#[test]
fn recording_below_the_level_is_skipped() {
    let mut metrics = init(vec![reg(0, "c", MetricKind::Counter, MetricLevel::Debug)], 1, MetricLevel::Info);
    metric_increment(&mut metrics, 0, Some(3));
    assert_eq!(counter(&metrics, 0), 0);
    assert_eq!(metrics.recording_kind(0), None);
}

#[test]
fn recording_at_an_unregistered_index_is_skipped() {
    let mut metrics = init(
        vec![reg(1, "c", MetricKind::Counter, MetricLevel::Info)],
        1,
        MetricLevel::Info,
    );
    metric_increment(&mut metrics, 0, Some(3));
    metric_store_count(&mut metrics, 0, 3);
    assert!(metrics.metrics[0].is_none());
    assert_eq!(counter(&metrics, 1), 0);
    assert_eq!(metrics.recording_kind(1), Some(MetricKind::Counter));
}

#[test]
fn store_count_follows_welford() {
    let mut metrics = one(MetricKind::Count);
    metric_store_count(&mut metrics, 0, 2);
    assert_eq!(stats(&metrics, 0), (2, 0, 1, 2));
    metric_store_count(&mut metrics, 0, 4);
    assert_eq!(stats(&metrics, 0), (3, 2, 2, 6));
    metric_store_count(&mut metrics, 0, 6);
    assert_eq!(stats(&metrics, 0), (4, 8, 3, 12));
}

#[test]
fn welford_mean_truncates_toward_zero() {
    let mut metrics = one(MetricKind::Count);
    metric_store_count(&mut metrics, 0, 10);
    metric_store_count(&mut metrics, 0, 0);
    // 10 + (0 - 10) / 2 = 5; then 5 + (0 - 5) / 3 = 5 - 1 = 4
    metric_store_count(&mut metrics, 0, 0);
    let (m, _, count, sum) = stats(&metrics, 0);
    assert_eq!((m, count, sum), (4, 3, 10));
}

#[test]
fn duration_is_recorded_in_nanoseconds() {
    let mut metrics = one(MetricKind::Duration);
    metric_duration(&mut metrics, 0, Duration::from_nanos(1500));
    assert_eq!(stats(&metrics, 0), (1500, 0, 1, 1500));
    metric_duration(&mut metrics, 0, Duration::from_micros(2));
    let (_, _, count, sum) = stats(&metrics, 0);
    assert_eq!((count, sum), (2, 3500));
}

#[test]
fn duration_start_then_end_records_once() {
    let mut metrics = one(MetricKind::Duration);
    assert!(!metrics.duration_started_at(0));
    metric_duration_start(&mut metrics, 0);
    assert!(metrics.duration_started_at(0));
    match metrics.metrics[0].as_ref().unwrap().additional_data() {
        AdditionalMetricData::Duration(start) => assert!(start.is_some()),
        _ => panic!("duration metrics keep their start"),
    }
    metric_duration_end(&mut metrics, 0);
    let (_, _, count, _) = stats(&metrics, 0);
    assert_eq!(count, 1);
    match metrics.metrics[0].as_ref().unwrap().additional_data() {
        AdditionalMetricData::Duration(start) => assert!(start.is_none()),
        _ => panic!("duration metrics keep their start"),
    }
    metric_duration_end(&mut metrics, 0);
    let (_, _, count, _) = stats(&metrics, 0);
    assert_eq!(count, 1);
}

#[test]
fn duration_start_on_other_kinds_changes_nothing() {
    let mut metrics = one(MetricKind::Counter);
    metric_duration_start(&mut metrics, 0);
    metric_duration_end(&mut metrics, 0);
    assert!(matches!(metrics.metrics[0].as_ref().unwrap().additional_data(), AdditionalMetricData::Counter));
    assert_eq!(counter(&metrics, 0), 0);
}

#[test]
fn local_duration_is_recorded() {
    let mut metrics = one(MetricKind::Duration);
    let start = metric_local_duration_start();
    metric_local_duration_end(&mut metrics, 0, start);
    let (_, _, count, _) = stats(&metrics, 0);
    assert_eq!(count, 1);
}

#[test]
fn count_max_goes_round_robin() {
    let mut metrics = one(MetricKind::CountMax(2));
    metric_store_count_max(&mut metrics, 0, 5);
    metric_store_count_max(&mut metrics, 0, 7);
    metric_store_count_max(&mut metrics, 0, 9);
    match data(&metrics, 0) {
        SafeMetricData::Sequential(buckets, _) => {
            assert_eq!(data(&metrics, 0).get_round_robin(), 3);
            let counts: Vec<Vec<u64>> = buckets
                .iter()
                .map(|b| match b {
                    MetricData::CountMax(v) => v.iter().map(|(c, _)| *c).collect(),
                    _ => panic!("bucket of another kind"),
                })
                .collect();
            assert_eq!(counts, vec![vec![5, 9], vec![7]]);
        }
        _ => panic!("count max must be sequential"),
    }
}

/// Collects the correlation metric at `index` and lists its histories.
fn histories(metrics: &mut Metrics, index: usize) -> Vec<(String, Vec<CorrelationEventOccurrence>)> {
    let collected = metrics.collect_all_measurements(&MetricLevel::Trace);
    match collected.into_iter().find(|(i, _)| *i == index).map(|(_, d)| d) {
        Some(MetricData::Correlation(t)) => t.into_entries(),
        _ => panic!("not a correlation metric"),
    }
}

/// The events (name and location) of `id` among listed histories.
fn events(histories: &[(String, Vec<CorrelationEventOccurrence>)], id: &str) -> Vec<(String, String)> {
    histories
        .iter()
        .find(|(k, _)| k == id)
        .map(|(_, v)| v.iter().map(|o| (o.event.name().to_string(), o.location.clone())).collect())
        .unwrap_or_default()
}

#[test]
fn correlation_events_are_kept_in_order() {
    let mut metrics = one(MetricKind::Correlation);
    metric_initialize_correlation_id(&mut metrics, 0, "x", "here".to_string());
    metric_correlation_id_passed(&mut metrics, 0, "x", "there".to_string());
    metric_correlation_id_encapsulated(&mut metrics, 0, "x", "wrap".to_string(), (3, "y"));
    metric_decapsulate_correlation_id(&mut metrics, 0, "x", "unwrap".to_string());
    metric_correlation_id_ended(&mut metrics, 0, "x", "end".to_string());
    metric_initialize_correlation_id(&mut metrics, 0, "z", "other".to_string());
    let h = histories(&mut metrics, 0);
    assert_eq!(h.len(), 2);
    assert_eq!(
        events(&h, "x"),
        vec![
            ("Initialized".to_string(), "here".to_string()),
            ("Passed".to_string(), "there".to_string()),
            ("Encapsulated".to_string(), "wrap".to_string()),
            ("Decapsulated".to_string(), "unwrap".to_string()),
            ("Ended".to_string(), "end".to_string()),
        ]
    );
    assert_eq!(events(&h, "z"), vec![("Initialized".to_string(), "other".to_string())]);
    let (_, list) = h.iter().find(|(k, _)| k == "x").unwrap();
    match &list[2].event {
        CorrelationEvent::Encapsulated(id, target) => {
            assert_eq!(*id, 3);
            assert_eq!(target, "y");
        }
        _ => panic!("third event is the encapsulation"),
    }
}

#[test]
fn correlation_time_ends_only_what_started() {
    let mut metrics = one(MetricKind::CorrelationDurationTracker);
    metric_correlation_time_start(&mut metrics, 0, "a");
    metric_correlation_time_end(&mut metrics, 0, "b");
    match data(&metrics, 0) {
        SafeMetricData::ThreadSafe(MetricData::CorrelationDurationTracker(t)) => {
            assert!(t.is_pending("a"));
            assert_eq!(t.finished_count(), 0);
        }
        _ => panic!("not a time tracker"),
    }
    metric_correlation_time_end(&mut metrics, 0, "a");
    match data(&metrics, 0) {
        SafeMetricData::ThreadSafe(MetricData::CorrelationDurationTracker(t)) => {
            assert_eq!(t.pending_count(), 0);
            assert!(t.finished("a").is_some());
            assert_eq!(t.finished("b"), None);
        }
        _ => panic!("not a time tracker"),
    }
}

#[test]
fn correlation_counter_adds_per_identifier() {
    let mut metrics = one(MetricKind::CounterCorrelation);
    metric_correlation_counter_increment(&mut metrics, 0, "k", None);
    metric_correlation_counter_increment(&mut metrics, 0, "k", Some(4));
    metric_correlation_counter_increment_arc(&mut metrics, 0, "j".to_string(), Some(2));
    match data(&metrics, 0) {
        SafeMetricData::ThreadSafe(MetricData::CounterCorrelation(t)) => {
            assert_eq!(t.count_of("k"), Some(5));
            assert_eq!(t.count_of("j"), Some(2));
            assert_eq!(t.counter_count(), 2);
        }
        _ => panic!("not a correlation counter"),
    }
}

#[test]
fn checks_for_callers() {
    let metrics = init(
        vec![
            reg(0, "d", MetricKind::Duration, MetricLevel::Info),
            reg(1, "c", MetricKind::Counter, MetricLevel::Trace),
        ],
        1,
        MetricLevel::Debug,
    );
    assert_eq!(metrics.slot_count(), 2);
    assert_eq!(metrics.recording_kind(0), Some(MetricKind::Duration));
    assert_eq!(metrics.recording_kind(1), None);
    assert!(metrics.has_room_at(0));
    assert!(metrics.has_room_at(1));
}

#[test]
fn count_max_without_buckets_is_reported() {
    let metrics = init(vec![reg(0, "cm", MetricKind::CountMax(1), MetricLevel::Info)], 0, MetricLevel::Info);
    assert!(!metrics.has_buckets_at(0));
    assert!(!metrics.is_collectable(&MetricLevel::Trace));
    let counted = init(vec![reg(0, "cm", MetricKind::CountMax(1), MetricLevel::Info)], 1, MetricLevel::Info);
    assert!(counted.has_buckets_at(0));
    assert!(counted.is_collectable(&MetricLevel::Trace));
}
