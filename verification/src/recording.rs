//! Recording measurements into the metric registered at an index.
//!
//! Every operation first looks the metric up: an index with no metric
//! registered, or a metric whose level lies below the configured level,
//! leaves everything as it was. Otherwise the operation records into that
//! metric only.
use vstd::prelude::*;
use chrono::NaiveDateTime;
use std::time::{Duration, Instant};
use crate::clock::{duration_as_nanos, duration_nanos, instant_elapsed, instant_now};
use crate::correlation::{CorrelationEvent, CorrelationEventOccurrence, TimeTrackerView};
use crate::data::{has_buckets, level_rank, AdditionalMetricData, MetricData, MetricKind, SafeMetricData, SafeView};
use crate::metric::{
    duration_ended, duration_started, started_is, stats_of, time_tracker_of, with_correlation_counter,
    with_correlation_event, with_count_max, with_counter_increment, with_stats, with_time_tracker,
    MetricView,
};
use crate::registry::{slot_view, Metrics, MetricsView};
use crate::welford::{has_room, welford_step};

verus! {

/// Whether recording at index `i` reaches a metric: one is registered
/// there and its level is not below the configured level.
pub open spec fn records_into(ms: MetricsView, i: usize) -> bool {
    &&& ms.slots[i as int] is Some
    &&& level_rank(ms.slots[i as int].unwrap().level) >= level_rank(ms.current_level)
}

/// The metric registered at index `i`.
pub open spec fn metric_at(ms: MetricsView, i: usize) -> MetricView {
    ms.slots[i as int].unwrap()
}

/// The set of metrics once the metric at index `i` holds the laid-out data
/// `v` and the additional data `a`.
pub open spec fn with_slot(ms: MetricsView, i: usize, v: SafeView, a: AdditionalMetricData) -> MetricsView {
    MetricsView {
        slots: ms.slots.update(i as int, Some(MetricView { value: v, additional: a, ..metric_at(ms, i) })),
        ..ms
    }
}

/// The set of metrics once the metric at index `i` holds the laid-out data `v`.
pub open spec fn with_value(ms: MetricsView, i: usize, v: SafeView) -> MetricsView {
    with_slot(ms, i, v, metric_at(ms, i).additional)
}

/// The amount a counter is increased by: the one given, or 1.
pub open spec fn increment_of(by: Option<u64>) -> u64 {
    match by {
        Some(v) => v,
        None => 1,
    }
}

/// What the metric at `i` becomes, whatever its metric turned into, keeps
/// the set of metrics consistent and is reflected in its view.
proof fn lemma_slot_written(before: Metrics, after: Metrics, i: usize)
    requires
        before.wf(),
        i < before.metrics@.len(),
        before.metrics@[i as int] is Some,
        after.live_indexes == before.live_indexes,
        after.current_level == before.current_level,
        after.metrics@.len() == before.metrics@.len(),
        forall|j: int| 0 <= j < before.metrics@.len() && j != i ==> after.metrics@[j] == before.metrics@[j],
        after.metrics@[i as int] is Some,
        after.metrics@[i as int].unwrap().wf(),
        before.metrics@[i as int].unwrap().same_identity(&after.metrics@[i as int].unwrap()),
    ensures
        after.wf(),
        after@ == with_slot(
            before@,
            i,
            after.metrics@[i as int].unwrap().value@,
            after.metrics@[i as int].unwrap().additional_data,
        ),
{
    let m = after.metrics@[i as int].unwrap();
    assert(after@.slots =~= before@.slots.update(i as int, Some(m@)));
    assert forall|j: int| 0 <= j < after.metrics@.len() && (#[trigger] after.metrics@[j]) is Some
        implies after.metrics@[j].unwrap().wf() by {
        if j != i {
            assert(after.metrics@[j] == before.metrics@[j]);
        }
    }
    assert forall|j: int| 0 <= j < after@.slots.len() && (#[trigger] after@.slots[j]) is Some
        implies crate::metric::view_fits(after@.slots[j].unwrap()) by {
        assert(after@.slots[j] == slot_view(after.metrics@[j]));
    }
    assert forall|p: int| 0 <= p < after@.live.len() implies {
        &&& #[trigger] after@.live[p] < after@.slots.len()
        &&& after@.slots[after@.live[p] as int] is Some
    } by {
        assert(before@.live[p] < before@.slots.len());
        assert(before@.slots[before@.live[p] as int] is Some);
    }
}

/// When nothing is written, the view of the set of metrics is unchanged.
proof fn lemma_nothing_written(before: Metrics, after: Metrics)
    requires
        after.live_indexes == before.live_indexes,
        after.current_level == before.current_level,
        after.metrics@ == before.metrics@,
    ensures
        after@ == before@,
{
    assert(after@.slots =~= before@.slots);
}

impl Metrics {
    /// The number of slots, one per index up to the largest registered one.
    pub fn slot_count(&self) -> (r: usize)
        ensures
            r == self@.slots.len(),
    {
        self.metrics.len()
    }

    /// The kind of the metric recording at `m_index` reaches, or `None`
    /// when recording there is skipped.
    pub fn recording_kind(&self, m_index: usize) -> (r: Option<MetricKind>)
        requires
            m_index < self@.slots.len(),
        ensures
            r == (if records_into(self@, m_index) {
                Some(metric_at(self@, m_index).kind)
            } else {
                None
            }),
    {
        match &self.metrics[m_index] {
            Some(metric) => {
                if metric.metric_level.is_below(&self.current_level) {
                    None
                } else {
                    Some(metric.metric_type)
                }
            },
            None => None,
        }
    }

    /// Whether the metric at `m_index` has at least one bucket (metrics
    /// without buckets always do).
    pub fn has_buckets_at(&self, m_index: usize) -> (r: bool)
        requires
            m_index < self@.slots.len(),
        ensures
            self@.slots[m_index as int] is Some ==> r == has_buckets(metric_at(self@, m_index).value),
    {
        match &self.metrics[m_index] {
            Some(metric) => match &metric.value {
                SafeMetricData::Sequential(buckets, _) => buckets.len() > 0,
                _ => true,
            },
            None => true,
        }
    }

    /// Whether the metric at `m_index` has a duration measurement in
    /// progress.
    pub fn duration_started_at(&self, m_index: usize) -> (r: bool)
        requires
            m_index < self@.slots.len(),
        ensures
            self@.slots[m_index as int] is Some ==> r == duration_started(metric_at(self@, m_index).additional),
    {
        match &self.metrics[m_index] {
            Some(metric) => match &metric.additional_data {
                AdditionalMetricData::Duration(Some(_)) => true,
                _ => false,
            },
            None => false,
        }
    }

    /// Whether the metric at `m_index` can count one more measurement (only
    /// duration and count metrics count them).
    pub fn has_room_at(&self, m_index: usize) -> (r: bool)
        requires
            m_index < self@.slots.len(),
        ensures
            self@.slots[m_index as int] is Some ==> r == has_room(
                stats_of(metric_at(self@, m_index).value),
            ),
    {
        match &self.metrics[m_index] {
            Some(metric) => match &metric.value {
                SafeMetricData::Atomic(MetricData::Duration(w)) => w.has_room(),
                SafeMetricData::Atomic(MetricData::Count(w)) => w.has_room(),
                _ => true,
            },
            None => true,
        }
    }
}

/// Reads the monotonic clock, to start a measurement of local duration.
pub fn metric_local_duration_start() -> (r: Instant) {
    instant_now()
}

/// Records the time elapsed since `start` (in nanoseconds) into the
/// duration or count metric at index `metric`.
pub fn metric_local_duration_end(metrics: &mut Metrics, metric: usize, start: Instant)
    requires
        old(metrics).wf(),
        metric < old(metrics)@.slots.len(),
        records_into(old(metrics)@, metric) ==> {
            &&& metric_at(old(metrics)@, metric).kind is Duration || metric_at(old(metrics)@, metric).kind is Count
            &&& has_room(stats_of(metric_at(old(metrics)@, metric).value))
        },
    ensures
        final(metrics).wf(),
        records_into(old(metrics)@, metric) ==> exists|elapsed: Duration|
            final(metrics)@ == #[trigger] with_value(
                old(metrics)@,
                metric,
                with_stats(
                    metric_at(old(metrics)@, metric).value,
                    welford_step(
                        stats_of(metric_at(old(metrics)@, metric).value),
                        duration_nanos(elapsed) as u64,
                    ),
                ),
            ),
        !records_into(old(metrics)@, metric) ==> final(metrics)@ == old(metrics)@,
{
    let elapsed = instant_elapsed(&start);
    metric_duration(metrics, metric, elapsed);
    assert(records_into(old(metrics)@, metric) ==> metrics@ == with_value(
        old(metrics)@,
        metric,
        with_stats(
            metric_at(old(metrics)@, metric).value,
            welford_step(stats_of(metric_at(old(metrics)@, metric).value), duration_nanos(elapsed) as u64),
        ),
    ));
}

/// Starts a duration measurement of the metric at index `m_index` (only
/// duration metrics keep it).
pub fn metric_duration_start(metrics: &mut Metrics, m_index: usize)
    requires
        old(metrics).wf(),
        m_index < old(metrics)@.slots.len(),
    ensures
        final(metrics).wf(),
        records_into(old(metrics)@, m_index) ==> exists|a: AdditionalMetricData|
            final(metrics)@ == #[trigger] with_slot(
                old(metrics)@,
                m_index,
                metric_at(old(metrics)@, m_index).value,
                a,
            ) && started_is(metric_at(old(metrics)@, m_index).additional, a, true),
        !records_into(old(metrics)@, m_index) ==> final(metrics)@ == old(metrics)@,
{
    let current = metrics.current_level;
    let ghost before = *metrics;
    match &mut metrics.metrics[m_index] {
        Some(metric) => {
            if !metric.metric_level.is_below(&current) {
                metric.start_duration_measurement();
            }
        },
        None => {},
    }
    proof {
        if before.metrics@[m_index as int] is Some {
            lemma_slot_written(before, *metrics, m_index);
            if !records_into(before@, m_index) {
                assert(metrics.metrics@ =~= before.metrics@);
            }
        } else {
            assert(metrics.metrics@ =~= before.metrics@);
            lemma_nothing_written(before, *metrics);
        }
    }
}

/// Ends the duration measurement in progress, if any, of the metric at
/// index `m_index`, recording its elapsed time (in nanoseconds).
pub fn metric_duration_end(metrics: &mut Metrics, m_index: usize)
    requires
        old(metrics).wf(),
        m_index < old(metrics)@.slots.len(),
        records_into(old(metrics)@, m_index) && duration_started(metric_at(old(metrics)@, m_index).additional)
            ==> has_room(stats_of(metric_at(old(metrics)@, m_index).value)),
    ensures
        final(metrics).wf(),
        records_into(old(metrics)@, m_index) ==> {
            let m = metric_at(old(metrics)@, m_index);
            exists|v: SafeView, a: AdditionalMetricData|
                final(metrics)@ == #[trigger] with_slot(old(metrics)@, m_index, v, a) && duration_ended(
                    m.value,
                    m.additional,
                    v,
                    a,
                )
        },
        !records_into(old(metrics)@, m_index) ==> final(metrics)@ == old(metrics)@,
{
    let current = metrics.current_level;
    let ghost before = *metrics;
    match &mut metrics.metrics[m_index] {
        Some(metric) => {
            if !metric.metric_level.is_below(&current) {
                metric.end_duration_measurement();
            }
        },
        None => {},
    }
    proof {
        if before.metrics@[m_index as int] is Some {
            lemma_slot_written(before, *metrics, m_index);
            if !records_into(before@, m_index) {
                assert(metrics.metrics@ =~= before.metrics@);
            }
        } else {
            assert(metrics.metrics@ =~= before.metrics@);
            lemma_nothing_written(before, *metrics);
        }
    }
}

/// Records a duration (in nanoseconds, truncated to 64 bits) into the
/// duration or count metric at index `m_index`.
pub fn metric_duration(metrics: &mut Metrics, m_index: usize, duration: Duration)
    requires
        old(metrics).wf(),
        m_index < old(metrics)@.slots.len(),
        records_into(old(metrics)@, m_index) ==> {
            &&& metric_at(old(metrics)@, m_index).kind is Duration || metric_at(old(metrics)@, m_index).kind is Count
            &&& has_room(stats_of(metric_at(old(metrics)@, m_index).value))
        },
    ensures
        final(metrics).wf(),
        records_into(old(metrics)@, m_index) ==> final(metrics)@ == with_value(
            old(metrics)@,
            m_index,
            with_stats(
                metric_at(old(metrics)@, m_index).value,
                welford_step(
                    stats_of(metric_at(old(metrics)@, m_index).value),
                    duration_nanos(duration) as u64,
                ),
            ),
        ),
        !records_into(old(metrics)@, m_index) ==> final(metrics)@ == old(metrics)@,
{
    let nanos: u64 = duration_as_nanos(&duration) as u64;
    record_measurement(metrics, m_index, nanos);
}

/// Records a count into the count or duration metric at index `m_index`.
pub fn metric_store_count(metrics: &mut Metrics, m_index: usize, amount: usize)
    requires
        old(metrics).wf(),
        m_index < old(metrics)@.slots.len(),
        records_into(old(metrics)@, m_index) ==> {
            &&& metric_at(old(metrics)@, m_index).kind is Duration || metric_at(old(metrics)@, m_index).kind is Count
            &&& has_room(stats_of(metric_at(old(metrics)@, m_index).value))
        },
    ensures
        final(metrics).wf(),
        records_into(old(metrics)@, m_index) ==> final(metrics)@ == with_value(
            old(metrics)@,
            m_index,
            with_stats(
                metric_at(old(metrics)@, m_index).value,
                welford_step(stats_of(metric_at(old(metrics)@, m_index).value), amount as u64),
            ),
        ),
        !records_into(old(metrics)@, m_index) ==> final(metrics)@ == old(metrics)@,
{
    record_measurement(metrics, m_index, amount as u64);
}

/// Records a measurement into the duration or count metric at `m_index`.
fn record_measurement(metrics: &mut Metrics, m_index: usize, measurement: u64)
    requires
        old(metrics).wf(),
        m_index < old(metrics)@.slots.len(),
        records_into(old(metrics)@, m_index) ==> {
            &&& metric_at(old(metrics)@, m_index).kind is Duration || metric_at(old(metrics)@, m_index).kind is Count
            &&& has_room(stats_of(metric_at(old(metrics)@, m_index).value))
        },
    ensures
        final(metrics).wf(),
        records_into(old(metrics)@, m_index) ==> final(metrics)@ == with_value(
            old(metrics)@,
            m_index,
            with_stats(
                metric_at(old(metrics)@, m_index).value,
                welford_step(stats_of(metric_at(old(metrics)@, m_index).value), measurement),
            ),
        ),
        !records_into(old(metrics)@, m_index) ==> final(metrics)@ == old(metrics)@,
{
    let current = metrics.current_level;
    let ghost before = *metrics;
    match &mut metrics.metrics[m_index] {
        Some(metric) => {
            if !metric.metric_level.is_below(&current) {
                metric.increase_welford_method(measurement);
            }
        },
        None => {},
    }
    proof {
        if before.metrics@[m_index as int] is Some {
            lemma_slot_written(before, *metrics, m_index);
            if !records_into(before@, m_index) {
                assert(metrics.metrics@ =~= before.metrics@);
            }
        } else {
            assert(metrics.metrics@ =~= before.metrics@);
            lemma_nothing_written(before, *metrics);
        }
    }
}

/// Increases the counter metric at index `m_index` by `counter` (1 when
/// `None`), wrapping.
pub fn metric_increment(metrics: &mut Metrics, m_index: usize, counter: Option<u64>)
    requires
        old(metrics).wf(),
        m_index < old(metrics)@.slots.len(),
        records_into(old(metrics)@, m_index) ==> metric_at(old(metrics)@, m_index).kind is Counter,
    ensures
        final(metrics).wf(),
        records_into(old(metrics)@, m_index) ==> final(metrics)@ == with_value(
            old(metrics)@,
            m_index,
            with_counter_increment(metric_at(old(metrics)@, m_index).value, increment_of(counter)),
        ),
        !records_into(old(metrics)@, m_index) ==> final(metrics)@ == old(metrics)@,
{
    let current = metrics.current_level;
    let ghost before = *metrics;
    match &mut metrics.metrics[m_index] {
        Some(metric) => {
            if !metric.metric_level.is_below(&current) {
                metric.increment_counter_measurement(counter);
            }
        },
        None => {},
    }
    proof {
        if before.metrics@[m_index as int] is Some {
            lemma_slot_written(before, *metrics, m_index);
            if !records_into(before@, m_index) {
                assert(metrics.metrics@ =~= before.metrics@);
            }
        } else {
            assert(metrics.metrics@ =~= before.metrics@);
            lemma_nothing_written(before, *metrics);
        }
    }
}

/// Stores a count, dated now, into the count-max metric at index `m_index`.
pub fn metric_store_count_max(metrics: &mut Metrics, m_index: usize, amount: usize)
    requires
        old(metrics).wf(),
        m_index < old(metrics)@.slots.len(),
        records_into(old(metrics)@, m_index) ==> {
            &&& metric_at(old(metrics)@, m_index).kind is CountMax
            &&& has_buckets(metric_at(old(metrics)@, m_index).value)
        },
    ensures
        final(metrics).wf(),
        records_into(old(metrics)@, m_index) ==> exists|t: NaiveDateTime, p: usize|
            final(metrics)@ == #[trigger] with_value(
                old(metrics)@,
                m_index,
                with_count_max(metric_at(old(metrics)@, m_index).value, amount as u64, t, p),
            ),
        !records_into(old(metrics)@, m_index) ==> final(metrics)@ == old(metrics)@,
{
    let current = metrics.current_level;
    let ghost before = *metrics;
    match &mut metrics.metrics[m_index] {
        Some(metric) => {
            if !metric.metric_level.is_below(&current) {
                metric.enqueue_counter_max_measurement(amount);
            }
        },
        None => {},
    }
    proof {
        if before.metrics@[m_index as int] is Some {
            lemma_slot_written(before, *metrics, m_index);
            if !records_into(before@, m_index) {
                assert(metrics.metrics@ =~= before.metrics@);
            } else {
                let m = metric_at(before@, m_index);
                let (t, p) = choose|t: NaiveDateTime, p: usize|
                    metrics.metrics@[m_index as int].unwrap().value@ == #[trigger] with_count_max(
                        m.value,
                        amount as u64,
                        t,
                        p,
                    );
                assert(metrics@ == with_value(before@, m_index, with_count_max(m.value, amount as u64, t, p)));
            }
        } else {
            assert(metrics.metrics@ =~= before.metrics@);
            lemma_nothing_written(before, *metrics);
        }
    }
}

/// Records that the correlation identifier `correlation_id` was initialized at
/// `location`, in the correlation metric at index `m_index`.
pub fn metric_initialize_correlation_id(metrics: &mut Metrics, m_index: usize, correlation_id: &str, location: String)
    requires
        old(metrics).wf(),
        m_index < old(metrics)@.slots.len(),
        records_into(old(metrics)@, m_index) ==> metric_at(old(metrics)@, m_index).kind is Correlation,
    ensures
        final(metrics).wf(),
        records_into(old(metrics)@, m_index) ==> exists|date: NaiveDateTime|
            final(metrics)@ == #[trigger] with_value(
                old(metrics)@,
                m_index,
                with_correlation_event(
                    metric_at(old(metrics)@, m_index).value,
                    correlation_id@,
                    CorrelationEventOccurrence { date, event: CorrelationEvent::Initialized, location },
                ),
            ),
        !records_into(old(metrics)@, m_index) ==> final(metrics)@ == old(metrics)@,
{
    record_event(metrics, m_index, correlation_id, CorrelationEvent::Initialized, location);
}

/// Records that the correlation identifier `correlation_id` ended at
/// `location`, in the correlation metric at index `m_index`.
pub fn metric_correlation_id_ended(metrics: &mut Metrics, m_index: usize, correlation_id: &str, location: String)
    requires
        old(metrics).wf(),
        m_index < old(metrics)@.slots.len(),
        records_into(old(metrics)@, m_index) ==> metric_at(old(metrics)@, m_index).kind is Correlation,
    ensures
        final(metrics).wf(),
        records_into(old(metrics)@, m_index) ==> exists|date: NaiveDateTime|
            final(metrics)@ == #[trigger] with_value(
                old(metrics)@,
                m_index,
                with_correlation_event(
                    metric_at(old(metrics)@, m_index).value,
                    correlation_id@,
                    CorrelationEventOccurrence { date, event: CorrelationEvent::Ended, location },
                ),
            ),
        !records_into(old(metrics)@, m_index) ==> final(metrics)@ == old(metrics)@,
{
    record_event(metrics, m_index, correlation_id, CorrelationEvent::Ended, location);
}

/// Records that the correlation identifier `correlation_id` was passed on at
/// `location`, in the correlation metric at index `m_index`.
pub fn metric_correlation_id_passed(metrics: &mut Metrics, m_index: usize, correlation_id: &str, location: String)
    requires
        old(metrics).wf(),
        m_index < old(metrics)@.slots.len(),
        records_into(old(metrics)@, m_index) ==> metric_at(old(metrics)@, m_index).kind is Correlation,
    ensures
        final(metrics).wf(),
        records_into(old(metrics)@, m_index) ==> exists|date: NaiveDateTime|
            final(metrics)@ == #[trigger] with_value(
                old(metrics)@,
                m_index,
                with_correlation_event(
                    metric_at(old(metrics)@, m_index).value,
                    correlation_id@,
                    CorrelationEventOccurrence { date, event: CorrelationEvent::Passed, location },
                ),
            ),
        !records_into(old(metrics)@, m_index) ==> final(metrics)@ == old(metrics)@,
{
    record_event(metrics, m_index, correlation_id, CorrelationEvent::Passed, location);
}

/// Records that the correlation identifier `correlation_id` was
/// decapsulated at `location`, in the correlation metric at index `m_index`.
pub fn metric_decapsulate_correlation_id(metrics: &mut Metrics, m_index: usize, correlation_id: &str, location: String)
    requires
        old(metrics).wf(),
        m_index < old(metrics)@.slots.len(),
        records_into(old(metrics)@, m_index) ==> metric_at(old(metrics)@, m_index).kind is Correlation,
    ensures
        final(metrics).wf(),
        records_into(old(metrics)@, m_index) ==> exists|date: NaiveDateTime|
            final(metrics)@ == #[trigger] with_value(
                old(metrics)@,
                m_index,
                with_correlation_event(
                    metric_at(old(metrics)@, m_index).value,
                    correlation_id@,
                    CorrelationEventOccurrence { date, event: CorrelationEvent::Decapsulated, location },
                ),
            ),
        !records_into(old(metrics)@, m_index) ==> final(metrics)@ == old(metrics)@,
{
    record_event(metrics, m_index, correlation_id, CorrelationEvent::Decapsulated, location);
}

/// Records that the correlation identifier `correlation_id` was
/// encapsulated at `location` into the identifier `encapsulating.1` of the
/// metric `encapsulating.0`, in the correlation metric at index `m_index`.
pub fn metric_correlation_id_encapsulated(metrics: &mut Metrics, m_index: usize, correlation_id: &str, location: String, encapsulating: (usize, &str))
    requires
        old(metrics).wf(),
        m_index < old(metrics)@.slots.len(),
        records_into(old(metrics)@, m_index) ==> metric_at(old(metrics)@, m_index).kind is Correlation,
    ensures
        final(metrics).wf(),
        records_into(old(metrics)@, m_index) ==> exists|date: NaiveDateTime, target: String|
            target@ == encapsulating.1@ && final(metrics)@ == #[trigger] with_value(
                old(metrics)@,
                m_index,
                with_correlation_event(
                    metric_at(old(metrics)@, m_index).value,
                    correlation_id@,
                    CorrelationEventOccurrence {
                        date,
                        event: CorrelationEvent::Encapsulated(encapsulating.0, target),
                        location,
                    },
                ),
            ),
        !records_into(old(metrics)@, m_index) ==> final(metrics)@ == old(metrics)@,
{
    let (metric_id, encap_corr_id) = encapsulating;
    let event = CorrelationEvent::Encapsulated(metric_id, encap_corr_id.to_owned());
    record_event(metrics, m_index, correlation_id, event, location);
}

/// Appends an event to the history of `correlation_id` in the correlation
/// metric at index `m_index`.
fn record_event(
    metrics: &mut Metrics,
    m_index: usize,
    correlation_id: &str,
    event: CorrelationEvent,
    location: String,
)
    requires
        old(metrics).wf(),
        m_index < old(metrics)@.slots.len(),
        records_into(old(metrics)@, m_index) ==> metric_at(old(metrics)@, m_index).kind is Correlation,
    ensures
        final(metrics).wf(),
        records_into(old(metrics)@, m_index) ==> exists|date: NaiveDateTime|
            final(metrics)@ == #[trigger] with_value(
                old(metrics)@,
                m_index,
                with_correlation_event(
                    metric_at(old(metrics)@, m_index).value,
                    correlation_id@,
                    CorrelationEventOccurrence { date, event, location },
                ),
            ),
        !records_into(old(metrics)@, m_index) ==> final(metrics)@ == old(metrics)@,
{
    let current = metrics.current_level;
    let ghost before = *metrics;
    match &mut metrics.metrics[m_index] {
        Some(metric) => {
            if !metric.metric_level.is_below(&current) {
                metric.record_correlation_event(correlation_id.to_owned(), event, location);
            }
        },
        None => {},
    }
    proof {
        if before.metrics@[m_index as int] is Some {
            lemma_slot_written(before, *metrics, m_index);
            if !records_into(before@, m_index) {
                assert(metrics.metrics@ =~= before.metrics@);
            } else {
                let m = metric_at(before@, m_index);
                let date = choose|date: NaiveDateTime|
                    metrics.metrics@[m_index as int].unwrap().value@ == #[trigger] with_correlation_event(
                        m.value,
                        correlation_id@,
                        CorrelationEventOccurrence { date, event, location },
                    );
                assert(metrics@ == with_value(
                    before@,
                    m_index,
                    with_correlation_event(
                        m.value,
                        correlation_id@,
                        CorrelationEventOccurrence { date, event, location },
                    ),
                ));
            }
        } else {
            assert(metrics.metrics@ =~= before.metrics@);
            lemma_nothing_written(before, *metrics);
        }
    }
}

/// Starts (or restarts) the time measurement of `correlation_id` in the
/// correlation duration metric at index `m_index`.
pub fn metric_correlation_time_start(metrics: &mut Metrics, m_index: usize, correlation_id: &str)
    requires
        old(metrics).wf(),
        m_index < old(metrics)@.slots.len(),
        records_into(old(metrics)@, m_index) ==> {
            ||| metric_at(old(metrics)@, m_index).kind is CorrelationDurationTracker
            ||| metric_at(old(metrics)@, m_index).kind is CorrelationAggrDurationTracker
        },
    ensures
        final(metrics).wf(),
        records_into(old(metrics)@, m_index) ==> {
            let v = metric_at(old(metrics)@, m_index).value;
            final(metrics)@ == with_value(
                old(metrics)@,
                m_index,
                with_time_tracker(
                    v,
                    TimeTrackerView {
                        pending: time_tracker_of(v).pending.insert(correlation_id@),
                        accumulated: time_tracker_of(v).accumulated,
                    },
                ),
            )
        },
        !records_into(old(metrics)@, m_index) ==> final(metrics)@ == old(metrics)@,
{
    let current = metrics.current_level;
    let ghost before = *metrics;
    match &mut metrics.metrics[m_index] {
        Some(metric) => {
            if !metric.metric_level.is_below(&current) {
                metric.start_correlation_time_tracker(correlation_id.to_owned());
            }
        },
        None => {},
    }
    proof {
        if before.metrics@[m_index as int] is Some {
            lemma_slot_written(before, *metrics, m_index);
            if !records_into(before@, m_index) {
                assert(metrics.metrics@ =~= before.metrics@);
            }
        } else {
            assert(metrics.metrics@ =~= before.metrics@);
            lemma_nothing_written(before, *metrics);
        }
    }
}

/// Ends the time measurement of `correlation_id`, if one is pending, in the
/// correlation duration metric at index `m_index`: its elapsed time becomes
/// the finished duration of `correlation_id`.
pub fn metric_correlation_time_end(metrics: &mut Metrics, m_index: usize, correlation_id: &str)
    requires
        old(metrics).wf(),
        m_index < old(metrics)@.slots.len(),
        records_into(old(metrics)@, m_index) ==> {
            ||| metric_at(old(metrics)@, m_index).kind is CorrelationDurationTracker
            ||| metric_at(old(metrics)@, m_index).kind is CorrelationAggrDurationTracker
        },
    ensures
        final(metrics).wf(),
        records_into(old(metrics)@, m_index) ==> {
            let v = metric_at(old(metrics)@, m_index).value;
            let t = time_tracker_of(v);
            if t.pending.contains(correlation_id@) {
                exists|elapsed: Duration|
                    final(metrics)@ == #[trigger] with_value(
                        old(metrics)@,
                        m_index,
                        with_time_tracker(
                            v,
                            TimeTrackerView {
                                pending: t.pending.remove(correlation_id@),
                                accumulated: t.accumulated.insert(correlation_id@, duration_nanos(elapsed)),
                            },
                        ),
                    )
            } else {
                final(metrics)@ == old(metrics)@
            }
        },
        !records_into(old(metrics)@, m_index) ==> final(metrics)@ == old(metrics)@,
{
    let current = metrics.current_level;
    let ghost before = *metrics;
    match &mut metrics.metrics[m_index] {
        Some(metric) => {
            if !metric.metric_level.is_below(&current) {
                metric.end_correlation_time_tracker(correlation_id);
            }
        },
        None => {},
    }
    proof {
        if before.metrics@[m_index as int] is Some {
            lemma_slot_written(before, *metrics, m_index);
            if !records_into(before@, m_index) {
                assert(metrics.metrics@ =~= before.metrics@);
            } else {
                let m = metric_at(before@, m_index);
                let t = time_tracker_of(m.value);
                if t.pending.contains(correlation_id@) {
                    let e = choose|e: Duration|
                        metrics.metrics@[m_index as int].unwrap().value@ == #[trigger] with_time_tracker(
                            m.value,
                            TimeTrackerView {
                                pending: t.pending.remove(correlation_id@),
                                accumulated: t.accumulated.insert(correlation_id@, duration_nanos(e)),
                            },
                        );
                    assert(metrics@ == with_value(
                        before@,
                        m_index,
                        with_time_tracker(
                            m.value,
                            TimeTrackerView {
                                pending: t.pending.remove(correlation_id@),
                                accumulated: t.accumulated.insert(correlation_id@, duration_nanos(e)),
                            },
                        ),
                    ));
                } else {
                    assert(metrics@.slots =~= before@.slots);
                }
            }
        } else {
            assert(metrics.metrics@ =~= before.metrics@);
            lemma_nothing_written(before, *metrics);
        }
    }
}

/// Increases the counter of `correlation_id` in the correlation counter
/// metric at index `m_index` by `increment_count` (1 when `None`), wrapping.
pub fn metric_correlation_counter_increment(
    metrics: &mut Metrics,
    m_index: usize,
    correlation_id: &str,
    increment_count: Option<u64>,
)
    requires
        old(metrics).wf(),
        m_index < old(metrics)@.slots.len(),
        records_into(old(metrics)@, m_index) ==> metric_at(old(metrics)@, m_index).kind is CounterCorrelation,
    ensures
        final(metrics).wf(),
        records_into(old(metrics)@, m_index) ==> final(metrics)@ == with_value(
            old(metrics)@,
            m_index,
            with_correlation_counter(
                metric_at(old(metrics)@, m_index).value,
                correlation_id@,
                increment_of(increment_count),
            ),
        ),
        !records_into(old(metrics)@, m_index) ==> final(metrics)@ == old(metrics)@,
{
    let correlation_id = correlation_id.to_owned();
    metric_correlation_counter_increment_arc(metrics, m_index, correlation_id, increment_count)
}

/// Increases the counter of the (owned) `correlation_id` in the correlation
/// counter metric at index `m_index` by `increment_count` (1 when `None`),
/// wrapping.
pub fn metric_correlation_counter_increment_arc(
    metrics: &mut Metrics,
    m_index: usize,
    correlation_id: String,
    increment_count: Option<u64>,
)
    requires
        old(metrics).wf(),
        m_index < old(metrics)@.slots.len(),
        records_into(old(metrics)@, m_index) ==> metric_at(old(metrics)@, m_index).kind is CounterCorrelation,
    ensures
        final(metrics).wf(),
        records_into(old(metrics)@, m_index) ==> final(metrics)@ == with_value(
            old(metrics)@,
            m_index,
            with_correlation_counter(
                metric_at(old(metrics)@, m_index).value,
                correlation_id@,
                increment_of(increment_count),
            ),
        ),
        !records_into(old(metrics)@, m_index) ==> final(metrics)@ == old(metrics)@,
{
    let current = metrics.current_level;
    let ghost before = *metrics;
    let ghost id = correlation_id@;
    match &mut metrics.metrics[m_index] {
        Some(metric) => {
            if !metric.metric_level.is_below(&current) {
                metric.increment_counter(correlation_id, increment_count);
            }
        },
        None => {},
    }
    proof {
        if before.metrics@[m_index as int] is Some {
            lemma_slot_written(before, *metrics, m_index);
            if !records_into(before@, m_index) {
                assert(metrics.metrics@ =~= before.metrics@);
            }
        } else {
            assert(metrics.metrics@ =~= before.metrics@);
            lemma_nothing_written(before, *metrics);
        }
    }
}

} // verus!
