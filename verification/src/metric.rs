//! A single metric: its identity, its accumulated data, and the operations
//! that record measurements into it or collect what it accumulated.
use vstd::prelude::*;
use chrono::NaiveDateTime;
use dashmap::DashMap;
use std::time::{Duration, Instant};
use crate::clock::{duration_as_nanos, duration_nanos, instant_elapsed, instant_now, utc_now};
use crate::correlation::{
    with_event, with_increment, CorrelationEvent, CorrelationEventOccurrence, TimeTrackerView,
};
use crate::data::{
    additional_for, bucket_of, data_fits, data_views, empty_time_view, has_buckets, initial_data, initial_value, value_fits,
    AdditionalMetricData, DataView, MetricData, MetricKind, MetricLevel, SafeMetricData, SafeView,
};
use crate::welford::{has_room, welford_step, WelfordState};

verus! {

/// A metric statistic, collected every so often and sent off for storage.
pub struct Metric {
    pub name: String,
    pub value: SafeMetricData,
    pub additional_data: AdditionalMetricData,
    pub metric_level: MetricLevel,
    pub metric_type: MetricKind,
}

/// Whether `a` is additional data a metric of kind `k` can hold: duration
/// metrics may have a measurement in progress, the others hold what they
/// started with.
pub open spec fn additional_fits(k: MetricKind, a: AdditionalMetricData) -> bool {
    if k is Duration {
        a is Duration
    } else {
        a == additional_for(k)
    }
}

/// What collecting returns of the data `d`: time trackers hand over their
/// finished durations only; everything else is handed over whole.
pub open spec fn taken_part(d: DataView) -> DataView {
    match d {
        DataView::CorrelationDurationTracker(t) => DataView::CorrelationDurationTracker(
            TimeTrackerView { pending: Set::empty(), accumulated: t.accumulated },
        ),
        DataView::CorrelationAggrDurationTracker(t) => DataView::CorrelationAggrDurationTracker(
            TimeTrackerView { pending: Set::empty(), accumulated: t.accumulated },
        ),
        _ => d,
    }
}

/// What a metric of kind `k` keeps of the data `d` once it is collected:
/// time trackers keep their pending measurements; everything else starts
/// over.
pub open spec fn kept_part(k: MetricKind, d: DataView) -> DataView {
    match d {
        DataView::CorrelationDurationTracker(t) => DataView::CorrelationDurationTracker(
            TimeTrackerView { pending: t.pending, accumulated: Map::empty() },
        ),
        DataView::CorrelationAggrDurationTracker(t) => DataView::CorrelationAggrDurationTracker(
            TimeTrackerView { pending: t.pending, accumulated: Map::empty() },
        ),
        _ => initial_data(k),
    }
}

/// What collecting a metric of kind `k` with laid-out data `v` returns.
pub open spec fn collected(k: MetricKind, v: SafeView) -> Seq<DataView> {
    match v {
        SafeView::Sequential(buckets) => buckets,
        SafeView::ThreadSafe(d) => seq![taken_part(d)],
        SafeView::Atomic(d) => seq![d],
    }
}

/// The laid-out data a metric of kind `k` with data `v` holds once
/// collected.
pub open spec fn after_collection(k: MetricKind, v: SafeView) -> SafeView {
    match v {
        SafeView::Sequential(buckets) => SafeView::Sequential(Seq::new(buckets.len(), |i: int| initial_data(k))),
        SafeView::ThreadSafe(d) => SafeView::ThreadSafe(kept_part(k, d)),
        SafeView::Atomic(d) => SafeView::Atomic(initial_data(k)),
    }
}

/// The pending start instants of the laid-out data of a correlation
/// duration metric (none for other data).
pub open spec fn pending_starts(v: SafeMetricData) -> Option<DashMap<String, Instant>> {
    match v {
        SafeMetricData::ThreadSafe(MetricData::CorrelationDurationTracker(t)) => Some(t.start_instants()),
        SafeMetricData::ThreadSafe(MetricData::CorrelationAggrDurationTracker(t)) => Some(t.start_instants()),
        _ => None,
    }
}

/// The running statistics of a duration or count metric.
pub open spec fn stats_of(v: SafeView) -> WelfordState {
    match v {
        SafeView::Atomic(DataView::Duration(w)) => w,
        SafeView::Atomic(DataView::Count(w)) => w,
        _ => WelfordState { m: 0, s: 0, count: 0, sum: 0 },
    }
}

/// The laid-out data once the statistics of a duration or count metric are
/// replaced by `w`.
pub open spec fn with_stats(v: SafeView, w: WelfordState) -> SafeView {
    match v {
        SafeView::Atomic(DataView::Duration(_)) => SafeView::Atomic(DataView::Duration(w)),
        SafeView::Atomic(DataView::Count(_)) => SafeView::Atomic(DataView::Count(w)),
        _ => v,
    }
}

/// The laid-out data of a counter metric once increased by `by` (wrapping).
pub open spec fn with_counter_increment(v: SafeView, by: u64) -> SafeView {
    match v {
        SafeView::Atomic(DataView::Counter(c)) => SafeView::Atomic(
            DataView::Counter(vstd::wrapping::u64_specs::wrapping_add(c, by)),
        ),
        _ => v,
    }
}

/// The laid-out data of a count-max metric once the count `c`, stored at
/// time `t` by a thread at round position `p`, goes to the bucket that
/// position points at.
pub open spec fn with_count_max(v: SafeView, c: u64, t: NaiveDateTime, p: usize) -> SafeView {
    match v {
        SafeView::Sequential(buckets) => {
            let i = bucket_of(p, buckets.len());
            let b = match buckets[i] {
                DataView::CountMax(s) => DataView::CountMax(s.push((c, t))),
                other => other,
            };
            SafeView::Sequential(buckets.update(i, b))
        },
        _ => v,
    }
}

/// The laid-out data of a correlation metric once `o` is appended to the
/// history of `id`.
pub open spec fn with_correlation_event(v: SafeView, id: Seq<char>, o: CorrelationEventOccurrence) -> SafeView {
    match v {
        SafeView::ThreadSafe(DataView::Correlation(m)) => SafeView::ThreadSafe(
            DataView::Correlation(with_event(m, id, o)),
        ),
        _ => v,
    }
}

/// The time tracker of a correlation duration metric.
pub open spec fn time_tracker_of(v: SafeView) -> TimeTrackerView {
    match v {
        SafeView::ThreadSafe(DataView::CorrelationDurationTracker(t)) => t,
        SafeView::ThreadSafe(DataView::CorrelationAggrDurationTracker(t)) => t,
        _ => empty_time_view(),
    }
}

/// The laid-out data once the time tracker is replaced by `t`.
pub open spec fn with_time_tracker(v: SafeView, t: TimeTrackerView) -> SafeView {
    match v {
        SafeView::ThreadSafe(DataView::CorrelationDurationTracker(_)) => SafeView::ThreadSafe(
            DataView::CorrelationDurationTracker(t),
        ),
        SafeView::ThreadSafe(DataView::CorrelationAggrDurationTracker(_)) => SafeView::ThreadSafe(
            DataView::CorrelationAggrDurationTracker(t),
        ),
        _ => v,
    }
}

/// The laid-out data of a correlation counter metric once the counter of
/// `id` is increased by `by`.
pub open spec fn with_correlation_counter(v: SafeView, id: Seq<char>, by: u64) -> SafeView {
    match v {
        SafeView::ThreadSafe(DataView::CounterCorrelation(m)) => SafeView::ThreadSafe(
            DataView::CounterCorrelation(with_increment(m, id, by)),
        ),
        _ => v,
    }
}

/// Whether `v` and `a` are the laid-out data and additional data of a
/// metric with data `value` and additional data `additional` once its
/// duration measurement ends: no measurement is then in progress, and one
/// that was in progress is recorded as the whole nanoseconds (truncated to
/// 64 bits) of some elapsed duration; with none in progress the data is
/// unchanged.
pub open spec fn duration_ended(
    value: SafeView,
    additional: AdditionalMetricData,
    v: SafeView,
    a: AdditionalMetricData,
) -> bool {
    &&& started_is(additional, a, false)
    &&& duration_started(additional) ==> exists|d: Duration|
        v == #[trigger] with_stats(value, welford_step(stats_of(value), duration_nanos(d) as u64))
    &&& !duration_started(additional) ==> v == value
}

/// Whether the measurement in progress of a duration metric has started.
pub open spec fn duration_started(a: AdditionalMetricData) -> bool {
    a matches AdditionalMetricData::Duration(Some(_))
}

/// The additional data once a measurement starts or ends: `started` tells
/// whether one is then in progress. Non-duration data is unchanged.
pub open spec fn started_is(a: AdditionalMetricData, b: AdditionalMetricData, started: bool) -> bool {
    match a {
        AdditionalMetricData::Duration(_) => b is Duration && duration_started(b) == started,
        _ => b == a,
    }
}

/// What a metric holds: its name, kind and level, its laid-out data and
/// its additional data.
pub struct MetricView {
    pub name: Seq<char>,
    pub kind: MetricKind,
    pub level: MetricLevel,
    pub value: SafeView,
    pub additional: AdditionalMetricData,
}

impl View for Metric {
    type V = MetricView;

    open spec fn view(&self) -> MetricView {
        MetricView {
            name: self.name@,
            kind: self.metric_type,
            level: self.metric_level,
            value: self.value@,
            additional: self.additional_data,
        }
    }
}

/// Whether a metric view is consistent: its data has the shape and the
/// layout its kind asks for.
pub open spec fn view_fits(m: MetricView) -> bool {
    &&& value_fits(m.kind, m.value)
    &&& additional_fits(m.kind, m.additional)
}

impl Metric {
    /// The metric's identity and layout agree: its data has the shape and
    /// the layout its kind asks for.
    pub open spec fn wf(&self) -> bool {
        &&& value_fits(self.metric_type, self.value@)
        &&& additional_fits(self.metric_type, self.additional_data)
    }

    /// Whether `other` is this metric with, at most, other laid-out data.
    pub open spec fn same_identity(&self, other: &Metric) -> bool {
        &&& other.name == self.name
        &&& other.metric_level == self.metric_level
        &&& other.metric_type == self.metric_type
    }

    /// A new metric with nothing recorded; a count-max metric gets
    /// `concurrency` buckets.
    pub fn new(name: String, kind: MetricKind, level: MetricLevel, concurrency: usize) -> (r: Self)
        ensures
            r.wf(),
            r.name == name,
            r.metric_type == kind,
            r.metric_level == level,
            r.value@ == initial_value(kind, concurrency as nat),
            r.additional_data == additional_for(kind),
    {
        let value = kind.gen_metric_type(concurrency);
        let additional_data = kind.gen_additional_data();
        let r = Metric { name, value, additional_data, metric_level: level, metric_type: kind };
        proof {
            if kind is CountMax {
                let b = Seq::new(concurrency as nat, |i: int| initial_data(kind));
                assert(forall|i: int| 0 <= i < b.len() ==> #[trigger] b[i] == initial_data(kind));
            }
        }
        r
    }

    /// The metric's name.
    pub fn name(&self) -> (r: &String)
        ensures
            r == self.name,
    {
        &self.name
    }

    /// The metric's laid-out data.
    pub fn value(&self) -> (r: &SafeMetricData)
        ensures
            r == self.value,
    {
        &self.value
    }

    /// The metric's additional data.
    pub fn additional_data(&self) -> (r: &AdditionalMetricData)
        ensures
            r == self.additional_data,
    {
        &self.additional_data
    }

    /// The metric's level.
    pub fn metric_level(&self) -> (r: &MetricLevel)
        ensures
            r == self.metric_level,
    {
        &self.metric_level
    }

    /// The metric's kind.
    pub fn metric_type(&self) -> (r: &MetricKind)
        ensures
            r == self.metric_type,
    {
        &self.metric_type
    }

    /// Takes what the metric accumulated since the last collection and
    /// starts it over; pending correlation time measurements stay.
    pub fn take_values(&mut self) -> (r: Vec<MetricData>)
        requires
            old(self).wf(),
        ensures
            final(self).wf(),
            old(self).same_identity(&*final(self)),
            final(self).additional_data == old(self).additional_data,
            data_views(r@) == collected(old(self).metric_type, old(self).value@),
            final(self).value@ == after_collection(old(self).metric_type, old(self).value@),
            pending_starts(final(self).value) == pending_starts(old(self).value),
    {
        let kind = self.metric_type;
        let ghost old_value = self.value@;
        let mut value = SafeMetricData::Atomic(MetricData::Counter(0));
        std::mem::swap(&mut value, &mut self.value);
        match value {
            SafeMetricData::Sequential(buckets, positions) => {
                let n = buckets.len();
                let mut fresh: Vec<MetricData> = Vec::with_capacity(n);
                let mut i: usize = 0;
                while i < n
                    invariant
                        i <= n,
                        fresh@.len() == i,
                        forall|j: int| 0 <= j < i ==> #[trigger] fresh@[j]@ == initial_data(kind),
                    decreases n - i,
                {
                    fresh.push(kind.gen_metric_type_internal());
                    i = i + 1;
                }
                assert(data_views(fresh@) =~= Seq::new(n as nat, |i: int| initial_data(kind)));
                self.value = SafeMetricData::Sequential(fresh, positions);
                proof {
                    let b = Seq::new(n as nat, |i: int| initial_data(kind));
                    assert(forall|i: int| 0 <= i < b.len() ==> #[trigger] b[i] == initial_data(kind));
                }
                buckets
            },
            SafeMetricData::ThreadSafe(data) => {
                match data {
                    MetricData::CorrelationDurationTracker(tracker) => {
                        let mut tracker = tracker;
                        let finished = tracker.split_finished();
                        self.value = SafeMetricData::ThreadSafe(
                            MetricData::CorrelationDurationTracker(tracker),
                        );
                        let r = vec![MetricData::CorrelationDurationTracker(finished)];
                        assert(data_views(r@) =~= collected(kind, old_value));
                        r
                    },
                    MetricData::CorrelationAggrDurationTracker(tracker) => {
                        let mut tracker = tracker;
                        let finished = tracker.split_finished();
                        self.value = SafeMetricData::ThreadSafe(
                            MetricData::CorrelationAggrDurationTracker(tracker),
                        );
                        let r = vec![MetricData::CorrelationAggrDurationTracker(finished)];
                        assert(data_views(r@) =~= collected(kind, old_value));
                        r
                    },
                    other => {
                        self.value = SafeMetricData::ThreadSafe(kind.gen_metric_type_internal());
                        let r = vec![other];
                        assert(data_views(r@) =~= collected(kind, old_value));
                        r
                    },
                }
            },
            SafeMetricData::Atomic(data) => {
                self.value = SafeMetricData::Atomic(kind.gen_metric_type_internal());
                let r = vec![data];
                assert(data_views(r@) =~= collected(kind, old_value));
                r
            },
        }
    }

    /// Records a measurement into a duration or count metric.
    pub fn increase_welford_method(&mut self, measurement: u64)
        requires
            old(self).wf(),
            old(self).metric_type is Duration || old(self).metric_type is Count,
            has_room(stats_of(old(self).value@)),
        ensures
            final(self).wf(),
            old(self).same_identity(&*final(self)),
            final(self).additional_data == old(self).additional_data,
            final(self).value@ == with_stats(
                old(self).value@,
                welford_step(stats_of(old(self).value@), measurement),
            ),
    {
        match &mut self.value {
            SafeMetricData::Atomic(MetricData::Duration(w)) => {
                w.record(measurement);
            },
            SafeMetricData::Atomic(MetricData::Count(w)) => {
                w.record(measurement);
            },
            _ => {},
        }
    }

    /// Stores a count, dated `date`, into the bucket the calling thread's
    /// position points at, and moves that position on.
    pub fn enqueue_counter_max_at(&mut self, count: usize, date: NaiveDateTime)
        requires
            old(self).wf(),
            old(self).metric_type is CountMax,
            has_buckets(old(self).value@),
        ensures
            final(self).wf(),
            old(self).same_identity(&*final(self)),
            final(self).additional_data == old(self).additional_data,
            exists|p: usize| final(self).value@ == #[trigger] with_count_max(old(self).value@, count as u64, date, p),
    {
        let ghost kind = self.metric_type;
        let ghost b = self.value@->Sequential_0;
        let values = self.value.locked_metric_data();
        let ghost taken = values@;
        match values {
            MetricData::CountMax(v) => {
                v.push((count as u64, date));
            },
            _ => {},
        }
        let ghost pushed = values@;
        proof {
            let p = choose|p: usize|
                taken == #[trigger] b[bucket_of(p, b.len())] && self.value@ == SafeView::Sequential(
                    b.update(bucket_of(p, b.len()), pushed),
                );
            let i = bucket_of(p, b.len());
            assert(data_fits(kind, b[i]));
            assert(self.value@ == with_count_max(old(self).value@, count as u64, date, p));
            let nb = self.value@->Sequential_0;
            assert(forall|j: int| 0 <= j < nb.len() ==> crate::data::data_fits(kind, #[trigger] nb[j])) by {
                assert(forall|j: int| 0 <= j < nb.len() && j != i ==> nb[j] == b[j]);
            }
        }
    }

    /// Stores a count (with the current time) into the bucket the calling
    /// thread's position points at, and moves that position on.
    pub fn enqueue_counter_max_measurement(&mut self, count: usize)
        requires
            old(self).wf(),
            old(self).metric_type is CountMax,
            has_buckets(old(self).value@),
        ensures
            final(self).wf(),
            old(self).same_identity(&*final(self)),
            final(self).additional_data == old(self).additional_data,
            exists|t: NaiveDateTime, p: usize|
                final(self).value@ == #[trigger] with_count_max(old(self).value@, count as u64, t, p),
    {
        let now = utc_now();
        self.enqueue_counter_max_at(count, now);
    }

    /// Starts a duration measurement (duration metrics only; the others
    /// ignore it).
    pub fn start_duration_measurement(&mut self)
        requires
            old(self).wf(),
        ensures
            final(self).wf(),
            old(self).same_identity(&*final(self)),
            final(self).value == old(self).value,
            started_is(old(self).additional_data, final(self).additional_data, true),
    {
        match &mut self.additional_data {
            AdditionalMetricData::Duration(start) => {
                *start = Some(instant_now());
            },
            AdditionalMetricData::Counter => {},
            AdditionalMetricData::Count => {},
            AdditionalMetricData::Correlation => {},
        }
    }

    /// Ends the duration measurement in progress, if any, and records its
    /// elapsed time (in nanoseconds); with none in progress only the
    /// additional data is left as it was.
    pub fn end_duration_measurement(&mut self)
        requires
            old(self).wf(),
            duration_started(old(self).additional_data) ==> has_room(stats_of(old(self).value@)),
        ensures
            final(self).wf(),
            old(self).same_identity(&*final(self)),
            duration_ended(
                old(self).value@,
                old(self).additional_data,
                final(self).value@,
                final(self).additional_data,
            ),
            !duration_started(old(self).additional_data) ==> final(self).value == old(self).value,
    {
        let start_instant: Option<Instant> = match &mut self.additional_data {
            AdditionalMetricData::Duration(start) => {
                let taken = start.take();
                taken
            },
            AdditionalMetricData::Counter => None,
            AdditionalMetricData::Count => None,
            AdditionalMetricData::Correlation => None,
        };
        match start_instant {
            Some(start_instant) => {
                let elapsed = instant_elapsed(&start_instant);
                let nanos: u64 = duration_as_nanos(&elapsed) as u64;
                self.increase_welford_method(nanos);
                assert(self.value@ == with_stats(
                    old(self).value@,
                    welford_step(stats_of(old(self).value@), duration_nanos(elapsed) as u64),
                ));
            },
            None => {},
        }
    }

    /// Increases a counter metric by `to_add` (1 when `None`), wrapping.
    pub fn increment_counter_measurement(&mut self, to_add: Option<u64>)
        requires
            old(self).wf(),
            old(self).metric_type is Counter,
        ensures
            final(self).wf(),
            old(self).same_identity(&*final(self)),
            final(self).additional_data == old(self).additional_data,
            final(self).value@ == with_counter_increment(
                old(self).value@,
                match to_add {
                    Some(v) => v,
                    None => 1,
                },
            ),
    {
        let by: u64 = match to_add {
            Some(v) => v,
            None => 1,
        };
        match &mut self.value {
            SafeMetricData::Atomic(MetricData::Counter(c)) => {
                *c = c.wrapping_add(by);
            },
            _ => {},
        }
    }

    /// Appends an event (dated now) to the history of `id` in a correlation
    /// metric.
    pub fn record_correlation_event(&mut self, id: String, event: CorrelationEvent, location: String)
        requires
            old(self).wf(),
            old(self).metric_type is Correlation,
        ensures
            final(self).wf(),
            old(self).same_identity(&*final(self)),
            final(self).additional_data == old(self).additional_data,
            exists|date: NaiveDateTime|
                final(self).value@ == #[trigger] with_correlation_event(
                    old(self).value@,
                    id@,
                    CorrelationEventOccurrence { date, event, location },
                ),
    {
        let date = utc_now();
        let ghost occurrence = CorrelationEventOccurrence { date, event, location };
        match &mut self.value {
            SafeMetricData::ThreadSafe(MetricData::Correlation(tracker)) => {
                tracker.record(id, CorrelationEventOccurrence { date, event, location });
            },
            _ => {},
        }
        assert(self.value@ == with_correlation_event(old(self).value@, id@, occurrence));
    }

    /// Starts (or restarts) the time measurement of `id` in a correlation
    /// duration metric.
    pub fn start_correlation_time_tracker(&mut self, id: String)
        requires
            old(self).wf(),
            old(self).metric_type is CorrelationDurationTracker
                || old(self).metric_type is CorrelationAggrDurationTracker,
        ensures
            final(self).wf(),
            old(self).same_identity(&*final(self)),
            final(self).additional_data == old(self).additional_data,
            final(self).value@ == with_time_tracker(
                old(self).value@,
                TimeTrackerView {
                    pending: time_tracker_of(old(self).value@).pending.insert(id@),
                    accumulated: time_tracker_of(old(self).value@).accumulated,
                },
            ),
    {
        match &mut self.value {
            SafeMetricData::ThreadSafe(MetricData::CorrelationDurationTracker(tracker)) => {
                tracker.start(id);
            },
            SafeMetricData::ThreadSafe(MetricData::CorrelationAggrDurationTracker(tracker)) => {
                tracker.start(id);
            },
            _ => {},
        }
    }

    /// Ends the time measurement of `id` in a correlation duration metric,
    /// if one is pending, keeping its elapsed time as the finished duration
    /// of `id`.
    pub fn end_correlation_time_tracker(&mut self, id: &str)
        requires
            old(self).wf(),
            old(self).metric_type is CorrelationDurationTracker
                || old(self).metric_type is CorrelationAggrDurationTracker,
        ensures
            final(self).wf(),
            old(self).same_identity(&*final(self)),
            final(self).additional_data == old(self).additional_data,
            ({
                let t = time_tracker_of(old(self).value@);
                if t.pending.contains(id@) {
                    exists|elapsed: Duration|
                        final(self).value@ == #[trigger] with_time_tracker(
                            old(self).value@,
                            TimeTrackerView {
                                pending: t.pending.remove(id@),
                                accumulated: t.accumulated.insert(id@, duration_nanos(elapsed)),
                            },
                        )
                } else {
                    final(self).value@ == old(self).value@
                }
            }),
    {
        let ghost t = time_tracker_of(self.value@);
        let ghost old_value = self.value@;
        match &mut self.value {
            SafeMetricData::ThreadSafe(MetricData::CorrelationDurationTracker(tracker)) => {
                tracker.end(id);
            },
            SafeMetricData::ThreadSafe(MetricData::CorrelationAggrDurationTracker(tracker)) => {
                tracker.end(id);
            },
            _ => {},
        }
        proof {
            let nt = time_tracker_of(self.value@);
            assert(self.value@ == with_time_tracker(old_value, nt));
            if t.pending.contains(id@) {
                let e = choose|e: Duration|
                    nt.accumulated == #[trigger] t.accumulated.insert(id@, duration_nanos(e));
                assert(nt == TimeTrackerView {
                    pending: t.pending.remove(id@),
                    accumulated: t.accumulated.insert(id@, duration_nanos(e)),
                });
            } else {
                assert(nt.pending =~= t.pending);
                assert(nt == t);
            }
        }
    }

    /// Increases the counter of `id` in a correlation counter metric by
    /// `to_increase` (1 when `None`), wrapping.
    pub fn increment_counter(&mut self, id: String, to_increase: Option<u64>)
        requires
            old(self).wf(),
            old(self).metric_type is CounterCorrelation,
        ensures
            final(self).wf(),
            old(self).same_identity(&*final(self)),
            final(self).additional_data == old(self).additional_data,
            final(self).value@ == with_correlation_counter(
                old(self).value@,
                id@,
                match to_increase {
                    Some(v) => v,
                    None => 1,
                },
            ),
    {
        let by: u64 = match to_increase {
            Some(v) => v,
            None => 1,
        };
        match &mut self.value {
            SafeMetricData::ThreadSafe(MetricData::CounterCorrelation(tracker)) => {
                tracker.increment(id, by);
            },
            _ => {},
        }
    }
}

} // verus!
