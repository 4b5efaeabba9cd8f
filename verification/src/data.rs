//! The kinds of metric, the data each kind accumulates, and the way that
//! data is laid out for concurrent recording.
use vstd::prelude::*;
use chrono::NaiveDateTime;
use std::cell::Cell;
use std::time::Instant;
use thread_local::ThreadLocal;
use crate::correlation::{
    CorrelationCounterTracker, CorrelationEventOccurrence, CorrelationTimeTracker,
    CorrelationTracker, TimeTrackerView,
};
use crate::thread_slot::{new_thread_positions, position_get, position_set, thread_position};
use crate::welford::{welford_zero, WelfordState};

verus! {

/// How much detail a metric belongs to. Recording into a metric whose
/// level lies below the configured level is skipped.
#[derive(Clone, Copy, Debug, PartialEq, Eq, Structural, Hash)]
pub enum MetricLevel {
    Trace,
    Debug,
    Info,
}

/// The position of a level in the order `Trace < Debug < Info`.
pub open spec fn level_rank(l: MetricLevel) -> int {
    match l {
        MetricLevel::Trace => 0,
        MetricLevel::Debug => 1,
        MetricLevel::Info => 2,
    }
}

impl MetricLevel {
    /// The position of the level in the order `Trace < Debug < Info`.
    pub fn rank(&self) -> (r: u8)
        ensures
            r == level_rank(*self),
    {
        match self {
            MetricLevel::Trace => 0,
            MetricLevel::Debug => 1,
            MetricLevel::Info => 2,
        }
    }

    /// Whether this level lies strictly below `other`.
    pub fn is_below(&self, other: &MetricLevel) -> (r: bool)
        ensures
            r == (level_rank(*self) < level_rank(*other)),
    {
        self.rank() < other.rank()
    }
}

/// The possible kinds of metrics.
#[derive(Clone, Copy, Debug, PartialEq, Eq, Structural)]
pub enum MetricKind {
    Duration,
    /// A counter is a metric that is incremented by X every time it is called and in the end is combined
    Counter,
    CounterCorrelation,
    /// A count is to be used to store various independent counts and then average them together
    Count,
    /// The largest counts seen, of which at most the given number are reported
    CountMax(usize),
    /// Metrics for correlation ID tracking
    Correlation,
    /// Duration with correlation, individually addressed
    CorrelationDurationTracker,
    /// Duration with correlation, aggregated
    CorrelationAggrDurationTracker,
}

/// Additional data that might be useful for a metric: duration metrics
/// keep the instant at which the current measurement started.
#[derive(Debug)]
pub enum AdditionalMetricData {
    Duration(Option<Instant>),
    // Counter does not need any additional data storage
    Counter,
    Count,
    Correlation,
}

/// The additional data a metric of kind `k` starts with.
pub open spec fn additional_for(k: MetricKind) -> AdditionalMetricData {
    match k {
        MetricKind::Duration => AdditionalMetricData::Duration(None),
        MetricKind::Counter => AdditionalMetricData::Counter,
        MetricKind::Count => AdditionalMetricData::Count,
        MetricKind::CountMax(_) => AdditionalMetricData::Counter,
        MetricKind::Correlation => AdditionalMetricData::Correlation,
        MetricKind::CorrelationDurationTracker => AdditionalMetricData::Correlation,
        MetricKind::CorrelationAggrDurationTracker => AdditionalMetricData::Correlation,
        MetricKind::CounterCorrelation => AdditionalMetricData::Counter,
    }
}

/// The data accumulated by a metric between two collections.
pub enum MetricData {
    /// Welford's method for rolling standard dev calculations
    Duration(WelfordState),
    /// A counter is a metric that is incremented by X every time it is called and in the end is combined
    Counter(u64),
    CounterCorrelation(CorrelationCounterTracker),
    /// Counts whose values are averaged rather than added (a batch size, say)
    Count(WelfordState),
    /// Counts with the date and time (UTC) they were stored at
    CountMax(Vec<(u64, NaiveDateTime)>),
    Correlation(CorrelationTracker),
    CorrelationDurationTracker(CorrelationTimeTracker),
    CorrelationAggrDurationTracker(CorrelationTimeTracker),
}

/// What the data of a metric holds, as mathematical values.
pub enum DataView {
    Duration(WelfordState),
    Counter(u64),
    CounterCorrelation(Map<Seq<char>, u64>),
    Count(WelfordState),
    CountMax(Seq<(u64, NaiveDateTime)>),
    Correlation(Map<Seq<char>, Seq<CorrelationEventOccurrence>>),
    CorrelationDurationTracker(TimeTrackerView),
    CorrelationAggrDurationTracker(TimeTrackerView),
}

impl View for MetricData {
    type V = DataView;

    open spec fn view(&self) -> DataView {
        match self {
            MetricData::Duration(w) => DataView::Duration(*w),
            MetricData::Counter(c) => DataView::Counter(*c),
            MetricData::CounterCorrelation(t) => DataView::CounterCorrelation(t@),
            MetricData::Count(w) => DataView::Count(*w),
            MetricData::CountMax(v) => DataView::CountMax(v@),
            MetricData::Correlation(t) => DataView::Correlation(t@),
            MetricData::CorrelationDurationTracker(t) => DataView::CorrelationDurationTracker(t@),
            MetricData::CorrelationAggrDurationTracker(t) => DataView::CorrelationAggrDurationTracker(
                t@,
            ),
        }
    }
}

/// A time tracker with nothing pending and nothing finished.
pub open spec fn empty_time_view() -> TimeTrackerView {
    TimeTrackerView { pending: Set::empty(), accumulated: Map::empty() }
}

/// The data a metric of kind `k` holds before anything is recorded.
pub open spec fn initial_data(k: MetricKind) -> DataView {
    match k {
        MetricKind::Duration => DataView::Duration(welford_zero()),
        MetricKind::Count => DataView::Count(welford_zero()),
        MetricKind::Counter => DataView::Counter(0),
        MetricKind::CountMax(_) => DataView::CountMax(Seq::empty()),
        MetricKind::Correlation => DataView::Correlation(Map::empty()),
        MetricKind::CorrelationDurationTracker => DataView::CorrelationDurationTracker(
            empty_time_view(),
        ),
        MetricKind::CorrelationAggrDurationTracker => DataView::CorrelationAggrDurationTracker(
            empty_time_view(),
        ),
        MetricKind::CounterCorrelation => DataView::CounterCorrelation(Map::empty()),
    }
}

/// Whether `d` is data of the shape kind `k` accumulates.
pub open spec fn data_fits(k: MetricKind, d: DataView) -> bool {
    match k {
        MetricKind::Duration => d is Duration,
        MetricKind::Count => d is Count,
        MetricKind::Counter => d is Counter,
        MetricKind::CountMax(_) => d is CountMax,
        MetricKind::Correlation => d is Correlation,
        MetricKind::CorrelationDurationTracker => d is CorrelationDurationTracker,
        MetricKind::CorrelationAggrDurationTracker => d is CorrelationAggrDurationTracker,
        MetricKind::CounterCorrelation => d is CounterCorrelation,
    }
}

/// The data of a metric, laid out for the way it is recorded into: one
/// bucket per concurrent writer, each thread going round its buckets in
/// turn from a position of its own; a single value read and written under
/// a lock; or a single value of plain accumulators.
pub enum SafeMetricData {
    Sequential(Vec<MetricData>, ThreadLocal<Cell<usize>>),
    ThreadSafe(MetricData),
    Atomic(MetricData),
}

/// What the laid-out data of a metric holds.
pub enum SafeView {
    Sequential(Seq<DataView>),
    ThreadSafe(DataView),
    Atomic(DataView),
}

/// The views of a sequence of data.
pub open spec fn data_views(v: Seq<MetricData>) -> Seq<DataView> {
    v.map_values(|d: MetricData| d@)
}

impl View for SafeMetricData {
    type V = SafeView;

    open spec fn view(&self) -> SafeView {
        match self {
            SafeMetricData::Sequential(v, _) => SafeView::Sequential(data_views(v@)),
            SafeMetricData::ThreadSafe(d) => SafeView::ThreadSafe(d@),
            SafeMetricData::Atomic(d) => SafeView::Atomic(d@),
        }
    }
}

/// The laid-out data a metric of kind `k` starts with, `concurrency` being
/// the number of buckets of a sequential layout.
pub open spec fn initial_value(k: MetricKind, concurrency: nat) -> SafeView {
    match k {
        MetricKind::CountMax(_) => SafeView::Sequential(Seq::new(concurrency, |i: int| initial_data(k))),
        MetricKind::Counter | MetricKind::Duration | MetricKind::Count => SafeView::Atomic(
            initial_data(k),
        ),
        _ => SafeView::ThreadSafe(initial_data(k)),
    }
}

/// Whether `v` has at least one bucket (always true of the layouts that
/// have no buckets).
pub open spec fn has_buckets(v: SafeView) -> bool {
    v is Sequential ==> v->Sequential_0.len() > 0
}

/// Whether `v` has the layout and the data shape of kind `k`.
pub open spec fn value_fits(k: MetricKind, v: SafeView) -> bool {
    match v {
        SafeView::Sequential(buckets) => {
            &&& k is CountMax
            &&& forall|i: int| 0 <= i < buckets.len() ==> data_fits(k, #[trigger] buckets[i])
        },
        SafeView::Atomic(d) => (k is Counter || k is Duration || k is Count) && data_fits(k, d),
        SafeView::ThreadSafe(d) => !(k is CountMax || k is Counter || k is Duration || k is Count)
            && data_fits(k, d),
    }
}

/// The position after `p` in a round: one more, wrapping to 0 after
/// `usize::MAX`.
pub open spec fn position_after(p: usize) -> usize {
    if p == usize::MAX {
        0
    } else {
        (p + 1) as usize
    }
}

/// The position after `p` in a round: one more, wrapping to 0 after
/// `usize::MAX`.
pub fn next_position(p: usize) -> (r: usize)
    ensures
        r == position_after(p),
{
    p.wrapping_add(1)
}

/// The bucket, of `n`, that position `p` of a round points at.
pub open spec fn bucket_of(p: usize, n: nat) -> int {
    (p as int) % (n as int)
}

impl SafeMetricData {
    /// The calling thread's position in the round of a sequential layout,
    /// which then moves on to `next_position` of it for that thread; 0 for
    /// the other layouts. What a thread's position is depends on the thread
    /// (each thread starts at 0), so nothing more is promised of a
    /// sequential layout's.
    pub fn get_round_robin(&self) -> (r: usize)
        ensures
            !(self@ is Sequential) ==> r == 0,
    {
        match self {
            SafeMetricData::Sequential(_, round_robin) => {
                let cell = thread_position(round_robin);
                let current = position_get(cell);
                position_set(cell, next_position(current));
                current
            },
            SafeMetricData::ThreadSafe(_) | SafeMetricData::Atomic(_) => 0,
        }
    }

    /// The bucket of a sequential layout that round position `position`
    /// points at (`position` modulo the number of buckets), for writing;
    /// only that bucket is written.
    pub fn bucket_at(&mut self, position: usize) -> (r: &mut MetricData)
        requires
            old(self)@ is Sequential,
            old(self)@->Sequential_0.len() > 0,
        ensures
            ({
                let b = old(self)@->Sequential_0;
                let i = bucket_of(position, b.len());
                &&& r@ == b[i]
                &&& final(self)@ == SafeView::Sequential(b.update(i, final(r)@))
            }),
    {
        match self {
            SafeMetricData::Sequential(data, _) => {
                let idx = position % data.len();
                let ghost before = data@;
                let r = &mut data[idx];
                proof {
                    assert(data_views(before)[idx as int] == before[idx as int]@);
                    assert(data_views(before).update(idx as int, final(r)@) =~= data_views(
                        before.update(idx as int, *final(r)),
                    ));
                }
                r
            },
            SafeMetricData::ThreadSafe(_) => unreached(),
            SafeMetricData::Atomic(_) => unreached(),
        }
    }

    /// The bucket of a sequential layout that the calling thread's position
    /// points at, for writing; that position moves on. Which position the
    /// thread is at depends on the thread: the bucket is the one `bucket_at`
    /// picks for it, and only it is written.
    pub fn locked_metric_data(&mut self) -> (r: &mut MetricData)
        requires
            old(self)@ is Sequential,
            old(self)@->Sequential_0.len() > 0,
        ensures
            ({
                let b = old(self)@->Sequential_0;
                exists|p: usize|
                    r@ == #[trigger] b[bucket_of(p, b.len())] && final(self)@ == SafeView::Sequential(
                        b.update(bucket_of(p, b.len()), final(r)@),
                    )
            }),
    {
        let round_robin = self.get_round_robin();
        self.bucket_at(round_robin)
    }

    /// The data of a locked layout, for reading.
    pub fn get_thread_safe_read(&self) -> (r: &MetricData)
        requires
            self@ is ThreadSafe,
        ensures
            SafeView::ThreadSafe(r@) == self@,
    {
        match self {
            SafeMetricData::ThreadSafe(data) => data,
            SafeMetricData::Sequential(_, _) => unreached(),
            SafeMetricData::Atomic(_) => unreached(),
        }
    }

    /// The data of a plain-accumulator layout, for reading.
    pub fn get_metric_data(&self) -> (r: &MetricData)
        requires
            self@ is Atomic,
        ensures
            SafeView::Atomic(r@) == self@,
    {
        match self {
            SafeMetricData::Atomic(data) => data,
            SafeMetricData::ThreadSafe(_) => unreached(),
            SafeMetricData::Sequential(_, _) => unreached(),
        }
    }
}

impl MetricKind {
    /// The laid-out data a new metric of this kind starts with.
    pub fn gen_metric_type(&self, concurrency: usize) -> (r: SafeMetricData)
        ensures
            r@ == initial_value(*self, concurrency as nat),
    {
        match self {
            MetricKind::CountMax(_) => {
                let mut buckets: Vec<MetricData> = Vec::with_capacity(concurrency);
                let mut i: usize = 0;
                while i < concurrency
                    invariant
                        i <= concurrency,
                        buckets@.len() == i,
                        forall|j: int| 0 <= j < i ==> #[trigger] buckets@[j]@ == initial_data(*self),
                    decreases concurrency - i,
                {
                    buckets.push(self.gen_metric_type_internal());
                    i = i + 1;
                }
                assert(data_views(buckets@) =~= Seq::new(
                    concurrency as nat,
                    |i: int| initial_data(*self),
                ));
                SafeMetricData::Sequential(buckets, new_thread_positions())
            },
            MetricKind::Counter | MetricKind::Duration | MetricKind::Count => {
                SafeMetricData::Atomic(self.gen_metric_type_internal())
            },
            _ => SafeMetricData::ThreadSafe(self.gen_metric_type_internal()),
        }
    }

    /// The data a metric of this kind holds before anything is recorded.
    pub fn gen_metric_type_internal(&self) -> (r: MetricData)
        ensures
            r@ == initial_data(*self),
    {
        match self {
            MetricKind::Duration => MetricData::Duration(WelfordState::new()),
            MetricKind::Count => MetricData::Count(WelfordState::new()),
            MetricKind::Counter => MetricData::Counter(0),
            MetricKind::CountMax(_) => MetricData::CountMax(Vec::new()),
            MetricKind::Correlation => MetricData::Correlation(CorrelationTracker::new()),
            MetricKind::CorrelationDurationTracker => MetricData::CorrelationDurationTracker(
                CorrelationTimeTracker::new(),
            ),
            MetricKind::CorrelationAggrDurationTracker => {
                MetricData::CorrelationAggrDurationTracker(CorrelationTimeTracker::new())
            },
            MetricKind::CounterCorrelation => MetricData::CounterCorrelation(
                CorrelationCounterTracker::new(),
            ),
        }
    }

    /// The additional data a new metric of this kind starts with.
    pub fn gen_additional_data(&self) -> (r: AdditionalMetricData)
        ensures
            r == additional_for(*self),
    {
        match self {
            MetricKind::Duration => AdditionalMetricData::Duration(None),
            MetricKind::Counter => AdditionalMetricData::Counter,
            MetricKind::Count => AdditionalMetricData::Count,
            MetricKind::CountMax(_) => AdditionalMetricData::Counter,
            MetricKind::Correlation => AdditionalMetricData::Correlation,
            MetricKind::CorrelationDurationTracker | MetricKind::CorrelationAggrDurationTracker => {
                AdditionalMetricData::Correlation
            },
            MetricKind::CounterCorrelation => AdditionalMetricData::Counter,
        }
    }
}

/// Whether two pieces of data can be merged: both counters, or both lists
/// of counts.
pub open spec fn mergeable(a: DataView, b: DataView) -> bool {
    (a is Counter && b is Counter) || (a is CountMax && b is CountMax)
}

/// The result of merging `b` into `a`: counters add up (wrapping), lists of
/// counts are concatenated.
pub open spec fn merged(a: DataView, b: DataView) -> DataView {
    match (a, b) {
        (DataView::Counter(x), DataView::Counter(y)) => DataView::Counter(
            vstd::wrapping::u64_specs::wrapping_add(x, y),
        ),
        (DataView::CountMax(x), DataView::CountMax(y)) => DataView::CountMax(x + y),
        _ => a,
    }
}

impl MetricData {
    /// Merges `other` into this data.
    pub fn merge(&mut self, other: Self)
        requires
            mergeable(old(self)@, other@),
        ensures
            final(self)@ == merged(old(self)@, other@),
    {
        match self {
            MetricData::Counter(c) => {
                match other {
                    MetricData::Counter(c2) => {
                        *c = c.wrapping_add(c2);
                    },
                    _ => {},
                }
            },
            MetricData::CountMax(count) => {
                match other {
                    MetricData::CountMax(count2) => {
                        let mut count2 = count2;
                        count.append(&mut count2);
                    },
                    _ => {},
                }
            },
            _ => {},
        }
    }
}

} // verus!
