//! The set of registered metrics, addressed by index, and the collection
//! of everything they accumulated.
use vstd::prelude::*;
use crate::data::{
    additional_for, data_views, has_buckets, initial_value, merged, level_rank, DataView, MetricData,
    MetricKind, MetricLevel,
};
use crate::metric::{
    after_collection, collected, pending_starts, view_fits, Metric, MetricView,
};

verus! {

/// The registration of one metric: where it is addressed, its name, kind
/// and level, and, for count-max metrics, a number of buckets of its own.
pub struct MetricRegistry {
    pub index: usize,
    pub name: String,
    pub kind: MetricKind,
    pub level: MetricLevel,
    pub concurrency_override: Option<usize>,
}

/// Metrics for the general library.
pub struct Metrics {
    pub live_indexes: Vec<usize>,
    pub metrics: Vec<Option<Metric>>,
    pub current_level: MetricLevel,
}

/// What a set of metrics holds: a slot per index, the registered indexes in
/// registration order, and the level below which recording is skipped.
pub struct MetricsView {
    pub slots: Seq<Option<MetricView>>,
    pub live: Seq<usize>,
    pub current_level: MetricLevel,
}

/// The view of a slot.
pub open spec fn slot_view(o: Option<Metric>) -> Option<MetricView> {
    match o {
        Some(m) => Some(m@),
        None => None,
    }
}

impl View for Metrics {
    type V = MetricsView;

    open spec fn view(&self) -> MetricsView {
        MetricsView {
            slots: self.metrics@.map_values(|o: Option<Metric>| slot_view(o)),
            live: self.live_indexes@,
            current_level: self.current_level,
        }
    }
}

/// Whether a view of a set of metrics is consistent: every registered
/// index addresses a metric, and every metric is consistent.
pub open spec fn metrics_view_wf(v: MetricsView) -> bool {
    &&& forall|p: int| 0 <= p < v.live.len() ==> {
        &&& #[trigger] v.live[p] < v.slots.len()
        &&& v.slots[v.live[p] as int] is Some
    }
    &&& forall|j: int| 0 <= j < v.slots.len() && (#[trigger] v.slots[j]) is Some ==> view_fits(
        v.slots[j].unwrap(),
    )
}

/// The number of buckets a registered count-max metric gets.
pub open spec fn effective_concurrency(r: MetricRegistry, concurrency: usize) -> usize {
    match r.concurrency_override {
        Some(c) => c,
        None => concurrency,
    }
}

/// The metric a registration creates.
pub open spec fn metric_from(r: MetricRegistry, concurrency: usize) -> MetricView {
    MetricView {
        name: r.name@,
        kind: r.kind,
        level: r.level,
        value: initial_value(r.kind, effective_concurrency(r, concurrency) as nat),
        additional: additional_for(r.kind),
    }
}

/// Whether the registrations can all be honoured: every index leaves room
/// for one more slot.
pub open spec fn registrations_valid(regs: Seq<MetricRegistry>) -> bool {
    forall|p: int| 0 <= p < regs.len() ==> (#[trigger] regs[p]).index < usize::MAX
}

/// Whether every metric collected at `level` has something to join: a
/// count-max metric needs at least one bucket.
pub open spec fn collectable(slots: Seq<Option<MetricView>>, level: MetricLevel) -> bool {
    forall|j: int|
        0 <= j < slots.len() && (#[trigger] slots[j]) is Some && level_rank(slots[j].unwrap().level)
            >= level_rank(level) ==> has_buckets(slots[j].unwrap().value)
}

/// The largest registered index (0 when nothing is registered).
pub open spec fn largest_index(regs: Seq<MetricRegistry>) -> nat
    decreases regs.len(),
{
    if regs.len() == 0 {
        0
    } else {
        let rest = largest_index(regs.drop_last());
        if regs.last().index > rest {
            regs.last().index as nat
        } else {
            rest
        }
    }
}

/// The position of the last registration of index `j`, or -1 if there is
/// none.
pub open spec fn last_registered(regs: Seq<MetricRegistry>, j: int) -> int
    decreases regs.len(),
{
    if regs.len() == 0 {
        -1
    } else if regs.last().index == j {
        regs.len() - 1
    } else {
        last_registered(regs.drop_last(), j)
    }
}

/// The slots a list of registrations yields: each index addresses the
/// metric of its last registration.
pub open spec fn registered_slots(regs: Seq<MetricRegistry>, concurrency: usize) -> Seq<
    Option<MetricView>,
> {
    Seq::new(
        largest_index(regs) + 1,
        |j: int|
            if last_registered(regs, j) >= 0 {
                Some(metric_from(regs[last_registered(regs, j)], concurrency))
            } else {
                None
            },
    )
}

proof fn lemma_last_registered(regs: Seq<MetricRegistry>, j: int)
    ensures
        -1 <= last_registered(regs, j) < regs.len(),
        last_registered(regs, j) >= 0 ==> regs[last_registered(regs, j)].index == j,
        forall|p: int| last_registered(regs, j) < p < regs.len() ==> #[trigger] regs[p].index != j,
    decreases regs.len(),
{
    if regs.len() > 0 {
        lemma_last_registered(regs.drop_last(), j);
        assert(forall|p: int| 0 <= p < regs.len() - 1 ==> regs.drop_last()[p] == regs[p]);
    }
}

proof fn lemma_largest_index(regs: Seq<MetricRegistry>)
    ensures
        forall|p: int| 0 <= p < regs.len() ==> (#[trigger] regs[p]).index <= largest_index(regs),
    decreases regs.len(),
{
    if regs.len() > 0 {
        lemma_largest_index(regs.drop_last());
        assert(forall|p: int| 0 <= p < regs.len() - 1 ==> regs.drop_last()[p] == regs[p]);
    }
}

impl Metrics {
    /// The set of metrics is consistent.
    pub open spec fn wf(&self) -> bool {
        &&& metrics_view_wf(self@)
        &&& forall|j: int| 0 <= j < self.metrics@.len() && (#[trigger] self.metrics@[j]) is Some
            ==> self.metrics@[j].unwrap().wf()
    }

    /// Builds the set of metrics from their registrations: each registered
    /// index addresses a new metric (the last registration of an index
    /// wins), and the registered indexes are kept in registration order.
    pub fn new(registered_metrics: Vec<MetricRegistry>, metric_level: MetricLevel, concurrency: usize) -> (r:
        Self)
        requires
            registrations_valid(registered_metrics@),
        ensures
            r.wf(),
            r@.current_level == metric_level,
            r@.live == registered_metrics@.map_values(|x: MetricRegistry| x.index),
            r@.slots == registered_slots(registered_metrics@, concurrency),
    {
        let ghost regs = registered_metrics@;
        let n = registered_metrics.len();
        let mut largest_ind: usize = 0;
        let mut live_indexes: Vec<usize> = Vec::with_capacity(n);
        let mut i: usize = 0;
        while i < n
            invariant
                n == regs.len(),
                regs == registered_metrics@,
                registrations_valid(regs),
                i <= n,
                largest_ind == largest_index(regs.subrange(0, i as int)),
                live_indexes@ == regs.subrange(0, i as int).map_values(|x: MetricRegistry| x.index),
            decreases n - i,
        {
            let index = registered_metrics[i].index;
            assert(regs.subrange(0, i + 1).drop_last() == regs.subrange(0, i as int));
            if index > largest_ind {
                largest_ind = index;
            }
            live_indexes.push(index);
            assert(live_indexes@ =~= regs.subrange(0, i + 1).map_values(|x: MetricRegistry| x.index));
            i = i + 1;
        }
        assert(regs.subrange(0, n as int) == regs);
        proof {
            lemma_largest_index(regs);
        }
        let slots_len: usize = if n == 0 {
            1
        } else {
            assert(largest_ind < usize::MAX) by {
                if largest_ind != 0 {
                    lemma_largest_index_bounded(regs);
                }
            }
            largest_ind + 1
        };
        let mut metrics: Vec<Option<Metric>> = Vec::with_capacity(slots_len);
        let mut j: usize = 0;
        while j < slots_len
            invariant
                j <= slots_len,
                metrics@.len() == j,
                forall|q: int| 0 <= q < j ==> (#[trigger] metrics@[q]) is None,
            decreases slots_len - j,
        {
            metrics.push(None);
            j = j + 1;
        }
        let mut pending = registered_metrics;
        proof {
            assert forall|q: int| 0 <= q < slots_len implies last_registered(regs, q) < pending@.len() by {
                lemma_last_registered(regs, q);
            }
        }
        while pending.len() > 0
            invariant
                pending@ == regs.subrange(0, pending@.len() as int),
                pending@.len() <= regs.len(),
                registrations_valid(regs),
                metrics@.len() == slots_len,
                slots_len == largest_index(regs) + 1,
                forall|p: int| 0 <= p < regs.len() ==> (#[trigger] regs[p]).index <= largest_index(regs),
                forall|q: int|
                    0 <= q < slots_len ==> {
                        if last_registered(regs, q) >= pending@.len() {
                            &&& (#[trigger] metrics@[q]) is Some
                            &&& metrics@[q].unwrap()@ == metric_from(
                                regs[last_registered(regs, q)],
                                concurrency,
                            )
                            &&& metrics@[q].unwrap().wf()
                        } else {
                            metrics@[q] is None
                        }
                    },
            decreases pending@.len(),
        {
            let ghost k = pending@.len() - 1;
            let reg = pending.pop().unwrap();
            assert(reg == regs[k]);
            let MetricRegistry { index, name, kind, level, concurrency_override } = reg;
            proof {
                lemma_last_registered(regs, index as int);
            }
            if metrics[index].is_none() {
                let c = match concurrency_override {
                    Some(c) => c,
                    None => concurrency,
                };
                let metric = Metric::new(name, kind, level, c);
                metrics.set(index, Some(metric));
            }
            proof {
                assert forall|q: int| 0 <= q < slots_len implies {
                    if last_registered(regs, q) >= k {
                        &&& (#[trigger] metrics@[q]) is Some
                        &&& metrics@[q].unwrap()@ == metric_from(regs[last_registered(regs, q)], concurrency)
                        &&& metrics@[q].unwrap().wf()
                    } else {
                        metrics@[q] is None
                    }
                } by {
                    lemma_last_registered(regs, q);
                }
            }
        }
        let r = Metrics { live_indexes, metrics, current_level: metric_level };
        proof {
            assert(r@.slots =~= registered_slots(regs, concurrency)) by {
                assert forall|q: int| 0 <= q < slots_len implies #[trigger] r@.slots[q]
                    == registered_slots(regs, concurrency)[q] by {
                    lemma_last_registered(regs, q);
                }
            }
            assert forall|p: int| 0 <= p < r@.live.len() implies {
                &&& #[trigger] r@.live[p] < r@.slots.len()
                &&& r@.slots[r@.live[p] as int] is Some
            } by {
                lemma_last_registered(regs, regs[p].index as int);
            }
        }
        r
    }
}

/// Initialize the metrics module: builds the set of metrics from their
/// registrations.
pub fn init(registered_metrics: Vec<MetricRegistry>, concurrency: usize, level: MetricLevel) -> (r:
    Metrics)
    requires
        registrations_valid(registered_metrics@),
    ensures
        r.wf(),
        r@.current_level == level,
        r@.live == registered_metrics@.map_values(|x: MetricRegistry| x.index),
        r@.slots == registered_slots(registered_metrics@, concurrency),
{
    Metrics::new(registered_metrics, level, concurrency)
}

/// Collect all measurements from a given metric.
pub fn collect_measurements(metric: &mut Metric) -> (r: Vec<MetricData>)
    requires
        old(metric).wf(),
    ensures
        final(metric).wf(),
        old(metric).same_identity(&*final(metric)),
        final(metric).additional_data == old(metric).additional_data,
        data_views(r@) == collected(old(metric).metric_type, old(metric).value@),
        final(metric).value@ == after_collection(old(metric).metric_type, old(metric).value@),
        pending_starts(final(metric).value) == pending_starts(old(metric).value),
{
    metric.take_values()
}

impl Metrics {
    /// Whether every metric collected at `level` has something to join.
    pub fn is_collectable(&self, level: &MetricLevel) -> (r: bool)
        requires
            self.wf(),
        ensures
            r == collectable(self@.slots, *level),
    {
        let n = self.metrics.len();
        let mut j: usize = 0;
        while j < n
            invariant
                n == self@.slots.len(),
                j <= n,
                forall|q: int|
                    0 <= q < j && (#[trigger] self@.slots[q]) is Some && level_rank(self@.slots[q].unwrap().level)
                        >= level_rank(*level) ==> has_buckets(self@.slots[q].unwrap().value),
            decreases n - j,
        {
            match &self.metrics[j] {
                Some(metric) => {
                    if !metric.metric_level.is_below(level) {
                        match &metric.value {
                            crate::data::SafeMetricData::Sequential(buckets, _) => {
                                if buckets.len() == 0 {
                                    assert(self@.slots[j as int] == slot_view(self.metrics@[j as int]));
                                    return false;
                                }
                            },
                            _ => {},
                        }
                    }
                },
                None => {},
            }
            assert(self@.slots[j as int] == slot_view(self.metrics@[j as int]));
            j = j + 1;
        }
        true
    }

    /// The metric registered at `index`, if any.
    pub fn metric_at_index(&self, index: usize) -> (r: Option<&Metric>)
        requires
            index < self.metrics@.len(),
        ensures
            r is Some <==> self.metrics@[index as int] is Some,
            r matches Some(m) ==> self.metrics@[index as int] == Some(*m),
    {
        self.metrics[index].as_ref()
    }
}

/// Whether a list of data can be joined into one: it is not empty, and
/// when it holds more than one piece, they are all counters or all lists of
/// counts.
pub open spec fn joinable(s: Seq<DataView>) -> bool {
    &&& s.len() > 0
    &&& s.len() > 1 ==> {
        ||| forall|i: int| 0 <= i < s.len() ==> (#[trigger] s[i]) is Counter
        ||| forall|i: int| 0 <= i < s.len() ==> (#[trigger] s[i]) is CountMax
    }
}

/// Merges the pieces of `rest` into `acc`, taking them from the back.
pub open spec fn join_pops(acc: DataView, rest: Seq<DataView>) -> DataView
    decreases rest.len(),
{
    if rest.len() == 0 {
        acc
    } else {
        join_pops(merged(acc, rest.last()), rest.drop_last())
    }
}

/// The one piece of data a list is joined into: the first piece, into
/// which the others are merged, the last one moved to the front and the
/// rest then taken from the back.
pub open spec fn joined(s: Seq<DataView>) -> DataView {
    join_pops(s[0], s.update(0, s.last()).drop_last())
}

/// Join all metrics into a single metric so they can be reported as one.
pub fn join_metrics(metrics: Vec<MetricData>) -> (r: MetricData)
    requires
        joinable(data_views(metrics@)),
    ensures
        r@ == joined(data_views(metrics@)),
{
    let ghost s = data_views(metrics@);
    let mut metrics = metrics;
    let mut first = metrics.swap_remove(0);
    assert(data_views(metrics@) =~= s.update(0, s.last()).drop_last());
    proof {
        if s.len() > 1 {
            assert(s[0] == first@);
            assert forall|i: int| 0 <= i < metrics@.len() implies (#[trigger] metrics@[i])@ == s[if i
                == 0 { s.len() - 1 } else { i }] by {
                assert(data_views(metrics@)[i] == metrics@[i]@);
            }
        }
    }
    while metrics.len() > 0
        invariant
            join_pops(first@, data_views(metrics@)) == joined(s),
            s.len() > 1 ==> {
                ||| (first@ is Counter && forall|i: int|
                    0 <= i < metrics@.len() ==> (#[trigger] metrics@[i])@ is Counter)
                ||| (first@ is CountMax && forall|i: int|
                    0 <= i < metrics@.len() ==> (#[trigger] metrics@[i])@ is CountMax)
            },
            s.len() <= 1 ==> metrics@.len() == 0,
        decreases metrics@.len(),
    {
        let ghost before = data_views(metrics@);
        let ghost mv = metrics@;
        let metric = metrics.pop().unwrap();
        assert(data_views(metrics@) =~= before.drop_last());
        assert(metric@ == mv[mv.len() - 1]@);
        assert(forall|i: int| 0 <= i < metrics@.len() ==> metrics@[i] == mv[i]);
        first.merge(metric);
    }
    first
}

/// Collects, in registration order, the metrics registered at indexes
/// `live` whose level is not below `level`: each yields its index and its
/// data joined into one, and starts over. Returns the slots afterwards and
/// what was collected.
pub open spec fn collect_from(slots: Seq<Option<MetricView>>, live: Seq<usize>, level: MetricLevel) -> (
    Seq<Option<MetricView>>,
    Seq<(usize, DataView)>,
)
    decreases live.len(),
{
    if live.len() == 0 {
        (slots, Seq::empty())
    } else {
        let i = live[0];
        let m = slots[i as int].unwrap();
        if level_rank(m.level) < level_rank(level) {
            collect_from(slots, live.drop_first(), level)
        } else {
            let out = (i, joined(collected(m.kind, m.value)));
            let next = slots.update(
                i as int,
                Some(MetricView { value: after_collection(m.kind, m.value), ..m }),
            );
            let rest = collect_from(next, live.drop_first(), level);
            (rest.0, seq![out] + rest.1)
        }
    }
}

/// Whether every metric of `after` keeps the pending start instants of
/// the metric of `before` at the same index.
pub open spec fn keeps_pending_starts(before: Seq<Option<Metric>>, after: Seq<Option<Metric>>) -> bool {
    &&& after.len() == before.len()
    &&& forall|j: int|
        0 <= j < before.len() && (#[trigger] before[j]) is Some ==> after[j] is Some && pending_starts(
            after[j].unwrap().value,
        ) == pending_starts(before[j].unwrap().value)
}

/// Whether metric `m` is collected at `level`: its level is not below it.
pub open spec fn collected_at(m: MetricView, level: MetricLevel) -> bool {
    level_rank(m.level) >= level_rank(level)
}

/// Metric `m` once collected: its data starts over, the rest is kept.
pub open spec fn started_over(m: MetricView) -> MetricView {
    MetricView { value: after_collection(m.kind, m.value), ..m }
}

/// Every registered metric whose level is not below `level` is reported
/// under its index.
#[verifier::opaque]
pub open spec fn reports_every(
    s0: Seq<Option<MetricView>>,
    live: Seq<usize>,
    level: MetricLevel,
    out: Seq<(usize, DataView)>,
) -> bool {
    forall|p: int|
        0 <= p < live.len() && collected_at(s0[#[trigger] live[p] as int].unwrap(), level) ==> exists|q: int|
            0 <= q < out.len() && (#[trigger] out[q]).0 == live[p]
}

/// Only registered metrics whose level is not below `level` are reported.
#[verifier::opaque]
pub open spec fn reports_only(
    s0: Seq<Option<MetricView>>,
    live: Seq<usize>,
    level: MetricLevel,
    out: Seq<(usize, DataView)>,
) -> bool {
    forall|q: int|
        0 <= q < out.len() ==> live.contains((#[trigger] out[q]).0) && collected_at(s0[out[q].0 as int].unwrap(), level)
}

/// The first report of an index holds the data its metric held, joined
/// into one piece.
#[verifier::opaque]
pub open spec fn first_reports_hold_data(s0: Seq<Option<MetricView>>, out: Seq<(usize, DataView)>) -> bool {
    forall|q: int|
        0 <= q < out.len() && (forall|q2: int| 0 <= q2 < q ==> (#[trigger] out[q2]).0 != out[q].0) ==> ({
            let m = s0[(#[trigger] out[q]).0 as int].unwrap();
            out[q].1 == joined(collected(m.kind, m.value))
        })
}

/// Every registered metric whose level is not below `level` starts over.
#[verifier::opaque]
pub open spec fn collected_start_over(
    s0: Seq<Option<MetricView>>,
    live: Seq<usize>,
    level: MetricLevel,
    s1: Seq<Option<MetricView>>,
) -> bool {
    forall|p: int|
        0 <= p < live.len() && collected_at(s0[#[trigger] live[p] as int].unwrap(), level) ==> s1[live[p] as int]
            == Some(started_over(s0[live[p] as int].unwrap()))
}

/// Every other slot is left as it was.
#[verifier::opaque]
pub open spec fn others_kept(
    s0: Seq<Option<MetricView>>,
    live: Seq<usize>,
    level: MetricLevel,
    s1: Seq<Option<MetricView>>,
) -> bool {
    &&& s1.len() == s0.len()
    &&& forall|j: int|
        0 <= j < s0.len() && (s0[j] is None || !collected_at(s0[j].unwrap(), level) || !live.contains(j as usize))
            ==> #[trigger] s1[j] == s0[j]
}

/// Every report is under an index of a slot.
#[verifier::opaque]
pub open spec fn reports_in_range(s0: Seq<Option<MetricView>>, out: Seq<(usize, DataView)>) -> bool {
    forall|q: int| 0 <= q < out.len() ==> (#[trigger] out[q]).0 < s0.len()
}

/// Whether collecting at `level` the metrics registered at `live`, from
/// slots `s0`, may leave slots `s1` and report `out`: every registered
/// metric whose level is not below `level` is reported under its index,
/// and only such metrics are; the first report of an index holds that
/// metric's data as it was, joined into one piece; every such metric
/// starts over; every other slot is left as it was.
pub open spec fn collection_at_level(
    s0: Seq<Option<MetricView>>,
    live: Seq<usize>,
    level: MetricLevel,
    s1: Seq<Option<MetricView>>,
    out: Seq<(usize, DataView)>,
) -> bool {
    &&& reports_every(s0, live, level, out)
    &&& reports_only(s0, live, level, out)
    &&& reports_in_range(s0, out)
    &&& first_reports_hold_data(s0, out)
    &&& collected_start_over(s0, live, level, s1)
    &&& others_kept(s0, live, level, s1)
}

proof fn lemma_started_over_fits(m: MetricView)
    requires
        view_fits(m),
    ensures
        view_fits(started_over(m)),
        started_over(started_over(m)) == started_over(m),
{
    crate::laws::lemma_collect_twice(m);
    match m.value {
        crate::data::SafeView::Sequential(b) => {
            let fresh = Seq::new(b.len(), |i: int| crate::data::initial_data(m.kind));
            assert(forall|i: int| 0 <= i < fresh.len() ==> #[trigger] fresh[i] == crate::data::initial_data(m.kind));
        },
        _ => {},
    }
}

/// Every registered index addresses a metric.
spec fn live_in_slots(s0: Seq<Option<MetricView>>, live: Seq<usize>) -> bool {
    forall|p: int| 0 <= p < live.len() ==> #[trigger] live[p] < s0.len() && s0[live[p] as int] is Some
}

/// The slots once the first registered index is collected.
spec fn after_first(s0: Seq<Option<MetricView>>, live: Seq<usize>) -> Seq<Option<MetricView>> {
    s0.update(live[0] as int, Some(started_over(s0[live[0] as int].unwrap())))
}

/// The reports once the first registered index is collected.
spec fn with_first(s0: Seq<Option<MetricView>>, live: Seq<usize>, rest_out: Seq<(usize, DataView)>) -> Seq<
    (usize, DataView),
> {
    let m = s0[live[0] as int].unwrap();
    seq![(live[0], joined(collected(m.kind, m.value)))] + rest_out
}

proof fn lemma_skip_every(s0: Seq<Option<MetricView>>, live: Seq<usize>, level: MetricLevel, out: Seq<(usize, DataView)>)
    requires
        live.len() > 0,
        !collected_at(s0[live[0] as int].unwrap(), level),
        reports_every(s0, live.drop_first(), level, out),
    ensures
        reports_every(s0, live, level, out),
{
    let rest = live.drop_first();
    reveal(reports_every);
    assert forall|p: int|
        0 <= p < live.len() && collected_at(s0[#[trigger] live[p] as int].unwrap(), level) implies exists|q: int|
            0 <= q < out.len() && (#[trigger] out[q]).0 == live[p] by {
        assert(live[p] == rest[p - 1]);
    }
}

proof fn lemma_skip_only(s0: Seq<Option<MetricView>>, live: Seq<usize>, level: MetricLevel, out: Seq<(usize, DataView)>)
    requires
        live.len() > 0,
        reports_only(s0, live.drop_first(), level, out),
    ensures
        reports_only(s0, live, level, out),
{
    let rest = live.drop_first();
    reveal(reports_only);
    assert forall|q: int| 0 <= q < out.len() implies live.contains((#[trigger] out[q]).0) && collected_at(
        s0[out[q].0 as int].unwrap(),
        level,
    ) by {
        assert(rest.contains(out[q].0));
        let p = choose|p: int| 0 <= p < rest.len() && rest[p] == out[q].0;
        assert(live[p + 1] == rest[p]);
    }
}

proof fn lemma_collect_only(
    s0: Seq<Option<MetricView>>,
    live: Seq<usize>,
    level: MetricLevel,
    rest_out: Seq<(usize, DataView)>,
)
    requires
        live.len() > 0,
        live_in_slots(s0, live),
        collected_at(s0[live[0] as int].unwrap(), level),
        reports_only(after_first(s0, live), live.drop_first(), level, rest_out),
        reports_in_range(after_first(s0, live), rest_out),
    ensures
        reports_only(s0, live, level, with_first(s0, live, rest_out)),
{
    let i = live[0];
    let next = after_first(s0, live);
    let rest = live.drop_first();
    let out = with_first(s0, live, rest_out);
    reveal(reports_only);
    reveal(reports_in_range);
    assert(out[0].0 == i);
    assert(forall|q: int| 0 <= q < rest_out.len() ==> out[q + 1] == rest_out[q]);
    assert forall|q: int| 0 <= q < out.len() implies live.contains((#[trigger] out[q]).0) && collected_at(
        s0[out[q].0 as int].unwrap(),
        level,
    ) by {
        if q == 0 {
            assert(live[0] == out[0].0);
        } else {
            let x = rest_out[q - 1].0;
            assert(out[q].0 == x);
            assert(rest.contains(x));
            let p = choose|p: int| 0 <= p < rest.len() && rest[p] == x;
            assert(live[p + 1] == rest[p]);
            assert(x < next.len());
            assert(next[x as int].unwrap().level == s0[x as int].unwrap().level);
        }
    }
}

proof fn lemma_skip_slots(s0: Seq<Option<MetricView>>, live: Seq<usize>, level: MetricLevel, s1: Seq<Option<MetricView>>)
    requires
        live.len() > 0,
        !collected_at(s0[live[0] as int].unwrap(), level),
        collected_start_over(s0, live.drop_first(), level, s1),
        others_kept(s0, live.drop_first(), level, s1),
    ensures
        collected_start_over(s0, live, level, s1),
        others_kept(s0, live, level, s1),
{
    let rest = live.drop_first();
    reveal(collected_start_over);
    reveal(others_kept);
    assert forall|p: int|
        0 <= p < live.len() && collected_at(s0[#[trigger] live[p] as int].unwrap(), level) implies s1[live[p] as int]
            == Some(started_over(s0[live[p] as int].unwrap())) by {
        assert(live[p] == rest[p - 1]);
    }
    assert forall|j: int|
        0 <= j < s0.len() && (s0[j] is None || !collected_at(s0[j].unwrap(), level) || !live.contains(j as usize))
            implies #[trigger] s1[j] == s0[j] by {
        if !live.contains(j as usize) && rest.contains(j as usize) {
            let p = choose|p: int| 0 <= p < rest.len() && rest[p] == j as usize;
            assert(live[p + 1] == j as usize);
        }
    }
}

proof fn lemma_collect_every(
    s0: Seq<Option<MetricView>>,
    live: Seq<usize>,
    level: MetricLevel,
    rest_out: Seq<(usize, DataView)>,
)
    requires
        live.len() > 0,
        live_in_slots(s0, live),
        reports_every(after_first(s0, live), live.drop_first(), level, rest_out),
    ensures
        reports_every(s0, live, level, with_first(s0, live, rest_out)),
{
    let i = live[0];
    let next = after_first(s0, live);
    let rest = live.drop_first();
    let out = with_first(s0, live, rest_out);
    reveal(reports_every);
    assert forall|p: int|
        0 <= p < live.len() && collected_at(s0[#[trigger] live[p] as int].unwrap(), level) implies exists|q: int|
            0 <= q < out.len() && (#[trigger] out[q]).0 == live[p] by {
        if p == 0 {
            assert(out[0].0 == live[0]);
        } else {
            assert(live[p] == rest[p - 1]);
            assert(next[rest[p - 1] as int].unwrap().level == s0[rest[p - 1] as int].unwrap().level);
            let q2 = choose|q2: int| 0 <= q2 < rest_out.len() && (#[trigger] rest_out[q2]).0 == rest[p - 1];
            assert(out[q2 + 1] == rest_out[q2]);
        }
    }
}

proof fn lemma_collect_range_data(s0: Seq<Option<MetricView>>, live: Seq<usize>, rest_out: Seq<(usize, DataView)>)
    requires
        live.len() > 0,
        live_in_slots(s0, live),
        reports_in_range(after_first(s0, live), rest_out),
        first_reports_hold_data(after_first(s0, live), rest_out),
    ensures
        reports_in_range(s0, with_first(s0, live, rest_out)),
        first_reports_hold_data(s0, with_first(s0, live, rest_out)),
{
    let i = live[0];
    let next = after_first(s0, live);
    let out = with_first(s0, live, rest_out);
    reveal(reports_in_range);
    reveal(first_reports_hold_data);
    assert(out[0].0 == i);
    assert(forall|q: int| 0 <= q < rest_out.len() ==> out[q + 1] == rest_out[q]);
    assert forall|q: int|
        0 <= q < out.len() && (forall|q2: int| 0 <= q2 < q ==> (#[trigger] out[q2]).0 != out[q].0) implies ({
            let mq = s0[(#[trigger] out[q]).0 as int].unwrap();
            out[q].1 == joined(collected(mq.kind, mq.value))
        }) by {
        if q > 0 {
            assert(out[0].0 != out[q].0);
            assert(out[q] == rest_out[q - 1]);
            assert forall|q2: int| 0 <= q2 < q - 1 implies (#[trigger] rest_out[q2]).0 != rest_out[q - 1].0 by {
                assert(out[q2 + 1] == rest_out[q2]);
            }
            assert(rest_out[q - 1].0 < next.len());
            assert(next[out[q].0 as int] == s0[out[q].0 as int]);
        }
    }
}

proof fn lemma_collect_slots(s0: Seq<Option<MetricView>>, live: Seq<usize>, level: MetricLevel, s1: Seq<Option<MetricView>>)
    requires
        live.len() > 0,
        live_in_slots(s0, live),
        view_fits(s0[live[0] as int].unwrap()),
        collected_at(s0[live[0] as int].unwrap(), level),
        collected_start_over(after_first(s0, live), live.drop_first(), level, s1),
        others_kept(after_first(s0, live), live.drop_first(), level, s1),
    ensures
        collected_start_over(s0, live, level, s1),
        others_kept(s0, live, level, s1),
{
    let i = live[0];
    let m = s0[i as int].unwrap();
    let next = after_first(s0, live);
    let rest = live.drop_first();
    lemma_started_over_fits(m);
    reveal(collected_start_over);
    reveal(others_kept);
    assert forall|p: int|
        0 <= p < live.len() && collected_at(s0[#[trigger] live[p] as int].unwrap(), level) implies s1[live[p] as int]
            == Some(started_over(s0[live[p] as int].unwrap())) by {
        let j = live[p];
        if j == i {
            if rest.contains(i) {
                let p2 = choose|p2: int| 0 <= p2 < rest.len() && rest[p2] == i;
                assert(next[i as int] == Some(started_over(m)));
                assert(collected_at(next[rest[p2] as int].unwrap(), level));
                assert(s1[rest[p2] as int] == Some(started_over(next[rest[p2] as int].unwrap())));
            } else {
                assert(s1[i as int] == next[i as int]);
            }
        } else {
            assert(live[p] == rest[p - 1]);
            assert(next[j as int] == s0[j as int]);
            assert(collected_at(next[rest[p - 1] as int].unwrap(), level));
        }
    }
    assert forall|j: int|
        0 <= j < s0.len() && (s0[j] is None || !collected_at(s0[j].unwrap(), level) || !live.contains(j as usize))
            implies #[trigger] s1[j] == s0[j] by {
        if j == i {
            assert(live[0] == i);
            assert(live.contains(i));
        } else {
            if !live.contains(j as usize) && rest.contains(j as usize) {
                let p = choose|p: int| 0 <= p < rest.len() && rest[p] == j as usize;
                assert(live[p + 1] == j as usize);
            }
            assert(next[j] == s0[j]);
        }
    }
}

/// Collecting the registered metrics, as `collect_from` does it, is a
/// collection at the given level.
proof fn lemma_collect_from_at_level(s0: Seq<Option<MetricView>>, live: Seq<usize>, level: MetricLevel)
    requires
        live_in_slots(s0, live),
        forall|j: int| 0 <= j < s0.len() && (#[trigger] s0[j]) is Some ==> view_fits(s0[j].unwrap()),
    ensures
        collection_at_level(s0, live, level, collect_from(s0, live, level).0, collect_from(s0, live, level).1),
    decreases live.len(),
{
    if live.len() == 0 {
        reveal(reports_every);
        reveal(reports_only);
        reveal(reports_in_range);
        reveal(first_reports_hold_data);
        reveal(collected_start_over);
        reveal(others_kept);
    } else {
        let i = live[0];
        let m = s0[i as int].unwrap();
        let rest = live.drop_first();
        assert(live[0] < s0.len());
        if !collected_at(m, level) {
            assert(live_in_slots(s0, rest)) by {
                assert forall|p: int| 0 <= p < rest.len() implies #[trigger] rest[p] < s0.len()
                    && s0[rest[p] as int] is Some by {
                    assert(rest[p] == live[p + 1]);
                }
            }
            lemma_collect_from_at_level(s0, rest, level);
            let (s1, out) = collect_from(s0, rest, level);
            lemma_skip_every(s0, live, level, out);
            lemma_skip_only(s0, live, level, out);
            lemma_skip_slots(s0, live, level, s1);
        } else {
            let next = after_first(s0, live);
            lemma_started_over_fits(m);
            assert(live_in_slots(next, rest)) by {
                assert forall|p: int| 0 <= p < rest.len() implies #[trigger] rest[p] < next.len()
                    && next[rest[p] as int] is Some by {
                    assert(rest[p] == live[p + 1]);
                }
            }
            assert forall|j: int| 0 <= j < next.len() && (#[trigger] next[j]) is Some implies view_fits(
                next[j].unwrap(),
            ) by {
                if j != i {
                    assert(next[j] == s0[j]);
                }
            }
            lemma_collect_from_at_level(next, rest, level);
            let (s1, rest_out) = collect_from(next, rest, level);
            assert(collect_from(s0, live, level) == (s1, with_first(s0, live, rest_out)));
            lemma_collect_every(s0, live, level, rest_out);
            lemma_collect_only(s0, live, level, rest_out);
            lemma_collect_range_data(s0, live, rest_out);
            lemma_collect_slots(s0, live, level, s1);
        }
    }
}

/// The views of collected measurements.
pub open spec fn measurement_views(v: Seq<(usize, MetricData)>) -> Seq<(usize, DataView)> {
    v.map_values(|x: (usize, MetricData)| (x.0, x.1@))
}

/// The data collected from a consistent metric can be joined.
proof fn lemma_collected_joinable(m: MetricView)
    requires
        view_fits(m),
        has_buckets(m.value),
    ensures
        joinable(collected(m.kind, m.value)),
{
    let c = collected(m.kind, m.value);
    if c.len() > 1 {
        assert(forall|i: int| 0 <= i < c.len() ==> crate::data::data_fits(m.kind, #[trigger] c[i]));
        assert(forall|i: int| 0 <= i < c.len() ==> (#[trigger] c[i]) is CountMax);
    }
}

impl Metrics {
    /// Collects all measurements of the metrics whose level is not below
    /// `level`, in registration order, each joined into one piece of data;
    /// those metrics start over.
    pub fn collect_all_measurements(&mut self, level: &MetricLevel) -> (r: Vec<(usize, MetricData)>)
        requires
            old(self).wf(),
            collectable(old(self)@.slots, *level),
        ensures
            final(self).wf(),
            final(self)@.live == old(self)@.live,
            final(self)@.current_level == old(self)@.current_level,
            (final(self)@.slots, measurement_views(r@)) == collect_from(
                old(self)@.slots,
                old(self)@.live,
                *level,
            ),
            keeps_pending_starts(old(self).metrics@, final(self).metrics@),
            collection_at_level(
                old(self)@.slots,
                old(self)@.live,
                *level,
                final(self)@.slots,
                measurement_views(r@),
            ),
    {
        let ghost slots0 = self@.slots;
        let ghost live = self@.live;
        let n = self.live_indexes.len();
        let mut collected_metrics: Vec<(usize, MetricData)> = Vec::with_capacity(n);
        let mut p: usize = 0;
        assert(live.skip(0) == live);
        while p < n
            invariant
                n == live.len(),
                p <= n,
                self.wf(),
                self@.live == live,
                self@.current_level == old(self)@.current_level,
                self@.slots.len() == slots0.len(),
                collectable(self@.slots, *level),
                keeps_pending_starts(old(self).metrics@, self.metrics@),
                collect_from(slots0, live, *level) == ({
                    let rest = collect_from(self@.slots, live.skip(p as int), *level);
                    (rest.0, measurement_views(collected_metrics@) + rest.1)
                }),
            decreases n - p,
        {
            let index = self.live_indexes[p];
            let ghost slots_now = self@.slots;
            assert(live.skip(p as int)[0] == index);
            assert(live.skip(p as int).drop_first() == live.skip(p + 1));
            let ghost mv = slots_now[index as int].unwrap();
            proof {
                if level_rank(mv.level) >= level_rank(*level) {
                    lemma_collected_joinable(mv);
                }
            }
            let ghost before_metrics = self.metrics@;
            let ghost outs_before = measurement_views(collected_metrics@);
            match &mut self.metrics[index] {
                Some(metric) => {
                    if !metric.metric_level.is_below(level) {
                        let values = collect_measurements(metric);
                        let joined_data = join_metrics(values);
                        collected_metrics.push((index, joined_data));
                    }
                },
                None => {},
            }
            proof {
                let new_slots = self@.slots;
                if level_rank(mv.level) < level_rank(*level) {
                    assert(self.metrics@ =~= before_metrics);
                    assert(measurement_views(collected_metrics@) =~= outs_before);
                } else {
                    assert(new_slots =~= slots_now.update(
                        index as int,
                        Some(MetricView { value: after_collection(mv.kind, mv.value), ..mv }),
                    ));
                    let out = (index, joined(collected(mv.kind, mv.value)));
                    assert(measurement_views(collected_metrics@) =~= outs_before.push(out));
                    let rest = collect_from(new_slots, live.skip(p + 1), *level);
                    assert(outs_before + (seq![out] + rest.1) =~= outs_before.push(out) + rest.1);
                }
                assert forall|j: int| 0 <= j < self.metrics@.len() && (#[trigger] self.metrics@[j]) is Some
                    implies self.metrics@[j].unwrap().wf() by {
                    if j != index {
                        assert(self.metrics@[j] == before_metrics[j]);
                    }
                }
                assert forall|j: int| 0 <= j < new_slots.len() && (#[trigger] new_slots[j]) is Some
                    implies view_fits(new_slots[j].unwrap()) by {
                    assert(new_slots[j] == slot_view(self.metrics@[j]));
                }
                assert forall|j: int|
                    0 <= j < new_slots.len() && (#[trigger] new_slots[j]) is Some && level_rank(
                        new_slots[j].unwrap().level,
                    ) >= level_rank(*level) implies has_buckets(new_slots[j].unwrap().value) by {
                    if j != index {
                        assert(new_slots[j] == slots_now[j]);
                    } else {
                        assert(slots_now[j] is Some);
                    }
                }
            }
            p = p + 1;
        }
        proof {
            let rest = collect_from(self@.slots, live.skip(n as int), *level);
            assert(live.skip(n as int).len() == 0);
            assert(measurement_views(collected_metrics@) + rest.1 =~= measurement_views(collected_metrics@));
            assert(live_in_slots(slots0, live));
            lemma_collect_from_at_level(slots0, live, *level);
        }
        collected_metrics
    }
}

proof fn lemma_largest_index_bounded(regs: Seq<MetricRegistry>)
    requires
        forall|p: int| 0 <= p < regs.len() ==> (#[trigger] regs[p]).index < usize::MAX,
    ensures
        largest_index(regs) < usize::MAX,
    decreases regs.len(),
{
    if regs.len() > 0 {
        assert(forall|p: int| 0 <= p < regs.len() - 1 ==> regs.drop_last()[p] == regs[p]);
        lemma_largest_index_bounded(regs.drop_last());
    }
}

} // verus!
