//! Laws relating what is recorded into a metric to what collecting it hands
//! back and what is then reported for it.
use vstd::prelude::*;
use chrono::NaiveDateTime;
use vstd::multiset::Multiset;
use vstd::arithmetic::div_mod::{lemma_add_mod_noop_right, lemma_small_mod};
use std::time::Duration;
use crate::clock::duration_nanos;
use crate::data::{bucket_of, position_after, initial_data, initial_value, AdditionalMetricData, DataView, MetricKind, SafeView};
use crate::laws::{
    count_items, counts_of, lemma_count_items_update, lemma_join_counts, lemma_wrapping_add_is_mod,
    u64_modulus,
};
use crate::correlation::{with_increment, CorrelationEventOccurrence, TimeTrackerView};
use crate::metric::{
    after_collection, collected, duration_ended, duration_started, started_is, stats_of, view_fits,
    MetricView, time_tracker_of, with_correlation_counter, with_count_max,
    with_correlation_event, with_counter_increment, with_stats, with_time_tracker,
};
use crate::welford::{has_room, welford_run, welford_step, welford_zero, wrapped_sum, WelfordState};
use crate::readings::{
    all_event_readings, amount_mean, amount_total, counter_readings, event_readings, is_listing,
    readings_spec, time_readings, ReadingView,
};
use crate::registry::joined;

verus! {

/// The sum of a list of amounts.
pub open spec fn amount_sum(by: Seq<u64>) -> int
    decreases by.len(),
{
    if by.len() == 0 {
        0
    } else {
        by[0] + amount_sum(by.drop_first())
    }
}

/// The data of a counter metric once increased by each amount of `by`, in
/// order.
pub open spec fn counter_after(v: SafeView, by: Seq<u64>) -> SafeView
    decreases by.len(),
{
    if by.len() == 0 {
        v
    } else {
        counter_after(with_counter_increment(v, by[0]), by.drop_first())
    }
}

proof fn lemma_counter_after(c: u64, by: Seq<u64>)
    ensures
        counter_after(SafeView::Atomic(DataView::Counter(c)), by) == SafeView::Atomic(
            DataView::Counter(((c + amount_sum(by)) % u64_modulus()) as u64),
        ),
    decreases by.len(),
{
    let m = u64_modulus();
    if by.len() == 0 {
        lemma_small_mod(c as nat, m as nat);
    } else {
        let next = vstd::wrapping::u64_specs::wrapping_add(c, by[0]);
        lemma_wrapping_add_is_mod(c, by[0]);
        lemma_counter_after(next, by.drop_first());
        let t = amount_sum(by.drop_first());
        lemma_add_mod_noop_right(t, c + by[0], m);
        assert((next + t) % m == (c + by[0] + t) % m);
    }
}

/// A single piece of collected data is joined into itself.
proof fn lemma_joined_single(d: DataView)
    ensures
        joined(seq![d]) == d,
{
    assert(seq![d].update(0, d).drop_last() =~= Seq::<DataView>::empty());
}

/// Law: a counter reads back what was written to it. A counter metric
/// holding `c` and then increased by each amount of `by` hands over, when
/// collected, `c` plus all of `by` (wrapping around at 2^64), is reported
/// as that value, and starts over at zero.
pub proof fn lemma_counter_round_trip(c: u64, by: Seq<u64>)
    ensures
        ({
            let v = counter_after(SafeView::Atomic(DataView::Counter(c)), by);
            let total = ((c + amount_sum(by)) % u64_modulus()) as u64;
            &&& joined(collected(MetricKind::Counter, v)) == DataView::Counter(total)
            &&& forall|r: Seq<ReadingView>|
                #[trigger] readings_spec(MetricKind::Counter, DataView::Counter(total), r) <==> r
                    == seq![ReadingView::Counter { value: total as i64 }]
            &&& after_collection(MetricKind::Counter, v) == initial_value(MetricKind::Counter, 0)
        }),
{
    lemma_counter_after(c, by);
    let total = ((c + amount_sum(by)) % u64_modulus()) as u64;
    lemma_joined_single(DataView::Counter(total));
}

/// The data of a duration or count metric once each measurement of `xs`
/// is recorded, in order.
pub open spec fn stats_after(v: SafeView, xs: Seq<u64>) -> SafeView
    decreases xs.len(),
{
    if xs.len() == 0 {
        v
    } else {
        stats_after(with_stats(v, welford_step(stats_of(v), xs[0])), xs.drop_first())
    }
}

/// The collected data of a duration or count metric of kind `k` holding
/// the statistics `w`.
pub open spec fn stats_data(k: MetricKind, w: WelfordState) -> DataView {
    if k is Duration {
        DataView::Duration(w)
    } else {
        DataView::Count(w)
    }
}

proof fn lemma_stats_after(k: MetricKind, w: WelfordState, xs: Seq<u64>)
    requires
        k is Duration || k is Count,
    ensures
        stats_after(SafeView::Atomic(stats_data(k, w)), xs) == SafeView::Atomic(
            stats_data(k, welford_run(w, xs)),
        ),
    decreases xs.len(),
{
    if xs.len() > 0 {
        lemma_stats_after(k, welford_step(w, xs[0]), xs.drop_first());
    }
}

/// Recording measurements while the count has room counts each one and
/// adds it (wrapping) to the sum.
proof fn lemma_run_count_sum(w: WelfordState, xs: Seq<u64>)
    requires
        w.count + xs.len() <= i64::MAX,
        w.count + xs.len() <= usize::MAX,
    ensures
        welford_run(w, xs).count == w.count + xs.len(),
        welford_run(w, xs).sum == wrapped_sum(w.sum, xs),
    decreases xs.len(),
{
    if xs.len() > 0 {
        lemma_run_count_sum(welford_step(w, xs[0]), xs.drop_first());
    }
}

/// Law: duration and count metrics read back what was written to them. A
/// metric of either kind that starts over and then records each
/// measurement of `xs` hands over, when collected, statistics that count
/// every measurement and hold their sum (wrapping); it reports nothing when
/// nothing was recorded and one reading of those statistics otherwise, and
/// starts over again.
pub proof fn lemma_statistics_round_trip(k: MetricKind, xs: Seq<u64>)
    requires
        k is Duration || k is Count,
        xs.len() <= i64::MAX,
        xs.len() <= usize::MAX,
    ensures
        ({
            let v = stats_after(initial_value(k, 0), xs);
            let w = welford_run(welford_zero(), xs);
            &&& joined(collected(k, v)) == stats_data(k, w)
            &&& w.count == xs.len()
            &&& w.sum == wrapped_sum(0, xs)
            &&& forall|r: Seq<ReadingView>| #[trigger] readings_spec(k, stats_data(k, w), r) <==> r == (if xs.len()
                == 0 {
                Seq::<ReadingView>::empty()
            } else {
                seq![ReadingView::Stats { s: w.s, count: w.count, sum: w.sum }]
            })
            &&& after_collection(k, v) == initial_value(k, 0)
        }),
{
    assert(initial_value(k, 0) == SafeView::Atomic(stats_data(k, welford_zero())));
    lemma_stats_after(k, welford_zero(), xs);
    lemma_run_count_sum(welford_zero(), xs);
    lemma_joined_single(stats_data(k, welford_run(welford_zero(), xs)));
}

/// The listings of a map with a single key are that key with its value.
proof fn lemma_singleton_listing<V>(e: Seq<(Seq<char>, V)>, k: Seq<char>, v: V)
    ensures
        is_listing(e, Map::<Seq<char>, V>::empty().insert(k, v)) <==> e == seq![(k, v)],
{
    let m = Map::<Seq<char>, V>::empty().insert(k, v);
    if is_listing(e, m) {
        assert(m.contains_key(k));
        let i = choose|i: int| 0 <= i < e.len() && #[trigger] e[i].0 == k;
        if e.len() > 1 {
            let j = if i == 0 { 1int } else { 0int };
            assert(m.contains_key(e[j].0));
            if i < j {
                assert(e[i].0 != e[j].0);
            } else {
                assert(e[j].0 != e[i].0);
            }
        }
        assert(e.len() == 1);
        assert(m.contains_key(e[0].0));
        assert(e =~= seq![(k, v)]);
    }
    if e == seq![(k, v)] {
        assert forall|q: Seq<char>| #[trigger] m.contains_key(q) implies exists|i: int|
            0 <= i < e.len() && #[trigger] e[i].0 == q by {
            assert(e[0].0 == q);
        }
    }
}

/// The history kept for `id`: its events, or none.
pub open spec fn history(m: Map<Seq<char>, Seq<CorrelationEventOccurrence>>, id: Seq<char>) -> Seq<
    CorrelationEventOccurrence,
> {
    if m.contains_key(id) {
        m[id]
    } else {
        Seq::empty()
    }
}

/// The data of a correlation metric once each event of `os` is recorded
/// for the identifier `id`, in order.
pub open spec fn events_after(v: SafeView, id: Seq<char>, os: Seq<CorrelationEventOccurrence>) -> SafeView
    decreases os.len(),
{
    if os.len() == 0 {
        v
    } else {
        events_after(with_correlation_event(v, id, os[0]), id, os.drop_first())
    }
}

proof fn lemma_events_after(
    m: Map<Seq<char>, Seq<CorrelationEventOccurrence>>,
    id: Seq<char>,
    os: Seq<CorrelationEventOccurrence>,
)
    requires
        os.len() > 0,
    ensures
        events_after(SafeView::ThreadSafe(DataView::Correlation(m)), id, os) == SafeView::ThreadSafe(
            DataView::Correlation(m.insert(id, history(m, id) + os)),
        ),
    decreases os.len(),
{
    let m1 = m.insert(id, history(m, id).push(os[0]));
    let rest = os.drop_first();
    assert(history(m1, id) == history(m, id).push(os[0]));
    if rest.len() > 0 {
        lemma_events_after(m1, id, rest);
        assert(m1.insert(id, history(m1, id) + rest) =~= m.insert(id, history(m, id) + os)) by {
            assert(history(m, id).push(os[0]) + rest =~= history(m, id) + os);
        }
    } else {
        assert(history(m, id).push(os[0]) =~= history(m, id) + os);
    }
}

/// Law: a correlation identifier reads back what was written of it. A
/// correlation metric that starts over and then records the events `os`
/// of one identifier `id` hands over, when collected, that identifier with
/// exactly those events in the order recorded, reports exactly those events
/// in that order, and starts over again.
pub proof fn lemma_events_round_trip(id: Seq<char>, os: Seq<CorrelationEventOccurrence>)
    ensures
        ({
            let v = events_after(initial_value(MetricKind::Correlation, 0), id, os);
            let kept = if os.len() == 0 {
                Map::<Seq<char>, Seq<CorrelationEventOccurrence>>::empty()
            } else {
                Map::<Seq<char>, Seq<CorrelationEventOccurrence>>::empty().insert(id, os)
            };
            &&& joined(collected(MetricKind::Correlation, v)) == DataView::Correlation(kept)
            &&& forall|r: Seq<ReadingView>|
                #[trigger] readings_spec(MetricKind::Correlation, DataView::Correlation(kept), r) <==> r
                    == event_readings(id, os)
            &&& after_collection(MetricKind::Correlation, v) == initial_value(MetricKind::Correlation, 0)
        }),
{
    let e = Map::<Seq<char>, Seq<CorrelationEventOccurrence>>::empty();
    let kept = if os.len() == 0 { e } else { e.insert(id, os) };
    if os.len() > 0 {
        lemma_events_after(e, id, os);
        assert(e.insert(id, history(e, id) + os) =~= e.insert(id, os)) by {
            assert(history(e, id) + os =~= os);
        }
    }
    lemma_joined_single(DataView::Correlation(kept));
    let single = seq![(id, os)];
    assert(all_event_readings(single) == event_readings(id, os)) by {
        assert(single.drop_last() =~= Seq::<(Seq<char>, Seq<CorrelationEventOccurrence>)>::empty());
        assert(all_event_readings(single.drop_last()) + event_readings(id, os) =~= event_readings(id, os));
    }
    assert forall|r: Seq<ReadingView>|
        #[trigger] readings_spec(MetricKind::Correlation, DataView::Correlation(kept), r) <==> r
            == event_readings(id, os) by {
        if os.len() == 0 {
            assert(event_readings(id, os) =~= Seq::<ReadingView>::empty());
            let none = Seq::<(Seq<char>, Seq<CorrelationEventOccurrence>)>::empty();
            assert(is_listing(none, kept));
            assert(all_event_readings(none) == Seq::<ReadingView>::empty());
            if readings_spec(MetricKind::Correlation, DataView::Correlation(kept), r) {
                let ev = choose|ev: Seq<(Seq<char>, Seq<CorrelationEventOccurrence>)>|
                    is_listing(ev, kept) && r == #[trigger] all_event_readings(ev);
                if ev.len() > 0 {
                    assert(kept.contains_key(ev[0].0));
                }
                assert(ev =~= none);
            }
        } else {
            lemma_singleton_listing(single, id, os);
            if readings_spec(MetricKind::Correlation, DataView::Correlation(kept), r) {
                let ev = choose|ev: Seq<(Seq<char>, Seq<CorrelationEventOccurrence>)>|
                    is_listing(ev, kept) && r == #[trigger] all_event_readings(ev);
                lemma_singleton_listing(ev, id, os);
            }
        }
    }
}

/// The counter kept for `id`: its value, or 0.
pub open spec fn count_for(m: Map<Seq<char>, u64>, id: Seq<char>) -> u64 {
    if m.contains_key(id) {
        m[id]
    } else {
        0
    }
}

/// The data of a correlation counter metric once the counter of `id` is
/// increased by each amount of `by`, in order.
pub open spec fn id_counter_after(v: SafeView, id: Seq<char>, by: Seq<u64>) -> SafeView
    decreases by.len(),
{
    if by.len() == 0 {
        v
    } else {
        id_counter_after(with_correlation_counter(v, id, by[0]), id, by.drop_first())
    }
}

proof fn lemma_id_counter_after(m: Map<Seq<char>, u64>, id: Seq<char>, by: Seq<u64>)
    requires
        by.len() > 0,
    ensures
        id_counter_after(SafeView::ThreadSafe(DataView::CounterCorrelation(m)), id, by) == SafeView::ThreadSafe(
            DataView::CounterCorrelation(
                m.insert(id, ((count_for(m, id) + amount_sum(by)) % u64_modulus()) as u64),
            ),
        ),
    decreases by.len(),
{
    let md = u64_modulus();
    let prev = count_for(m, id);
    let next = vstd::wrapping::u64_specs::wrapping_add(prev, by[0]);
    let m1 = m.insert(id, next);
    assert(with_increment(m, id, by[0]) == m1);
    assert(count_for(m1, id) == next);
    lemma_wrapping_add_is_mod(prev, by[0]);
    let rest = by.drop_first();
    if rest.len() > 0 {
        lemma_id_counter_after(m1, id, rest);
        let t = amount_sum(rest);
        lemma_add_mod_noop_right(t, prev + by[0], md);
        assert((next + t) % md == (prev + by[0] + t) % md);
        assert(m1.insert(id, ((next + t) % md) as u64) =~= m.insert(id, ((prev + amount_sum(by)) % md) as u64));
    } else {
        assert(amount_sum(rest) == 0);
        assert(amount_sum(by) == by[0]);
    }
}

/// Law: a correlation counter reads back what was written to it. A
/// correlation counter metric that starts over and then increases the
/// counter of `id` by each amount of `by` hands over, when collected, that
/// identifier with the sum of `by` (wrapping around at 2^64), reports that
/// sum for it at the first offset, and starts over again.
pub proof fn lemma_correlation_counter_round_trip(id: Seq<char>, by: Seq<u64>)
    ensures
        ({
            let v = id_counter_after(initial_value(MetricKind::CounterCorrelation, 0), id, by);
            let total = (amount_sum(by) % u64_modulus()) as u64;
            let kept = if by.len() == 0 {
                Map::<Seq<char>, u64>::empty()
            } else {
                Map::<Seq<char>, u64>::empty().insert(id, total)
            };
            &&& joined(collected(MetricKind::CounterCorrelation, v)) == DataView::CounterCorrelation(kept)
            &&& forall|r: Seq<ReadingView>|
                #[trigger] readings_spec(MetricKind::CounterCorrelation, DataView::CounterCorrelation(kept), r)
                    <==> r == (if by.len() == 0 {
                    Seq::<ReadingView>::empty()
                } else {
                    seq![ReadingView::CorrelationCounter { offset: 1, correlation_id: id, value: total as i64 }]
                })
            &&& after_collection(MetricKind::CounterCorrelation, v) == initial_value(
                MetricKind::CounterCorrelation,
                0,
            )
        }),
{
    let e = Map::<Seq<char>, u64>::empty();
    let total = (amount_sum(by) % u64_modulus()) as u64;
    let kept = if by.len() == 0 { e } else { e.insert(id, total) };
    if by.len() > 0 {
        lemma_id_counter_after(e, id, by);
    }
    lemma_joined_single(DataView::CounterCorrelation(kept));
    let single = seq![(id, total)];
    assert(counter_readings(single) =~= seq![
        ReadingView::CorrelationCounter { offset: 1, correlation_id: id, value: total as i64 },
    ]);
    let none = Seq::<(Seq<char>, u64)>::empty();
    assert(counter_readings(none) =~= Seq::<ReadingView>::empty());
    assert forall|r: Seq<ReadingView>|
        #[trigger] readings_spec(MetricKind::CounterCorrelation, DataView::CounterCorrelation(kept), r) <==> r
            == (if by.len() == 0 {
            Seq::<ReadingView>::empty()
        } else {
            seq![ReadingView::CorrelationCounter { offset: 1, correlation_id: id, value: total as i64 }]
        }) by {
        if by.len() == 0 {
            assert(is_listing(none, kept));
            if readings_spec(MetricKind::CounterCorrelation, DataView::CounterCorrelation(kept), r) {
                let am = choose|am: Seq<(Seq<char>, u64)>| is_listing(am, kept) && r == #[trigger] counter_readings(am);
                if am.len() > 0 {
                    assert(kept.contains_key(am[0].0));
                }
                assert(am =~= none);
            }
        } else {
            lemma_singleton_listing(single, id, total);
            if readings_spec(MetricKind::CounterCorrelation, DataView::CounterCorrelation(kept), r) {
                let am = choose|am: Seq<(Seq<char>, u64)>| is_listing(am, kept) && r == #[trigger] counter_readings(am);
                lemma_singleton_listing(am, id, total);
            }
        }
    }
}

/// The collected data of a correlation duration metric of kind `k` holding
/// the time tracker `t`.
pub open spec fn tracker_data(k: MetricKind, t: TimeTrackerView) -> DataView {
    if k is CorrelationDurationTracker {
        DataView::CorrelationDurationTracker(t)
    } else {
        DataView::CorrelationAggrDurationTracker(t)
    }
}

/// The data of a correlation duration metric once the measurement of `id`
/// starts.
pub open spec fn started(v: SafeView, id: Seq<char>) -> SafeView {
    let t = time_tracker_of(v);
    with_time_tracker(v, TimeTrackerView { pending: t.pending.insert(id), accumulated: t.accumulated })
}

/// The data of a correlation duration metric once the pending measurement
/// of `id` ends after `d` nanoseconds.
pub open spec fn ended(v: SafeView, id: Seq<char>, d: u128) -> SafeView {
    let t = time_tracker_of(v);
    with_time_tracker(v, TimeTrackerView { pending: t.pending.remove(id), accumulated: t.accumulated.insert(id, d) })
}

/// Law: a time measurement that is started and then ended is reported
/// once. A correlation duration metric (of either kind) that starts over,
/// starts measuring `id` and ends that measurement after `d` nanoseconds
/// hands over, when collected, `id` with `d` and nothing pending; the
/// per-identifier kind reports `d` for `id` at the first offset, the
/// aggregated kind reports `d` as the mean; and the metric starts over.
pub proof fn lemma_time_round_trip(k: MetricKind, id: Seq<char>, d: u128)
    requires
        k is CorrelationDurationTracker || k is CorrelationAggrDurationTracker,
    ensures
        ({
            let v = ended(started(initial_value(k, 0), id), id, d);
            let finished = TimeTrackerView {
                pending: Set::<Seq<char>>::empty(),
                accumulated: Map::<Seq<char>, u128>::empty().insert(id, d),
            };
            &&& joined(collected(k, v)) == tracker_data(k, finished)
            &&& forall|r: Seq<ReadingView>| #[trigger] readings_spec(k, tracker_data(k, finished), r) <==> r == (if k
                is CorrelationDurationTracker {
                seq![ReadingView::CorrelationTime { offset: 1, correlation_id: id, value: d as i64 }]
            } else {
                seq![ReadingView::CorrelationAggrTime { value: d as i64 }]
            })
            &&& after_collection(k, v) == initial_value(k, 0)
        }),
{
    let e = TimeTrackerView { pending: Set::<Seq<char>>::empty(), accumulated: Map::<Seq<char>, u128>::empty() };
    let acc = Map::<Seq<char>, u128>::empty().insert(id, d);
    let finished = TimeTrackerView { pending: Set::<Seq<char>>::empty(), accumulated: acc };
    let v = ended(started(initial_value(k, 0), id), id, d);
    assert(initial_value(k, 0) == SafeView::ThreadSafe(tracker_data(k, e)));
    assert(Set::<Seq<char>>::empty().insert(id).remove(id) =~= Set::<Seq<char>>::empty());
    assert(v == SafeView::ThreadSafe(tracker_data(k, TimeTrackerView { pending: Set::empty(), accumulated: acc })));
    lemma_joined_single(tracker_data(k, finished));
    let single = seq![(id, d)];
    lemma_singleton_listing(single, id, d);
    assert(time_readings(single) =~= seq![
        ReadingView::CorrelationTime { offset: 1, correlation_id: id, value: d as i64 },
    ]);
    assert(amount_mean(single) == d) by {
        let none = Seq::<(Seq<char>, u128)>::empty();
        assert(single.drop_last() =~= none);
        assert(amount_total(none) == 0);
        assert(single.last() == (id, d));
        assert(amount_total(single) == d);
    }
    assert forall|r: Seq<ReadingView>| #[trigger] readings_spec(k, tracker_data(k, finished), r) <==> r == (if k
        is CorrelationDurationTracker {
        seq![ReadingView::CorrelationTime { offset: 1, correlation_id: id, value: d as i64 }]
    } else {
        seq![ReadingView::CorrelationAggrTime { value: d as i64 }]
    }) by {
        if readings_spec(k, tracker_data(k, finished), r) {
            if k is CorrelationDurationTracker {
                let am = choose|am: Seq<(Seq<char>, u128)>|
                    is_listing(am, acc) && r == #[trigger] time_readings(am);
                lemma_singleton_listing(am, id, d);
            } else {
                let am = choose|am: Seq<(Seq<char>, u128)>|
                    is_listing(am, acc) && r == seq![
                        ReadingView::CorrelationAggrTime { value: #[trigger] amount_mean(am) as i64 },
                    ];
                lemma_singleton_listing(am, id, d);
            }
        }
    }
}

/// The data of a count-max metric once each count of `ps`, with its time,
/// is stored in order, the `j`-th by a thread at round position `at[j]`.
pub open spec fn count_max_after(v: SafeView, ps: Seq<(u64, NaiveDateTime)>, at: Seq<usize>) -> SafeView
    decreases ps.len(),
{
    if ps.len() == 0 {
        v
    } else {
        with_count_max(count_max_after(v, ps.drop_last(), at.drop_last()), ps.last().0, ps.last().1, at.last())
    }
}

proof fn lemma_count_max_after(k: MetricKind, c: nat, ps: Seq<(u64, NaiveDateTime)>, at: Seq<usize>)
    requires
        k is CountMax,
        c > 0,
        at.len() == ps.len(),
    ensures
        ({
            let v = count_max_after(initial_value(k, c), ps, at);
            &&& v is Sequential
            &&& v->Sequential_0.len() == c
            &&& forall|j: int| 0 <= j < c ==> (#[trigger] v->Sequential_0[j]) is CountMax
            &&& count_items(v->Sequential_0) =~= ps.to_multiset()
        }),
    decreases ps.len(),
{
    broadcast use vstd::multiset::group_multiset_axioms;
    broadcast use vstd::seq_lib::group_to_multiset_ensures;
    if ps.len() == 0 {
        let b = initial_value(k, c)->Sequential_0;
        assert forall|n: nat| n <= c implies count_items(#[trigger] b.take(n as int)) =~= Multiset::<
            (u64, NaiveDateTime),
        >::empty() by {
            lemma_fresh_buckets_empty(k, c, n);
        }
        assert(b.take(c as int) =~= b);
    } else {
        let front = ps.drop_last();
        let front_at = at.drop_last();
        lemma_count_max_after(k, c, front, front_at);
        let v = count_max_after(initial_value(k, c), front, front_at);
        let b = v->Sequential_0;
        let i = bucket_of(at.last(), c);
        let p = ps.last();
        assert(0 <= i < c);
        let s = b[i]->CountMax_0;
        let x = DataView::CountMax(s.push(p));
        lemma_count_items_update(b, i, x);
        assert(counts_of(b[i]) == s.to_multiset());
        assert(counts_of(x) =~= s.to_multiset().insert(p));
        let nb = b.update(i, x);
        assert(count_items(nb) =~= count_items(b).insert(p)) by {
            assert forall|e: (u64, NaiveDateTime)| #[trigger] count_items(nb).count(e) == count_items(b).insert(p).count(e) by {
                assert(count_items(nb).add(counts_of(b[i])).count(e) == count_items(b).add(counts_of(x)).count(e));
            }
        }
        assert(front.push(p) =~= ps);
        assert(count_max_after(initial_value(k, c), ps, at) == SafeView::Sequential(nb));
    }
}

/// No bucket of a count-max metric that starts over holds a count.
proof fn lemma_fresh_buckets_empty(k: MetricKind, c: nat, n: nat)
    requires
        k is CountMax,
        n <= c,
    ensures
        count_items(initial_value(k, c)->Sequential_0.take(n as int)) =~= Multiset::<(u64, NaiveDateTime)>::empty(),
    decreases n,
{
    broadcast use vstd::multiset::group_multiset_axioms;
    let b = initial_value(k, c)->Sequential_0;
    if n > 0 {
        lemma_fresh_buckets_empty(k, c, (n - 1) as nat);
        assert(b.take(n as int).drop_last() =~= b.take(n - 1));
        assert(b.take(n as int).last() == initial_data(k));
        assert(counts_of(initial_data(k)) =~= Multiset::<(u64, NaiveDateTime)>::empty()) by {
            let none = Seq::<(u64, NaiveDateTime)>::empty();
            vstd::seq_lib::to_multiset_len(none);
            vstd::multiset::lemma_multiset_empty_len(none.to_multiset());
        }
    }
}

/// Law: a count-max metric hands back what was stored in it. A count-max
/// metric with `c` buckets that starts over and then stores each count of
/// `ps` with its time, the `j`-th from a thread at any round position
/// `at[j]`, hands over when collected its `c` buckets, which together hold
/// exactly the stored pairs, no more and no fewer; joined, they are one
/// list of exactly those pairs; and the metric starts over again with `c`
/// buckets.
pub proof fn lemma_count_max_round_trip(max: usize, c: nat, ps: Seq<(u64, NaiveDateTime)>, at: Seq<usize>)
    requires
        c > 0,
        at.len() == ps.len(),
    ensures
        ({
            let k = MetricKind::CountMax(max);
            let v = count_max_after(initial_value(k, c), ps, at);
            &&& collected(k, v).len() == c
            &&& count_items(collected(k, v)) =~= ps.to_multiset()
            &&& joined(collected(k, v)) is CountMax
            &&& joined(collected(k, v))->CountMax_0.to_multiset() =~= ps.to_multiset()
            &&& after_collection(k, v) == initial_value(k, c)
        }),
{
    let k = MetricKind::CountMax(max);
    lemma_count_max_after(k, c, ps, at);
    let v = count_max_after(initial_value(k, c), ps, at);
    let b = v->Sequential_0;
    assert(collected(k, v) == b);
    lemma_join_counts(b);
    assert(after_collection(k, v)->Sequential_0 =~= initial_value(k, c)->Sequential_0);
}

/// Law: a duration measurement is recorded once per start. A duration
/// metric `m` with room for one more measurement that is started (its
/// additional data becoming `a1`) and then ended (becoming `v2`, `a2`) has
/// recorded exactly one more measurement, the whole nanoseconds of some
/// elapsed duration; ending it again (`v3`, `a3`) records nothing.
pub proof fn lemma_one_measurement_per_start(
    m: MetricView,
    a1: AdditionalMetricData,
    v2: SafeView,
    a2: AdditionalMetricData,
    v3: SafeView,
    a3: AdditionalMetricData,
)
    requires
        view_fits(m),
        m.kind is Duration,
        has_room(stats_of(m.value)),
        started_is(m.additional, a1, true),
        duration_ended(m.value, a1, v2, a2),
        duration_ended(v2, a2, v3, a3),
    ensures
        stats_of(v2).count == stats_of(m.value).count + 1,
        exists|d: Duration| stats_of(v2) == #[trigger] welford_step(stats_of(m.value), duration_nanos(d) as u64),
        v3 == v2,
        !duration_started(a3),
{
    assert(duration_started(a1));
    let d = choose|d: Duration|
        v2 == #[trigger] with_stats(m.value, welford_step(stats_of(m.value), duration_nanos(d) as u64));
    assert(stats_of(v2) == welford_step(stats_of(m.value), duration_nanos(d) as u64));
}

/// The position a thread reaches from `p` after `k` moves.
pub open spec fn position_after_moves(p: usize, k: nat) -> usize
    decreases k,
{
    if k == 0 {
        p
    } else {
        position_after(position_after_moves(p, (k - 1) as nat))
    }
}

/// Law: a thread goes round the buckets in turn. A thread whose position
/// starts at 0 and moves on once per write uses, for its `k`-th write
/// (counting from 0), bucket `k` modulo the number of buckets `n`, as long
/// as `k` does not pass `usize::MAX`; consecutive writes use consecutive
/// buckets, wrapping to the first after the last.
pub proof fn lemma_round_robin(n: nat, k: nat)
    requires
        n > 0,
        k <= usize::MAX,
    ensures
        position_after_moves(0, k) == k,
        bucket_of(position_after_moves(0, k), n) == (k as int) % (n as int),
        k < usize::MAX ==> bucket_of(position_after_moves(0, k + 1), n) == (bucket_of(
            position_after_moves(0, k),
            n,
        ) + 1) % (n as int),
    decreases k,
{
    if k > 0 {
        lemma_round_robin(n, (k - 1) as nat);
    }
    if k < usize::MAX {
        lemma_round_robin_step(n, k);
    }
}

proof fn lemma_round_robin_step(n: nat, k: nat)
    requires
        n > 0,
        k < usize::MAX,
        position_after_moves(0, k) == k,
    ensures
        position_after_moves(0, k + 1) == k + 1,
        (k + 1) as int % (n as int) == ((k as int) % (n as int) + 1) % (n as int),
{
    assert(position_after_moves(0, k + 1) == position_after(position_after_moves(0, k)));
    vstd::arithmetic::div_mod::lemma_add_mod_noop(k as int, 1, n as int);
    if n > 1 {
        vstd::arithmetic::div_mod::lemma_small_mod(1, n);
    }
}

} // verus!
