//! Properties of the library that span several operations.
use vstd::prelude::*;
use chrono::NaiveDateTime;
use vstd::arithmetic::div_mod::{lemma_add_mod_noop_right, lemma_mod_add_multiples_vanish, lemma_small_mod};
use vstd::multiset::Multiset;
use vstd::seq_lib::lemma_multiset_commutative;
use crate::data::{initial_data, merged, DataView, SafeView};
use crate::metric::{after_collection, collected, kept_part, taken_part, time_tracker_of, view_fits, MetricView};
use crate::registry::{join_pops, joined};
use crate::correlation::{event_name, CorrelationEventOccurrence};
use crate::data::MetricKind;
use crate::readings::{all_event_readings, event_readings, is_listing, readings_spec, ReadingView};

verus! {

/// The value of a counter (0 for other data).
pub open spec fn counter_of(d: DataView) -> int {
    match d {
        DataView::Counter(c) => c as int,
        _ => 0,
    }
}

/// The sum of the counters of a list of data.
pub open spec fn counter_total(s: Seq<DataView>) -> int
    decreases s.len(),
{
    if s.len() == 0 {
        0
    } else {
        counter_total(s.drop_last()) + counter_of(s.last())
    }
}

/// The counts of a list of counts (none for other data), as a multiset.
pub open spec fn counts_of(d: DataView) -> Multiset<(u64, NaiveDateTime)> {
    match d {
        DataView::CountMax(v) => v.to_multiset(),
        _ => Multiset::empty(),
    }
}

/// All the counts of a list of data, as a multiset.
pub open spec fn count_items(s: Seq<DataView>) -> Multiset<(u64, NaiveDateTime)>
    decreases s.len(),
{
    if s.len() == 0 {
        Multiset::empty()
    } else {
        count_items(s.drop_last()).add(counts_of(s.last()))
    }
}

/// The number of distinct values a `u64` holds.
pub open spec fn u64_modulus() -> int {
    0x1_0000_0000_0000_0000
}

pub(crate) proof fn lemma_wrapping_add_is_mod(x: u64, y: u64)
    ensures
        vstd::wrapping::u64_specs::wrapping_add(x, y) == (x + y) % u64_modulus(),
{
    let m = u64_modulus();
    if x + y > u64::MAX {
        lemma_mod_add_multiples_vanish(x + y - m, m);
        lemma_small_mod((x + y - m) as nat, m as nat);
    } else {
        lemma_small_mod((x + y) as nat, m as nat);
    }
}

proof fn lemma_counter_total_update(s: Seq<DataView>, i: int, x: DataView)
    requires
        0 <= i < s.len(),
    ensures
        counter_total(s.update(i, x)) == counter_total(s) - counter_of(s[i]) + counter_of(x),
    decreases s.len(),
{
    let t = s.update(i, x);
    if i < s.len() - 1 {
        assert(t.drop_last() =~= s.drop_last().update(i, x));
        lemma_counter_total_update(s.drop_last(), i, x);
    } else {
        assert(t.drop_last() =~= s.drop_last());
    }
}

pub(crate) proof fn lemma_count_items_update(s: Seq<DataView>, i: int, x: DataView)
    requires
        0 <= i < s.len(),
    ensures
        count_items(s.update(i, x)).add(counts_of(s[i])) =~= count_items(s).add(counts_of(x)),
    decreases s.len(),
{
    broadcast use vstd::multiset::group_multiset_axioms;
    let t = s.update(i, x);
    assert(count_items(t) == count_items(t.drop_last()).add(counts_of(t.last())));
    assert(count_items(s) == count_items(s.drop_last()).add(counts_of(s.last())));
    if i < s.len() - 1 {
        assert(t.drop_last() =~= s.drop_last().update(i, x));
        assert(t.last() == s.last());
        lemma_count_items_update(s.drop_last(), i, x);
        assert(s.drop_last()[i] == s[i]);
        let a = count_items(t.drop_last());
        let b = count_items(s.drop_last());
        assert forall|e: (u64, NaiveDateTime)|
            #[trigger] count_items(t).add(counts_of(s[i])).count(e) == count_items(s).add(counts_of(x)).count(e) by {
            assert(a.add(counts_of(s[i])).count(e) == b.add(counts_of(x)).count(e));
        }
    } else {
        assert(t.drop_last() =~= s.drop_last());
        assert(t.last() == x);
        assert forall|e: (u64, NaiveDateTime)|
            #[trigger] count_items(t).add(counts_of(s[i])).count(e) == count_items(s).add(counts_of(x)).count(e) by {
        }
    }
}

proof fn lemma_join_pops_counters(acc: u64, rest: Seq<DataView>)
    requires
        forall|i: int| 0 <= i < rest.len() ==> (#[trigger] rest[i]) is Counter,
    ensures
        join_pops(DataView::Counter(acc), rest) == DataView::Counter(
            ((acc + counter_total(rest)) % u64_modulus()) as u64,
        ),
    decreases rest.len(),
{
    let m = u64_modulus();
    if rest.len() == 0 {
        lemma_small_mod(acc as nat, m as nat);
    } else {
        let l = rest.last();
        let c = l->Counter_0;
        assert(rest[rest.len() - 1] is Counter);
        let next = vstd::wrapping::u64_specs::wrapping_add(acc, c);
        assert(merged(DataView::Counter(acc), l) == DataView::Counter(next));
        lemma_wrapping_add_is_mod(acc, c);
        let front = rest.drop_last();
        assert(forall|i: int| 0 <= i < front.len() ==> front[i] == rest[i]);
        lemma_join_pops_counters(next, front);
        let t = counter_total(front);
        lemma_add_mod_noop_right(t, acc + c, m);
        assert((next + t) % m == (acc + c + t) % m);
    }
}

proof fn lemma_join_pops_counts(acc: Seq<(u64, NaiveDateTime)>, rest: Seq<DataView>)
    requires
        forall|i: int| 0 <= i < rest.len() ==> (#[trigger] rest[i]) is CountMax,
    ensures
        join_pops(DataView::CountMax(acc), rest) is CountMax,
        join_pops(DataView::CountMax(acc), rest)->CountMax_0.to_multiset() =~= acc.to_multiset().add(
            count_items(rest),
        ),
    decreases rest.len(),
{
    broadcast use vstd::multiset::group_multiset_axioms;
    if rest.len() > 0 {
        let l = rest.last();
        assert(rest[rest.len() - 1] is CountMax);
        let v = l->CountMax_0;
        lemma_multiset_commutative(acc, v);
        let front = rest.drop_last();
        assert(forall|i: int| 0 <= i < front.len() ==> front[i] == rest[i]);
        lemma_join_pops_counts(acc + v, front);
    }
}

/// Law: joining counters adds them all up, wrapping around at 2^64.
pub proof fn lemma_join_counters(s: Seq<DataView>)
    requires
        s.len() > 0,
        forall|i: int| 0 <= i < s.len() ==> (#[trigger] s[i]) is Counter,
    ensures
        joined(s) == DataView::Counter(((counter_total(s) % u64_modulus()) as u64)),
{
    let n = s.len();
    let t = s.update(0, s.last());
    let rest = t.drop_last();
    assert(forall|i: int| 0 <= i < rest.len() ==> rest[i] == t[i]);
    assert(forall|i: int| 0 <= i < rest.len() ==> (#[trigger] rest[i]) is Counter) by {
        assert(s[n - 1] is Counter);
    }
    assert(s[0] is Counter);
    lemma_join_pops_counters(s[0]->Counter_0, rest);
    lemma_counter_total_update(s, 0, s.last());
    if n > 1 {
        assert(t.last() == s.last());
    } else {
        assert(counter_total(rest) == 0);
        assert(s.drop_last().len() == 0);
    }
}

/// Law: joining lists of counts keeps every count of every list, no more
/// and no fewer.
pub proof fn lemma_join_counts(s: Seq<DataView>)
    requires
        s.len() > 0,
        forall|i: int| 0 <= i < s.len() ==> (#[trigger] s[i]) is CountMax,
    ensures
        joined(s) is CountMax,
        joined(s)->CountMax_0.to_multiset() =~= count_items(s),
{
    broadcast use vstd::multiset::group_multiset_axioms;
    let n = s.len();
    let t = s.update(0, s.last());
    let rest = t.drop_last();
    assert(forall|i: int| 0 <= i < rest.len() ==> rest[i] == t[i]);
    assert(forall|i: int| 0 <= i < rest.len() ==> (#[trigger] rest[i]) is CountMax) by {
        assert(s[n - 1] is CountMax);
    }
    assert(s[0] is CountMax);
    lemma_join_pops_counts(s[0]->CountMax_0, rest);
    lemma_count_items_update(s, 0, s.last());
    if n > 1 {
        assert(t.last() == s.last());
        assert(count_items(t) =~= count_items(rest).add(counts_of(s.last())));
        let j = joined(s)->CountMax_0.to_multiset();
        let a0 = s[0]->CountMax_0.to_multiset();
        assert(counts_of(s[0]) == a0);
        assert forall|e: (u64, NaiveDateTime)| #[trigger] j.count(e) == count_items(s).count(e) by {
            assert(count_items(t).add(counts_of(s[0])).count(e) == count_items(s).add(counts_of(s.last())).count(
                e,
            ));
        }
    } else {
        assert(s.drop_last() =~= Seq::<DataView>::empty());
        assert(count_items(s) == count_items(s.drop_last()).add(counts_of(s.last())));
        assert(count_items(s) =~= counts_of(s[0]));
        assert(rest.len() == 0);
        assert(count_items(rest) == Multiset::<(u64, NaiveDateTime)>::empty());
    }
}

/// Law: a collection right after a collection hands over nothing that was
/// recorded (only data as a new metric holds it), and leaves the metric as
/// the first collection did.
pub proof fn lemma_collect_twice(m: MetricView)
    requires
        view_fits(m),
    ensures
        forall|i: int|
            0 <= i < collected(m.kind, after_collection(m.kind, m.value)).len() ==> #[trigger] collected(
                m.kind,
                after_collection(m.kind, m.value),
            )[i] == initial_data(m.kind),
        after_collection(m.kind, after_collection(m.kind, m.value)) == after_collection(m.kind, m.value),
{
    let k = m.kind;
    match m.value {
        SafeView::Sequential(b) => {
            let fresh = Seq::new(b.len(), |i: int| initial_data(k));
            assert(Seq::new(fresh.len(), |i: int| initial_data(k)) =~= fresh);
        },
        SafeView::ThreadSafe(d) => {
            assert(taken_part(kept_part(k, d)) == initial_data(k));
            assert(kept_part(k, kept_part(k, d)) == kept_part(k, d));
        },
        SafeView::Atomic(d) => {},
    }
}

/// Law: collecting a correlation duration metric keeps the measurements
/// still pending, and hands over every finished one.
pub proof fn lemma_collection_keeps_pending(m: MetricView)
    requires
        view_fits(m),
        m.kind is CorrelationDurationTracker || m.kind is CorrelationAggrDurationTracker,
    ensures
        time_tracker_of(after_collection(m.kind, m.value)).pending == time_tracker_of(m.value).pending,
        time_tracker_of(after_collection(m.kind, m.value)).accumulated == Map::<Seq<char>, u128>::empty(),
        collected(m.kind, m.value).len() == 1,
        time_tracker_of(SafeView::ThreadSafe(collected(m.kind, m.value)[0])).accumulated
            == time_tracker_of(m.value).accumulated,
{
}

/// Whether reading `x` is an event reading of identifier `id`.
pub open spec fn is_event_of(x: ReadingView, id: Seq<char>) -> bool {
    x matches ReadingView::Correlation { correlation_id, .. } && correlation_id == id
}

/// The test for the event readings of identifier `id`.
pub open spec fn events_of(id: Seq<char>) -> spec_fn(ReadingView) -> bool {
    |x: ReadingView| is_event_of(x, id)
}

proof fn lemma_filter_all_or_none(s: Seq<ReadingView>, pred: spec_fn(ReadingView) -> bool)
    ensures
        (forall|i: int| 0 <= i < s.len() ==> pred(#[trigger] s[i])) ==> s.filter(pred) == s,
        (forall|i: int| 0 <= i < s.len() ==> !pred(#[trigger] s[i])) ==> s.filter(pred) == Seq::<ReadingView>::empty(),
    decreases s.len(),
{
    broadcast use vstd::seq::Seq::lemma_filter_push;
    reveal(Seq::filter);
    if s.len() > 0 {
        let front = s.drop_last();
        lemma_filter_all_or_none(front, pred);
        assert(front.push(s.last()) =~= s);
        assert(forall|i: int| 0 <= i < front.len() ==> front[i] == s[i]);
        assert(s.last() == s[s.len() - 1]);
    }
}

proof fn lemma_event_readings_of(key: Seq<char>, es: Seq<CorrelationEventOccurrence>, id: Seq<char>)
    ensures
        event_readings(key, es).filter(events_of(id)) == (if key == id {
            event_readings(key, es)
        } else {
            Seq::<ReadingView>::empty()
        }),
{
    let s = event_readings(key, es);
    assert(forall|i: int| 0 <= i < s.len() ==> #[trigger] s[i] == (ReadingView::Correlation {
        time: es[i].date,
        correlation_id: key,
        location: es[i].location@,
        event: event_name(es[i].event),
    }));
    lemma_filter_all_or_none(s, events_of(id));
}

proof fn lemma_all_events_of(
    ev: Seq<(Seq<char>, Seq<CorrelationEventOccurrence>)>,
    id: Seq<char>,
    q: int,
)
    requires
        forall|i: int, j: int| 0 <= i < j < ev.len() ==> #[trigger] ev[i].0 != #[trigger] ev[j].0,
        -1 <= q < ev.len(),
        q >= 0 ==> ev[q].0 == id,
        q < 0 ==> forall|i: int| 0 <= i < ev.len() ==> (#[trigger] ev[i]).0 != id,
    ensures
        all_event_readings(ev).filter(events_of(id)) == (if q >= 0 {
            event_readings(id, ev[q].1)
        } else {
            Seq::<ReadingView>::empty()
        }),
    decreases ev.len(),
{
    broadcast use vstd::seq::Seq::filter_distributes_over_add;
    if ev.len() > 0 {
        let front = ev.drop_last();
        let last = ev.last();
        assert(forall|i: int| 0 <= i < front.len() ==> front[i] == ev[i]);
        assert(last == ev[ev.len() - 1]);
        let q2 = if q == ev.len() - 1 { -1 } else { q };
        lemma_all_events_of(front, id, q2);
        lemma_event_readings_of(last.0, last.1, id);
        assert(all_event_readings(ev) == all_event_readings(front) + event_readings(last.0, last.1));
        if q == ev.len() - 1 {
            assert(Seq::<ReadingView>::empty() + event_readings(id, ev[q].1) =~= event_readings(id, ev[q].1));
        } else {
            if q >= 0 {
                assert(ev[q].0 != last.0);
            }
            assert(all_event_readings(front).filter(events_of(id)) + Seq::<ReadingView>::empty()
                =~= all_event_readings(front).filter(events_of(id)));
        }
    }
}

/// Law: every event is reported with its own date, place and name. For
/// each identifier of collected correlation histories `m`, the readings of
/// that identifier, in the order they are reported, are exactly its events
/// in the order they were recorded: the `k`-th carries the date, location
/// and name of the `k`-th event, whatever order the identifiers are
/// reported in.
pub proof fn lemma_events_reported_with_their_dates(
    m: Map<Seq<char>, Seq<CorrelationEventOccurrence>>,
    r: Seq<ReadingView>,
)
    requires
        readings_spec(MetricKind::Correlation, DataView::Correlation(m), r),
    ensures
        forall|id: Seq<char>|
            #[trigger] m.contains_key(id) ==> r.filter(events_of(id)).len() == m[id].len() && forall|k: int|
                0 <= k < m[id].len() ==> #[trigger] r.filter(events_of(id))[k] == (ReadingView::Correlation {
                    time: m[id][k].date,
                    correlation_id: id,
                    location: m[id][k].location@,
                    event: event_name(m[id][k].event),
                }),
{
    let ev = choose|ev: Seq<(Seq<char>, Seq<CorrelationEventOccurrence>)>|
        is_listing(ev, m) && r == #[trigger] all_event_readings(ev);
    assert forall|id: Seq<char>| #[trigger] m.contains_key(id) implies r.filter(events_of(id)).len() == m[id].len()
        && forall|k: int|
        0 <= k < m[id].len() ==> #[trigger] r.filter(events_of(id))[k] == (ReadingView::Correlation {
            time: m[id][k].date,
            correlation_id: id,
            location: m[id][k].location@,
            event: event_name(m[id][k].event),
        }) by {
        let q = choose|q: int| 0 <= q < ev.len() && #[trigger] ev[q].0 == id;
        lemma_all_events_of(ev, id, q);
        assert(ev[q].1 == m[id]);
    }
}

} // verus!
