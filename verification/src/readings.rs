//! Turning the data collected from a metric into the readings that are
//! reported for it.
use vstd::prelude::*;
use chrono::NaiveDateTime;
use crate::correlation::{
    event_name, CorrelationCounterTracker, CorrelationEventOccurrence, CorrelationTimeTracker,
    CorrelationTracker,
};
use crate::data::{DataView, MetricData, MetricKind};

verus! {

/// One reading to report for a metric. Times are UTC dates and times; an
/// `offset` is a number of nanoseconds to add to the time of the
/// collection, so that readings taken together stay distinct.
pub enum MetricReading {
    /// The accumulators of a duration or count metric, from which the mean
    /// and the spread are computed.
    Stats { s: i64, count: usize, sum: i64 },
    Counter { value: i64 },
    CountMax { time: NaiveDateTime, value: i64 },
    Correlation { time: NaiveDateTime, correlation_id: String, location: String, event: &'static str },
    CorrelationTime { offset: u64, correlation_id: String, value: i64 },
    CorrelationAggrTime { value: i64 },
    CorrelationCounter { offset: u64, correlation_id: String, value: i64 },
}

/// What a reading holds, strings taken as their characters.
pub enum ReadingView {
    Stats { s: i64, count: usize, sum: i64 },
    Counter { value: i64 },
    CountMax { time: NaiveDateTime, value: i64 },
    Correlation { time: NaiveDateTime, correlation_id: Seq<char>, location: Seq<char>, event: Seq<char> },
    CorrelationTime { offset: u64, correlation_id: Seq<char>, value: i64 },
    CorrelationAggrTime { value: i64 },
    CorrelationCounter { offset: u64, correlation_id: Seq<char>, value: i64 },
}

impl View for MetricReading {
    type V = ReadingView;

    open spec fn view(&self) -> ReadingView {
        match self {
            MetricReading::Stats { s, count, sum } => ReadingView::Stats { s: *s, count: *count, sum: *sum },
            MetricReading::Counter { value } => ReadingView::Counter { value: *value },
            MetricReading::CountMax { time, value } => ReadingView::CountMax { time: *time, value: *value },
            MetricReading::Correlation { time, correlation_id, location, event } => ReadingView::Correlation {
                time: *time,
                correlation_id: correlation_id@,
                location: location@,
                event: event@,
            },
            MetricReading::CorrelationTime { offset, correlation_id, value } => ReadingView::CorrelationTime {
                offset: *offset,
                correlation_id: correlation_id@,
                value: *value,
            },
            MetricReading::CorrelationAggrTime { value } => ReadingView::CorrelationAggrTime { value: *value },
            MetricReading::CorrelationCounter { offset, correlation_id, value } => ReadingView::CorrelationCounter {
                offset: *offset,
                correlation_id: correlation_id@,
                value: *value,
            },
        }
    }
}

/// The views of a list of readings.
pub open spec fn reading_views(v: Seq<MetricReading>) -> Seq<ReadingView> {
    v.map_values(|r: MetricReading| r@)
}

/// Whether `e` lists the map `m`: every key exactly once, with its value.
pub open spec fn is_listing<V>(e: Seq<(Seq<char>, V)>, m: Map<Seq<char>, V>) -> bool {
    &&& forall|i: int| 0 <= i < e.len() ==> m.contains_key(#[trigger] e[i].0) && m[e[i].0] == e[i].1
    &&& forall|i: int, j: int| 0 <= i < j < e.len() ==> #[trigger] e[i].0 != #[trigger] e[j].0
    &&& forall|k: Seq<char>| #[trigger] m.contains_key(k) ==> exists|i: int| 0 <= i < e.len() && #[trigger] e[i].0 == k
}

/// The readings of the events of one identifier.
pub open spec fn event_readings(id: Seq<char>, events: Seq<CorrelationEventOccurrence>) -> Seq<ReadingView> {
    events.map_values(
        |o: CorrelationEventOccurrence|
            ReadingView::Correlation {
                time: o.date,
                correlation_id: id,
                location: o.location@,
                event: event_name(o.event),
            },
    )
}

/// The readings of the events of every listed identifier, in listing order.
pub open spec fn all_event_readings(e: Seq<(Seq<char>, Seq<CorrelationEventOccurrence>)>) -> Seq<
    ReadingView,
>
    decreases e.len(),
{
    if e.len() == 0 {
        Seq::empty()
    } else {
        all_event_readings(e.drop_last()) + event_readings(e.last().0, e.last().1)
    }
}

/// The readings of listed finished durations, each at its own offset.
pub open spec fn time_readings(e: Seq<(Seq<char>, u128)>) -> Seq<ReadingView> {
    Seq::new(
        e.len(),
        |i: int| ReadingView::CorrelationTime { offset: (i + 1) as u64, correlation_id: e[i].0, value: e[i].1 as i64 },
    )
}

/// The readings of listed correlation counters, each at its own offset.
pub open spec fn counter_readings(e: Seq<(Seq<char>, u64)>) -> Seq<ReadingView> {
    Seq::new(
        e.len(),
        |i: int|
            ReadingView::CorrelationCounter { offset: (i + 1) as u64, correlation_id: e[i].0, value: e[i].1 as i64 },
    )
}

/// The sum of the listed durations, in nanoseconds, adding in listing
/// order and wrapping around at 2^128.
pub open spec fn amount_total(e: Seq<(Seq<char>, u128)>) -> u128
    decreases e.len(),
{
    if e.len() == 0 {
        0
    } else {
        vstd::wrapping::u128_specs::wrapping_add(amount_total(e.drop_last()), e.last().1)
    }
}

/// The mean of the listed durations: their sum divided by their number,
/// rounded down (0 when there are none).
pub open spec fn amount_mean(e: Seq<(Seq<char>, u128)>) -> u128 {
    if e.len() == 0 {
        0
    } else {
        (amount_total(e) / (e.len() as u128)) as u128
    }
}

/// Whether entry `a` of `counts` comes before entry `b` when ordered by
/// count, largest first, equal counts in their original order.
pub open spec fn ranks_before(counts: Seq<(u64, NaiveDateTime)>, a: int, b: int) -> bool {
    counts[a].0 > counts[b].0 || (counts[a].0 == counts[b].0 && a < b)
}

/// Whether `p` orders all the positions of `counts` by count, largest
/// first, equal counts in their original order.
pub open spec fn is_rank_order(p: Seq<int>, counts: Seq<(u64, NaiveDateTime)>) -> bool {
    &&& p.len() == counts.len()
    &&& forall|i: int| 0 <= i < p.len() ==> 0 <= #[trigger] p[i] < counts.len()
    &&& forall|i: int, j: int| 0 <= i < j < p.len() ==> ranks_before(counts, #[trigger] p[i], #[trigger] p[j])
}

/// Whether `r` reports, in rank order, the `max` largest counts of `counts`
/// (all of them if there are fewer).
pub open spec fn reports_largest(r: Seq<ReadingView>, counts: Seq<(u64, NaiveDateTime)>, max: usize) -> bool {
    &&& r.len() == if counts.len() < max { counts.len() } else { max as nat }
    &&& exists|p: Seq<int>|
        is_rank_order(p, counts) && forall|i: int|
            0 <= i < r.len() ==> #[trigger] r[i] == (ReadingView::CountMax {
                time: counts[p[i]].1,
                value: counts[p[i]].0 as i64,
            })
}

/// Whether `r` are the readings reported for the collected data `d` of a
/// metric of kind `k`. A map is reported entry by entry in some listing of
/// its entries (each key once); the order of that listing is left open.
pub open spec fn readings_spec(
    k: MetricKind,
    d: DataView,
    r: Seq<ReadingView>,
) -> bool {
    match d {
        DataView::Duration(w) | DataView::Count(w) => if w.count < 1 {
            r == Seq::<ReadingView>::empty()
        } else {
            r == seq![ReadingView::Stats { s: w.s, count: w.count, sum: w.sum }]
        },
        DataView::Counter(c) => r == seq![ReadingView::Counter { value: c as i64 }],
        DataView::Correlation(m) => exists|ev: Seq<(Seq<char>, Seq<CorrelationEventOccurrence>)>|
            is_listing(ev, m) && r == #[trigger] all_event_readings(ev),
        DataView::CorrelationDurationTracker(t) => exists|am: Seq<(Seq<char>, u128)>|
            is_listing(am, t.accumulated) && r == #[trigger] time_readings(am),
        DataView::CorrelationAggrDurationTracker(t) => exists|am: Seq<(Seq<char>, u128)>|
            is_listing(am, t.accumulated) && r == seq![
                ReadingView::CorrelationAggrTime { value: #[trigger] amount_mean(am) as i64 },
            ],
        DataView::CountMax(counts) => match k {
            MetricKind::CountMax(max) => if counts.len() == 0 {
                r == Seq::<ReadingView>::empty()
            } else {
                reports_largest(r, counts, max)
            },
            _ => r == Seq::<ReadingView>::empty(),
        },
        DataView::CounterCorrelation(m) => exists|am: Seq<(Seq<char>, u64)>|
            is_listing(am, m) && r == #[trigger] counter_readings(am),
    }
}

/// The key views of listed entries.
pub open spec fn entry_views<V>(e: Seq<(String, V)>) -> Seq<(Seq<char>, V)> {
    e.map_values(|x: (String, V)| (x.0@, x.1))
}

/// The key and list views of listed event entries.
pub open spec fn event_entry_views(e: Seq<(String, Vec<CorrelationEventOccurrence>)>) -> Seq<
    (Seq<char>, Seq<CorrelationEventOccurrence>),
> {
    e.map_values(|x: (String, Vec<CorrelationEventOccurrence>)| (x.0@, x.1@))
}

/// The positions of `counts` ordered by count, largest first, equal counts
/// in their original order.
fn rank_order(counts: &Vec<(u64, NaiveDateTime)>) -> (r: Vec<usize>)
    ensures
        is_rank_order(r@.map_values(|i: usize| i as int), counts@),
{
    let n = counts.len();
    let mut order: Vec<usize> = Vec::with_capacity(n);
    let mut i: usize = 0;
    while i < n
        invariant
            n == counts@.len(),
            i <= n,
            order@.len() == i,
            forall|x: int| 0 <= x < i ==> #[trigger] order@[x] < i,
            forall|x: int, y: int| 0 <= x < y < i ==> ranks_before(counts@, #[trigger] order@[x] as int, #[trigger] order@[y] as int),
        decreases n - i,
    {
        let c = counts[i].0;
        let mut pos: usize = 0;
        while pos < order.len() && counts[order[pos]].0 >= c
            invariant
                n == counts@.len(),
                i < n,
                order@.len() == i,
                pos <= i,
                forall|x: int| 0 <= x < i ==> #[trigger] order@[x] < i,
                forall|x: int| 0 <= x < pos ==> counts@[#[trigger] order@[x] as int].0 >= c,
            decreases i - pos,
        {
            pos = pos + 1;
        }
        let ghost before = order@;
        proof {
            assert forall|y: int| pos <= y < i implies counts@[#[trigger] before[y] as int].0 < c by {
                assert(ranks_before(counts@, before[pos as int] as int, before[y] as int) || y == pos);
            }
        }
        order.insert(pos, i);
        proof {
            assert forall|x: int| 0 <= x <= i implies #[trigger] order@[x] < i + 1 by {
                if x < pos {
                    assert(order@[x] == before[x]);
                } else if x > pos {
                    assert(order@[x] == before[x - 1]);
                }
            }
            assert forall|x: int, y: int| 0 <= x < y <= i implies ranks_before(
                counts@,
                #[trigger] order@[x] as int,
                #[trigger] order@[y] as int,
            ) by {
                if x < pos {
                    assert(order@[x] == before[x]);
                    if y < pos {
                        assert(order@[y] == before[y]);
                    } else if y > pos {
                        assert(order@[y] == before[y - 1]);
                    }
                } else if x == pos {
                    assert(order@[y] == before[y - 1]);
                } else {
                    assert(order@[x] == before[x - 1]);
                    assert(order@[y] == before[y - 1]);
                }
            }
        }
        i = i + 1;
    }
    order
}

/// The readings of the `max` largest counts (all of them if there are
/// fewer), largest first, equal counts in the order they were stored.
pub fn largest_counts(counts: Vec<(u64, NaiveDateTime)>, max: usize) -> (r: Vec<MetricReading>)
    ensures
        reports_largest(reading_views(r@), counts@, max),
{
    let order = rank_order(&counts);
    let ghost p = order@.map_values(|i: usize| i as int);
    let n = counts.len();
    let limit = if n < max { n } else { max };
    let mut r: Vec<MetricReading> = Vec::with_capacity(limit);
    let mut i: usize = 0;
    while i < limit
        invariant
            n == counts@.len(),
            order@.len() == n,
            limit <= n,
            i <= limit,
            is_rank_order(p, counts@),
            p == order@.map_values(|i: usize| i as int),
            r@.len() == i,
            forall|x: int| 0 <= x < i ==> #[trigger] reading_views(r@)[x] == (ReadingView::CountMax {
                time: counts@[p[x]].1,
                value: counts@[p[x]].0 as i64,
            }),
        decreases limit - i,
    {
        let at = order[i];
        assert(p[i as int] == at as int);
        let (count, time) = counts[at];
        let ghost old_r = r@;
        r.push(MetricReading::CountMax { time, value: count as i64 });
        assert(reading_views(r@)[i as int] == r@[i as int]@);
        assert forall|x: int| 0 <= x < i + 1 implies #[trigger] reading_views(r@)[x] == (ReadingView::CountMax {
            time: counts@[p[x]].1,
            value: counts@[p[x]].0 as i64,
        }) by {
            assert(reading_views(r@)[x] == r@[x]@);
            if x < i {
                assert(r@[x] == old_r[x]);
                assert(reading_views(old_r)[x] == old_r[x]@);
            }
        }
        i = i + 1;
    }
    assert(reading_views(r@).len() == limit);
    r
}

/// The readings of the finished durations of a time tracker, each at its
/// own offset.
fn duration_readings(tracker: CorrelationTimeTracker) -> (r: Vec<MetricReading>)
    ensures
        exists|am: Seq<(Seq<char>, u128)>|
            is_listing(am, tracker@.accumulated) && reading_views(r@) == #[trigger] time_readings(am),
{
    let entries = tracker.into_finished();
    let ghost am = entry_views(entries@);
    let n = entries.len();
    let mut r: Vec<MetricReading> = Vec::with_capacity(n);
    let mut entries = entries;
    let ghost all = entries@;
    let mut i: usize = 0;
    while i < n
        invariant
            n == all.len(),
            i <= n,
            r@.len() == i,
            entries@.len() == n,
            forall|x: int| i <= x < n ==> #[trigger] entries@[x] == all[x],
            forall|x: int| 0 <= x < i ==> #[trigger] reading_views(r@)[x] == time_readings(entry_views(all))[x],
        decreases n - i,
    {
        let mut taken = (String::new(), 0u128);
        std::mem::swap(&mut taken, &mut entries[i]);
        let (id, nanos) = taken;
        let ghost old_r = r@;
        r.push(MetricReading::CorrelationTime { offset: (i + 1) as u64, correlation_id: id, value: nanos as i64 });
        assert forall|x: int| 0 <= x < i + 1 implies #[trigger] reading_views(r@)[x] == time_readings(entry_views(all))[x] by {
            assert(reading_views(r@)[x] == r@[x]@);
            if x < i {
                assert(r@[x] == old_r[x]);
                assert(reading_views(old_r)[x] == old_r[x]@);
            } else {
                assert(entry_views(all)[x] == (all[x].0@, all[x].1));
            }
        }
        i = i + 1;
    }
    proof {
        assert(reading_views(r@) =~= time_readings(am));
    }
    r
}

/// The readings of the amounts of a correlation counter map, each at its
/// own offset.
fn correlation_counter_readings(tracker: CorrelationCounterTracker) -> (r: Vec<MetricReading>)
    ensures
        exists|am: Seq<(Seq<char>, u64)>|
            is_listing(am, tracker@) && reading_views(r@) == #[trigger] counter_readings(am),
{
    let entries = tracker.into_counts();
    let ghost am = entry_views(entries@);
    let n = entries.len();
    let mut r: Vec<MetricReading> = Vec::with_capacity(n);
    let mut entries = entries;
    let ghost all = entries@;
    let mut i: usize = 0;
    while i < n
        invariant
            n == all.len(),
            i <= n,
            r@.len() == i,
            entries@.len() == n,
            forall|x: int| i <= x < n ==> #[trigger] entries@[x] == all[x],
            forall|x: int| 0 <= x < i ==> #[trigger] reading_views(r@)[x] == counter_readings(entry_views(all))[x],
        decreases n - i,
    {
        let mut taken = (String::new(), 0u64);
        std::mem::swap(&mut taken, &mut entries[i]);
        let (id, count) = taken;
        let ghost old_r = r@;
        r.push(MetricReading::CorrelationCounter { offset: (i + 1) as u64, correlation_id: id, value: count as i64 });
        assert forall|x: int| 0 <= x < i + 1 implies #[trigger] reading_views(r@)[x] == counter_readings(entry_views(all))[x] by {
            assert(reading_views(r@)[x] == r@[x]@);
            if x < i {
                assert(r@[x] == old_r[x]);
                assert(reading_views(old_r)[x] == old_r[x]@);
            } else {
                assert(entry_views(all)[x] == (all[x].0@, all[x].1));
            }
        }
        i = i + 1;
    }
    proof {
        assert(reading_views(r@) =~= counter_readings(am));
    }
    r
}

/// Entries handed out for a map list it.
pub(crate) proof fn lemma_entry_listing<V>(all: Seq<(String, V)>, m: Map<Seq<char>, V>)
    requires
        forall|i: int| 0 <= i < all.len() ==> m.contains_key(#[trigger] all[i].0@) && m[all[i].0@] == all[i].1,
        forall|i: int, j: int| 0 <= i < j < all.len() ==> #[trigger] all[i].0@ != #[trigger] all[j].0@,
        forall|k: Seq<char>| #[trigger] m.contains_key(k) ==> exists|i: int| 0 <= i < all.len() && #[trigger] all[i].0@ == k,
    ensures
        is_listing(entry_views(all), m),
{
    let am = entry_views(all);
    assert forall|k: Seq<char>| #[trigger] m.contains_key(k) implies exists|i: int|
        0 <= i < am.len() && #[trigger] am[i].0 == k by {
        let i = choose|i: int| 0 <= i < all.len() && #[trigger] all[i].0@ == k;
        assert(am[i].0 == k);
    }
    assert forall|i: int, j: int| 0 <= i < j < am.len() implies #[trigger] am[i].0 != #[trigger] am[j].0 by {
        assert(am[i].0 == all[i].0@);
        assert(am[j].0 == all[j].0@);
    }
    assert forall|i: int| 0 <= i < am.len() implies m.contains_key(#[trigger] am[i].0) && m[am[i].0] == am[i].1 by {
        assert(am[i] == (all[i].0@, all[i].1));
    }
}

/// The mean (rounded down) of the finished durations of a time tracker,
/// reported as one reading.
fn aggregated_reading(tracker: CorrelationTimeTracker) -> (r: MetricReading)
    ensures
        exists|am: Seq<(Seq<char>, u128)>|
            is_listing(am, tracker@.accumulated) && r@ == (ReadingView::CorrelationAggrTime {
                value: #[trigger] amount_mean(am) as i64,
            }),
{
    let entries = tracker.into_finished();
    let ghost all = entries@;
    let ghost am = entry_views(all);
    let n = entries.len();
    let mut total: u128 = 0;
    let mut i: usize = 0;
    while i < n
        invariant
            n == all.len(),
            entries@ == all,
            am == entry_views(all),
            i <= n,
            total == amount_total(am.take(i as int)),
        decreases n - i,
    {
        let v = entries[i].1;
        assert(am.take(i + 1).drop_last() == am.take(i as int));
        assert(am[i as int].1 == v);
        total = total.wrapping_add(v);
        i = i + 1;
    }
    assert(am.take(n as int) == am);
    let mean: u128 = if n == 0 { 0 } else { total / (n as u128) };
    proof {
        if n == 0 {
            assert(amount_total(am) == 0);
        }
        assert(am.len() == n);
        assert(mean == amount_mean(am));
    }
    let r = MetricReading::CorrelationAggrTime { value: mean as i64 };
    assert(r@ == (ReadingView::CorrelationAggrTime { value: amount_mean(am) as i64 }));
    r
}

/// The readings of the events of every identifier of a correlation
/// tracker, identifier by identifier, each identifier's events oldest first.
fn correlation_readings(tracker: CorrelationTracker) -> (r: Vec<MetricReading>)
    ensures
        exists|ev: Seq<(Seq<char>, Seq<CorrelationEventOccurrence>)>|
            is_listing(ev, tracker@) && reading_views(r@) == #[trigger] all_event_readings(ev),
{
    let entries = tracker.into_entries();
    let ghost all = entries@;
    let ghost ev = event_entry_views(all);
    let n = entries.len();
    let mut entries = entries;
    let mut r: Vec<MetricReading> = Vec::new();
    let mut i: usize = 0;
    while i < n
        invariant
            n == all.len(),
            i <= n,
            entries@.len() == n,
            ev == event_entry_views(all),
            forall|x: int| i <= x < n ==> #[trigger] entries@[x] == all[x],
            reading_views(r@) == all_event_readings(ev.take(i as int)),
        decreases n - i,
    {
        let mut taken: (String, Vec<CorrelationEventOccurrence>) = (String::new(), Vec::new());
        std::mem::swap(&mut taken, &mut entries[i]);
        let (id, events) = taken;
        let ghost evs = events@;
        let ghost prefix = reading_views(r@);
        let mut events = events;
        let mut j: usize = 0;
        let m = events.len();
        while events.len() > 0
            invariant
                m == evs.len(),
                j <= m,
                events@ == evs.skip(j as int),
                reading_views(r@) == prefix + event_readings(id@, evs.take(j as int)),
            decreases events@.len(),
        {
            let o = events.remove(0);
            assert(o == evs[j as int]);
            let CorrelationEventOccurrence { date, event, location } = o;
            let ghost old_r = r@;
            r.push(MetricReading::Correlation { time: date, correlation_id: id.clone(), location, event: event.name() });
            proof {
                assert(evs.take(j + 1) == evs.take(j as int).push(evs[j as int]));
                assert(reading_views(r@) =~= reading_views(old_r).push(r@[old_r.len() as int]@));
                assert(event_readings(id@, evs.take(j + 1)) =~= event_readings(id@, evs.take(j as int)).push(
                    r@[old_r.len() as int]@,
                ));
                assert(evs.skip(j + 1) =~= evs.skip(j as int).remove(0));
            }
            j = j + 1;
        }
        proof {
            assert(j == m);
            assert(evs.take(m as int) == evs);
            assert(ev.take(i + 1).drop_last() == ev.take(i as int));
            assert(ev[i as int] == (all[i as int].0@, all[i as int].1@));
            assert(ev.take(i + 1).last() == ev[i as int]);
        }
        i = i + 1;
    }
    proof {
        assert(ev.take(n as int) == ev);
    }
    r
}

/// Event entries handed out for a map list it.
pub(crate) proof fn lemma_event_listing(
    all: Seq<(String, Vec<CorrelationEventOccurrence>)>,
    m: Map<Seq<char>, Seq<CorrelationEventOccurrence>>,
)
    requires
        forall|i: int| 0 <= i < all.len() ==> m.contains_key(#[trigger] all[i].0@) && m[all[i].0@] == all[i].1@,
        forall|i: int, j: int| 0 <= i < j < all.len() ==> #[trigger] all[i].0@ != #[trigger] all[j].0@,
        forall|k: Seq<char>| #[trigger] m.contains_key(k) ==> exists|i: int| 0 <= i < all.len() && #[trigger] all[i].0@ == k,
    ensures
        is_listing(event_entry_views(all), m),
{
    let ev = event_entry_views(all);
    assert forall|k: Seq<char>| #[trigger] m.contains_key(k) implies exists|i: int|
        0 <= i < ev.len() && #[trigger] ev[i].0 == k by {
        let i = choose|i: int| 0 <= i < all.len() && #[trigger] all[i].0@ == k;
        assert(ev[i].0 == k);
    }
    assert forall|i: int, j: int| 0 <= i < j < ev.len() implies #[trigger] ev[i].0 != #[trigger] ev[j].0 by {
        assert(ev[i].0 == all[i].0@);
        assert(ev[j].0 == all[j].0@);
    }
    assert forall|i: int| 0 <= i < ev.len() implies m.contains_key(#[trigger] ev[i].0) && m[ev[i].0] == ev[i].1 by {
        assert(ev[i] == (all[i].0@, all[i].1@));
    }
}

/// The readings reported for the data `data` collected from a metric of
/// kind `kind`.
pub fn readings_for(kind: &MetricKind, data: MetricData) -> (r: Vec<MetricReading>)
    ensures
        readings_spec(*kind, data@, reading_views(r@)),
{
    match data {
        MetricData::Duration(w) | MetricData::Count(w) => {
            if w.count < 1 {
                let r: Vec<MetricReading> = Vec::new();
                assert(reading_views(r@) =~= Seq::<ReadingView>::empty());
                r
            } else {
                let r = vec![MetricReading::Stats { s: w.s, count: w.count, sum: w.sum }];
                assert(reading_views(r@) =~= seq![ReadingView::Stats { s: w.s, count: w.count, sum: w.sum }]);
                r
            }
        },
        MetricData::Counter(c) => {
            let r = vec![MetricReading::Counter { value: c as i64 }];
            assert(reading_views(r@) =~= seq![ReadingView::Counter { value: c as i64 }]);
            r
        },
        MetricData::Correlation(tracker) => correlation_readings(tracker),
        MetricData::CorrelationDurationTracker(tracker) => duration_readings(tracker),
        MetricData::CorrelationAggrDurationTracker(tracker) => {
            let reading = aggregated_reading(tracker);
            let ghost rv = reading@;
            let r = vec![reading];
            assert(reading_views(r@) =~= seq![rv]);
            r
        },
        MetricData::CountMax(counts) => {
            match kind {
                MetricKind::CountMax(max) => {
                    if counts.len() == 0 {
                        let r: Vec<MetricReading> = Vec::new();
                        assert(reading_views(r@) =~= Seq::<ReadingView>::empty());
                        r
                    } else {
                        largest_counts(counts, *max)
                    }
                },
                _ => {
                    let r: Vec<MetricReading> = Vec::new();
                    assert(reading_views(r@) =~= Seq::<ReadingView>::empty());
                    r
                },
            }
        },
        MetricData::CounterCorrelation(tracker) => correlation_counter_readings(tracker),
    }
}

} // verus!
