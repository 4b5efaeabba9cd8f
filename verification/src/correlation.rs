//! Per-identifier state of the correlation metrics: the event history of
//! each correlation identifier, the pending and finished time measurements
//! of each identifier, and a counter per identifier.
use vstd::prelude::*;
use chrono::NaiveDateTime;
use dashmap::DashMap;
use std::time::{Duration, Instant};
use crate::clock::{duration_as_nanos, duration_nanos, instant_elapsed, instant_now};
use crate::readings::{
    entry_views, event_entry_views, is_listing, lemma_entry_listing, lemma_event_listing,
};
use crate::shared_map::{
    amount_entries, amount_get, amount_len, duration_entries, duration_get, duration_insert, duration_len,
    durations, event_entries, new_duration_map, pending_contains, pending_len,
    amount_insert, amount_remove, amounts, event_insert, event_lists, event_remove, new_amount_map,
    new_event_map, new_pending_map, pending_insert, pending_keys, pending_remove,
};

verus! {

/// What happened to a correlation identifier at some location.
pub enum CorrelationEvent {
    Initialized,
    Passed,
    /// The identifier was wrapped into the identifier of another metric.
    Encapsulated(usize, String),
    Decapsulated,
    Ended,
}

/// The name under which an event is reported.
pub open spec fn event_name(e: CorrelationEvent) -> Seq<char> {
    match e {
        CorrelationEvent::Initialized => "Initialized"@,
        CorrelationEvent::Passed => "Passed"@,
        CorrelationEvent::Encapsulated(_, _) => "Encapsulated"@,
        CorrelationEvent::Decapsulated => "Decapsulated"@,
        CorrelationEvent::Ended => "Ended"@,
    }
}

impl CorrelationEvent {
    /// The name under which the event is reported (the encapsulation
    /// target is not part of it).
    pub fn name(&self) -> (r: &'static str)
        ensures
            r@ == event_name(*self),
    {
        match self {
            CorrelationEvent::Initialized => "Initialized",
            CorrelationEvent::Passed => "Passed",
            CorrelationEvent::Encapsulated(_, _) => "Encapsulated",
            CorrelationEvent::Decapsulated => "Decapsulated",
            CorrelationEvent::Ended => "Ended",
        }
    }
}

/// One event of a correlation identifier: when (date and time, UTC), what,
/// and where.
pub struct CorrelationEventOccurrence {
    pub date: NaiveDateTime,
    pub event: CorrelationEvent,
    pub location: String,
}

/// The event history of each correlation identifier.
pub struct CorrelationTracker {
    map: DashMap<String, Vec<CorrelationEventOccurrence>>,
}

/// The history of `key` once `o` is appended to it.
pub open spec fn with_event(
    m: Map<Seq<char>, Seq<CorrelationEventOccurrence>>,
    key: Seq<char>,
    o: CorrelationEventOccurrence,
) -> Map<Seq<char>, Seq<CorrelationEventOccurrence>> {
    let prev = if m.contains_key(key) { m[key] } else { Seq::empty() };
    m.insert(key, prev.push(o))
}

impl View for CorrelationTracker {
    type V = Map<Seq<char>, Seq<CorrelationEventOccurrence>>;

    closed spec fn view(&self) -> Self::V {
        event_lists(self.map)
    }
}

impl CorrelationTracker {
    /// A tracker with no history.
    pub fn new() -> (r: Self)
        ensures
            r@ == Map::<Seq<char>, Seq<CorrelationEventOccurrence>>::empty(),
    {
        CorrelationTracker { map: new_event_map() }
    }

    /// Appends `occurrence` to the history of `id`.
    pub fn record(&mut self, id: String, occurrence: CorrelationEventOccurrence)
        ensures
            final(self)@ == with_event(old(self)@, id@, occurrence),
    {
        let ghost before = self@;
        let mut events: Vec<CorrelationEventOccurrence> = match event_remove(
            &mut self.map,
            id.as_str(),
        ) {
            Some(pair) => pair.1,
            None => Vec::new(),
        };
        events.push(occurrence);
        let _ = event_insert(&mut self.map, id, events);
        assert(self@ =~= with_event(before, id@, occurrence));
    }
}

impl CorrelationTracker {
    /// Consumes the tracker and lists its histories, in an order left open:
    /// each identifier once, with its events oldest first.
    pub fn into_entries(self) -> (r: Vec<(String, Vec<CorrelationEventOccurrence>)>)
        ensures
            is_listing(event_entry_views(r@), self@),
    {
        let r = event_entries(self.map);
        proof {
            lemma_event_listing(r@, self@);
        }
        r
    }
}

/// The time measurements of each correlation identifier: the start
/// instants still pending and the durations (in nanoseconds) of the
/// finished ones.
pub struct CorrelationTimeTracker {
    time_track: DashMap<String, Instant>,
    accumulated: DashMap<String, u128>,
}

/// What a time tracker holds: the pending identifiers and the finished
/// durations in nanoseconds.
pub struct TimeTrackerView {
    pub pending: Set<Seq<char>>,
    pub accumulated: Map<Seq<char>, u128>,
}

impl View for CorrelationTimeTracker {
    type V = TimeTrackerView;

    closed spec fn view(&self) -> Self::V {
        TimeTrackerView { pending: pending_keys(self.time_track), accumulated: durations(self.accumulated) }
    }
}

impl CorrelationTimeTracker {
    /// A tracker with nothing pending and nothing finished.
    pub fn new() -> (r: Self)
        ensures
            r@.pending == Set::<Seq<char>>::empty(),
            r@.accumulated == Map::<Seq<char>, u128>::empty(),
    {
        CorrelationTimeTracker { time_track: new_pending_map(), accumulated: new_duration_map() }
    }

    /// Starts (or restarts) the measurement of `id`.
    pub fn start(&mut self, id: String)
        ensures
            final(self)@.pending == old(self)@.pending.insert(id@),
            final(self)@.accumulated == old(self)@.accumulated,
    {
        let now = instant_now();
        let _ = pending_insert(&mut self.time_track, id, now);
    }

    /// Ends the measurement of `id`, if one is pending: its elapsed time, in
    /// whole nanoseconds, becomes the finished
    /// duration of `id` (replacing an earlier one).
    /// When none is pending nothing changes.
    pub fn end(&mut self, id: &str)
        ensures
            final(self)@.pending == old(self)@.pending.remove(id@),
            old(self)@.pending.contains(id@) ==> exists|elapsed: Duration|
                final(self)@.accumulated == #[trigger] old(self)@.accumulated.insert(id@, duration_nanos(elapsed)),
            !old(self)@.pending.contains(id@) ==> final(self)@.accumulated == old(self)@.accumulated,
    {
        match pending_remove(&mut self.time_track, id) {
            Some(pair) => {
                let (correlation, init_time) = pair;
                let elapsed = instant_elapsed(&init_time);
                let nanos: u128 = duration_as_nanos(&elapsed);
                let _ = duration_insert(&mut self.accumulated, correlation, nanos);
                assert(durations(self.accumulated) == old(self)@.accumulated.insert(id@, duration_nanos(elapsed)));
            },
            None => {},
        }
    }

    /// The start instants of the pending measurements.
    pub closed spec fn start_instants(&self) -> DashMap<String, Instant> {
        self.time_track
    }

    /// Whether a measurement of `id` is pending.
    pub fn is_pending(&self, id: &str) -> (r: bool)
        ensures
            r == self@.pending.contains(id@),
    {
        pending_contains(&self.time_track, id)
    }

    /// The number of pending measurements.
    pub fn pending_count(&self) -> (r: usize)
        ensures
            r == self@.pending.len(),
    {
        pending_len(&self.time_track)
    }

    /// The finished duration of `id` in nanoseconds, if there is one.
    pub fn finished(&self, id: &str) -> (r: Option<u128>)
        ensures
            r == (if self@.accumulated.contains_key(id@) {
                Some(self@.accumulated[id@])
            } else {
                None
            }),
    {
        duration_get(&self.accumulated, id)
    }

    /// The number of finished durations.
    pub fn finished_count(&self) -> (r: usize)
        ensures
            r == self@.accumulated.dom().len(),
    {
        duration_len(&self.accumulated)
    }

    /// Consumes the tracker and lists its finished durations, in an order
    /// left open: each identifier once, with its duration in nanoseconds.
    pub fn into_finished(self) -> (r: Vec<(String, u128)>)
        ensures
            is_listing(entry_views(r@), self@.accumulated),
    {
        let r = duration_entries(self.accumulated);
        proof {
            lemma_entry_listing(r@, self@.accumulated);
        }
        r
    }

    /// Splits the tracker in two: the returned one holds the finished
    /// durations and nothing pending, `self` keeps the pending
    /// measurements, with their start instants, and no finished duration.
    pub fn split_finished(&mut self) -> (r: Self)
        ensures
            final(self).start_instants() == old(self).start_instants(),
            final(self)@.pending == old(self)@.pending,
            final(self)@.accumulated == Map::<Seq<char>, u128>::empty(),
            r@.pending == Set::<Seq<char>>::empty(),
            r@.accumulated == old(self)@.accumulated,
    {
        let mut finished = new_duration_map();
        std::mem::swap(&mut finished, &mut self.accumulated);
        CorrelationTimeTracker { time_track: new_pending_map(), accumulated: finished }
    }
}

/// A counter per correlation identifier.
pub struct CorrelationCounterTracker {
    counter_track: DashMap<String, u64>,
}

/// The counters once `id`'s counter has been increased by `by` (wrapping),
/// a missing counter counting as zero.
pub open spec fn with_increment(m: Map<Seq<char>, u64>, id: Seq<char>, by: u64) -> Map<Seq<char>, u64> {
    let prev: u64 = if m.contains_key(id) { m[id] } else { 0 };
    m.insert(id, vstd::wrapping::u64_specs::wrapping_add(prev, by))
}

impl View for CorrelationCounterTracker {
    type V = Map<Seq<char>, u64>;

    closed spec fn view(&self) -> Self::V {
        amounts(self.counter_track)
    }
}

impl CorrelationCounterTracker {
    /// A tracker with no counter.
    pub fn new() -> (r: Self)
        ensures
            r@ == Map::<Seq<char>, u64>::empty(),
    {
        CorrelationCounterTracker { counter_track: new_amount_map() }
    }

    /// Increases the counter of `id` by `by` (wrapping).
    pub fn increment(&mut self, id: String, by: u64)
        ensures
            final(self)@ == with_increment(old(self)@, id@, by),
    {
        let prev: u64 = match amount_remove(&mut self.counter_track, id.as_str()) {
            Some(pair) => pair.1,
            None => 0,
        };
        let _ = amount_insert(&mut self.counter_track, id, prev.wrapping_add(by));
        assert(self@ =~= with_increment(old(self)@, id@, by));
    }
}

impl CorrelationCounterTracker {
    /// The counter of `id`, if it has one.
    pub fn count_of(&self, id: &str) -> (r: Option<u64>)
        ensures
            r == (if self@.contains_key(id@) {
                Some(self@[id@])
            } else {
                None
            }),
    {
        amount_get(&self.counter_track, id)
    }

    /// The number of identifiers with a counter.
    pub fn counter_count(&self) -> (r: usize)
        ensures
            r == self@.dom().len(),
    {
        amount_len(&self.counter_track)
    }

    /// Consumes the tracker and lists its counters, in an order left open:
    /// each identifier once, with its counter.
    pub fn into_counts(self) -> (r: Vec<(String, u64)>)
        ensures
            is_listing(entry_views(r@), self@),
    {
        let r = amount_entries(self.counter_track);
        proof {
            lemma_entry_listing(r@, self@);
        }
        r
    }
}

} // verus!
