//! The concurrent maps (`dashmap::DashMap`) in which correlation metrics
//! keep their per-identifier state, and the operations the library makes
//! on them.
//!
//! Four kinds of map are used, each keyed by a correlation identifier:
//! pending start instants, finished durations in `u128` nanoseconds, `u64`
//! counts, and the lists of events seen for an identifier. What each map holds is named by
//! a spec function over the map; the operations below state what they do
//! to it. A `String` key stands for its characters: `String`'s equality and
//! hash are those of its characters.
use vstd::prelude::*;
use dashmap::DashMap;
use std::time::Instant;
use crate::correlation::CorrelationEventOccurrence;

verus! {

/// `dashmap::DashMap`, whose contents are named below.
#[verifier::external_type_specification]
#[verifier::external_body]
#[verifier::reject_recursive_types(K)]
#[verifier::reject_recursive_types(V)]
#[verifier::reject_recursive_types(S)]
pub struct ExDashMap<K, V, S>(DashMap<K, V, S>);

/// The identifiers that have a pending start instant.
pub uninterp spec fn pending_keys(m: DashMap<String, Instant>) -> Set<Seq<char>>;

/// The amount kept for each identifier.
pub uninterp spec fn amounts(m: DashMap<String, u64>) -> Map<Seq<char>, u64>;

/// The finished duration, in nanoseconds, kept for each identifier.
pub uninterp spec fn durations(m: DashMap<String, u128>) -> Map<Seq<char>, u128>;

/// The events kept for each identifier, oldest first.
pub uninterp spec fn event_lists(m: DashMap<String, Vec<CorrelationEventOccurrence>>) -> Map<
    Seq<char>,
    Seq<CorrelationEventOccurrence>,
>;

/// Calls `DashMap::new`: the new map holds no identifier.
#[verifier::external_body]
pub(crate) fn new_pending_map() -> (m: DashMap<String, Instant>)
    ensures
        pending_keys(m) == Set::<Seq<char>>::empty(),
{
    DashMap::new()
}

/// Calls `DashMap::insert`: afterwards `key` is pending (its start instant
/// replaced if it was already pending). The result is the replaced
/// instant, if there was one.
#[verifier::external_body]
pub(crate) fn pending_insert(m: &mut DashMap<String, Instant>, key: String, value: Instant) -> (r:
    Option<Instant>)
    ensures
        pending_keys(*final(m)) == pending_keys(*old(m)).insert(key@),
        r is Some <==> pending_keys(*old(m)).contains(key@),
{
    m.insert(key, value)
}

/// Calls `DashMap::remove`: afterwards `key` is no longer pending. The
/// result holds the stored key and its start instant when `key` was
/// pending, and is `None` otherwise.
#[verifier::external_body]
pub(crate) fn pending_remove(m: &mut DashMap<String, Instant>, key: &str) -> (r: Option<
    (String, Instant),
>)
    ensures
        pending_keys(*final(m)) == pending_keys(*old(m)).remove(key@),
        r is Some <==> pending_keys(*old(m)).contains(key@),
        r matches Some(p) ==> p.0@ == key@,
{
    m.remove(key)
}

/// Calls `DashMap::new`: the new map holds no identifier.
#[verifier::external_body]
pub(crate) fn new_amount_map() -> (m: DashMap<String, u64>)
    ensures
        amounts(m).dom() == Set::<Seq<char>>::empty(),
{
    DashMap::new()
}

/// Calls `DashMap::insert`: afterwards `key` maps to `value`. The result is
/// the value it replaced, if there was one.
#[verifier::external_body]
pub(crate) fn amount_insert(m: &mut DashMap<String, u64>, key: String, value: u64) -> (r: Option<
    u64,
>)
    ensures
        amounts(*final(m)) == amounts(*old(m)).insert(key@, value),
        r == (if amounts(*old(m)).contains_key(key@) {
            Some(amounts(*old(m))[key@])
        } else {
            None
        }),
{
    m.insert(key, value)
}

/// Calls `DashMap::remove`: afterwards `key` maps to nothing. The result
/// holds the stored key and its value when there was one.
#[verifier::external_body]
pub(crate) fn amount_remove(m: &mut DashMap<String, u64>, key: &str) -> (r: Option<(String, u64)>)
    ensures
        amounts(*final(m)) == amounts(*old(m)).remove(key@),
        r is Some <==> amounts(*old(m)).contains_key(key@),
        r matches Some(p) ==> p.0@ == key@ && p.1 == amounts(*old(m))[key@],
{
    m.remove(key)
}

/// Calls `DashMap::contains_key`: whether `key` is pending.
#[verifier::external_body]
pub(crate) fn pending_contains(m: &DashMap<String, Instant>, key: &str) -> (r: bool)
    ensures
        r == pending_keys(*m).contains(key@),
{
    m.contains_key(key)
}

/// Calls `DashMap::len`: the number of pending identifiers.
#[verifier::external_body]
pub(crate) fn pending_len(m: &DashMap<String, Instant>) -> (r: usize)
    ensures
        r == pending_keys(*m).len(),
{
    m.len()
}

/// Calls `DashMap::get` and copies the value out of the entry found: the
/// amount kept for `key`, if there is one.
#[verifier::external_body]
pub(crate) fn amount_get(m: &DashMap<String, u64>, key: &str) -> (r: Option<u64>)
    ensures
        r == (if amounts(*m).contains_key(key@) {
            Some(amounts(*m)[key@])
        } else {
            None
        }),
{
    m.get(key).map(|entry| *entry.value())
}

/// Calls `DashMap::len`: the number of identifiers with an amount.
#[verifier::external_body]
pub(crate) fn amount_len(m: &DashMap<String, u64>) -> (r: usize)
    ensures
        r == amounts(*m).dom().len(),
{
    m.len()
}

/// Consumes the map through `DashMap::into_iter` and collects its entries,
/// in the map's own (unspecified) order: each identifier exactly once,
/// with its value.
#[verifier::external_body]
pub(crate) fn amount_entries(m: DashMap<String, u64>) -> (r: Vec<(String, u64)>)
    ensures
        forall|i: int|
            0 <= i < r@.len() ==> amounts(m).contains_key(#[trigger] r@[i].0@) && amounts(m)[r@[i].0@]
                == r@[i].1,
        forall|i: int, j: int| 0 <= i < j < r@.len() ==> #[trigger] r@[i].0@ != #[trigger] r@[j].0@,
        forall|k: Seq<char>|
            #[trigger] amounts(m).contains_key(k) ==> exists|i: int| 0 <= i < r@.len() && #[trigger] r@[i].0@ == k,
{
    m.into_iter().collect()
}

/// Calls `DashMap::new`: the new map holds no identifier.
#[verifier::external_body]
pub(crate) fn new_duration_map() -> (m: DashMap<String, u128>)
    ensures
        durations(m).dom() == Set::<Seq<char>>::empty(),
{
    DashMap::new()
}

/// Calls `DashMap::insert`: afterwards `key` maps to `value`. The result is
/// the value it replaced, if there was one.
#[verifier::external_body]
pub(crate) fn duration_insert(m: &mut DashMap<String, u128>, key: String, value: u128) -> (r: Option<
    u128,
>)
    ensures
        durations(*final(m)) == durations(*old(m)).insert(key@, value),
        r == (if durations(*old(m)).contains_key(key@) {
            Some(durations(*old(m))[key@])
        } else {
            None
        }),
{
    m.insert(key, value)
}

/// Calls `DashMap::get` and copies the value out of the entry found: the
/// duration kept for `key`, if there is one.
#[verifier::external_body]
pub(crate) fn duration_get(m: &DashMap<String, u128>, key: &str) -> (r: Option<u128>)
    ensures
        r == (if durations(*m).contains_key(key@) {
            Some(durations(*m)[key@])
        } else {
            None
        }),
{
    m.get(key).map(|entry| *entry.value())
}

/// Calls `DashMap::len`: the number of identifiers with a duration.
#[verifier::external_body]
pub(crate) fn duration_len(m: &DashMap<String, u128>) -> (r: usize)
    ensures
        r == durations(*m).dom().len(),
{
    m.len()
}

/// Consumes the map through `DashMap::into_iter` and collects its entries,
/// in the map's own (unspecified) order: each identifier exactly once,
/// with its duration.
#[verifier::external_body]
pub(crate) fn duration_entries(m: DashMap<String, u128>) -> (r: Vec<(String, u128)>)
    ensures
        forall|i: int|
            0 <= i < r@.len() ==> durations(m).contains_key(#[trigger] r@[i].0@) && durations(m)[r@[i].0@]
                == r@[i].1,
        forall|i: int, j: int| 0 <= i < j < r@.len() ==> #[trigger] r@[i].0@ != #[trigger] r@[j].0@,
        forall|k: Seq<char>|
            #[trigger] durations(m).contains_key(k) ==> exists|i: int| 0 <= i < r@.len() && #[trigger] r@[i].0@ == k,
{
    m.into_iter().collect()
}

/// Calls `DashMap::new`: the new map holds no identifier.
#[verifier::external_body]
pub(crate) fn new_event_map() -> (m: DashMap<String, Vec<CorrelationEventOccurrence>>)
    ensures
        event_lists(m).dom() == Set::<Seq<char>>::empty(),
{
    DashMap::new()
}

/// Calls `DashMap::insert`: afterwards `key` maps to the events `value`.
/// The result is the list it replaced, if there was one.
#[verifier::external_body]
pub(crate) fn event_insert(
    m: &mut DashMap<String, Vec<CorrelationEventOccurrence>>,
    key: String,
    value: Vec<CorrelationEventOccurrence>,
) -> (r: Option<Vec<CorrelationEventOccurrence>>)
    ensures
        event_lists(*final(m)) == event_lists(*old(m)).insert(key@, value@),
        r is Some <==> event_lists(*old(m)).contains_key(key@),
        r matches Some(v) ==> v@ == event_lists(*old(m))[key@],
{
    m.insert(key, value)
}

/// Calls `DashMap::remove`: afterwards `key` maps to nothing. The result
/// holds the stored key and its events when there were some.
#[verifier::external_body]
pub(crate) fn event_remove(m: &mut DashMap<String, Vec<CorrelationEventOccurrence>>, key: &str) -> (r:
    Option<(String, Vec<CorrelationEventOccurrence>)>)
    ensures
        event_lists(*final(m)) == event_lists(*old(m)).remove(key@),
        r is Some <==> event_lists(*old(m)).contains_key(key@),
        r matches Some(p) ==> p.0@ == key@ && p.1@ == event_lists(*old(m))[key@],
{
    m.remove(key)
}

/// Consumes the map through `DashMap::into_iter` and collects its entries,
/// in the map's own (unspecified) order: each identifier exactly once,
/// with its events.
#[verifier::external_body]
pub(crate) fn event_entries(m: DashMap<String, Vec<CorrelationEventOccurrence>>) -> (r: Vec<
    (String, Vec<CorrelationEventOccurrence>),
>)
    ensures
        forall|i: int|
            0 <= i < r@.len() ==> event_lists(m).contains_key(#[trigger] r@[i].0@) && event_lists(m)[r@[i].0@]
                == r@[i].1@,
        forall|i: int, j: int| 0 <= i < j < r@.len() ==> #[trigger] r@[i].0@ != #[trigger] r@[j].0@,
        forall|k: Seq<char>|
            #[trigger] event_lists(m).contains_key(k) ==> exists|i: int|
                0 <= i < r@.len() && #[trigger] r@[i].0@ == k,
{
    m.into_iter().collect()
}

} // verus!
