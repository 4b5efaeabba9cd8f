//! A position kept per thread (`thread_local::ThreadLocal` of a
//! `std::cell::Cell`), used to spread the writes of each thread over the
//! buckets of a metric in turn.
//!
//! What a thread reads back depends on which thread reads and on what that
//! thread did before, so nothing is promised of the values read.
use vstd::prelude::*;
use std::cell::Cell;
use thread_local::ThreadLocal;

verus! {

/// `thread_local::ThreadLocal`, carried through as an opaque value.
#[verifier::external_type_specification]
#[verifier::external_body]
#[verifier::reject_recursive_types(T)]
pub struct ExThreadLocal<T: Send>(ThreadLocal<T>);

/// `std::cell::Cell`, carried through as an opaque value.
#[verifier::external_type_specification]
#[verifier::external_body]
#[verifier::reject_recursive_types(T)]
pub struct ExCell<T: ?Sized>(Cell<T>);

/// Calls `ThreadLocal::new`: no thread has a position yet.
#[verifier::external_body]
pub(crate) fn new_thread_positions() -> (r: ThreadLocal<Cell<usize>>) {
    ThreadLocal::new()
}

/// Calls `ThreadLocal::get_or_default`: the calling thread's position,
/// created at 0 on the thread's first call.
#[verifier::external_body]
pub(crate) fn thread_position(positions: &ThreadLocal<Cell<usize>>) -> (r: &Cell<usize>) {
    positions.get_or_default()
}

/// Calls `Cell::get`. Nothing is promised of the value read: it is what
/// the calling thread last stored.
#[verifier::external_body]
pub(crate) fn position_get(cell: &Cell<usize>) -> (r: usize) {
    cell.get()
}

/// Calls `Cell::set`, storing `value` as the calling thread's position.
#[verifier::external_body]
pub(crate) fn position_set(cell: &Cell<usize>, value: usize) {
    cell.set(value)
}

} // verus!
