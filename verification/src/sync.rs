//! Synchronisation primitives the engine is built on.
//!
//! The registry lock is `antidote::Mutex`, a mutex that never reports
//! poisoning; the reentrancy counter of a reader lives in a `std::cell::Cell`.
//! Neither is verified here: this module declares the types and states, for
//! each function the engine calls, what is taken on trust. Values held behind
//! a lock or inside a cell are shared with other handles, so nothing is
//! claimed about what a read returns. Reading and writing a cell go through
//! `cell_get` and `cell_set`, which add that the calls do not unwind: a
//! guard that is dropped relies on it.

use vstd::prelude::*;
use std::cell::Cell;
use std::sync::Arc;
use antidote::Mutex;
use antidote::MutexGuard;

verus! {

/// `antidote::Mutex<T>`: a mutual-exclusion lock around a `T`. Opaque to the
/// verifier.
#[verifier::external_type_specification]
#[verifier::external_body]
#[verifier::reject_recursive_types(T)]
pub struct ExMutex<T: ?Sized>(Mutex<T>);

/// `antidote::MutexGuard<'a, T>`: proof of holding the lock, released when
/// dropped. Opaque to the verifier.
#[verifier::external_type_specification]
#[verifier::external_body]
#[verifier::reject_recursive_types(T)]
pub struct ExMutexGuard<'a, T: ?Sized + 'a>(MutexGuard<'a, T>);

/// `std::cell::Cell<T>`: a single-threaded mutable slot. Opaque to the
/// verifier.
#[verifier::external_type_specification]
#[verifier::external_body]
#[verifier::reject_recursive_types(T)]
pub struct ExCell<T: ?Sized>(Cell<T>);

/// `antidote::Mutex::new` wraps a value in a fresh, unlocked mutex. It always
/// returns; nothing is claimed about the mutex.
pub assume_specification<T>[ Mutex::<T>::new ](t: T) -> (m: Mutex<T>);

/// `antidote::Mutex::lock` blocks until the lock is held and returns the
/// guard; a poisoned lock is entered all the same. Nothing is claimed about
/// the protected value, which other threads may have changed. A thread that
/// holds the lock must not take it again; the engine never does, as it
/// calls nothing but its own functions on plain values while it holds one.
pub assume_specification<'a, T: ?Sized>[ Mutex::<T>::lock ](m: &'a Mutex<T>) -> (g: MutexGuard<
    'a,
    T,
>);

/// `Deref::deref` of `antidote::MutexGuard` hands out the protected value for
/// reading. Nothing is claimed about it.
pub assume_specification<'a, 'b, T: ?Sized>[ <MutexGuard<'a, T> as std::ops::Deref>::deref ](
    g: &'b MutexGuard<'a, T>,
) -> (t: &'b T);

/// `DerefMut::deref_mut` of `antidote::MutexGuard` hands out the protected
/// value for writing. Nothing is claimed about it.
pub assume_specification<'a, 'b, T: ?Sized>[ <MutexGuard<'a, T> as std::ops::DerefMut>::deref_mut ](
    g: &'b mut MutexGuard<'a, T>,
) -> (t: &'b mut T);

/// `std::cell::Cell::new` makes a cell holding the value.
pub assume_specification<T>[ Cell::<T>::new ](t: T) -> (c: Cell<T>);

/// `std::cell::Cell::get` copies the current content out. The content can be
/// replaced through any shared reference, so nothing is claimed about it.
/// The call does not unwind.
#[verifier::external_body]
pub(crate) fn cell_get<T: Copy>(cell: &Cell<T>) -> (content: T)
    opens_invariants none
    no_unwind
{
    cell.get()
}

/// `std::cell::Cell::set` replaces the content. Nothing is claimed about
/// the cell afterwards, which the verifier cannot see into. The content is
/// `Copy`, so no destructor runs, and the call does not unwind.
#[verifier::external_body]
pub(crate) fn cell_set<T: Copy>(cell: &Cell<T>, content: T)
    opens_invariants none
    no_unwind
{
    cell.set(content)
}

/// `std::hint::spin_loop` tells the processor that the caller is busy-waiting.
/// It has no effect on program state.
pub assume_specification[ std::hint::spin_loop ]();

/// `std::sync::Arc::strong_count`: how many `Arc` handles share the
/// allocation at the moment of the call. Other threads may clone or drop
/// handles at any time; the handle passed in is itself counted, so the
/// result is at least one.
#[verifier::external_body]
pub(crate) fn strong_count<T>(handle: &Arc<T>) -> (owners: usize)
    ensures
        owners >= 1,
{
    Arc::strong_count(handle)
}

} // verus!
