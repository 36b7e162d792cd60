//! A shared pointer whose payload the writer replaces while readers look at
//! it.
//!
//! The pointer is written in safe code. The live payload sits behind a lock
//! that is held for the length of one pointer copy, and a payload is shared
//! by reference count: a load hands out a `Loaded`, which keeps its payload
//! allocated for as long as it lives and cannot outlive the guard it was
//! loaded under. The writer's handle holds the displaced payload until the
//! epochs let it go, so that with readers that drop what they load before
//! they unpin, a payload is destroyed by the collection cycle that reclaims
//! it, on the writer's thread.

use vstd::prelude::*;
use std::marker::PhantomData;
use std::ops::Deref;
use std::sync::Arc;
use antidote::Mutex;
use crate::collector::GcHandle;
use crate::garbage::total_records;
use crate::garbage::Payload;
use crate::reader::PinGuard;

verus! {

/// The payload that is live in a protected pointer right now.
pub struct Live<T> {
    payload: Arc<T>,
}

impl<T> View for Live<T> {
    type V = T;

    closed spec fn view(&self) -> T {
        *self.payload
    }
}

impl<T> Live<T> {
    /// Allocates `data` as the live payload.
    pub fn new(data: T) -> (live: Self)
        ensures
            live@ == data,
    {
        Live { payload: Arc::new(data) }
    }

    /// A handle on the live payload.
    pub fn share(&self) -> (payload: Arc<T>)
        ensures
            *payload == self@,
    {
        Arc::clone(&self.payload)
    }

    /// The live payload as a reader sees it under `_guard`.
    pub fn load<'guard>(&self, _guard: &'guard PinGuard) -> (loaded: Loaded<'guard, T>)
        ensures
            loaded@ == self@,
    {
        Loaded { payload: self.share(), pin: PhantomData }
    }

    /// Makes `data` the live payload and returns the one it displaces.
    pub fn replace(&mut self, data: T) -> (displaced: Arc<T>)
        ensures
            final(self)@ == data,
            *displaced == old(self)@,
    {
        let mut held = Arc::new(data);
        std::mem::swap(&mut self.payload, &mut held);
        held
    }
}

/// A payload as a pinned reader sees it. It cannot outlive the guard it was
/// loaded under, and it dereferences to the payload.
pub struct Loaded<'guard, T> {
    payload: Arc<T>,
    pin: PhantomData<&'guard ()>,
}

impl<'guard, T> View for Loaded<'guard, T> {
    type V = T;

    closed spec fn view(&self) -> T {
        *self.payload
    }
}

impl<'guard, T> Deref for Loaded<'guard, T> {
    type Target = T;

    fn deref(&self) -> (payload: &T)
        ensures
            *payload == self@,
    {
        &*self.payload
    }
}

/// A pointer to a payload of type `T` that one writer replaces and any
/// number of pinned readers load. Dropping the pointer lets go of the live
/// payload at once.
#[verifier::reject_recursive_types(T)]
pub struct EpochPtr<T> {
    live: Mutex<Live<T>>,
}

impl<T: 'static> EpochPtr<T> {
    /// A protected pointer to `data`.
    pub fn new(data: T) -> Self {
        EpochPtr { live: Mutex::new(Live::new(data)) }
    }

    /// The payload that is live at this moment. The guard proves that the
    /// caller is pinned, and the result cannot outlive it.
    pub fn load<'guard>(&self, _guard: &'guard PinGuard) -> Loaded<'guard, T> {
        let live = self.live.lock();
        live.load(_guard)
    }

    /// Makes `data` the live payload and hands the displaced payload to the
    /// writer's handle, which destroys it once no pinned reader can hold it
    /// any more. This may run a collection cycle, as `retire` may. What is
    /// retired is the pointer's handle on the displaced payload, which was
    /// live until this call and is known only as it was found under the
    /// lock.
    pub fn store(&self, data: T, gc: &mut GcHandle)
        requires
            old(gc).wf(),
            total_records(old(gc)@.garbage) < usize::MAX,
        ensures
            final(gc).wf(),
            final(gc).domain() == old(gc).domain(),
            exists|displaced: Arc<T>| #[trigger]
                old(gc)@.retired_as(final(gc)@, displaced.erased()),
            total_records(final(gc)@.garbage) <= total_records(old(gc)@.garbage) + 1,
    {
        let displaced = self.displace(data);
        gc.retire(Box::new(displaced));
    }

    /// Swaps `data` in under the lock and returns what was live before.
    fn displace(&self, data: T) -> Arc<T> {
        let mut live = self.live.lock();
        live.replace(data)
    }
}

} // verus!
