//! State shared between the writer and every reader of one domain.

use vstd::prelude::*;
use std::sync::Arc;
use std::sync::atomic::AtomicUsize;
use std::sync::atomic::Ordering;
use antidote::Mutex;

verus! {

/// Number of retired records above which `retire` starts a collection cycle
/// by itself, unless configured otherwise.
pub const AUTO_RECLAIM_THRESHOLD: usize = 64;

/// Number of collection cycles between two sweeps for abandoned reader slots,
/// unless configured otherwise.
pub const DEFAULT_CLEANUP_INTERVAL: usize = 16;

/// Slot value of a reader that holds no pin.
pub const INACTIVE_EPOCH: usize = usize::MAX;

/// `AtomicUsize::store` with release ordering. The verifier's own
/// specification of the call does not say that it cannot unwind; it cannot,
/// and a guard that is dropped relies on that. Nothing is claimed about the
/// cell afterwards.
#[verifier::external_body]
fn store_release(cell: &AtomicUsize, value: usize)
    opens_invariants none
    no_unwind
{
    cell.store(value, Ordering::Release)
}

/// The cell through which one reader announces the epoch it is pinned to, or
/// `INACTIVE_EPOCH`. Written by its reader, read by the writer.
pub struct ReaderSlot {
    active_epoch: AtomicUsize,
}

impl ReaderSlot {
    /// A slot of a reader that is not pinned.
    pub(crate) fn new() -> Self {
        ReaderSlot { active_epoch: AtomicUsize::new(INACTIVE_EPOCH) }
    }

    /// What the slot announces right now (acquire).
    pub(crate) fn observe(&self) -> usize {
        self.active_epoch.load(Ordering::Acquire)
    }

    /// Announces `epoch` (release).
    pub(crate) fn publish(&self, epoch: usize)
        opens_invariants none
        no_unwind
    {
        store_release(&self.active_epoch, epoch);
    }
}

/// One per domain: the global epoch, the minimum active epoch that the last
/// collection cycle published, and the registry of reader slots.
pub struct SharedState {
    global_epoch: AtomicUsize,
    min_active_epoch: AtomicUsize,
    readers: Mutex<Vec<Arc<ReaderSlot>>>,
}

impl SharedState {
    /// The lock that guards the registry of reader slots.
    pub closed spec fn registry_lock(&self) -> Mutex<Vec<Arc<ReaderSlot>>> {
        self.readers
    }

    /// Epoch zero, published minimum zero, no reader registered.
    pub(crate) fn new() -> Self {
        SharedState {
            global_epoch: AtomicUsize::new(0),
            min_active_epoch: AtomicUsize::new(0),
            readers: Mutex::new(Vec::new()),
        }
    }

    /// The global epoch as the writer reads it for stamping a retired record
    /// (relaxed: the writer is the only thread that changes it).
    pub(crate) fn stamp_epoch(&self) -> usize {
        self.global_epoch.load(Ordering::Relaxed)
    }

    /// The global epoch as a reader reads it when pinning (acquire).
    pub(crate) fn current_epoch(&self) -> usize {
        self.global_epoch.load(Ordering::Acquire)
    }

    /// Adds one to the global epoch in a single read-modify-write
    /// (acquire/release) and returns the value it held before.
    pub(crate) fn bump_epoch(&self) -> usize {
        self.global_epoch.fetch_add(1, Ordering::AcqRel)
    }

    /// The minimum active epoch that the last cycle published (acquire).
    pub(crate) fn published_min_active(&self) -> usize {
        self.min_active_epoch.load(Ordering::Acquire)
    }

    /// Publishes the minimum active epoch of a cycle (release).
    pub(crate) fn publish_min_active(&self, epoch: usize) {
        self.min_active_epoch.store(epoch, Ordering::Release);
    }

    /// The registry of reader slots, behind its lock.
    pub(crate) fn registry(&self) -> (registry: &Mutex<Vec<Arc<ReaderSlot>>>)
        ensures
            *registry == self.registry_lock(),
    {
        &self.readers
    }
}

} // verus!
