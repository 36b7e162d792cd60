//! The reader's endpoint of a domain, and the guard that keeps it pinned.
//!
//! A reader pins itself before it looks at protected data: it announces the
//! global epoch in its slot, and the writer holds back everything that was
//! retired at that epoch or later. Pins nest; the slot stays announced until
//! the last guard is gone.

use vstd::prelude::*;
use std::cell::Cell;
use std::sync::Arc;
use crate::state::ReaderSlot;
use crate::state::SharedState;
use crate::state::INACTIVE_EPOCH;
use crate::sync::cell_get;
use crate::sync::cell_set;

verus! {

/// Number of rounds after which a pin stops waiting for the writer and keeps
/// what it announced last.
pub const PIN_RETRY_LIMIT: usize = usize::MAX;

/// What taking one more guard means for a reader that holds `count` guards.
pub struct Entry {
    /// The number of guards afterwards.
    pub count: usize,
    /// Whether this is the first guard, so that the epoch must be announced.
    pub announce: bool,
}

/// What giving up one guard means for a reader that holds `count` guards.
pub struct Exit {
    /// The number of guards afterwards.
    pub count: usize,
    /// Whether this was the last guard, so that the slot must be set to
    /// `INACTIVE_EPOCH`.
    pub withdraw: bool,
}

/// A reader with `count` guards takes one more: the first guard announces
/// the epoch, a nested one only counts. The count stops at its greatest
/// value.
pub open spec fn entered(count: usize) -> Entry {
    Entry {
        count: if count == usize::MAX {
            count
        } else {
            (count + 1) as usize
        },
        announce: count == 0,
    }
}

/// A reader with `count > 0` guards gives one up: the last guard withdraws
/// the announcement.
pub open spec fn exited(count: usize) -> Exit
    recommends
        count > 0,
{
    Exit { count: (count - 1) as usize, withdraw: count == 1 }
}

/// Whether a pin that announced `announced` may stand, given the minimum
/// active epoch that the writer published last: it may unless the writer has
/// already moved past the announced epoch.
pub open spec fn settled(announced: usize, min_active: usize) -> bool {
    announced >= min_active
}

/// A reader as it stands between two operations: the number of guards it
/// holds and what its slot announces.
pub struct PinLedger {
    pub count: usize,
    pub slot: usize,
}

impl PinLedger {
    /// A reader that holds no guard.
    pub open spec fn idle() -> PinLedger {
        PinLedger { count: 0, slot: INACTIVE_EPOCH }
    }

    /// The slot announces an epoch exactly while a guard is held.
    pub open spec fn consistent(self) -> bool {
        self.count > 0 <==> self.slot != INACTIVE_EPOCH
    }

    /// The reader after it took one more guard while the global epoch was
    /// `epoch`.
    pub open spec fn pinned(self, epoch: usize) -> PinLedger {
        let entry = entered(self.count);
        PinLedger {
            count: entry.count,
            slot: if entry.announce {
                epoch
            } else {
                self.slot
            },
        }
    }

    /// The reader after it gave up one guard.
    pub open spec fn unpinned(self) -> PinLedger
        recommends
            self.count > 0,
    {
        let exit = exited(self.count);
        PinLedger {
            count: exit.count,
            slot: if exit.withdraw {
                INACTIVE_EPOCH
            } else {
                self.slot
            },
        }
    }

    /// The reader after it took one guard for each of `epochs`, the global
    /// epoch at the time of each pin, in that order.
    pub open spec fn pinned_through(self, epochs: Seq<usize>) -> PinLedger
        decreases epochs.len(),
    {
        if epochs.len() == 0 {
            self
        } else {
            self.pinned_through(epochs.drop_last()).pinned(epochs.last())
        }
    }

    /// The reader after it gave up `guards` guards.
    pub open spec fn released(self, guards: nat) -> PinLedger
        decreases guards,
    {
        if guards == 0 {
            self
        } else {
            self.released((guards - 1) as nat).unpinned()
        }
    }
}

/// Taking a guard keeps the slot and the guard count consistent, whatever
/// the global epoch short of `INACTIVE_EPOCH` is.
pub proof fn law_pin_keeps_consistent(ledger: PinLedger, epoch: usize)
    requires
        ledger.consistent(),
        epoch != INACTIVE_EPOCH,
    ensures
        ledger.pinned(epoch).consistent(),
        ledger.pinned(epoch).count > 0,
        ledger.count > 0 ==> ledger.pinned(epoch).slot == ledger.slot,
        ledger.count == 0 ==> ledger.pinned(epoch).slot == epoch,
{
}

/// Giving up a guard keeps the slot and the guard count consistent: the
/// slot keeps its epoch until the last guard goes.
pub proof fn law_unpin_keeps_consistent(ledger: PinLedger)
    requires
        ledger.consistent(),
        ledger.count > 0,
    ensures
        ledger.unpinned().consistent(),
        ledger.unpinned().count == ledger.count - 1,
        ledger.count > 1 ==> ledger.unpinned().slot == ledger.slot,
        ledger.count == 1 ==> ledger.unpinned().slot == INACTIVE_EPOCH,
{
}

/// Guards nest. A reader that took a guard for each of `epochs` announces
/// the epoch of the first pin and holds as many guards as it took.
pub proof fn lemma_pinned_through(epochs: Seq<usize>)
    requires
        0 < epochs.len() < usize::MAX,
    ensures
        PinLedger::idle().pinned_through(epochs).count == epochs.len(),
        PinLedger::idle().pinned_through(epochs).slot == epochs[0],
    decreases epochs.len(),
{
    let before = PinLedger::idle().pinned_through(epochs.drop_last());
    assert(PinLedger::idle().pinned_through(epochs) == before.pinned(epochs.last()));
    if epochs.len() > 1 {
        lemma_pinned_through(epochs.drop_last());
        assert(epochs.drop_last()[0] == epochs[0]);
    } else {
        assert(before == PinLedger::idle());
    }
}

/// Reentrancy: a reader that pinned `epochs.len()` times, nested, and has
/// dropped `dropped` of the guards since, still announces the epoch of its
/// first pin while a guard is left, and announces nothing once all are
/// dropped.
pub proof fn law_nested_pins_hold(epochs: Seq<usize>, dropped: nat)
    requires
        0 < epochs.len() < usize::MAX,
        epochs[0] != INACTIVE_EPOCH,
        dropped <= epochs.len(),
    ensures
        ({
            let ledger = PinLedger::idle().pinned_through(epochs).released(dropped);
            &&& ledger.count == epochs.len() - dropped
            &&& ledger.consistent()
            &&& dropped < epochs.len() ==> ledger.slot == epochs[0]
            &&& dropped == epochs.len() ==> ledger.slot == INACTIVE_EPOCH
        }),
    decreases dropped,
{
    lemma_pinned_through(epochs);
    if dropped > 0 {
        law_nested_pins_hold(epochs, (dropped - 1) as nat);
    }
}

/// Decides what taking one more guard means for a reader with `count`
/// guards.
pub fn enter(count: usize) -> (entry: Entry)
    ensures
        entry == entered(count),
{
    Entry {
        count: if count == usize::MAX {
            count
        } else {
            count + 1
        },
        announce: count == 0,
    }
}

/// Decides what giving up one guard means for a reader with `count` guards.
pub fn exit(count: usize) -> (left: Exit)
    requires
        count > 0,
    ensures
        left == exited(count),
    opens_invariants none
    no_unwind
{
    Exit { count: count - 1, withdraw: count == 1 }
}

/// What dropping a guard means for a reader whose count reads `count`: a
/// reader that holds no guard has nothing to give up, and is left as it is;
/// any other gives one guard up.
pub open spec fn dropped(count: usize) -> Option<Exit> {
    if count == 0 {
        None
    } else {
        Some(exited(count))
    }
}

/// Decides what dropping a guard means for a reader whose count reads
/// `count`.
pub fn leave(count: usize) -> (outcome: Option<Exit>)
    ensures
        outcome == dropped(count),
    opens_invariants none
    no_unwind
{
    if count == 0 {
        None
    } else {
        Some(exit(count))
    }
}

/// Decides whether a pin that announced `announced` may stand.
pub fn is_settled(announced: usize, min_active: usize) -> (ok: bool)
    ensures
        ok == settled(announced, min_active),
{
    announced >= min_active
}

/// What a first pin announced, and what it was checked against.
pub struct Announcement {
    /// The global epoch that was read and written to the slot last.
    pub epoch: usize,
    /// The published minimum active epoch that was read after that.
    pub min_active: usize,
    /// The number of rounds that were left of `PIN_RETRY_LIMIT`.
    pub rounds_left: usize,
}

impl Announcement {
    /// Whether a pin may go on with the announcement: it is settled, or the
    /// rounds are used up.
    pub open spec fn stands(self) -> bool {
        settled(self.epoch, self.min_active) || self.rounds_left == 0
    }
}

/// One reader's endpoint. It belongs to one thread: the guard count is kept
/// without synchronisation.
pub struct LocalEpoch {
    slot: Arc<ReaderSlot>,
    shared: Arc<SharedState>,
    pin_count: Cell<usize>,
}

impl LocalEpoch {
    /// The state of the domain that the reader is registered with.
    pub closed spec fn domain(&self) -> SharedState {
        *self.shared
    }

    /// Registers a new reader with the domain of `shared`: a fresh slot that
    /// announces nothing is added to the registry, and the endpoint shares
    /// it.
    pub(crate) fn new(shared: Arc<SharedState>) -> (reader: Self)
        ensures
            reader.domain() == *shared,
    {
        let slot = Arc::new(ReaderSlot::new());
        let held = Arc::clone(&slot);
        enroll(&shared, held);
        LocalEpoch { slot, shared, pin_count: Cell::new(0) }
    }

    /// Pins the reader and returns the guard that keeps it pinned.
    ///
    /// The first guard announces the global epoch in the reader's slot;
    /// nested guards only count. The reader stays pinned until every guard,
    /// and every clone of one, is dropped.
    pub fn pin(&self) -> (guard: PinGuard<'_>)
        ensures
            guard.reader() == self,
    {
        let pin_count: usize = cell_get(&self.pin_count);
        let entry = enter(pin_count);
        if entry.announce {
            self.announce();
        }
        cell_set(&self.pin_count, entry.count);
        PinGuard { reader: self }
    }

    /// Gives up one guard, as `leave` decides for the count that is read:
    /// the last guard sets the slot back to `INACTIVE_EPOCH`, and a reader
    /// that holds no guard is left as it is.
    fn unpin(&self)
        opens_invariants none
        no_unwind
    {
        let pin_count: usize = cell_get(&self.pin_count);
        match leave(pin_count) {
            Some(given_up) => {
                if given_up.withdraw {
                    self.slot.publish(INACTIVE_EPOCH);
                }
                cell_set(&self.pin_count, given_up.count);
            },
            None => {},
        }
    }

    /// Announces the global epoch in the slot.
    ///
    /// A collection cycle may advance the epoch between the moment it is
    /// read here and the moment the slot is written. So the announcement is
    /// checked against the minimum active epoch that the writer published
    /// last, and made anew if the writer has moved past it. After
    /// `PIN_RETRY_LIMIT` rounds the last announcement stands: it is older
    /// than the writer's minimum, and an older pin holds back more, not
    /// less.
    ///
    /// Returns what was announced last, the minimum that was read after it,
    /// and the number of rounds that were left.
    fn announce(&self) -> (announcement: Announcement)
        ensures
            announcement.stands(),
    {
        let mut rounds: usize = PIN_RETRY_LIMIT;
        loop
            decreases rounds,
        {
            let current_epoch: usize = self.shared.current_epoch();
            self.slot.publish(current_epoch);
            let min_active: usize = self.shared.published_min_active();
            if is_settled(current_epoch, min_active) || rounds == 0 {
                return Announcement { epoch: current_epoch, min_active, rounds_left: rounds };
            }
            rounds = rounds - 1;
            std::hint::spin_loop();
        }
    }
}

/// Adds a slot to the registry of `shared`, under the registry lock.
fn enroll(shared: &SharedState, slot: Arc<ReaderSlot>) {
    let mut registry = shared.registry().lock();
    registry.push(slot);
}

/// Keeps its reader pinned for as long as it lives.
#[must_use]
pub struct PinGuard<'a> {
    reader: &'a LocalEpoch,
}

impl<'a> PinGuard<'a> {
    /// The reader that the guard keeps pinned.
    pub closed spec fn reader(&self) -> &LocalEpoch {
        self.reader
    }
}

impl<'a> Clone for PinGuard<'a> {
    /// A second guard on the same reader: the reader stays pinned until both
    /// are dropped.
    fn clone(&self) -> (guard: Self)
        ensures
            guard.reader() == self.reader(),
    {
        self.reader.pin()
    }
}

impl<'a> Drop for PinGuard<'a> {
    /// Gives up this guard; the last one unpins the reader.
    fn drop(&mut self)
        ensures
            final(self).reader() == old(self).reader(),
        opens_invariants none
        no_unwind
    {
        self.reader.unpin();
    }
}

} // verus!
