//! The writer's sweep over the reader slots.
//!
//! A collection cycle reads every registered slot once, to find the oldest
//! epoch that a pinned reader announced, and on cleanup cycles drops the slots
//! that their readers have left behind. What a slot holds is only known at
//! the moment it is read, so everything here is stated over the readings that
//! were taken.

use vstd::prelude::*;
use std::sync::Arc;
use crate::state::INACTIVE_EPOCH;
use crate::state::ReaderSlot;
use crate::sync::strong_count;

verus! {

/// What the writer reads from one slot: the epoch it announces and the
/// number of handles that share the slot, the registry's own among them.
pub struct SlotReading {
    pub epoch: usize,
    pub owners: usize,
}

impl SlotReading {
    /// The reader of the slot holds a pin.
    pub open spec fn active(self) -> bool {
        self.epoch != INACTIVE_EPOCH
    }

    /// The slot is not pinned and only the registry still holds it: its
    /// reader is gone.
    pub open spec fn orphaned(self) -> bool {
        self.epoch == INACTIVE_EPOCH && self.owners == 1
    }
}

/// The running result of a sweep.
#[derive(Clone, Copy, Debug)]
pub struct Census {
    /// Least of the cycle's epoch and the epochs announced so far.
    pub min_active: usize,
    /// Number of orphaned slots met so far; counted on cleanup cycles only.
    pub dead_count: usize,
    /// Whether this cycle cleans the registry.
    pub should_cleanup: bool,
}

/// The census after one more reading.
pub open spec fn recorded(census: Census, reading: SlotReading) -> Census {
    if reading.active() {
        Census {
            min_active: if reading.epoch < census.min_active {
                reading.epoch
            } else {
                census.min_active
            },
            ..census
        }
    } else if census.should_cleanup && reading.owners == 1 {
        Census { dead_count: (census.dead_count + 1) as usize, ..census }
    } else {
        census
    }
}

/// The census of a whole sweep that took `readings` in a cycle of epoch
/// `new_epoch`.
pub open spec fn census_of(new_epoch: usize, should_cleanup: bool, readings: Seq<SlotReading>)
    -> Census
    decreases readings.len(),
{
    if readings.len() == 0 {
        Census { min_active: new_epoch, dead_count: 0, should_cleanup }
    } else {
        recorded(census_of(new_epoch, should_cleanup, readings.drop_last()), readings.last())
    }
}

/// The minimum active epoch of a sweep: the oldest epoch that a reading
/// announces, and the cycle's own epoch if none is older.
pub open spec fn min_active_among(new_epoch: usize, readings: Seq<SlotReading>) -> usize {
    census_of(new_epoch, false, readings).min_active
}

/// The number after `n`, starting over at zero after the greatest.
pub open spec fn successor(n: usize) -> usize {
    if n == usize::MAX {
        0
    } else {
        (n + 1) as usize
    }
}

/// Whether cycle number `counter` cleans the registry: every
/// `interval`-th cycle does, and none if `interval` is zero.
pub open spec fn cleanup_due(counter: usize, interval: usize) -> bool {
    interval > 0 && counter % interval == 0
}

/// The handles that stay after an eviction in which `owners[i]` was read
/// for `slots[i]`: those shared with somebody else, in their old order.
pub open spec fn retained<T>(slots: Seq<Arc<T>>, owners: Seq<usize>) -> Seq<Arc<T>>
    decreases slots.len(),
{
    if slots.len() == 0 || owners.len() == 0 {
        Seq::empty()
    } else if owners.last() > 1 {
        retained(slots.drop_last(), owners.drop_last()).push(slots.last())
    } else {
        retained(slots.drop_last(), owners.drop_last())
    }
}

/// The minimum that `census_of` computes, said without recursion: it is a
/// lower bound of the cycle's epoch and of every announced epoch, and it is
/// one of them. Whether the cycle cleans the registry has no part in it.
pub proof fn lemma_min_active(new_epoch: usize, should_cleanup: bool, readings: Seq<SlotReading>)
    ensures
        census_of(new_epoch, should_cleanup, readings).should_cleanup == should_cleanup,
        census_of(new_epoch, should_cleanup, readings).min_active == min_active_among(
            new_epoch,
            readings,
        ),
        min_active_among(new_epoch, readings) <= new_epoch,
        forall|i: int|
            0 <= i < readings.len() && (#[trigger] readings[i]).active() ==> min_active_among(
                new_epoch,
                readings,
            ) <= readings[i].epoch,
        min_active_among(new_epoch, readings) == new_epoch || exists|i: int|
            0 <= i < readings.len() && (#[trigger] readings[i]).active() && min_active_among(
                new_epoch,
                readings,
            ) == readings[i].epoch,
    decreases readings.len(),
{
    if readings.len() > 0 {
        let front = readings.drop_last();
        let last = readings.last();
        lemma_min_active(new_epoch, should_cleanup, front);
        let low = min_active_among(new_epoch, front);
        let now = min_active_among(new_epoch, readings);
        assert(now == if last.active() && last.epoch < low {
            last.epoch
        } else {
            low
        });
        assert forall|i: int| 0 <= i < readings.len() && (#[trigger] readings[i]).active()
            implies now <= readings[i].epoch by {
            if i < front.len() {
                assert(front[i] == readings[i]);
            }
        }
        if now != new_epoch {
            if last.active() && last.epoch < low {
                assert(readings[readings.len() - 1].active());
            } else {
                let i = choose|i: int|
                    0 <= i < front.len() && (#[trigger] front[i]).active() && low == front[i].epoch;
                assert(front[i] == readings[i]);
            }
        }
    }
}

/// The dead count that `census_of` computes, said without recursion: on a
/// cleanup cycle it is the number of orphaned slots among the readings, and
/// zero otherwise; so it is positive exactly on a cleanup cycle that met an
/// orphaned slot.
pub proof fn lemma_dead_count(new_epoch: usize, should_cleanup: bool, readings: Seq<SlotReading>)
    requires
        readings.len() <= usize::MAX,
    ensures
        census_of(new_epoch, should_cleanup, readings).dead_count == if should_cleanup {
            readings.filter(|r: SlotReading| r.orphaned()).len()
        } else {
            0
        },
        census_of(new_epoch, should_cleanup, readings).dead_count <= readings.len(),
        census_of(new_epoch, should_cleanup, readings).dead_count > 0 <==> (should_cleanup && (
        exists|i: int| 0 <= i < readings.len() && (#[trigger] readings[i]).orphaned())),
    decreases readings.len(),
{
    reveal(Seq::filter);
    let orphaned = |r: SlotReading| r.orphaned();
    if readings.len() > 0 {
        let front = readings.drop_last();
        let last = readings.last();
        lemma_dead_count(new_epoch, should_cleanup, front);
        lemma_min_active(new_epoch, should_cleanup, front);
        assert(readings =~= front.push(last));
        if should_cleanup {
            if exists|i: int| 0 <= i < readings.len() && (#[trigger] readings[i]).orphaned() {
                let i = choose|i: int|
                    0 <= i < readings.len() && (#[trigger] readings[i]).orphaned();
                assert(readings.filter(orphaned).contains(readings[i]));
            }
            if readings.filter(orphaned).len() > 0 {
                let r = readings.filter(orphaned)[0];
                assert(readings.filter(orphaned).contains(r));
                assert(readings.contains(r));
            }
        }
    } else {
        assert(readings.filter(orphaned) =~= Seq::<SlotReading>::empty());
    }
}

/// A sweep that finds no reader pinned takes the cycle's own epoch for the
/// minimum.
pub proof fn law_quiescent_min_active(new_epoch: usize, readings: Seq<SlotReading>)
    requires
        forall|i: int| 0 <= i < readings.len() ==> !(#[trigger] readings[i]).active(),
    ensures
        min_active_among(new_epoch, readings) == new_epoch,
{
    lemma_min_active(new_epoch, false, readings);
}

/// A sweep in which a reader is pinned at an epoch before the cycle's own
/// finds the same minimum in the next cycle, if the slots read the same.
pub proof fn law_min_active_stable(new_epoch: usize, later: usize, readings: Seq<SlotReading>)
    requires
        min_active_among(new_epoch, readings) < new_epoch <= later,
    ensures
        min_active_among(later, readings) == min_active_among(new_epoch, readings),
{
    lemma_min_active(new_epoch, false, readings);
    lemma_min_active(later, false, readings);
    let low = min_active_among(new_epoch, readings);
    let i = choose|i: int|
        0 <= i < readings.len() && (#[trigger] readings[i]).active() && low == readings[i].epoch;
    assert(min_active_among(later, readings) <= readings[i].epoch);
    if min_active_among(later, readings) != later {
        let j = choose|j: int|
            0 <= j < readings.len() && (#[trigger] readings[j]).active() && min_active_among(
                later,
                readings,
            ) == readings[j].epoch;
        assert(low <= readings[j].epoch);
    }
}

/// The cycle counter after `cycles` more cycles.
pub open spec fn counter_after(counter: usize, cycles: nat) -> usize
    decreases cycles,
{
    if cycles == 0 {
        counter
    } else {
        successor(counter_after(counter, (cycles - 1) as nat))
    }
}

/// The counter counts up by one a cycle, and starts over at zero after the
/// greatest value.
pub proof fn lemma_counter_after(counter: usize, cycles: nat)
    requires
        cycles <= usize::MAX,
    ensures
        counter + cycles <= usize::MAX ==> counter_after(counter, cycles) == counter + cycles,
        counter + cycles > usize::MAX ==> counter_after(counter, cycles) == counter + cycles
            - usize::MAX - 1,
    decreases cycles,
{
    if cycles > 0 {
        lemma_counter_after(counter, (cycles - 1) as nat);
    }
}

/// The next multiple of `step` after `from` is at most `step` away.
proof fn lemma_next_multiple(from: int, step: int)
    requires
        from >= 0,
        step > 0,
    ensures
        1 <= step - from % step <= step,
        (from + (step - from % step)) % step == 0,
{
    vstd::arithmetic::div_mod::lemma_mod_pos_bound(from, step);
    vstd::arithmetic::div_mod::lemma_fundamental_div_mod(from, step);
    vstd::arithmetic::div_mod::lemma_mod_multiples_basic(from / step + 1, step);
    assert(from + (step - from % step) == (from / step + 1) * step) by (nonlinear_arith)
        requires
            from == step * (from / step) + from % step,
    ;
}

/// The registry is cleaned at least once in every `interval` cycles in a
/// row: whatever the counter is, one of the next `interval` cycles is a
/// cleanup cycle.
pub proof fn law_cleanup_within_interval(counter: usize, interval: usize) -> (cycles: nat)
    requires
        interval > 0,
    ensures
        1 <= cycles <= interval,
        cleanup_due(counter_after(counter, cycles), interval),
{
    if counter + interval > usize::MAX {
        let cycles = (usize::MAX - counter + 1) as nat;
        lemma_counter_after(counter, cycles);
        assert(counter_after(counter, cycles) == 0);
        vstd::arithmetic::div_mod::lemma_small_mod(0, interval as nat);
        cycles
    } else {
        let cycles = (interval - counter % interval) as nat;
        lemma_counter_after(counter, cycles);
        lemma_next_multiple(counter as int, interval as int);
        assert(counter_after(counter, cycles) == counter + cycles);
        cycles
    }
}

/// Where a slot stands after an eviction: a handle that was found shared
/// is kept, at the place that the number of shared handles before it
/// gives; the others are gone, and nothing else is kept.
pub proof fn law_eviction_keeps_the_shared<T>(slots: Seq<Arc<T>>, owners: Seq<usize>, i: int)
    requires
        slots.len() == owners.len(),
        0 <= i < slots.len(),
    ensures
        retained(slots, owners).len() == retained(slots.take(i), owners.take(i)).len() + (
        if owners[i] > 1 {
            1int
        } else {
            0int
        }) + retained(slots.skip(i + 1), owners.skip(i + 1)).len(),
        owners[i] > 1 ==> retained(slots, owners)[retained(slots.take(i), owners.take(i)).len() as int]
            == slots[i],
    decreases slots.len(),
{
    let front = slots.drop_last();
    let front_owners = owners.drop_last();
    if i == slots.len() - 1 {
        assert(slots.take(i) =~= front);
        assert(owners.take(i) =~= front_owners);
        assert(slots.skip(i + 1) =~= Seq::<Arc<T>>::empty());
    } else {
        law_eviction_keeps_the_shared(front, front_owners, i);
        assert(front.take(i) =~= slots.take(i));
        assert(front_owners.take(i) =~= owners.take(i));
        assert(slots.skip(i + 1).drop_last() =~= front.skip(i + 1));
        assert(owners.skip(i + 1).drop_last() =~= front_owners.skip(i + 1));
        assert(slots.skip(i + 1).last() == slots.last());
        assert(owners.skip(i + 1).last() == owners.last());
        lemma_retained(slots.take(i), owners.take(i));
    }
}

/// Slot cleanup: on a cleanup cycle, a slot that reads as orphaned makes
/// the census ask for an eviction, and an eviction that finds the slot
/// unshared still drops it from the registry: the registry is then made of
/// what is kept of the slots before it and of the slots after it.
pub proof fn law_orphan_is_evicted<T>(
    new_epoch: usize,
    slots: Seq<Arc<T>>,
    readings: Seq<SlotReading>,
    recount: Seq<usize>,
    at: int,
)
    requires
        slots.len() == readings.len() == recount.len() <= usize::MAX,
        0 <= at < slots.len(),
        readings[at].orphaned(),
        recount[at] <= 1,
    ensures
        census_of(new_epoch, true, readings).dead_count > 0,
        retained(slots, recount).len() == retained(slots.take(at), recount.take(at)).len()
            + retained(slots.skip(at + 1), recount.skip(at + 1)).len(),
        retained(slots, recount).len() < slots.len(),
{
    lemma_dead_count(new_epoch, true, readings);
    law_eviction_keeps_the_shared(slots, recount, at);
    lemma_retained(slots.take(at), recount.take(at));
    lemma_retained(slots.skip(at + 1), recount.skip(at + 1));
}

/// Slot cleanup within the interval: whatever the cycle counter is, one of
/// the next `interval` cycles is a cleanup cycle, and if the slot at `at`
/// reads as orphaned in that cycle, and unshared still when the cycle
/// evicts, the cycle drops it from the registry.
pub proof fn law_orphan_leaves_within_interval<T>(
    counter: usize,
    interval: usize,
    new_epoch: usize,
    slots: Seq<Arc<T>>,
    readings: Seq<SlotReading>,
    recount: Seq<usize>,
    at: int,
) -> (cycles: nat)
    requires
        interval > 0,
        slots.len() == readings.len() == recount.len() <= usize::MAX,
        0 <= at < slots.len(),
        readings[at].orphaned(),
        recount[at] <= 1,
    ensures
        1 <= cycles <= interval,
        cleanup_due(counter_after(counter, cycles), interval),
        census_of(
            new_epoch,
            cleanup_due(counter_after(counter, cycles), interval),
            readings,
        ).dead_count > 0,
        retained(slots, recount).len() == retained(slots.take(at), recount.take(at)).len()
            + retained(slots.skip(at + 1), recount.skip(at + 1)).len(),
        retained(slots, recount).len() < slots.len(),
{
    let cycles = law_cleanup_within_interval(counter, interval);
    law_orphan_is_evicted(new_epoch, slots, readings, recount, at);
    cycles
}

/// An eviction keeps exactly the handles that were found shared: each kept
/// handle is one of the old ones, a handle found shared is kept, and one
/// found unshared is not counted among the kept.
pub proof fn lemma_retained<T>(slots: Seq<Arc<T>>, owners: Seq<usize>)
    requires
        slots.len() == owners.len(),
    ensures
        retained(slots, owners).len() <= slots.len(),
        retained(slots, owners).len() == owners.filter(|c: usize| c > 1).len(),
        (forall|i: int| 0 <= i < owners.len() ==> owners[i] > 1) ==> retained(slots, owners)
            == slots,
        (forall|i: int| 0 <= i < owners.len() ==> owners[i] <= 1) ==> retained(slots, owners).len()
            == 0,
    decreases slots.len(),
{
    reveal(Seq::filter);
    if slots.len() > 0 {
        lemma_retained(slots.drop_last(), owners.drop_last());
        assert(owners =~= owners.drop_last().push(owners.last()));
        if forall|i: int| 0 <= i < owners.len() ==> owners[i] > 1 {
            assert forall|i: int| 0 <= i < owners.drop_last().len() implies owners.drop_last()[i]
                > 1 by {
                assert(owners.drop_last()[i] == owners[i]);
            }
            assert(retained(slots, owners) =~= slots);
        }
        if forall|i: int| 0 <= i < owners.len() ==> owners[i] <= 1 {
            assert forall|i: int| 0 <= i < owners.drop_last().len() implies owners.drop_last()[i]
                <= 1 by {
                assert(owners.drop_last()[i] == owners[i]);
            }
        }
    } else {
        assert(owners =~= Seq::<usize>::empty());
    }
}

impl Census {
    /// The census of a sweep that has read no slot yet.
    pub fn begin(new_epoch: usize, should_cleanup: bool) -> (census: Census)
        ensures
            census == census_of(new_epoch, should_cleanup, Seq::<SlotReading>::empty()),
    {
        Census { min_active: new_epoch, dead_count: 0, should_cleanup }
    }

    /// Takes one reading into the census.
    ///
    /// A pinned slot lowers the minimum to its epoch if that is older. A
    /// slot that is not pinned and has no owner but the registry is counted
    /// as dead on a cleanup cycle.
    pub fn record(&mut self, epoch: usize, owners: usize)
        requires
            old(self).dead_count < usize::MAX,
        ensures
            *final(self) == recorded(*old(self), SlotReading { epoch, owners }),
    {
        if epoch != INACTIVE_EPOCH {
            if epoch < self.min_active {
                self.min_active = epoch;
            }
        } else if self.should_cleanup && owners == 1 {
            self.dead_count = self.dead_count + 1;
        }
    }

    /// Whether the registry has to be cleaned after this sweep.
    pub fn must_evict(&self) -> (evict: bool)
        ensures
            evict == (self.should_cleanup && self.dead_count > 0),
    {
        self.should_cleanup && self.dead_count > 0
    }
}

/// The number after `n`, starting over at zero after the greatest.
pub fn next_after(n: usize) -> (m: usize)
    ensures
        m == successor(n),
{
    if n == usize::MAX {
        0
    } else {
        n + 1
    }
}

/// Whether cycle number `counter` cleans the registry.
pub fn is_cleanup_due(counter: usize, interval: usize) -> (due: bool)
    ensures
        due == cleanup_due(counter, interval),
{
    interval > 0 && counter % interval == 0
}

/// Reads every slot once and returns the census, with the readings it is
/// the census of.
pub(crate) fn take_census(slots: &Vec<Arc<ReaderSlot>>, new_epoch: usize, should_cleanup: bool)
    -> (result: (Census, Ghost<Seq<SlotReading>>))
    ensures
        result.1@.len() == slots@.len(),
        result.1@.len() <= usize::MAX,
        result.0 == census_of(new_epoch, should_cleanup, result.1@),
{
    let mut census = Census::begin(new_epoch, should_cleanup);
    let ghost mut readings: Seq<SlotReading> = Seq::empty();
    let mut i: usize = 0;
    while i < slots.len()
        invariant
            0 <= i <= slots@.len(),
            readings.len() == i,
            census == census_of(new_epoch, should_cleanup, readings),
        decreases slots@.len() - i,
    {
        let epoch: usize = slots[i].observe();
        let owners: usize = strong_count(&slots[i]);
        proof {
            lemma_dead_count(new_epoch, should_cleanup, readings);
            let reading = SlotReading { epoch, owners };
            assert(readings.push(reading).drop_last() =~= readings);
            readings = readings.push(reading);
        }
        census.record(epoch, owners);
        i = i + 1;
    }
    (census, Ghost(readings))
}

/// Drops from `slots` every handle that nobody else shares, keeping the
/// others in their order. Returns the owner counts that were read, one for
/// each handle that was there.
pub fn evict_orphans<T>(slots: &mut Vec<Arc<T>>) -> (owners: Ghost<Seq<usize>>)
    ensures
        owners@.len() == old(slots)@.len(),
        final(slots)@ == retained(old(slots)@, owners@),
{
    let ghost before = slots@;
    let ghost mut owners: Seq<usize> = Seq::empty();
    let mut i: usize = 0;
    while i < slots.len()
        invariant
            0 <= i <= slots@.len(),
            owners.len() <= before.len(),
            slots@.len() - i == before.len() - owners.len(),
            slots@.take(i as int) =~= retained(before.take(owners.len() as int), owners),
            slots@.skip(i as int) =~= before.skip(owners.len() as int),
        decreases slots@.len() - i,
    {
        let ghost seen = owners.len() as int;
        let ghost prior = slots@;
        let ghost prior_owners = owners;
        assert(prior[i as int] == prior.skip(i as int)[0]);
        assert(before[seen] == before.skip(seen)[0]);
        let count: usize = strong_count(&slots[i]);
        proof {
            owners = prior_owners.push(count);
            assert(owners.drop_last() =~= prior_owners);
            assert(before.take(seen + 1).drop_last() =~= before.take(seen));
            assert(before.take(seen + 1).last() == before[seen]);
            assert(before.skip(seen + 1) =~= before.skip(seen).skip(1));
        }
        if count > 1 {
            proof {
                assert(prior.take(i as int + 1) =~= prior.take(i as int).push(prior[i as int]));
                assert(prior.skip(i as int + 1) =~= prior.skip(i as int).skip(1));
            }
            i = i + 1;
        } else {
            slots.remove(i);
            proof {
                assert(slots@.take(i as int) =~= prior.take(i as int));
                assert(slots@.skip(i as int) =~= prior.skip(i as int).skip(1));
            }
        }
    }
    proof {
        assert(slots@.take(i as int) =~= slots@);
        assert(before.take(owners.len() as int) =~= before);
    }
    Ghost(owners)
}

} // verus!
