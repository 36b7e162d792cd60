//! The writer's endpoint of a domain.
//!
//! A domain has exactly one `GcHandle`. It takes the payloads that were
//! displaced from shared view, stamps them with the epoch of that moment, and
//! destroys them in a later collection cycle, once no pinned reader can still
//! hold a reference to them.
//!
//! A cycle advances the global epoch, reads the slot of every registered
//! reader and reclaims what is older than the oldest pin it found. The epoch
//! and the slots are shared with the readers, so their values are known only
//! as they were read; the contracts here say what the handle does for every
//! value that may come back.

use vstd::prelude::*;
use std::sync::Arc;
use crate::census::census_of;
use crate::census::cleanup_due;
use crate::census::evict_orphans;
use crate::census::is_cleanup_due;
use crate::census::min_active_among;
use crate::census::retained;
use crate::census::next_after;
use crate::census::successor;
use crate::census::law_min_active_stable;
use crate::census::law_quiescent_min_active;
use crate::census::take_census;
use crate::census::lemma_dead_count;
use crate::census::lemma_min_active;
use crate::census::Census;
use crate::census::SlotReading;
use crate::garbage::first_kept;
use crate::garbage::law_reclaim_idempotent;
use crate::garbage::law_reclaim_takes_a_prefix;
use crate::garbage::law_staged_is_last;
use crate::garbage::reclaimed;
use crate::garbage::staged;
use crate::garbage::total_records;
use crate::garbage::Bag;
use crate::garbage::Erased;
use crate::garbage::Payload;
use crate::garbage::GarbageSet;
use crate::garbage::RetiredObject;
use crate::state::ReaderSlot;
use crate::state::SharedState;

verus! {

/// What a `GcHandle` owns, as the contracts see it.
pub struct GcModel {
    /// The staged records, bag by bag.
    pub garbage: Seq<Bag>,
    /// Number of staged records above which `retire` collects by itself.
    pub auto_reclaim_threshold: Option<usize>,
    /// Number of cycles run so far.
    pub collection_counter: usize,
    /// Number of cycles between two cleanups of the reader registry; zero
    /// for never.
    pub cleanup_interval: usize,
}

impl GcModel {
    /// The handle after `record` was staged at `epoch`.
    pub open spec fn staging(self, record: RetiredObject, epoch: usize) -> GcModel {
        GcModel { garbage: staged(self.garbage, record, epoch), ..self }
    }

    /// Whether more records are staged than the threshold allows.
    pub open spec fn over_threshold(self) -> bool {
        match self.auto_reclaim_threshold {
            Some(threshold) => total_records(self.garbage) > threshold,
            None => false,
        }
    }

    /// The handle after a cycle that advanced the global epoch to
    /// `new_epoch` and found `min_active` to be the oldest pinned epoch.
    pub open spec fn after_cycle(self, new_epoch: usize, min_active: usize) -> GcModel {
        GcModel {
            garbage: reclaimed(self.garbage, min_active, new_epoch),
            collection_counter: successor(self.collection_counter),
            ..self
        }
    }

    /// Whether `post` is what a cycle can leave of this handle: there are an
    /// epoch and slot readings of which `post` is the outcome.
    pub open spec fn cycled_to(self, post: GcModel) -> bool {
        exists|new_epoch: usize, readings: Seq<SlotReading>|
            post == #[trigger] self.after_cycle(new_epoch, min_active_among(new_epoch, readings))
    }

    /// Whether `post` is what retiring `payload` can leave of this handle:
    /// a record that owns the payload is staged at some epoch, and if that
    /// takes the staged records over the threshold, a cycle follows.
    pub open spec fn retired_as(self, post: GcModel, payload: Erased) -> bool {
        exists|record: RetiredObject, epoch: usize|
            {
                let after = #[trigger] self.staging(record, epoch);
                &&& record@ == payload
                &&& if after.over_threshold() {
                    after.cycled_to(post)
                } else {
                    post == after
                }
            }
    }
}

/// A cycle that finds no reader pinned leaves nothing staged.
pub proof fn law_quiescent_cycle_reclaims_all(
    model: GcModel,
    new_epoch: usize,
    readings: Seq<SlotReading>,
)
    requires
        forall|i: int| 0 <= i < readings.len() ==> !(#[trigger] readings[i]).active(),
    ensures
        model.after_cycle(new_epoch, min_active_among(new_epoch, readings)).garbage
            == Seq::<Bag>::empty(),
{
    law_quiescent_min_active(new_epoch, readings);
}

/// A payload that is retired and then meets a cycle that finds no reader
/// pinned is reclaimed by that cycle, with everything else that was staged.
pub proof fn law_retired_then_reclaimed(
    model: GcModel,
    record: RetiredObject,
    epoch: usize,
    new_epoch: usize,
    readings: Seq<SlotReading>,
)
    requires
        forall|i: int| 0 <= i < readings.len() ==> !(#[trigger] readings[i]).active(),
    ensures
        total_records(model.staging(record, epoch).garbage) == total_records(model.garbage) + 1,
        model.staging(record, epoch).garbage.last().records.last() == record,
        model.staging(record, epoch).after_cycle(
            new_epoch,
            min_active_among(new_epoch, readings),
        ).garbage == Seq::<Bag>::empty(),
{
    law_staged_is_last(model.garbage, record, epoch);
    law_quiescent_min_active(new_epoch, readings);
}

/// Every cycle moves the global epoch strictly forward, for as long as the
/// epoch has not reached its greatest value.
pub proof fn law_epoch_advances(before: usize)
    requires
        before < usize::MAX,
    ensures
        successor(before) == before + 1,
        successor(before) > before,
{
}

/// A second cycle reclaims nothing if nothing was retired in between and
/// the readers' slots read as they did in the first: the same records are
/// staged after the second cycle as after the first.
pub proof fn law_second_cycle_reclaims_nothing(
    model: GcModel,
    new_epoch: usize,
    readings: Seq<SlotReading>,
)
    requires
        new_epoch < usize::MAX,
    ensures
        ({
            let first = model.after_cycle(new_epoch, min_active_among(new_epoch, readings));
            let second = first.after_cycle(
                successor(new_epoch),
                min_active_among(successor(new_epoch), readings),
            );
            &&& second.garbage == first.garbage
            &&& total_records(second.garbage) == total_records(first.garbage)
        }),
{
    let low = min_active_among(new_epoch, readings);
    let later = successor(new_epoch);
    lemma_min_active(new_epoch, false, readings);
    lemma_min_active(later, false, readings);
    if low == new_epoch {
        assert(reclaimed(Seq::<Bag>::empty(), min_active_among(later, readings), later)
            =~= Seq::<Bag>::empty());
    } else {
        law_min_active_stable(new_epoch, later, readings);
        law_reclaim_idempotent(model.garbage, low, new_epoch, later);
    }
}

/// Whether a cycle of epoch `new_epoch` that left `after` of `before` kept
/// what the pinned readers may see: for every slot that read as pinned at an
/// epoch before the cycle's own, each bag retired at that epoch or later is
/// still staged, as many places further to the front as bags were taken.
pub open spec fn survives_the_pinned(
    before: Seq<Bag>,
    after: Seq<Bag>,
    new_epoch: usize,
    readings: Seq<SlotReading>,
) -> bool {
    forall|i: int, j: int|
        #![trigger readings[i], before[j]]
        0 <= i < readings.len() && readings[i].active() && readings[i].epoch < new_epoch && 0
            <= j < before.len() && before[j].epoch >= readings[i].epoch ==> {
            &&& before.len() - after.len() <= j
            &&& after[j - (before.len() - after.len())] == before[j]
        }
}

/// The safe-reclamation rule at the cycle: whatever the slots read, a cycle
/// takes no bag that was retired at or after an epoch that a slot announced
/// before the cycle's own.
pub proof fn law_pinned_epochs_survive(
    bags: Seq<Bag>,
    new_epoch: usize,
    readings: Seq<SlotReading>,
)
    ensures
        survives_the_pinned(
            bags,
            reclaimed(bags, min_active_among(new_epoch, readings), new_epoch),
            new_epoch,
            readings,
        ),
{
    let min_active = min_active_among(new_epoch, readings);
    let after = reclaimed(bags, min_active, new_epoch);
    lemma_min_active(new_epoch, false, readings);
    law_reclaim_takes_a_prefix(bags, min_active, new_epoch);
    assert forall|i: int, j: int|
        #![trigger readings[i], bags[j]]
        0 <= i < readings.len() && readings[i].active() && readings[i].epoch < new_epoch && 0
            <= j < bags.len() && bags[j].epoch >= readings[i].epoch implies {
        &&& bags.len() - after.len() <= j
        &&& after[j - (bags.len() - after.len())] == bags[j]
    } by {
        assert(min_active <= readings[i].epoch);
        assert(min_active != new_epoch);
        let k = first_kept(bags, min_active);
        if j < k {
            assert(bags[j].epoch < min_active);
        }
    }
}

/// No cycle leaves more records staged than it found.
proof fn law_reclaim_takes_a_prefix_everywhere(bags: Seq<Bag>)
    ensures
        forall|min_active: usize, current: usize|
            total_records(#[trigger] reclaimed(bags, min_active, current)) <= total_records(bags),
{
    assert forall|min_active: usize, current: usize|
        total_records(#[trigger] reclaimed(bags, min_active, current)) <= total_records(
            bags,
        ) by {
        law_reclaim_takes_a_prefix(bags, min_active, current);
    }
}

/// What a sweep found in the registry, while it held the lock, and what it
/// left there.
pub struct Sweep {
    /// The registry as the sweep found it.
    pub slots: Seq<Arc<ReaderSlot>>,
    /// What was read from each slot, in the order of the registry.
    pub readings: Seq<SlotReading>,
    /// The owner counts that were read again while evicting, one for each
    /// slot; empty if nothing was evicted.
    pub recount: Seq<usize>,
    /// The registry as the sweep left it.
    pub kept: Seq<Arc<ReaderSlot>>,
}

impl Sweep {
    /// Whether the sweep is one that a cycle of epoch `new_epoch` can make:
    /// it read every slot once, and it evicted, by the owner counts it read
    /// again, exactly if `census` asks for it.
    pub open spec fn follows(self, census: Census) -> bool {
        &&& self.readings.len() == self.slots.len()
        &&& self.readings.len() <= usize::MAX
        &&& if census.should_cleanup && census.dead_count > 0 {
            self.recount.len() == self.slots.len() && self.kept == retained(
                self.slots,
                self.recount,
            )
        } else {
            self.recount.len() == 0 && self.kept == self.slots
        }
    }
}

/// What one collection cycle saw and did.
pub struct Cycle {
    /// The global epoch as the cycle found it.
    pub found_epoch: usize,
    /// The global epoch after the cycle advanced it: one more than it
    /// found.
    pub new_epoch: usize,
    /// The oldest epoch that a pinned reader announced, or `new_epoch` if
    /// no reader was pinned. This is the value the cycle published.
    pub min_active: usize,
    /// Whether the cycle cleaned the registry: it was a cleanup cycle and
    /// met a slot whose reader is gone.
    pub evicted: bool,
    /// What the cycle found in the registry and what it left there.
    pub sweep: Ghost<Sweep>,
}

/// The writer's endpoint: the only handle that retires payloads and runs
/// collection cycles.
pub struct GcHandle {
    shared: Arc<SharedState>,
    garbage: GarbageSet,
    auto_reclaim_threshold: Option<usize>,
    collection_counter: usize,
    cleanup_interval: usize,
}

impl View for GcHandle {
    type V = GcModel;

    closed spec fn view(&self) -> GcModel {
        GcModel {
            garbage: self.garbage@,
            auto_reclaim_threshold: self.auto_reclaim_threshold,
            collection_counter: self.collection_counter,
            cleanup_interval: self.cleanup_interval,
        }
    }
}

/// Reads every registered slot under the registry lock and, if the census
/// asks for it, removes the abandoned ones before the lock is released.
fn sweep(shared: &SharedState, new_epoch: usize, should_cleanup: bool) -> (result: (
    Census,
    Ghost<Sweep>,
))
    ensures
        result.0 == census_of(new_epoch, should_cleanup, result.1@.readings),
        result.1@.follows(result.0),
{
    let mut registry = shared.registry().lock();
    let registered: &mut Vec<Arc<ReaderSlot>> = &mut *registry;
    let ghost slots = registered@;
    let (census, readings) = take_census(registered, new_epoch, should_cleanup);
    let ghost mut recount: Seq<usize> = Seq::empty();
    if census.must_evict() {
        let owners = evict_orphans(registered);
        proof {
            recount = owners@;
        }
    }
    (census, Ghost(Sweep { slots, readings: readings@, recount, kept: registered@ }))
}

impl GcHandle {
    /// The staging area is well formed.
    pub closed spec fn wf(&self) -> bool {
        self.garbage.wf()
    }

    /// The state of the domain that the handle writes for.
    pub closed spec fn domain(&self) -> SharedState {
        *self.shared
    }

    /// A handle on `shared` with nothing staged and no cycle run.
    pub(crate) fn new(
        shared: Arc<SharedState>,
        auto_reclaim_threshold: Option<usize>,
        cleanup_interval: usize,
    ) -> (gc: GcHandle)
        ensures
            gc.wf(),
            gc.domain() == *shared,
            gc@ == (GcModel {
                garbage: Seq::<Bag>::empty(),
                auto_reclaim_threshold,
                collection_counter: 0,
                cleanup_interval,
            }),
    {
        GcHandle {
            shared,
            garbage: GarbageSet::new(),
            auto_reclaim_threshold,
            collection_counter: 0,
            cleanup_interval,
        }
    }

    /// Number of retired payloads that wait for reclamation.
    pub fn total_garbage_count(&self) -> (n: usize)
        requires
            self.wf(),
        ensures
            n == total_records(self@.garbage),
    {
        self.garbage.len()
    }

    /// Hands a displaced payload to the handle for deferred destruction.
    ///
    /// The payload is staged at the global epoch of this moment. If a
    /// threshold is configured and more records than that are staged now, a
    /// collection cycle runs at once.
    pub fn retire<T: 'static>(&mut self, data: Box<T>)
        requires
            old(self).wf(),
            total_records(old(self)@.garbage) < usize::MAX,
        ensures
            final(self).wf(),
            final(self).domain() == old(self).domain(),
            old(self)@.retired_as(final(self)@, (*data).erased()),
            total_records(final(self)@.garbage) <= total_records(old(self)@.garbage) + 1,
    {
        let current_epoch: usize = self.shared.stamp_epoch();
        let record = RetiredObject::new(data);
        self.garbage.add(record, current_epoch);
        let ghost after = self@;
        assert(after == old(self)@.staging(record, current_epoch));
        let over: bool = match self.auto_reclaim_threshold {
            Some(threshold) => self.total_garbage_count() > threshold,
            None => false,
        };
        if over {
            self.collect();
        }
    }

    /// Runs one collection cycle.
    ///
    /// The cycle advances the global epoch by one, reads the slot of every
    /// registered reader to find the oldest pinned epoch, publishes it, and
    /// reclaims the staged bags that are older. With no reader pinned it
    /// reclaims every staged record. On every `cleanup_interval`-th cycle the
    /// slots of readers that are gone leave the registry.
    pub fn collect(&mut self)
        requires
            old(self).wf(),
        ensures
            final(self).wf(),
            final(self).domain() == old(self).domain(),
            old(self)@.cycled_to(final(self)@),
            total_records(final(self)@.garbage) <= total_records(old(self)@.garbage),
    {
        let cycle = self.run_cycle();
        assert(self@ == old(self)@.after_cycle(
            cycle.new_epoch,
            min_active_among(cycle.new_epoch, cycle.sweep@.readings),
        ));
    }

    /// Runs one collection cycle, as `collect` does, and reports what it
    /// saw.
    pub fn run_cycle(&mut self) -> (cycle: Cycle)
        requires
            old(self).wf(),
        ensures
            final(self).wf(),
            final(self).domain() == old(self).domain(),
            cycle.new_epoch == successor(cycle.found_epoch),
            cycle.found_epoch < usize::MAX ==> cycle.new_epoch > cycle.found_epoch,
            cycle.min_active == min_active_among(cycle.new_epoch, cycle.sweep@.readings),
            cycle.min_active <= cycle.new_epoch,
            survives_the_pinned(
                old(self)@.garbage,
                final(self)@.garbage,
                cycle.new_epoch,
                cycle.sweep@.readings,
            ),
            cycle.evicted <==> (cleanup_due(
                successor(old(self)@.collection_counter),
                old(self)@.cleanup_interval,
            ) && (exists|i: int|
                0 <= i < cycle.sweep@.readings.len() && (#[trigger] cycle.sweep@.readings[
                    i
                ]).orphaned())),
            cycle.sweep@.readings.len() == cycle.sweep@.slots.len(),
            cycle.evicted ==> cycle.sweep@.recount.len() == cycle.sweep@.slots.len()
                && cycle.sweep@.kept == retained(cycle.sweep@.slots, cycle.sweep@.recount),
            !cycle.evicted ==> cycle.sweep@.kept == cycle.sweep@.slots,
            final(self)@ == old(self)@.after_cycle(cycle.new_epoch, cycle.min_active),
            total_records(final(self)@.garbage) <= total_records(old(self)@.garbage),
    {
        proof {
            law_reclaim_takes_a_prefix_everywhere(old(self)@.garbage);
        }
        let found_epoch: usize = self.shared.bump_epoch();
        let new_epoch: usize = next_after(found_epoch);
        self.collection_counter = next_after(self.collection_counter);
        let should_cleanup: bool = is_cleanup_due(self.collection_counter, self.cleanup_interval);
        let (census, sweep) = sweep(&self.shared, new_epoch, should_cleanup);
        proof {
            lemma_min_active(new_epoch, should_cleanup, sweep@.readings);
            lemma_dead_count(new_epoch, should_cleanup, sweep@.readings);
        }
        let min_active_epoch: usize = census.min_active;
        self.shared.publish_min_active(min_active_epoch);
        self.garbage.collect(min_active_epoch, new_epoch);
        let evicted: bool = census.must_evict();
        proof {
            law_pinned_epochs_survive(
                old(self)@.garbage,
                new_epoch,
                sweep@.readings,
            );
        }
        let cycle = Cycle {
            found_epoch,
            new_epoch,
            min_active: min_active_epoch,
            evicted,
            sweep,
        };
        assert(cycle.sweep@ == sweep@);
        cycle
    }
}

} // verus!
