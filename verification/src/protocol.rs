//! The reclamation protocol as a transition system, and the proof that it
//! is safe.
//!
//! The functions of this crate run on several threads at once, and what one
//! thread reads from shared memory depends on what the others did before.
//! This module describes that: a `World` is everything the threads share or
//! hold, a `Step` is one access to it, and an execution is any sequence of
//! steps, in any interleaving of any number of readers with the writer. A
//! pin takes three steps a round, a collection cycle takes one for each
//! slot it reads and four more, and steps of other threads may fall between
//! them. A payload has a name of its own, so that two payloads of equal
//! value are told apart.
//! Each step decides as the executable code does, by the same functions:
//! `entered`, `exited`, `settled`, `recorded`, `staged`, `reclaimed`.
//!
//! The model takes every access to shared memory as one indivisible step
//! that sees the writes of all earlier steps, and it lets the epoch grow
//! only below `INACTIVE_EPOCH`.
//!
//! The theorem, `law_readers_never_see_freed`, says that in every state of
//! every execution each payload that a reader holds a reference to is still
//! allocated.

use vstd::prelude::*;
use crate::census::recorded;
use crate::census::successor;
use crate::census::Census;
use crate::census::SlotReading;
use crate::garbage::first_kept;
use crate::garbage::lemma_first_kept_splits;
use crate::garbage::reclaimed;
use crate::garbage::staged;
use crate::garbage::Bag;
use crate::reader::entered;
use crate::reader::exited;
use crate::reader::settled;
use crate::state::INACTIVE_EPOCH;

verus! {

/// The name of a payload. Every allocation has a name of its own, whatever
/// it holds: two payloads of equal value are two payloads.
pub type Ident = nat;

/// Where a reader stands in taking its first guard.
pub enum Phase {
    /// Not in the middle of a pin.
    Resting,
    /// It has read the global epoch and not yet written its slot.
    Announcing { observed: usize },
    /// It has written its slot and not yet read the published minimum.
    Checking { announced: usize },
    /// Its check failed: the writer had moved past what it announced. It
    /// reads the global epoch again next, as it will then stand.
    Retrying,
}

/// One reader: its slot, its guard count, and the payloads it holds
/// references to.
pub struct Reader {
    pub slot: usize,
    pub count: usize,
    pub phase: Phase,
    pub held: Set<Ident>,
    pub gone: bool,
}

/// Where the writer stands in a collection cycle.
pub enum Writer {
    /// Between cycles; it may store and retire.
    Idle,
    /// It has advanced the epoch and reads the slots in `pending` next,
    /// holding the registry lock.
    Sweeping { new_epoch: usize, min_active: usize, pending: Set<nat> },
    /// It has read every slot and not yet published the minimum.
    Publishing { new_epoch: usize, min_active: usize },
    /// It has published the minimum and not yet reclaimed.
    Reclaiming { new_epoch: usize, min_active: usize },
}

/// Everything the threads of one domain share or hold.
pub struct World {
    /// The global epoch.
    pub epoch: usize,
    /// The minimum active epoch that the last cycle published.
    pub published: usize,
    /// The registered readers.
    pub readers: Map<nat, Reader>,
    pub writer: Writer,
    /// The payloads that protected pointers point to.
    pub live: Set<Ident>,
    /// The payloads that are staged for reclamation.
    pub garbage: Seq<Bag<Ident>>,
    /// The payloads that were destroyed.
    pub freed: Set<Ident>,
    /// Every payload that was ever allocated.
    pub known: Set<Ident>,
}

/// One access to the world by one thread.
pub enum Step {
    /// A reader registers: its slot joins the registry, under the lock.
    Register { reader: nat },
    /// A reader drops its endpoint, and with it every reference.
    Depart { reader: nat },
    /// First guard, first part: the reader reads the global epoch; also
    /// after a failed check, for the next round.
    PinRead { reader: nat },
    /// First guard, second part: the reader writes the epoch to its slot.
    PinAnnounce { reader: nat },
    /// First guard, third part: the reader reads the published minimum,
    /// and is pinned if its announcement is settled; else it has to start
    /// over.
    PinCheck { reader: nat },
    /// First guard, out of rounds: the last announcement stands.
    PinGiveUp { reader: nat },
    /// A nested pin or the clone of a guard.
    PinNested { reader: nat },
    /// A guard is dropped.
    Unpin { reader: nat },
    /// A pinned reader loads a protected pointer.
    Load { reader: nat, payload: Ident },
    /// A reader lets go of a reference.
    Forget { reader: nat, payload: Ident },
    /// A protected pointer is made, pointing to a new payload.
    Allocate { fresh: Ident },
    /// The writer stores: a new payload goes live and the displaced one is
    /// staged at the global epoch.
    Store { displaced: Ident, fresh: Ident },
    /// The writer retires a payload that was never shared.
    Retire { payload: Ident },
    /// A cycle starts: the writer advances the global epoch and takes the
    /// registry lock.
    CycleBegin,
    /// The writer reads one slot, and finds it shared by `owners` handles.
    CycleScan { reader: nat, owners: usize },
    /// The writer has read every slot; it may drop slots of readers that
    /// are gone, and releases the lock.
    CycleEvict { evicted: Set<nat> },
    /// The writer publishes the minimum active epoch.
    CyclePublish,
    /// The writer reclaims the staged bags that the minimum lets go.
    CycleReclaim,
}

/// Whether `payload` is staged in the bag at `at`.
pub open spec fn holds(bags: Seq<Bag<Ident>>, payload: Ident, at: int) -> bool {
    0 <= at < bags.len() && bags[at].records.contains(payload)
}

/// The payloads in the bags that a reclamation took from the front of
/// `before`, leaving `after`.
pub open spec fn taken(before: Seq<Bag<Ident>>, after: Seq<Bag<Ident>>) -> Set<Ident> {
    Set::new(
        |payload: Ident|
            exists|at: int| #[trigger]
                holds(before, payload, at) && at < before.len() - after.len(),
    )
}

/// The world in which nothing has happened yet.
pub open spec fn initial(w: World) -> bool {
    &&& w.epoch == 0
    &&& w.published == 0
    &&& w.readers == Map::<nat, Reader>::empty()
    &&& w.writer is Idle
    &&& w.live == Set::<Ident>::empty()
    &&& w.garbage == Seq::<Bag<Ident>>::empty()
    &&& w.freed == Set::<Ident>::empty()
    &&& w.known == Set::<Ident>::empty()
}

/// The reader `id` is registered and has not left.
pub open spec fn present(w: World, id: nat) -> bool {
    w.readers.dom().contains(id) && !w.readers[id].gone
}

/// The world `w` with reader `id` replaced by `reader`.
pub open spec fn with_reader(w: World, id: nat, reader: Reader) -> World {
    World { readers: w.readers.insert(id, reader), ..w }
}

/// Whether `step` can be taken in `w`.
pub open spec fn enabled(w: World, step: Step) -> bool {
    match step {
        Step::Register { reader } => !w.readers.dom().contains(reader) && !(w.writer is Sweeping),
        Step::Depart { reader } => present(w, reader),
        Step::PinRead { reader } => {
            &&& present(w, reader)
            &&& (w.readers[reader].phase is Retrying || (w.readers[reader].phase is Resting
                && entered(w.readers[reader].count).announce))
        },
        Step::PinAnnounce { reader } => present(w, reader) && w.readers[reader].phase is Announcing,
        Step::PinCheck { reader } => present(w, reader) && w.readers[reader].phase is Checking,
        Step::PinGiveUp { reader } => present(w, reader) && w.readers[reader].phase is Checking,
        Step::PinNested { reader } => {
            &&& present(w, reader)
            &&& w.readers[reader].phase is Resting
            &&& !entered(w.readers[reader].count).announce
        },
        Step::Unpin { reader } => present(w, reader) && w.readers[reader].count > 0,
        Step::Load { reader, payload } => {
            &&& present(w, reader)
            &&& w.readers[reader].count > 0
            &&& w.live.contains(payload)
        },
        Step::Forget { reader, payload } => present(w, reader),
        Step::Allocate { fresh } => !w.known.contains(fresh),
        Step::Store { displaced, fresh } => {
            &&& w.writer is Idle
            &&& w.live.contains(displaced)
            &&& !w.known.contains(fresh)
        },
        Step::Retire { payload } => w.writer is Idle && !w.known.contains(payload),
        Step::CycleBegin => w.writer is Idle && w.epoch + 1 < INACTIVE_EPOCH,
        Step::CycleScan { reader, owners } => {
            &&& w.writer matches Writer::Sweeping { pending, .. }
            &&& pending.contains(reader)
            &&& w.readers.dom().contains(reader)
        },
        Step::CycleEvict { evicted } => {
            &&& w.writer matches Writer::Sweeping { pending, .. }
            &&& forall|id: nat| !pending.contains(id)
            &&& forall|id: nat|
                evicted.contains(id) ==> w.readers.dom().contains(id) && w.readers[id].gone
        },
        Step::CyclePublish => w.writer is Publishing,
        Step::CycleReclaim => w.writer is Reclaiming,
    }
}

/// The world that `step` leaves of `w`.
pub open spec fn after(w: World, step: Step) -> World
    recommends
        enabled(w, step),
{
    match step {
        Step::Register { reader } => with_reader(
            w,
            reader,
            Reader {
                slot: INACTIVE_EPOCH,
                count: 0,
                phase: Phase::Resting,
                held: Set::empty(),
                gone: false,
            },
        ),
        Step::Depart { reader } => with_reader(
            w,
            reader,
            Reader { held: Set::empty(), gone: true, ..w.readers[reader] },
        ),
        Step::PinRead { reader } => with_reader(
            w,
            reader,
            Reader { phase: Phase::Announcing { observed: w.epoch }, ..w.readers[reader] },
        ),
        Step::PinAnnounce { reader } => with_reader(
            w,
            reader,
            Reader {
                slot: w.readers[reader].phase->observed,
                phase: Phase::Checking { announced: w.readers[reader].phase->observed },
                ..w.readers[reader]
            },
        ),
        Step::PinCheck { reader } => with_reader(
            w,
            reader,
            if settled(w.readers[reader].phase->announced, w.published) {
                Reader {
                    count: entered(w.readers[reader].count).count,
                    phase: Phase::Resting,
                    ..w.readers[reader]
                }
            } else {
                Reader { phase: Phase::Retrying, ..w.readers[reader] }
            },
        ),
        Step::PinGiveUp { reader } => with_reader(
            w,
            reader,
            Reader {
                count: entered(w.readers[reader].count).count,
                phase: Phase::Resting,
                ..w.readers[reader]
            },
        ),
        Step::PinNested { reader } => with_reader(
            w,
            reader,
            Reader { count: entered(w.readers[reader].count).count, ..w.readers[reader] },
        ),
        Step::Unpin { reader } => with_reader(
            w,
            reader,
            if exited(w.readers[reader].count).withdraw {
                Reader {
                    slot: INACTIVE_EPOCH,
                    count: exited(w.readers[reader].count).count,
                    held: Set::empty(),
                    ..w.readers[reader]
                }
            } else {
                Reader { count: exited(w.readers[reader].count).count, ..w.readers[reader] }
            },
        ),
        Step::Load { reader, payload } => with_reader(
            w,
            reader,
            Reader { held: w.readers[reader].held.insert(payload), ..w.readers[reader] },
        ),
        Step::Forget { reader, payload } => with_reader(
            w,
            reader,
            Reader { held: w.readers[reader].held.remove(payload), ..w.readers[reader] },
        ),
        Step::Allocate { fresh } => World {
            live: w.live.insert(fresh),
            known: w.known.insert(fresh),
            ..w
        },
        Step::Store { displaced, fresh } => World {
            live: w.live.remove(displaced).insert(fresh),
            garbage: staged(w.garbage, displaced, w.epoch),
            known: w.known.insert(fresh),
            ..w
        },
        Step::Retire { payload } => World {
            garbage: staged(w.garbage, payload, w.epoch),
            known: w.known.insert(payload),
            ..w
        },
        Step::CycleBegin => World {
            epoch: successor(w.epoch),
            writer: Writer::Sweeping {
                new_epoch: successor(w.epoch),
                min_active: successor(w.epoch),
                pending: w.readers.dom(),
            },
            ..w
        },
        Step::CycleScan { reader, owners } => World {
            writer: Writer::Sweeping {
                new_epoch: w.writer->Sweeping_new_epoch,
                min_active: recorded(
                    Census {
                        min_active: w.writer->Sweeping_min_active,
                        dead_count: 0,
                        should_cleanup: false,
                    },
                    SlotReading { epoch: w.readers[reader].slot, owners },
                ).min_active,
                pending: w.writer->pending.remove(reader),
            },
            ..w
        },
        Step::CycleEvict { evicted } => World {
            readers: w.readers.remove_keys(evicted),
            writer: Writer::Publishing {
                new_epoch: w.writer->Sweeping_new_epoch,
                min_active: w.writer->Sweeping_min_active,
            },
            ..w
        },
        Step::CyclePublish => World {
            published: w.writer->Publishing_min_active,
            writer: Writer::Reclaiming {
                new_epoch: w.writer->Publishing_new_epoch,
                min_active: w.writer->Publishing_min_active,
            },
            ..w
        },
        Step::CycleReclaim => World {
            garbage: reclaimed(
                w.garbage,
                w.writer->Reclaiming_min_active,
                w.writer->Reclaiming_new_epoch,
            ),
            freed: w.freed.union(
                taken(
                    w.garbage,
                    reclaimed(
                        w.garbage,
                        w.writer->Reclaiming_min_active,
                        w.writer->Reclaiming_new_epoch,
                    ),
                ),
            ),
            writer: Writer::Idle,
            ..w
        },
    }
}

/// Whether `step` leads from `w` to `next`.
pub open spec fn steps_to(w: World, next: World, step: Step) -> bool {
    enabled(w, step) && next == after(w, step)
}

/// Whether some step leads from the world at `i` to the one after it.
pub open spec fn advances(trace: Seq<World>, i: int) -> bool {
    exists|step: Step| #[trigger] steps_to(trace[i], trace[i + 1], step)
}

/// An execution: a sequence of worlds that starts with the initial one and
/// goes on by one step at a time.
pub open spec fn execution(trace: Seq<World>) -> bool {
    &&& trace.len() > 0
    &&& initial(trace[0])
    &&& forall|i: int| 0 <= i < trace.len() - 1 ==> #[trigger] advances(trace, i)
}

/// Safety: no reader holds a reference to a payload that was destroyed.
pub open spec fn readers_see_no_freed(w: World) -> bool {
    forall|id: nat, payload: Ident|
        w.readers.dom().contains(id) && #[trigger] w.readers[id].held.contains(payload)
            ==> !w.freed.contains(payload)
}

/// The writer cannot reach `payload`, which `reader` holds: it was not
/// destroyed, and it is live, or staged in a bag that is no older than the
/// epoch the reader announces.
pub open spec fn protected(w: World, reader: Reader, payload: Ident) -> bool {
    &&& !w.freed.contains(payload)
    &&& (w.live.contains(payload) || exists|at: int| #[trigger]
        holds(w.garbage, payload, at) && w.garbage[at].epoch >= reader.slot)
}

/// What holds of every reader between any two steps.
pub open spec fn reader_inv(w: World, reader: Reader) -> bool {
    &&& reader.count > 0 ==> reader.phase is Resting && reader.slot != INACTIVE_EPOCH
        && reader.slot <= w.epoch
    &&& reader.count == 0 ==> forall|payload: Ident| !reader.held.contains(payload)
    &&& reader.gone ==> forall|payload: Ident| !reader.held.contains(payload)
    &&& reader.phase matches Phase::Announcing { observed } ==> reader.count == 0 && observed
        <= w.epoch
    &&& reader.phase matches Phase::Checking { announced } ==> reader.count == 0 && reader.slot
        == announced && announced <= w.epoch
    &&& reader.phase is Retrying ==> reader.count == 0
    &&& reader.phase is Resting && reader.count == 0 ==> reader.slot == INACTIVE_EPOCH
    &&& forall|payload: Ident| #[trigger]
        reader.held.contains(payload) ==> protected(w, reader, payload)
}

/// The running minimum of a sweep accounts for `reader`: the reader holds
/// nothing but live payloads, or the minimum is no later than its slot.
pub open spec fn covered(w: World, reader: Reader, min_active: usize) -> bool {
    ||| forall|payload: Ident| #[trigger]
        reader.held.contains(payload) ==> w.live.contains(payload)
    ||| min_active <= reader.slot
}

/// What holds of the payloads between any two steps: live, staged and
/// destroyed payloads are apart, a payload is staged in one bag only, and no
/// bag is of a later epoch than the global one.
pub open spec fn heap_inv(w: World) -> bool {
    &&& forall|payload: Ident| #[trigger]
        w.live.contains(payload) ==> w.known.contains(payload) && !w.freed.contains(payload)
    &&& forall|payload: Ident| #[trigger]
        w.freed.contains(payload) ==> w.known.contains(payload)
    &&& forall|payload: Ident, at: int| #[trigger]
        holds(w.garbage, payload, at) ==> w.known.contains(payload) && !w.live.contains(payload)
            && !w.freed.contains(payload) && w.garbage[at].epoch <= w.epoch
    &&& forall|payload: Ident, a: int, b: int|
        #![trigger holds(w.garbage, payload, a), holds(w.garbage, payload, b)]
        holds(w.garbage, payload, a) && holds(w.garbage, payload, b) ==> a == b
}

/// What holds during a cycle of epoch `new_epoch`: the global epoch is the
/// cycle's, and everything staged was staged before.
pub open spec fn in_cycle(w: World, new_epoch: usize, min_active: usize) -> bool {
    &&& new_epoch == w.epoch
    &&& min_active <= new_epoch
    &&& forall|payload: Ident, at: int| #[trigger]
        holds(w.garbage, payload, at) ==> w.garbage[at].epoch < new_epoch
}

/// What holds of the writer between any two steps.
pub open spec fn writer_inv(w: World) -> bool {
    match w.writer {
        Writer::Idle => true,
        Writer::Sweeping { new_epoch, min_active, pending } => {
            &&& in_cycle(w, new_epoch, min_active)
            &&& forall|id: nat|
                w.readers.dom().contains(id) && !pending.contains(id) ==> covered(
                    w,
                    #[trigger] w.readers[id],
                    min_active,
                )
        },
        Writer::Publishing { new_epoch, min_active } => {
            &&& in_cycle(w, new_epoch, min_active)
            &&& forall|id: nat|
                w.readers.dom().contains(id) ==> covered(w, #[trigger] w.readers[id], min_active)
        },
        Writer::Reclaiming { new_epoch, min_active } => {
            &&& in_cycle(w, new_epoch, min_active)
            &&& forall|id: nat|
                w.readers.dom().contains(id) ==> covered(w, #[trigger] w.readers[id], min_active)
        },
    }
}

/// What holds between any two steps of any execution.
pub open spec fn consistent(w: World) -> bool {
    &&& w.epoch < INACTIVE_EPOCH
    &&& heap_inv(w)
    &&& writer_inv(w)
    &&& forall|id: nat| w.readers.dom().contains(id) ==> reader_inv(w, #[trigger] w.readers[id])
}

/// Where the payloads are staged after one more was staged: where they
/// were, and the new one in the last bag.
proof fn lemma_staged_holds(bags: Seq<Bag<Ident>>, record: Ident, epoch: usize)
    ensures
        ({
            let after = staged(bags, record, epoch);
            let target = after.len() - 1;
            &&& after.len() > 0
            &&& bags.len() - 1 <= target <= bags.len()
            &&& after[target].epoch == epoch
            &&& forall|at: int| 0 <= at < bags.len() ==> (#[trigger] after[at]).epoch == bags[at].epoch
            &&& forall|payload: Ident, at: int| #[trigger]
                holds(after, payload, at) <==> holds(bags, payload, at) || (payload == record && at
                    == target)
        }),
{
    let after = staged(bags, record, epoch);
    let target = after.len() - 1;
    assert forall|payload: Ident, at: int| #[trigger]
        holds(after, payload, at) <==> holds(bags, payload, at) || (payload == record && at
            == target) by {
        if bags.len() > 0 && bags.last().epoch == epoch {
            let old_records = bags.last().records;
            let new_records = old_records.push(record);
            assert(after[target].records == new_records);
            assert(new_records[old_records.len() as int] == record);
            if 0 <= at < target {
                assert(after[at] == bags[at]);
            }
            if old_records.contains(payload) {
                let i = choose|i: int| 0 <= i < old_records.len() && old_records[i] == payload;
                assert(new_records[i] == payload);
            }
            if new_records.contains(payload) {
                let i = choose|i: int| 0 <= i < new_records.len() && new_records[i] == payload;
                if i < old_records.len() {
                    assert(old_records[i] == payload);
                }
            }
        } else {
            let new_records = seq![record];
            assert(after[target].records == new_records);
            assert(new_records[0] == record);
            if 0 <= at < target {
                assert(after[at] == bags[at]);
            }
        }
    }
}

/// Where the payloads are staged after a reclamation: in the bags that
/// were not taken, as many places further to the front as bags were taken.
proof fn lemma_reclaimed_holds(bags: Seq<Bag<Ident>>, min_active: usize, current: usize)
    ensures
        ({
            let after = reclaimed(bags, min_active, current);
            let gone = bags.len() - after.len();
            &&& 0 <= gone <= bags.len()
            &&& after == bags.skip(gone)
            &&& min_active != current ==> gone == first_kept(bags, min_active)
            &&& forall|payload: Ident, at: int| #[trigger]
                holds(after, payload, at) ==> holds(bags, payload, at + gone)
            &&& forall|payload: Ident, at: int| #[trigger]
                holds(bags, payload, at) && at >= gone ==> holds(after, payload, at - gone)
        }),
{
    lemma_first_kept_splits(bags, min_active);
    let after = reclaimed(bags, min_active, current);
    let gone = bags.len() - after.len();
    assert(after =~= bags.skip(gone));
}

/// What holds of a reader depends on the epoch and the payloads only.
proof fn lemma_reader_inv_same_heap(w: World, next: World, reader: Reader)
    requires
        reader_inv(w, reader),
        next.epoch == w.epoch,
        next.live == w.live,
        next.garbage == w.garbage,
        next.freed == w.freed,
    ensures
        reader_inv(next, reader),
{
    assert forall|payload: Ident| #[trigger]
        reader.held.contains(payload) implies protected(next, reader, payload) by {
        assert(protected(w, reader, payload));
    }
}

/// A step of one reader that leaves the reader as the invariant wants it,
/// and no less accounted for by a sweep, keeps the invariant.
proof fn lemma_reader_step(w: World, id: nat, reader: Reader)
    requires
        consistent(w),
        reader_inv(w, reader),
        w.readers.dom().contains(id) ==> forall|min_active: usize|
            covered(w, w.readers[id], min_active) ==> #[trigger] covered(w, reader, min_active),
        !w.readers.dom().contains(id) ==> !(w.writer is Sweeping) && forall|payload: Ident|
            !reader.held.contains(payload),
    ensures
        consistent(with_reader(w, id, reader)),
{
    let next = with_reader(w, id, reader);
    assert forall|other: nat| next.readers.dom().contains(other) implies reader_inv(
        next,
        #[trigger] next.readers[other],
    ) by {
        if other != id {
            assert(next.readers[other] == w.readers[other]);
            assert(reader_inv(w, w.readers[other]));
        }
        lemma_reader_inv_same_heap(w, next, next.readers[other]);
    }
    match w.writer {
        Writer::Idle => {},
        Writer::Sweeping { new_epoch, min_active, pending } => {
            assert forall|other: nat|
                next.readers.dom().contains(other) && !pending.contains(other) implies covered(
                next,
                #[trigger] next.readers[other],
                min_active,
            ) by {
                if other != id {
                    assert(next.readers[other] == w.readers[other]);
                    assert(covered(w, w.readers[other], min_active));
                } else {
                    assert(covered(w, w.readers[id], min_active));
                    assert(covered(w, reader, min_active));
                }
            }
        },
        Writer::Publishing { new_epoch, min_active } => {
            assert forall|other: nat| next.readers.dom().contains(other) implies covered(
                next,
                #[trigger] next.readers[other],
                min_active,
            ) by {
                if other != id {
                    assert(next.readers[other] == w.readers[other]);
                    assert(covered(w, w.readers[other], min_active));
                } else if w.readers.dom().contains(id) {
                    assert(covered(w, w.readers[id], min_active));
                    assert(covered(w, reader, min_active));
                }
            }
        },
        Writer::Reclaiming { new_epoch, min_active } => {
            assert forall|other: nat| next.readers.dom().contains(other) implies covered(
                next,
                #[trigger] next.readers[other],
                min_active,
            ) by {
                if other != id {
                    assert(next.readers[other] == w.readers[other]);
                    assert(covered(w, w.readers[other], min_active));
                } else if w.readers.dom().contains(id) {
                    assert(covered(w, w.readers[id], min_active));
                    assert(covered(w, reader, min_active));
                }
            }
        },
    }
}

/// Every step of a reader keeps the invariant.
proof fn lemma_reader_steps(w: World, next: World, step: Step)
    requires
        consistent(w),
        steps_to(w, next, step),
        step is Register || step is Depart || step is PinRead || step is PinAnnounce
            || step is PinCheck || step is PinGiveUp || step is PinNested || step is Unpin
            || step is Load || step is Forget,
    ensures
        consistent(next),
{
    match step {
        Step::Register { reader } => {
            let fresh = next.readers[reader];
            lemma_reader_step(w, reader, fresh);
        },
        Step::Depart { reader }
        | Step::PinRead { reader }
        | Step::PinAnnounce { reader }
        | Step::PinCheck { reader }
        | Step::PinGiveUp { reader }
        | Step::PinNested { reader }
        | Step::Unpin { reader }
        | Step::Forget { reader, .. } => {
            let before = w.readers[reader];
            let after = next.readers[reader];
            assert(reader_inv(w, before));
            assert forall|payload: Ident| #[trigger]
                after.held.contains(payload) implies protected(w, after, payload) by {
                assert(before.held.contains(payload));
                assert(protected(w, before, payload));
                assert(after.slot == before.slot);
            }
            assert forall|min_active: usize| covered(w, before, min_active) implies #[trigger] covered(
                w,
                after,
                min_active,
            ) by {
                if !(forall|payload: Ident| #[trigger]
                    after.held.contains(payload) ==> w.live.contains(payload)) {
                    let payload = choose|payload: Ident| #[trigger]
                        after.held.contains(payload) && !w.live.contains(payload);
                    assert(before.held.contains(payload));
                    assert(after.slot == before.slot);
                }
            }
            lemma_reader_step(w, reader, after);
        },
        Step::Load { reader, payload } => {
            let before = w.readers[reader];
            let after = next.readers[reader];
            assert(reader_inv(w, before));
            assert forall|other: Ident| #[trigger]
                after.held.contains(other) implies protected(w, after, other) by {
                if other != payload {
                    assert(before.held.contains(other));
                    assert(protected(w, before, other));
                }
            }
            assert forall|min_active: usize| covered(w, before, min_active) implies #[trigger] covered(
                w,
                after,
                min_active,
            ) by {
                if !(forall|other: Ident| #[trigger]
                    after.held.contains(other) ==> w.live.contains(other)) {
                    let other = choose|other: Ident| #[trigger]
                        after.held.contains(other) && !w.live.contains(other);
                    assert(before.held.contains(other));
                }
            }
            lemma_reader_step(w, reader, after);
        },
        _ => {},
    }
}

/// Making a protected pointer keeps the invariant.
proof fn lemma_allocate_step(w: World, next: World, fresh: Ident)
    requires
        consistent(w),
        steps_to(w, next, Step::Allocate { fresh }),
    ensures
        consistent(next),
{
    assert forall|payload: Ident, at: int| #[trigger]
        holds(next.garbage, payload, at) implies next.known.contains(payload)
        && !next.live.contains(payload) && !next.freed.contains(payload) && next.garbage[at].epoch
        <= next.epoch by {
        assert(holds(w.garbage, payload, at));
    }
    assert forall|id: nat| next.readers.dom().contains(id) implies reader_inv(
        next,
        #[trigger] next.readers[id],
    ) by {
        let reader = w.readers[id];
        assert(reader_inv(w, reader));
        assert forall|payload: Ident| #[trigger]
            reader.held.contains(payload) implies protected(next, reader, payload) by {
            assert(protected(w, reader, payload));
            if !w.live.contains(payload) {
                let at = choose|at: int| #[trigger]
                    holds(w.garbage, payload, at) && w.garbage[at].epoch >= reader.slot;
                assert(holds(next.garbage, payload, at));
            }
        }
    }
    assert forall|id: nat, min_active: usize|
        w.readers.dom().contains(id) && covered(w, #[trigger] w.readers[id], min_active)
            implies #[trigger] covered(next, next.readers[id], min_active) by {
        let reader = w.readers[id];
        if !(min_active <= reader.slot) {
            assert forall|payload: Ident| #[trigger]
                reader.held.contains(payload) implies next.live.contains(payload) by {
                assert(w.live.contains(payload));
            }
        }
    }
    match w.writer {
        Writer::Idle => {},
        Writer::Sweeping { new_epoch, min_active, pending } => {
            assert forall|payload: Ident, at: int| #[trigger]
                holds(next.garbage, payload, at) implies next.garbage[at].epoch < new_epoch by {
                assert(holds(w.garbage, payload, at));
            }
            assert forall|id: nat|
                next.readers.dom().contains(id) && !pending.contains(id) implies covered(
                next,
                #[trigger] next.readers[id],
                min_active,
            ) by {
                assert(covered(w, w.readers[id], min_active));
            }
        },
        Writer::Publishing { new_epoch, min_active } => {
            assert forall|payload: Ident, at: int| #[trigger]
                holds(next.garbage, payload, at) implies next.garbage[at].epoch < new_epoch by {
                assert(holds(w.garbage, payload, at));
            }
            assert forall|id: nat| next.readers.dom().contains(id) implies covered(
                next,
                #[trigger] next.readers[id],
                min_active,
            ) by {
                assert(covered(w, w.readers[id], min_active));
            }
        },
        Writer::Reclaiming { new_epoch, min_active } => {
            assert forall|payload: Ident, at: int| #[trigger]
                holds(next.garbage, payload, at) implies next.garbage[at].epoch < new_epoch by {
                assert(holds(w.garbage, payload, at));
            }
            assert forall|id: nat| next.readers.dom().contains(id) implies covered(
                next,
                #[trigger] next.readers[id],
                min_active,
            ) by {
                assert(covered(w, w.readers[id], min_active));
            }
        },
    }
}

/// Staging a payload while the writer is between cycles keeps the
/// invariant: storing, which displaces a live payload, and retiring one
/// that was never shared.
proof fn lemma_stage_step(w: World, next: World, step: Step)
    requires
        consistent(w),
        steps_to(w, next, step),
        step is Store || step is Retire,
    ensures
        consistent(next),
{
    let record = match step {
        Step::Store { displaced, fresh } => displaced,
        Step::Retire { payload } => payload,
        _ => arbitrary(),
    };
    lemma_staged_holds(w.garbage, record, w.epoch);
    let target = next.garbage.len() - 1;
    assert(next.garbage == staged(w.garbage, record, w.epoch));
    assert forall|at: int| !holds(w.garbage, record, at) by {
        if holds(w.garbage, record, at) {
            assert(w.known.contains(record) && !w.live.contains(record));
        }
    }
    assert forall|payload: Ident, at: int| #[trigger]
        holds(next.garbage, payload, at) implies next.known.contains(payload)
        && !next.live.contains(payload) && !next.freed.contains(payload) && next.garbage[at].epoch
        <= next.epoch by {
        if holds(w.garbage, payload, at) {
            assert(next.garbage[at].epoch == w.garbage[at].epoch);
        } else {
            if step is Store {
                assert(w.live.contains(record));
            }
        }
    }
    assert forall|payload: Ident, a: int, b: int|
        #![trigger holds(next.garbage, payload, a), holds(next.garbage, payload, b)]
        holds(next.garbage, payload, a) && holds(next.garbage, payload, b) implies a == b by {
        if holds(w.garbage, payload, a) {
            assert(payload != record);
            assert(holds(w.garbage, payload, b));
        } else {
            assert(!holds(w.garbage, payload, b));
        }
    }
    assert forall|id: nat| next.readers.dom().contains(id) implies reader_inv(
        next,
        #[trigger] next.readers[id],
    ) by {
        let reader = w.readers[id];
        assert(reader_inv(w, reader));
        assert forall|payload: Ident| #[trigger]
            reader.held.contains(payload) implies protected(next, reader, payload) by {
            assert(protected(w, reader, payload));
            if w.live.contains(payload) {
                if !next.live.contains(payload) {
                    assert(payload == record);
                    assert(holds(next.garbage, payload, target));
                }
            } else {
                let at = choose|at: int| #[trigger]
                    holds(w.garbage, payload, at) && w.garbage[at].epoch >= reader.slot;
                assert(holds(next.garbage, payload, at));
                assert(next.garbage[at].epoch == w.garbage[at].epoch);
            }
        }
    }
}

/// The start of a cycle keeps the invariant.
proof fn lemma_begin_step(w: World, next: World)
    requires
        consistent(w),
        steps_to(w, next, Step::CycleBegin),
    ensures
        consistent(next),
{
    assert forall|payload: Ident, at: int| #[trigger]
        holds(next.garbage, payload, at) implies next.known.contains(payload)
        && !next.live.contains(payload) && !next.freed.contains(payload) && next.garbage[at].epoch
        < next.epoch by {
        assert(holds(w.garbage, payload, at));
    }
    assert forall|id: nat| next.readers.dom().contains(id) implies reader_inv(
        next,
        #[trigger] next.readers[id],
    ) by {
        let reader = w.readers[id];
        assert(reader_inv(w, reader));
        assert forall|payload: Ident| #[trigger]
            reader.held.contains(payload) implies protected(next, reader, payload) by {
            assert(protected(w, reader, payload));
            if !w.live.contains(payload) {
                let at = choose|at: int| #[trigger]
                    holds(w.garbage, payload, at) && w.garbage[at].epoch >= reader.slot;
                assert(holds(next.garbage, payload, at));
            }
        }
    }
}

/// Reading one slot keeps the invariant: the running minimum goes no
/// higher, and no higher than the slot that was read if its reader is
/// pinned.
proof fn lemma_scan_step(w: World, next: World, reader: nat, owners: usize)
    requires
        consistent(w),
        steps_to(w, next, Step::CycleScan { reader, owners }),
    ensures
        consistent(next),
{
    assert forall|id: nat| next.readers.dom().contains(id) implies reader_inv(
        next,
        #[trigger] next.readers[id],
    ) by {
        lemma_reader_inv_same_heap(w, next, w.readers[id]);
    }
    match (w.writer, next.writer) {
        (
            Writer::Sweeping { new_epoch, min_active, pending },
            Writer::Sweeping { new_epoch: same_epoch, min_active: lower, pending: rest },
        ) => {
            assert(lower <= min_active);
            assert forall|payload: Ident, at: int| #[trigger]
                holds(next.garbage, payload, at) implies next.garbage[at].epoch < same_epoch by {
                assert(holds(w.garbage, payload, at));
            }
            assert forall|id: nat|
                next.readers.dom().contains(id) && !rest.contains(id) implies covered(
                next,
                #[trigger] next.readers[id],
                lower,
            ) by {
                let scanned = w.readers[id];
                assert(reader_inv(w, scanned));
                if id != reader {
                    assert(covered(w, scanned, min_active));
                }
                if !(forall|payload: Ident| #[trigger]
                    scanned.held.contains(payload) ==> w.live.contains(payload)) {
                    let payload = choose|payload: Ident| #[trigger]
                        scanned.held.contains(payload) && !w.live.contains(payload);
                    assert(scanned.count > 0);
                }
            }
        },
        _ => {},
    }
}

/// The end of a sweep keeps the invariant, whichever slots of readers that
/// are gone leave the registry.
proof fn lemma_evict_step(w: World, next: World, evicted: Set<nat>)
    requires
        consistent(w),
        steps_to(w, next, Step::CycleEvict { evicted }),
    ensures
        consistent(next),
{
    assert forall|id: nat| next.readers.dom().contains(id) implies reader_inv(
        next,
        #[trigger] next.readers[id],
    ) by {
        assert(next.readers[id] == w.readers[id]);
        lemma_reader_inv_same_heap(w, next, w.readers[id]);
    }
    match w.writer {
        Writer::Sweeping { new_epoch, min_active, pending } => {
            assert forall|payload: Ident, at: int| #[trigger]
                holds(next.garbage, payload, at) implies next.garbage[at].epoch < new_epoch by {
                assert(holds(w.garbage, payload, at));
            }
            assert forall|id: nat| next.readers.dom().contains(id) implies covered(
                next,
                #[trigger] next.readers[id],
                min_active,
            ) by {
                assert(next.readers[id] == w.readers[id]);
                assert(!pending.contains(id));
                assert(covered(w, w.readers[id], min_active));
            }
        },
        _ => {},
    }
}

/// Publishing the minimum keeps the invariant.
proof fn lemma_announce_step(w: World, next: World)
    requires
        consistent(w),
        steps_to(w, next, Step::CyclePublish),
    ensures
        consistent(next),
{
    assert forall|id: nat| next.readers.dom().contains(id) implies reader_inv(
        next,
        #[trigger] next.readers[id],
    ) by {
        lemma_reader_inv_same_heap(w, next, w.readers[id]);
    }
    match w.writer {
        Writer::Publishing { new_epoch, min_active } => {
            assert forall|payload: Ident, at: int| #[trigger]
                holds(next.garbage, payload, at) implies next.garbage[at].epoch < new_epoch by {
                assert(holds(w.garbage, payload, at));
            }
            assert forall|id: nat| next.readers.dom().contains(id) implies covered(
                next,
                #[trigger] next.readers[id],
                min_active,
            ) by {
                assert(covered(w, w.readers[id], min_active));
            }
        },
        _ => {},
    }
}

/// Reclaiming keeps the invariant: what a reader holds is live or staged
/// no earlier than the minimum, and reclamation stops before the first bag
/// that is no older than the minimum.
proof fn lemma_reclaim_step(w: World, next: World)
    requires
        consistent(w),
        steps_to(w, next, Step::CycleReclaim),
    ensures
        consistent(next),
{
    match w.writer {
        Writer::Reclaiming { new_epoch, min_active } => {
            lemma_reclaimed_holds(w.garbage, min_active, new_epoch);
            lemma_first_kept_splits(w.garbage, min_active);
            let gone = w.garbage.len() - next.garbage.len();
            let freed_now = taken(w.garbage, next.garbage);
            assert(next.freed == w.freed.union(freed_now));
            assert forall|payload: Ident| freed_now.contains(payload) implies exists|
                at: int,
            | #[trigger] holds(w.garbage, payload, at) && at < gone by {}
            assert forall|payload: Ident, at: int| #[trigger]
                holds(next.garbage, payload, at) implies next.known.contains(payload)
                && !next.live.contains(payload) && !next.freed.contains(payload)
                && next.garbage[at].epoch <= next.epoch by {
                assert(holds(w.garbage, payload, at + gone));
                if freed_now.contains(payload) {
                    let other = choose|other: int| #[trigger]
                        holds(w.garbage, payload, other) && other < gone;
                    assert(other == at + gone);
                }
            }
            assert forall|payload: Ident| #[trigger]
                next.freed.contains(payload) implies next.known.contains(payload) by {
                if freed_now.contains(payload) {
                    let at = choose|at: int| #[trigger]
                        holds(w.garbage, payload, at) && at < gone;
                }
            }
            assert forall|payload: Ident| #[trigger]
                next.live.contains(payload) implies next.known.contains(payload)
                && !next.freed.contains(payload) by {
                if freed_now.contains(payload) {
                    let at = choose|at: int| #[trigger]
                        holds(w.garbage, payload, at) && at < gone;
                }
            }
            assert forall|payload: Ident, a: int, b: int|
                #![trigger holds(next.garbage, payload, a), holds(next.garbage, payload, b)]
                holds(next.garbage, payload, a) && holds(next.garbage, payload, b) implies a
                == b by {
                assert(holds(w.garbage, payload, a + gone));
                assert(holds(w.garbage, payload, b + gone));
            }
            assert forall|id: nat| next.readers.dom().contains(id) implies reader_inv(
                next,
                #[trigger] next.readers[id],
            ) by {
                let reader = w.readers[id];
                assert(reader_inv(w, reader));
                assert(covered(w, reader, min_active));
                assert forall|payload: Ident| #[trigger]
                    reader.held.contains(payload) implies protected(next, reader, payload) by {
                    assert(protected(w, reader, payload));
                    if w.live.contains(payload) {
                        if freed_now.contains(payload) {
                            let at = choose|at: int| #[trigger]
                                holds(w.garbage, payload, at) && at < gone;
                        }
                    } else {
                        let at = choose|at: int| #[trigger]
                            holds(w.garbage, payload, at) && w.garbage[at].epoch >= reader.slot;
                        assert(min_active <= reader.slot);
                        assert(w.garbage[at].epoch < new_epoch);
                        assert(min_active != new_epoch);
                        assert(at >= gone);
                        assert(holds(next.garbage, payload, at - gone));
                        assert(next.garbage[at - gone] == w.garbage[at]);
                        if freed_now.contains(payload) {
                            let other = choose|other: int| #[trigger]
                                holds(w.garbage, payload, other) && other < gone;
                            assert(other == at);
                        }
                    }
                }
            }
        },
        _ => {},
    }
}

/// Every step keeps the invariant.
pub proof fn lemma_step_keeps_consistent(w: World, next: World, step: Step)
    requires
        consistent(w),
        steps_to(w, next, step),
    ensures
        consistent(next),
{
    match step {
        Step::Allocate { fresh } => lemma_allocate_step(w, next, fresh),
        Step::Store { .. } | Step::Retire { .. } => lemma_stage_step(w, next, step),
        Step::CycleBegin => lemma_begin_step(w, next),
        Step::CycleScan { reader, owners } => lemma_scan_step(w, next, reader, owners),
        Step::CycleEvict { evicted } => lemma_evict_step(w, next, evicted),
        Step::CyclePublish => lemma_announce_step(w, next),
        Step::CycleReclaim => lemma_reclaim_step(w, next),
        _ => lemma_reader_steps(w, next, step),
    }
}

/// The invariant holds in every world of every execution.
pub proof fn lemma_execution_consistent(trace: Seq<World>, at: int)
    requires
        execution(trace),
        0 <= at < trace.len(),
    ensures
        consistent(trace[at]),
    decreases at,
{
    if at > 0 {
        lemma_execution_consistent(trace, at - 1);
        assert(advances(trace, at - 1));
        let step = choose|step: Step| #[trigger] steps_to(trace[at - 1], trace[at], step);
        lemma_step_keeps_consistent(trace[at - 1], trace[at], step);
    }
}

/// Safety, for all interleavings of any number of readers with the writer:
/// in every world of every execution, each payload that a reader holds a
/// reference to has not been destroyed.
pub proof fn law_readers_never_see_freed(trace: Seq<World>, at: int)
    requires
        execution(trace),
        0 <= at < trace.len(),
    ensures
        readers_see_no_freed(trace[at]),
{
    lemma_execution_consistent(trace, at);
    let w = trace[at];
    assert forall|id: nat, payload: Ident|
        w.readers.dom().contains(id) && #[trigger] w.readers[id].held.contains(
            payload,
        ) implies !w.freed.contains(payload) by {
        assert(reader_inv(w, w.readers[id]));
        assert(protected(w, w.readers[id], payload));
    }
}

/// In every world of every execution, each payload that a protected
/// pointer points to has not been destroyed, and no payload is destroyed
/// while it is staged.
pub proof fn law_live_and_staged_are_allocated(trace: Seq<World>, at: int)
    requires
        execution(trace),
        0 <= at < trace.len(),
    ensures
        forall|payload: Ident| #[trigger]
            trace[at].live.contains(payload) ==> !trace[at].freed.contains(payload),
        forall|payload: Ident, bag: int| #[trigger]
            holds(trace[at].garbage, payload, bag) ==> !trace[at].freed.contains(payload),
{
    lemma_execution_consistent(trace, at);
}

/// No step takes the global epoch back, and the start of a cycle moves it
/// forward by one.
pub proof fn law_step_keeps_epoch_order(w: World, next: World, step: Step)
    requires
        steps_to(w, next, step),
    ensures
        w.epoch <= next.epoch,
        step is CycleBegin ==> next.epoch == w.epoch + 1,
{
}

/// Epoch monotonicity: along every execution the global epoch never goes
/// back.
pub proof fn law_epoch_never_goes_back(trace: Seq<World>, from: int, to: int)
    requires
        execution(trace),
        0 <= from <= to < trace.len(),
    ensures
        trace[from].epoch <= trace[to].epoch,
    decreases to - from,
{
    if from < to {
        law_epoch_never_goes_back(trace, from, to - 1);
        assert(advances(trace, to - 1));
        let step = choose|step: Step| #[trigger] steps_to(trace[to - 1], trace[to], step);
        law_step_keeps_epoch_order(trace[to - 1], trace[to], step);
    }
}

/// A pin that stands after its check is not behind the sweep whose minimum
/// it read: the slot announces an epoch no older than the minimum that was
/// published when the reader looked.
pub proof fn law_checked_pin_not_behind(w: World, next: World, reader: nat)
    requires
        consistent(w),
        steps_to(w, next, Step::PinCheck { reader }),
        next.readers[reader].count > 0,
    ensures
        next.readers[reader].slot >= w.published,
        next.readers[reader].slot <= w.epoch,
{
    assert(reader_inv(w, w.readers[reader]));
}

/// Two worlds are the same if they hold the same.
proof fn lemma_same_world(a: World, b: World)
    requires
        a.epoch == b.epoch,
        a.published == b.published,
        a.readers =~= b.readers,
        a.writer =~= b.writer,
        a.live =~= b.live,
        a.garbage =~= b.garbage,
        a.freed =~= b.freed,
        a.known =~= b.known,
    ensures
        a == b,
{
}

/// The steps of one execution, picked to show the protocol at work: a
/// reader registers, a pointer to `first` is made, the reader pins in three
/// steps and loads the pointer, the writer stores `second` and runs a cycle
/// of five steps, the reader unpins, and the writer runs a second cycle.
pub open spec fn showcase_step(first: Ident, second: Ident, at: int) -> Step {
    if at == 0 {
        Step::Register { reader: 0 }
    } else if at == 1 {
        Step::Allocate { fresh: first }
    } else if at == 2 {
        Step::PinRead { reader: 0 }
    } else if at == 3 {
        Step::PinAnnounce { reader: 0 }
    } else if at == 4 {
        Step::PinCheck { reader: 0 }
    } else if at == 5 {
        Step::Load { reader: 0, payload: first }
    } else if at == 6 {
        Step::Store { displaced: first, fresh: second }
    } else if at == 12 {
        Step::Unpin { reader: 0 }
    } else if at == 7 || at == 13 {
        Step::CycleBegin
    } else if at == 8 || at == 14 {
        Step::CycleScan { reader: 0, owners: 2 }
    } else if at == 9 || at == 15 {
        Step::CycleEvict { evicted: Set::empty() }
    } else if at == 10 || at == 16 {
        Step::CyclePublish
    } else {
        Step::CycleReclaim
    }
}

/// The world before step `at` of the showcase, and after the last step for
/// `at == 18`.
pub open spec fn showcase_world(first: Ident, second: Ident, at: int) -> World {
    let resting = Reader {
        slot: INACTIVE_EPOCH,
        count: 0,
        phase: Phase::Resting,
        held: Set::empty(),
        gone: false,
    };
    let pinned = Reader { slot: 0, count: 1, held: set![first], ..resting };
    let reader = if at <= 2 || at >= 13 {
        resting
    } else if at == 3 {
        Reader { phase: Phase::Announcing { observed: 0 }, ..resting }
    } else if at == 4 {
        Reader { slot: 0, phase: Phase::Checking { announced: 0 }, ..resting }
    } else if at == 5 {
        Reader { held: Set::empty(), ..pinned }
    } else {
        pinned
    };
    let epoch: usize = if at <= 7 {
        0
    } else if at <= 13 {
        1
    } else {
        2
    };
    let writer = if at == 8 {
        Writer::Sweeping { new_epoch: 1, min_active: 1, pending: set![0nat] }
    } else if at == 9 {
        Writer::Sweeping { new_epoch: 1, min_active: 0, pending: Set::empty() }
    } else if at == 10 {
        Writer::Publishing { new_epoch: 1, min_active: 0 }
    } else if at == 11 {
        Writer::Reclaiming { new_epoch: 1, min_active: 0 }
    } else if at == 14 {
        Writer::Sweeping { new_epoch: 2, min_active: 2, pending: set![0nat] }
    } else if at == 15 {
        Writer::Sweeping { new_epoch: 2, min_active: 2, pending: Set::empty() }
    } else if at == 16 {
        Writer::Publishing { new_epoch: 2, min_active: 2 }
    } else if at == 17 {
        Writer::Reclaiming { new_epoch: 2, min_active: 2 }
    } else {
        Writer::Idle
    };
    World {
        epoch,
        published: if at <= 16 {
            0
        } else {
            2
        },
        readers: if at == 0 {
            Map::empty()
        } else {
            Map::<nat, Reader>::empty().insert(0, reader)
        },
        writer,
        live: if at <= 1 {
            Set::empty()
        } else if at <= 6 {
            set![first]
        } else {
            set![second]
        },
        garbage: if 7 <= at <= 17 {
            seq![Bag { epoch: 0, records: seq![first] }]
        } else {
            Seq::empty()
        },
        freed: if at <= 17 {
            Set::empty()
        } else {
            set![first]
        },
        known: if at <= 1 {
            Set::empty()
        } else if at <= 6 {
            set![first]
        } else {
            set![first, second]
        },
    }
}

/// Each step of the showcase leads from its world to the next.
proof fn lemma_showcase_step(first: Ident, second: Ident, at: int)
    requires
        first != second,
        0 <= at < 18,
    ensures
        steps_to(
            showcase_world(first, second, at),
            showcase_world(first, second, at + 1),
            showcase_step(first, second, at),
        ),
{
    let w = showcase_world(first, second, at);
    let next = showcase_world(first, second, at + 1);
    let step = showcase_step(first, second, at);
    let bag = Bag { epoch: 0, records: seq![first] };
    assert(set![0nat].remove(0) =~= Set::<nat>::empty());
    assert(staged(Seq::<Bag<Ident>>::empty(), first, 0) =~= seq![bag]);
    assert(bag.records[0] == first);
    lemma_first_kept_splits(seq![bag], 0);
    assert(holds(seq![bag], first, 0));
    assert(enabled(w, step));
    lemma_same_world(after(w, step), next);
}

/// An execution exists in which the protocol does its work: a reader pins
/// and loads a payload, the writer displaces it and runs a whole cycle, and
/// the payload is still staged, because the reader is pinned; the reader
/// unpins, the writer runs a second cycle, and the payload is destroyed.
pub proof fn law_displaced_payload_waits_for_its_reader(
    first: Ident,
    second: Ident,
) -> (trace: Seq<World>)
    requires
        first != second,
    ensures
        execution(trace),
        trace.len() == 19,
        forall|at: int| 0 <= at < 19 ==> #[trigger] trace[at] == showcase_world(first, second, at),
        trace[12].writer is Idle,
        trace[12].epoch == 1,
        trace[12].readers[0].held.contains(first),
        holds(trace[12].garbage, first, 0),
        !trace[12].freed.contains(first),
        trace[18].writer is Idle,
        trace[18].epoch == 2,
        trace[18].garbage.len() == 0,
        trace[18].freed.contains(first),
        trace[18].live.contains(second),
{
    let trace = Seq::new(19, |at: int| showcase_world(first, second, at));
    assert forall|at: int| 0 <= at < trace.len() - 1 implies #[trigger] advances(trace, at) by {
        lemma_showcase_step(first, second, at);
        assert(steps_to(trace[at], trace[at + 1], showcase_step(first, second, at)));
    }
    assert(trace[12].garbage[0].records[0] == first);
    trace
}

} // verus!
