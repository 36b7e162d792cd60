//! Retired records and the writer's staging area for them.
//!
//! A record is a payload that was taken out of shared view and waits for the
//! last reader that may still see it. Records are grouped into bags by the
//! epoch at which they were retired; a collection cycle destroys the leading
//! bags that no pinned reader can reach and keeps the rest.

use vstd::prelude::*;
use std::collections::VecDeque;

verus! {

/// A value whose type is forgotten. Every type implements it; it has no
/// methods.
pub trait Opaque {

}

impl<T: 'static> Opaque for T {

}

/// A payload as the contracts see it: the value, with its type forgotten.
/// The payloads of two records are compared as such values. An `Erased` is
/// always an `Erased<dyn Opaque>`.
pub struct Erased<P: ?Sized = dyn Opaque> {
    value: Box<P>,
}

/// Implemented by every type that can be retired. The engine only owns a
/// payload and, in the end, drops it.
pub trait Payload {
    /// The payload as the contracts see it.
    spec fn erased(&self) -> Erased;
}

impl<T: 'static> Payload for T {
    closed spec fn erased(&self) -> Erased {
        let value: Box<dyn Opaque> = Box::new(*self);
        Erased { value }
    }
}

/// A payload of any type, owned by the writer until it is reclaimed.
/// Dropping the record runs the payload's destructor, exactly once.
///
/// A record is always a `RetiredObject<dyn Payload>`, which is what the
/// name stands for where no parameter is given. The parameter is there for
/// the verifier, which reads a field of an unsized type only through one.
pub struct RetiredObject<P: ?Sized = dyn Payload> {
    payload: Box<P>,
}

impl View for RetiredObject {
    type V = Erased;

    closed spec fn view(&self) -> Erased {
        (*self.payload).erased()
    }
}

impl RetiredObject {
    /// Takes ownership of a heap-allocated payload, forgetting its type:
    /// the record owns `value`, and nothing else.
    pub fn new<T: 'static>(value: Box<T>) -> (record: Self)
        ensures
            record@ == (*value).erased(),
    {
        RetiredObject { payload: value }
    }
}

/// The records retired at one epoch, as the contracts see them. The
/// staging area holds bags of `RetiredObject`, which is what `Bag` stands
/// for where no parameter is given; what is said of bags here holds of
/// records of any kind.
pub struct Bag<R = RetiredObject> {
    pub epoch: usize,
    pub records: Seq<R>,
}

/// Number of records in a sequence of bags.
pub open spec fn total_records<R>(bags: Seq<Bag<R>>) -> nat
    decreases bags.len(),
{
    if bags.len() == 0 {
        0
    } else {
        total_records(bags.drop_last()) + bags.last().records.len()
    }
}

/// The bags after one more record was retired at `epoch`: the record joins
/// the last bag if that bag is of the same epoch, else it opens a new bag at
/// the end.
pub open spec fn staged<R>(bags: Seq<Bag<R>>, record: R, epoch: usize) -> Seq<Bag<R>> {
    if bags.len() > 0 && bags.last().epoch == epoch {
        bags.drop_last().push(Bag { epoch, records: bags.last().records.push(record) })
    } else {
        bags.push(Bag { epoch, records: seq![record] })
    }
}

/// Index of the first bag retired at `min_active` or later, or the number of
/// bags if there is none.
pub open spec fn first_kept<R>(bags: Seq<Bag<R>>, min_active: usize) -> int
    decreases bags.len(),
{
    if bags.len() == 0 || bags[0].epoch >= min_active {
        0
    } else {
        1 + first_kept(bags.skip(1), min_active)
    }
}

/// The bags that outlive a collection cycle in which the oldest pinned reader
/// announced `min_active` and the global epoch was `current`.
///
/// With no reader pinned (`min_active == current`) nothing is kept. Otherwise
/// a reader may still see what was retired at `min_active` or later: leading
/// bags older than that go, and everything from the first younger bag on
/// stays.
pub open spec fn reclaimed<R>(bags: Seq<Bag<R>>, min_active: usize, current: usize) -> Seq<Bag<R>> {
    if min_active == current {
        Seq::empty()
    } else {
        bags.skip(first_kept(bags, min_active))
    }
}

/// Whether the bags are in the order of their epochs, oldest first.
pub open spec fn epoch_ordered<R>(bags: Seq<Bag<R>>) -> bool {
    forall|i: int, j: int| 0 <= i <= j < bags.len() ==> bags[i].epoch <= bags[j].epoch
}

/// `first_kept` is the one index that splits the bags into a run of bags
/// older than `min_active` and a bag that is not.
pub proof fn lemma_first_kept_unique<R>(bags: Seq<Bag<R>>, min_active: usize, k: int)
    requires
        0 <= k <= bags.len(),
        forall|i: int| 0 <= i < k ==> bags[i].epoch < min_active,
        k < bags.len() ==> bags[k].epoch >= min_active,
    ensures
        first_kept(bags, min_active) == k,
    decreases bags.len(),
{
    if bags.len() == 0 || bags[0].epoch >= min_active {
    } else {
        let rest = bags.skip(1);
        assert forall|i: int| 0 <= i < k - 1 implies rest[i].epoch < min_active by {
            assert(rest[i] == bags[i + 1]);
        }
        if k < bags.len() {
            assert(rest[k - 1] == bags[k]);
        }
        lemma_first_kept_unique(rest, min_active, k - 1);
    }
}

/// What `first_kept` returns: every bag before it is older than `min_active`,
/// and the bag at it, if any, is not.
pub proof fn lemma_first_kept_splits<R>(bags: Seq<Bag<R>>, min_active: usize)
    ensures
        0 <= first_kept(bags, min_active) <= bags.len(),
        forall|i: int| 0 <= i < first_kept(bags, min_active) ==> bags[i].epoch < min_active,
        first_kept(bags, min_active) < bags.len() ==> bags[first_kept(bags, min_active)].epoch
            >= min_active,
    decreases bags.len(),
{
    if bags.len() == 0 || bags[0].epoch >= min_active {
    } else {
        let rest = bags.skip(1);
        lemma_first_kept_splits(rest, min_active);
        let k = first_kept(rest, min_active);
        assert forall|i: int| 0 <= i < k + 1 implies bags[i].epoch < min_active by {
            if i > 0 {
                assert(rest[i - 1] == bags[i]);
            }
        }
        if k + 1 < bags.len() {
            assert(rest[k] == bags[k + 1]);
        }
    }
}

/// Records are counted bag by bag: a prefix and the rest add up.
pub proof fn lemma_total_records_split<R>(bags: Seq<Bag<R>>, k: int)
    requires
        0 <= k <= bags.len(),
    ensures
        total_records(bags) == total_records(bags.take(k)) + total_records(bags.skip(k)),
    decreases bags.len() - k,
{
    if k == bags.len() {
        assert(bags.take(k) =~= bags);
        assert(bags.skip(k) =~= Seq::<Bag<R>>::empty());
    } else {
        let tail = bags.skip(k);
        assert(tail.drop_last() =~= bags.drop_last().skip(k));
        assert(tail.last() == bags.last());
        lemma_total_records_split(bags.drop_last(), k);
        assert(bags.drop_last().take(k) =~= bags.take(k));
    }
}

/// With no reader pinned, a cycle leaves nothing staged.
pub proof fn law_unpinned_reclaims_all<R>(bags: Seq<Bag<R>>, current: usize)
    ensures
        reclaimed(bags, current, current) == Seq::<Bag<R>>::empty(),
        total_records(reclaimed(bags, current, current)) == 0,
{
}

/// A minimum active epoch of zero reclaims nothing: no epoch is older than
/// zero, and the front bag is left alone.
pub proof fn law_epoch_zero_reclaims_nothing<R>(bags: Seq<Bag<R>>, current: usize)
    requires
        current != 0,
    ensures
        reclaimed(bags, 0, current) == bags,
{
    lemma_first_kept_unique(bags, 0, 0);
    assert(bags.skip(0) =~= bags);
}

/// The safe-reclamation rule: what was retired at the minimum active epoch
/// or later outlives the cycle. This is stated for a cycle, in which every
/// staged epoch lies before the cycle's own.
pub proof fn law_reachable_survives<R>(bags: Seq<Bag<R>>, min_active: usize, current: usize, i: int)
    requires
        forall|k: int| 0 <= k < bags.len() ==> (#[trigger] bags[k]).epoch < current,
        0 <= i < bags.len(),
        bags[i].epoch >= min_active,
    ensures
        min_active != current,
        first_kept(bags, min_active) <= i,
        reclaimed(bags, min_active, current)[i - first_kept(bags, min_active)] == bags[i],
{
    lemma_first_kept_splits(bags, min_active);
}

/// Reclamation only ever takes bags from the front: what stays is the old
/// sequence from some bag on, every bag before it was older than the
/// minimum active epoch, and no more records are staged afterwards than
/// before.
pub proof fn law_reclaim_takes_a_prefix<R>(bags: Seq<Bag<R>>, min_active: usize, current: usize)
    ensures
        reclaimed(bags, min_active, current).len() <= bags.len(),
        total_records(reclaimed(bags, min_active, current)) <= total_records(bags),
        min_active != current ==> {
            let k = first_kept(bags, min_active);
            &&& 0 <= k <= bags.len()
            &&& reclaimed(bags, min_active, current) == bags.skip(k)
            &&& forall|i: int| 0 <= i < k ==> (#[trigger] bags[i]).epoch < min_active
            &&& k < bags.len() ==> bags[k].epoch >= min_active
        },
{
    lemma_first_kept_splits(bags, min_active);
    if min_active != current {
        lemma_total_records_split(bags, first_kept(bags, min_active));
    }
}

/// With the bags in the order of their epochs, a cycle in which a reader is
/// pinned reclaims exactly what is older than the minimum active epoch: every
/// bag that stays was retired at that epoch or later.
pub proof fn law_ordered_reclaims_all_expired<R>(bags: Seq<Bag<R>>, min_active: usize, current: usize)
    requires
        epoch_ordered(bags),
        min_active != current,
    ensures
        forall|j: int|
            0 <= j < reclaimed(bags, min_active, current).len() ==> (#[trigger] reclaimed(
                bags,
                min_active,
                current,
            )[j]).epoch >= min_active,
{
    lemma_first_kept_splits(bags, min_active);
    let k = first_kept(bags, min_active);
    assert forall|j: int| 0 <= j < bags.skip(k).len() implies (#[trigger] bags.skip(k)[j]).epoch
        >= min_active by {
        assert(bags[k].epoch <= bags[k + j].epoch);
    }
}

/// Reclaiming twice against the same minimum active epoch reclaims nothing
/// the second time, as long as a reader is pinned in the second cycle.
pub proof fn law_reclaim_idempotent<R>(bags: Seq<Bag<R>>, min_active: usize, first: usize, second: usize)
    requires
        min_active != second,
    ensures
        reclaimed(reclaimed(bags, min_active, first), min_active, second) == reclaimed(
            bags,
            min_active,
            first,
        ),
{
    let kept = reclaimed(bags, min_active, first);
    lemma_first_kept_splits(bags, min_active);
    if min_active != first {
        let k = first_kept(bags, min_active);
        if k < bags.len() {
            assert(kept[0] == bags[k]);
        }
    }
    lemma_first_kept_unique(kept, min_active, 0);
    assert(kept.skip(0) =~= kept);
}

/// Staging one record stages one record: the count goes up by one, and
/// the record is the last of the last bag, which is of the epoch it was
/// staged at.
pub proof fn law_staged_is_last<R>(bags: Seq<Bag<R>>, record: R, epoch: usize)
    ensures
        total_records(staged(bags, record, epoch)) == total_records(bags) + 1,
        staged(bags, record, epoch).len() > 0,
        staged(bags, record, epoch).last().epoch == epoch,
        staged(bags, record, epoch).last().records.last() == record,
        staged(bags, record, epoch).len() == if bags.len() > 0 && bags.last().epoch == epoch {
            bags.len()
        } else {
            bags.len() + 1
        },
{
    let after = staged(bags, record, epoch);
    if bags.len() > 0 && bags.last().epoch == epoch {
        assert(after.drop_last() =~= bags.drop_last());
    } else {
        assert(after.drop_last() =~= bags);
    }
}

/// The bags of a queue as the contracts see them.
pub open spec fn bags_of(queue: Seq<(usize, Vec<RetiredObject>)>) -> Seq<Bag> {
    Seq::new(queue.len(), |i: int| Bag { epoch: queue[i].0, records: queue[i].1@ })
}

/// The writer's staging area: bags of retired records in the order in which
/// they were opened, and a pool of emptied bag storages for reuse.
pub struct GarbageSet {
    queue: VecDeque<(usize, Vec<RetiredObject>)>,
    pool: Vec<Vec<RetiredObject>>,
    count: usize,
}

impl View for GarbageSet {
    type V = Seq<Bag>;

    closed spec fn view(&self) -> Seq<Bag> {
        bags_of(self.queue@)
    }
}

impl GarbageSet {
    /// The running count equals the number of staged records, no bag is
    /// empty, and every pooled storage is.
    pub closed spec fn wf(&self) -> bool {
        &&& self.count == total_records(self@)
        &&& forall|i: int| 0 <= i < self.queue@.len() ==> (#[trigger] self.queue@[i]).1@.len() > 0
        &&& forall|i: int| 0 <= i < self.pool@.len() ==> (#[trigger] self.pool@[i])@.len() == 0
    }

    /// Number of emptied bag storages waiting for reuse.
    pub closed spec fn spare(&self) -> nat {
        self.pool@.len()
    }

    /// Every bag of a well-formed set holds a record: a bag is opened for a
    /// record, and reclaimed whole.
    pub proof fn law_no_bag_is_empty(&self)
        requires
            self.wf(),
        ensures
            forall|i: int| 0 <= i < self@.len() ==> (#[trigger] self@[i]).records.len() > 0,
    {
        assert forall|i: int| 0 <= i < self@.len() implies (#[trigger] self@[i]).records.len()
            > 0 by {
            assert(self.queue@[i].1@.len() > 0);
        }
    }

    /// An empty set with an empty pool.
    pub fn new() -> (set: Self)
        ensures
            set.wf(),
            set@ == Seq::<Bag>::empty(),
            set.spare() == 0,
    {
        let set = GarbageSet { queue: VecDeque::new(), pool: Vec::new(), count: 0 };
        assert(set@ =~= Seq::<Bag>::empty());
        set
    }

    /// Number of staged records, in constant time.
    pub fn len(&self) -> (n: usize)
        requires
            self.wf(),
        ensures
            n == total_records(self@),
    {
        self.count
    }

    /// Stages `node` as retired at `current_epoch`.
    ///
    /// The record joins the last bag if that bag is of the same epoch.
    /// Otherwise a new bag is opened at the end, in a storage taken from the
    /// pool if there is one.
    pub fn add(&mut self, node: RetiredObject, current_epoch: usize)
        requires
            old(self).wf(),
            total_records(old(self)@) < usize::MAX,
        ensures
            final(self).wf(),
            final(self)@ == staged(old(self)@, node, current_epoch),
            total_records(final(self)@) == total_records(old(self)@) + 1,
            final(self).spare() == if old(self)@.len() > 0 && old(self)@.last().epoch
                == current_epoch {
                old(self).spare()
            } else if old(self).spare() > 0 {
                (old(self).spare() - 1) as nat
            } else {
                0
            },
    {
        let ghost before = self.queue@;
        let n: usize = self.queue.len();
        if n > 0 && self.queue[n - 1].0 == current_epoch {
            let last = self.queue.pop_back();
            match last {
                Some((epoch, mut bag)) => {
                    bag.push(node);
                    self.queue.push_back((epoch, bag));
                },
                None => {},
            }
            proof {
                assert(bags_of(self.queue@) =~= staged(bags_of(before), node, current_epoch));
                assert(bags_of(self.queue@).drop_last() =~= bags_of(before).drop_last());
            }
        } else {
            let mut bag: Vec<RetiredObject> = match self.pool.pop() {
                Some(storage) => storage,
                None => Vec::with_capacity(16),
            };
            bag.push(node);
            self.queue.push_back((current_epoch, bag));
            proof {
                assert(bag@ =~= seq![node]);
                assert(bags_of(self.queue@) =~= staged(bags_of(before), node, current_epoch));
                assert(bags_of(self.queue@).drop_last() =~= bags_of(before));
            }
        }
        self.count = self.count + 1;
    }

    /// Runs one reclamation over the staged bags.
    ///
    /// `min_active_epoch` is the oldest epoch that a pinned reader announced,
    /// or `current_epoch` if no reader is pinned. With no reader pinned every
    /// record is destroyed. Otherwise bags are taken from the front for as
    /// long as they are older than `min_active_epoch` and their records are
    /// destroyed; the first bag that is not older ends the run. With
    /// `min_active_epoch` zero there is nothing older, and nothing is
    /// touched. Emptied storages go to the pool, and the running count is
    /// taken anew from the bags that stay.
    pub fn collect(&mut self, min_active_epoch: usize, current_epoch: usize)
        requires
            old(self).wf(),
        ensures
            final(self).wf(),
            final(self)@ == reclaimed(old(self)@, min_active_epoch, current_epoch),
            final(self).spare() == old(self).spare() + (old(self)@.len() - final(self)@.len()),
    {
        let ghost before = self.queue@;
        let ghost mut taken: int = 0;
        if min_active_epoch == current_epoch {
            while self.queue.len() > 0
                invariant
                    0 <= taken <= before.len(),
                    self.queue@ =~= before.skip(taken),
                    self.pool@.len() == old(self).pool@.len() + taken,
                    forall|i: int|
                        0 <= i < self.pool@.len() ==> (#[trigger] self.pool@[i])@.len() == 0,
                decreases self.queue@.len(),
            {
                let front = self.queue.pop_front();
                match front {
                    Some((_, bag)) => {
                        recycle_bag(bag, &mut self.pool);
                    },
                    None => {},
                }
                proof {
                    taken = taken + 1;
                }
            }
            assert(bags_of(self.queue@) =~= Seq::<Bag>::empty());
        } else if min_active_epoch > 0 {
            let safe_to_reclaim_epoch: usize = min_active_epoch - 1;
            while self.queue.len() > 0 && self.queue[0].0 <= safe_to_reclaim_epoch
                invariant
                    0 <= taken <= before.len(),
                    safe_to_reclaim_epoch == min_active_epoch - 1,
                    self.queue@ =~= before.skip(taken),
                    forall|i: int| 0 <= i < taken ==> (#[trigger] before[i]).0 < min_active_epoch,
                    self.pool@.len() == old(self).pool@.len() + taken,
                    forall|i: int|
                        0 <= i < self.pool@.len() ==> (#[trigger] self.pool@[i])@.len() == 0,
                decreases self.queue@.len(),
            {
                assert(self.queue@[0] == before[taken]);
                let front = self.queue.pop_front();
                match front {
                    Some((_, bag)) => {
                        recycle_bag(bag, &mut self.pool);
                    },
                    None => {},
                }
                proof {
                    taken = taken + 1;
                }
            }
            proof {
                if taken < before.len() {
                    assert(self.queue@[0] == before[taken]);
                }
                assert forall|i: int| 0 <= i < taken implies bags_of(before)[i].epoch
                    < min_active_epoch by {
                    assert(before[i].0 < min_active_epoch);
                }
                lemma_first_kept_unique(bags_of(before), min_active_epoch, taken);
                assert(bags_of(self.queue@) =~= bags_of(before).skip(taken));
            }
        } else {
            proof {
                lemma_first_kept_unique(bags_of(before), min_active_epoch, 0);
                assert(bags_of(before).skip(0) =~= bags_of(before));
            }
        }
        proof {
            assert(bags_of(self.queue@) =~= bags_of(before).skip(taken));
            lemma_total_records_split(bags_of(before), taken);
        }
        self.count = count_records(&self.queue, Ghost(total_records(bags_of(before))));
    }
}

/// Destroys the records of a bag and puts its storage into the pool.
fn recycle_bag(bag: Vec<RetiredObject>, pool: &mut Vec<Vec<RetiredObject>>)
    requires
        forall|i: int| 0 <= i < old(pool)@.len() ==> (#[trigger] old(pool)@[i])@.len() == 0,
    ensures
        final(pool)@.len() == old(pool)@.len() + 1,
        forall|i: int| 0 <= i < final(pool)@.len() ==> (#[trigger] final(pool)@[i])@.len() == 0,
{
    let mut storage = bag;
    storage.clear();
    pool.push(storage);
}

/// Adds up the lengths of the bags of a queue.
fn count_records(queue: &VecDeque<(usize, Vec<RetiredObject>)>, Ghost(bound): Ghost<nat>) -> (n:
    usize)
    requires
        total_records(bags_of(queue@)) <= bound <= usize::MAX,
    ensures
        n == total_records(bags_of(queue@)),
{
    let ghost bags = bags_of(queue@);
    let mut sum: usize = 0;
    let mut i: usize = 0;
    while i < queue.len()
        invariant
            0 <= i <= queue@.len(),
            bags == bags_of(queue@),
            sum == total_records(bags.take(i as int)),
            total_records(bags) <= bound <= usize::MAX,
        decreases queue@.len() - i,
    {
        proof {
            lemma_total_records_split(bags, i as int + 1);
            assert(bags.take(i as int + 1).drop_last() =~= bags.take(i as int));
            assert(bags.take(i as int + 1).last() == bags[i as int]);
        }
        sum = sum + queue[i].1.len();
        i = i + 1;
    }
    assert(bags.take(i as int) =~= bags);
    sum
}

} // verus!
