//! Epoch-based deferred reclamation.
//!
//! Participants register with a collector and pin themselves while they
//! read; retired items go to the participant's bag, and a full bag is sealed
//! with the global epoch and queued. The global epoch (counted modulo 3)
//! advances only when every pinned participant has seen the current one, and
//! a sealed bag is released once the epoch has moved on twice since it was
//! sealed. So nothing retired after a participant pinned is released while
//! it stays pinned.
use vstd::prelude::*;
use crate::bag::{Bag, MAX_OBJECTS};

verus! {

/// The global epoch is counted modulo this number.
pub const EPOCH_MODULUS: u8 = 3;

/// Whether a bag sealed at epoch `stamp` may be released at global epoch
/// `global`: the epoch has advanced twice since (modulo 3).
pub open spec fn expired_spec(stamp: u8, global: u8) -> bool {
    (global as int + 3 - stamp as int) % 3 == 2
}

/// A bag with the global epoch it was sealed at.
pub struct SealedBag {
    pub epoch: u8,
    pub bag: Bag,
    /// The number of advancements of the global epoch when it was sealed.
    pub sealed_at: Ghost<nat>,
}

impl SealedBag {
    /// Whether the bag may be released at global epoch `global`.
    pub fn is_expired(&self, global: u8) -> (r: bool)
        requires
            self.epoch < 3,
            global < 3,
        ensures
            r == expired_spec(self.epoch, global),
    {
        (global + EPOCH_MODULUS - self.epoch) % EPOCH_MODULUS == 2
    }
}

/// A participant's record.
pub struct Local {
    /// The global epoch it saw when it pinned.
    pub epoch: u8,
    pub pinned: bool,
    /// Number of guards alive; only the outermost unpin unpins.
    pub guard_count: usize,
    /// Retired items not yet sealed.
    pub bag: Bag,
    /// The number of advancements of the global epoch when it pinned.
    pub pinned_at: Ghost<nat>,
}

/// A registered participant.
pub struct Handle {
    pub index: usize,
}

/// Witness that a participant is pinned.
pub struct Guard {
    pub index: usize,
}

/// An epoch-based garbage collector.
pub struct Collector {
    epoch: u8,
    /// How often the global epoch has advanced.
    advanced: Ghost<nat>,
    locals: Vec<Local>,
    queue: Vec<SealedBag>,
}

/// A bag sealed at most `advanced` advancements into the collector's life.
pub open spec fn sealed_ok(b: SealedBag, advanced: nat) -> bool {
    &&& b.epoch < 3
    &&& b.epoch as int == b.sealed_at@ % 3
    &&& b.sealed_at@ <= advanced
    &&& b.bag.wf()
}

/// The items of the bags in `q` that are expired at `global`, in order.
pub open spec fn released(q: Seq<SealedBag>, global: u8) -> Seq<u64>
    decreases q.len(),
{
    if q.len() == 0 {
        Seq::empty()
    } else {
        (if expired_spec(q[0].epoch, global) { q[0].bag.items() } else { Seq::empty() })
            + released(q.drop_first(), global)
    }
}

/// The bags of `q` that are not expired at `global`, in order.
pub open spec fn kept(q: Seq<SealedBag>, global: u8) -> Seq<SealedBag>
    decreases q.len(),
{
    if q.len() == 0 {
        Seq::empty()
    } else {
        (if expired_spec(q[0].epoch, global) { Seq::empty() } else { seq![q[0]] })
            + kept(q.drop_first(), global)
    }
}

impl Collector {
    pub closed spec fn global_epoch(&self) -> u8 {
        self.epoch
    }

    pub closed spec fn advancements(&self) -> nat {
        self.advanced@
    }

    pub closed spec fn locals_view(&self) -> Seq<Local> {
        self.locals@
    }

    pub closed spec fn queue_view(&self) -> Seq<SealedBag> {
        self.queue@
    }

    pub open spec fn local_wf(&self, l: Local) -> bool {
        &&& l.epoch < 3
        &&& l.bag.wf()
        &&& l.pinned <==> l.guard_count > 0
        &&& l.pinned ==> {
            &&& l.epoch as int == l.pinned_at@ % 3
            &&& l.pinned_at@ <= self.advancements() <= l.pinned_at@ + 1
        }
    }

    pub open spec fn sealed_wf(&self, b: SealedBag) -> bool {
        sealed_ok(b, self.advancements())
    }

    /// The global epoch follows the count of advancements; every pinned
    /// participant saw the current epoch or the one before; every sealed bag
    /// was sealed at some earlier epoch.
    pub closed spec fn wf(&self) -> bool {
        &&& self.epoch < 3
        &&& self.epoch as int == self.advanced@ % 3
        &&& forall|i: int| 0 <= i < self.locals@.len() ==> #[trigger] self.local_wf(self.locals@[i])
        &&& forall|i: int| 0 <= i < self.queue@.len() ==> #[trigger] self.sealed_wf(self.queue@[i])
    }

    pub open spec fn valid_handle(&self, h: &Handle) -> bool {
        h.index < self.locals_view().len()
    }

    pub open spec fn is_pinned_spec(&self, index: int) -> bool {
        self.locals_view()[index].pinned
    }

    /// Creates a new collector, at epoch 0, without participants.
    pub fn new() -> (r: Self)
        ensures
            r.wf(),
            r.global_epoch() == 0,
            r.locals_view().len() == 0,
            r.queue_view().len() == 0,
    {
        Collector { epoch: 0, advanced: Ghost(0), locals: Vec::new(), queue: Vec::new() }
    }

    /// Registers a new participant, unpinned, with an empty bag.
    pub fn register(&mut self) -> (r: Handle)
        requires
            old(self).wf(),
        ensures
            final(self).wf(),
            r.index == old(self).locals_view().len(),
            final(self).locals_view().len() == old(self).locals_view().len() + 1,
            forall|i: int| 0 <= i < old(self).locals_view().len() ==> final(self).locals_view()[i] == old(self).locals_view()[i],
            !final(self).locals_view()[r.index as int].pinned,
            final(self).locals_view()[r.index as int].guard_count == 0,
            final(self).locals_view()[r.index as int].bag.items().len() == 0,
            final(self).queue_view() == old(self).queue_view(),
            final(self).global_epoch() == old(self).global_epoch(),
            final(self).advancements() == old(self).advancements(),
    {
        let index = self.locals.len();
        let l = Local { epoch: 0, pinned: false, guard_count: 0, bag: Bag::new(), pinned_at: Ghost(0) };
        self.locals.push(l);
        proof {
            assert forall|i: int| 0 <= i < self.locals@.len() implies #[trigger] self.local_wf(self.locals@[i]) by {
                if i < index {
                    assert(old(self).local_wf(old(self).locals@[i]));
                }
            }
            assert forall|i: int| 0 <= i < self.queue@.len() implies #[trigger] self.sealed_wf(self.queue@[i]) by {
                assert(old(self).sealed_wf(old(self).queue@[i]));
            }
        }
        Handle { index }
    }

    /// Whether the participant is pinned.
    pub fn is_pinned(&self, h: &Handle) -> (r: bool)
        requires
            self.valid_handle(h),
        ensures
            r == self.is_pinned_spec(h.index as int),
    {
        self.locals[h.index].pinned
    }

    /// Pins the participant. The outermost pin publishes the current global
    /// epoch in its record; nested pins only count.
    pub fn pin(&mut self, h: &Handle) -> (r: Guard)
        requires
            old(self).wf(),
            old(self).valid_handle(h),
            old(self).locals_view()[h.index as int].guard_count < usize::MAX,
        ensures
            final(self).wf(),
            r.index == h.index,
            final(self).is_pinned_spec(h.index as int),
            final(self).locals_view()[h.index as int].guard_count == old(self).locals_view()[h.index as int].guard_count + 1,
            !old(self).is_pinned_spec(h.index as int) ==> final(self).locals_view()[h.index as int].epoch
                == old(self).global_epoch() && final(self).locals_view()[h.index as int].pinned_at@ == old(self).advancements(),
            old(self).is_pinned_spec(h.index as int) ==> final(self).locals_view()[h.index as int].epoch
                == old(self).locals_view()[h.index as int].epoch,
            final(self).locals_view()[h.index as int].bag == old(self).locals_view()[h.index as int].bag,
            final(self).locals_view().len() == old(self).locals_view().len(),
            forall|i: int| 0 <= i < old(self).locals_view().len() && i != h.index ==> final(self).locals_view()[i] == old(self).locals_view()[i],
            final(self).queue_view() == old(self).queue_view(),
            final(self).global_epoch() == old(self).global_epoch(),
            final(self).advancements() == old(self).advancements(),
    {
        let i = h.index;
        let mut l = self.locals.remove(i);
        if !l.pinned {
            l.epoch = self.epoch;
            l.pinned = true;
            l.pinned_at = Ghost(self.advanced@);
        }
        l.guard_count = l.guard_count + 1;
        self.locals.insert(i, l);
        proof {
            assert(self.locals@ =~= old(self).locals@.update(i as int, l));
            assert forall|j: int| 0 <= j < self.locals@.len() implies #[trigger] self.local_wf(self.locals@[j]) by {
                if j != i {
                    assert(old(self).local_wf(old(self).locals@[j]));
                } else {
                    assert(old(self).local_wf(old(self).locals@[j]));
                }
            }
            assert forall|j: int| 0 <= j < self.queue@.len() implies #[trigger] self.sealed_wf(self.queue@[j]) by {
                assert(old(self).sealed_wf(old(self).queue@[j]));
            }
        }
        Guard { index: i }
    }

    /// Moves a participant that holds a single guard to the current global
    /// epoch, as unpinning and pinning again would; with nested guards
    /// nothing changes.
    pub fn repin(&mut self, g: &Guard)
        requires
            old(self).wf(),
            g.index < old(self).locals_view().len(),
        ensures
            final(self).wf(),
            old(self).locals_view()[g.index as int].guard_count == 1 ==> {
                &&& final(self).locals_view()[g.index as int].epoch == old(self).global_epoch()
                &&& final(self).locals_view()[g.index as int].pinned_at@ == old(self).advancements()
            },
            old(self).locals_view()[g.index as int].guard_count != 1 ==> final(self).locals_view()[g.index as int]
                == old(self).locals_view()[g.index as int],
            final(self).locals_view()[g.index as int].pinned == old(self).locals_view()[g.index as int].pinned,
            final(self).locals_view()[g.index as int].guard_count == old(self).locals_view()[g.index as int].guard_count,
            final(self).locals_view()[g.index as int].bag == old(self).locals_view()[g.index as int].bag,
            final(self).locals_view().len() == old(self).locals_view().len(),
            forall|i: int| 0 <= i < old(self).locals_view().len() && i != g.index ==> final(self).locals_view()[i] == old(self).locals_view()[i],
            final(self).queue_view() == old(self).queue_view(),
            final(self).global_epoch() == old(self).global_epoch(),
            final(self).advancements() == old(self).advancements(),
    {
        let i = g.index;
        proof {
            assert(old(self).local_wf(old(self).locals@[i as int]));
        }
        let mut l = self.locals.remove(i);
        if l.guard_count == 1 {
            l.epoch = self.epoch;
            l.pinned_at = Ghost(self.advanced@);
        }
        self.locals.insert(i, l);
        proof {
            assert(self.locals@ =~= old(self).locals@.update(i as int, l));
            assert forall|j: int| 0 <= j < self.locals@.len() implies #[trigger] self.local_wf(self.locals@[j]) by {
                assert(old(self).local_wf(old(self).locals@[j]));
            }
            assert forall|j: int| 0 <= j < self.queue@.len() implies #[trigger] self.sealed_wf(self.queue@[j]) by {
                assert(old(self).sealed_wf(old(self).queue@[j]));
            }
        }
    }

    /// Drops a guard: the outermost one unpins the participant.
    pub fn unpin(&mut self, g: Guard)
        requires
            old(self).wf(),
            g.index < old(self).locals_view().len(),
        ensures
            final(self).wf(),
            old(self).locals_view()[g.index as int].guard_count > 0 ==> final(self).locals_view()[g.index as int].guard_count
                == old(self).locals_view()[g.index as int].guard_count - 1,
            final(self).is_pinned_spec(g.index as int) == (old(self).locals_view()[g.index as int].guard_count > 1),
            final(self).locals_view()[g.index as int].bag == old(self).locals_view()[g.index as int].bag,
            final(self).locals_view().len() == old(self).locals_view().len(),
            forall|i: int| 0 <= i < old(self).locals_view().len() && i != g.index ==> final(self).locals_view()[i] == old(self).locals_view()[i],
            final(self).queue_view() == old(self).queue_view(),
            final(self).global_epoch() == old(self).global_epoch(),
            final(self).advancements() == old(self).advancements(),
    {
        let i = g.index;
        proof {
            assert(old(self).local_wf(old(self).locals@[i as int]));
        }
        let mut l = self.locals.remove(i);
        if l.guard_count > 0 {
            l.guard_count = l.guard_count - 1;
        }
        if l.guard_count == 0 {
            l.pinned = false;
        }
        self.locals.insert(i, l);
        proof {
            assert(self.locals@ =~= old(self).locals@.update(i as int, l));
            assert forall|j: int| 0 <= j < self.locals@.len() implies #[trigger] self.local_wf(self.locals@[j]) by {
                assert(old(self).local_wf(old(self).locals@[j]));
            }
            assert forall|j: int| 0 <= j < self.queue@.len() implies #[trigger] self.sealed_wf(self.queue@[j]) by {
                assert(old(self).sealed_wf(old(self).queue@[j]));
            }
        }
    }
}

impl Collector {
    /// Defers `item` into the participant's bag; a full bag is first sealed
    /// with the global epoch and queued, and a fresh bag takes the item.
    pub fn defer(&mut self, g: &Guard, item: u64)
        requires
            old(self).wf(),
            g.index < old(self).locals_view().len(),
        ensures
            final(self).wf(),
            old(self).locals_view()[g.index as int].bag.items().len() < MAX_OBJECTS ==> {
                &&& final(self).locals_view()[g.index as int].bag.items() == old(self).locals_view()[g.index as int].bag.items().push(item)
                &&& final(self).queue_view() == old(self).queue_view()
            },
            old(self).locals_view()[g.index as int].bag.items().len() >= MAX_OBJECTS ==> {
                &&& final(self).locals_view()[g.index as int].bag.items() == seq![item]
                &&& final(self).queue_view().len() == old(self).queue_view().len() + 1
                &&& final(self).queue_view().take(old(self).queue_view().len() as int) == old(self).queue_view()
                &&& final(self).queue_view().last().epoch == old(self).global_epoch()
                &&& final(self).queue_view().last().sealed_at@ == old(self).advancements()
                &&& final(self).queue_view().last().bag.items() == old(self).locals_view()[g.index as int].bag.items()
            },
            final(self).locals_view().len() == old(self).locals_view().len(),
            final(self).locals_view()[g.index as int].pinned == old(self).locals_view()[g.index as int].pinned,
            final(self).locals_view()[g.index as int].epoch == old(self).locals_view()[g.index as int].epoch,
            forall|i: int| 0 <= i < old(self).locals_view().len() && i != g.index ==> final(self).locals_view()[i] == old(self).locals_view()[i],
            final(self).global_epoch() == old(self).global_epoch(),
            final(self).advancements() == old(self).advancements(),
    {
        let i = g.index;
        proof {
            assert(old(self).local_wf(old(self).locals@[i as int]));
        }
        let mut l = self.locals.remove(i);
        match l.bag.try_push(item) {
            Ok(()) => {},
            Err(_) => {
                let mut full = Bag::new();
                std::mem::swap(&mut l.bag, &mut full);
                let sealed = SealedBag { epoch: self.epoch, bag: full, sealed_at: Ghost(self.advanced@) };
                self.queue.push(sealed);
                let pushed = l.bag.try_push(item);
                assert(pushed is Ok);
                assert(l.bag.items() =~= seq![item]);
            },
        }
        self.locals.insert(i, l);
        proof {
            assert(self.locals@ =~= old(self).locals@.update(i as int, l));
            assert forall|j: int| 0 <= j < self.locals@.len() implies #[trigger] self.local_wf(self.locals@[j]) by {
                assert(old(self).local_wf(old(self).locals@[j]));
            }
            assert forall|j: int| 0 <= j < self.queue@.len() implies #[trigger] self.sealed_wf(self.queue@[j]) by {
                if j < old(self).queue@.len() {
                    assert(old(self).sealed_wf(old(self).queue@[j]));
                }
            }
            if old(self).locals@[i as int].bag.items().len() >= MAX_OBJECTS {
                assert(self.queue@.take(old(self).queue@.len() as int) =~= old(self).queue@);
            }
        }
    }

    /// Whether every pinned participant has seen the current global epoch.
    fn all_pinned_current(&self) -> (r: bool)
        ensures
            r == (forall|i: int| 0 <= i < self.locals_view().len() && #[trigger] self.locals_view()[i].pinned
                ==> self.locals_view()[i].epoch == self.global_epoch()),
    {
        let n = self.locals.len();
        let mut i: usize = 0;
        while i < n
            invariant
                i <= n,
                n == self.locals@.len(),
                forall|j: int| 0 <= j < i && #[trigger] self.locals@[j].pinned ==> self.locals@[j].epoch == self.epoch,
            decreases n - i,
        {
            if self.locals[i].pinned && self.locals[i].epoch != self.epoch {
                assert(self.locals_view()[i as int].pinned);
                return false;
            }
            i += 1;
        }
        true
    }

    /// Advances the global epoch when every pinned participant has seen the
    /// current one; says whether it did.
    pub fn try_advance(&mut self) -> (r: bool)
        requires
            old(self).wf(),
        ensures
            final(self).wf(),
            r == (forall|i: int| 0 <= i < old(self).locals_view().len() && #[trigger] old(self).locals_view()[i].pinned
                ==> old(self).locals_view()[i].epoch == old(self).global_epoch()),
            r ==> final(self).global_epoch() == (old(self).global_epoch() + 1) % 3
                && final(self).advancements() == old(self).advancements() + 1,
            !r ==> final(self).global_epoch() == old(self).global_epoch()
                && final(self).advancements() == old(self).advancements(),
            final(self).locals_view() == old(self).locals_view(),
            final(self).queue_view() == old(self).queue_view(),
    {
        if !self.all_pinned_current() {
            return false;
        }
        let ghost before = *self;
        self.epoch = (self.epoch + 1) % EPOCH_MODULUS;
        self.advanced = Ghost(self.advanced@ + 1);
        proof {
            assert forall|j: int| 0 <= j < self.locals@.len() implies #[trigger] self.local_wf(self.locals@[j]) by {
                assert(before.local_wf(before.locals@[j]));
                let l = self.locals@[j];
                if l.pinned {
                    assert(l.epoch == before.epoch);
                    if before.advanced@ == l.pinned_at@ + 1 {
                        assert((l.pinned_at@ + 1) % 3 != l.pinned_at@ % 3);
                    }
                }
            }
            assert forall|j: int| 0 <= j < self.queue@.len() implies #[trigger] self.sealed_wf(self.queue@[j]) by {
                assert(before.sealed_wf(before.queue@[j]));
            }
        }
        true
    }

    /// Releases the sealed bags whose epoch has expired and hands back their
    /// items, in queue order; the other bags stay queued in order.
    pub fn collect(&mut self) -> (r: Vec<u64>)
        requires
            old(self).wf(),
        ensures
            final(self).wf(),
            r@ == released(old(self).queue_view(), old(self).global_epoch()),
            final(self).queue_view() == kept(old(self).queue_view(), old(self).global_epoch()),
            final(self).locals_view() == old(self).locals_view(),
            final(self).global_epoch() == old(self).global_epoch(),
            final(self).advancements() == old(self).advancements(),
    {
        let g = self.epoch;
        let ghost adv = self.advanced@;
        let ghost orig = self.queue@;
        let mut q: Vec<SealedBag> = Vec::new();
        std::mem::swap(&mut self.queue, &mut q);
        proof {
            assert forall|j: int| 0 <= j < q@.len() implies sealed_ok(q@[j], adv) by {
                assert(old(self).sealed_wf(old(self).queue@[j]));
            }
        }
        let mut out: Vec<u64> = Vec::new();
        let mut keep: Vec<SealedBag> = Vec::new();
        while q.len() > 0
            invariant
                g < 3,
                out@ + released(q@, g) == released(orig, g),
                keep@ + kept(q@, g) == kept(orig, g),
                forall|j: int| 0 <= j < q@.len() ==> sealed_ok(#[trigger] q@[j], adv),
                forall|j: int| 0 <= j < keep@.len() ==> sealed_ok(#[trigger] keep@[j], adv),
            decreases q@.len(),
        {
            let ghost q0 = q@;
            let b = q.remove(0);
            assert(q@ =~= q0.drop_first());
            assert(sealed_ok(q0[0], adv));
            if b.is_expired(g) {
                let ghost items = b.bag.items();
                b.bag.drain_into(&mut out);
                assert(out@ + released(q@, g) =~= released(orig, g));
                assert(keep@ + kept(q@, g) =~= kept(orig, g)) by {
                    assert(kept(q0, g) =~= kept(q@, g));
                }
            } else {
                keep.push(b);
                assert(keep@ + kept(q@, g) =~= kept(orig, g)) by {
                    assert(kept(q0, g) =~= seq![b] + kept(q@, g));
                }
                assert(released(q0, g) =~= released(q@, g));
            }
        }
        self.queue = keep;
        proof {
            assert(out@ =~= out@ + released(q@, g));
            assert(self.queue@ =~= self.queue@ + kept(q@, g));
            assert forall|j: int| 0 <= j < self.queue@.len() implies #[trigger] self.sealed_wf(self.queue@[j]) by {
                assert(sealed_ok(keep@[j], adv));
            }
            assert forall|j: int| 0 <= j < self.locals@.len() implies #[trigger] self.local_wf(self.locals@[j]) by {
                assert(old(self).local_wf(old(self).locals@[j]));
            }
        }
        out
    }
}

impl Collector {
    /// The queue once participant `i`'s bag, if it holds anything, is sealed
    /// with the current epoch and appended.
    pub open spec fn queue_after_seal(&self, i: int) -> Seq<SealedBag> {
        let l = self.locals_view()[i];
        if l.bag.items().len() == 0 {
            self.queue_view()
        } else {
            self.queue_view().push(SealedBag { epoch: self.global_epoch(), bag: l.bag, sealed_at: Ghost(self.advancements()) })
        }
    }

    /// Seals the participant's bag into the queue, tries to advance the
    /// global epoch, and releases what has expired.
    pub fn flush(&mut self, g: &Guard) -> (r: Vec<u64>)
        requires
            old(self).wf(),
            g.index < old(self).locals_view().len(),
        ensures
            final(self).wf(),
            final(self).locals_view()[g.index as int].bag.items().len() == 0,
            final(self).global_epoch() == old(self).global_epoch() || final(self).global_epoch() == (old(self).global_epoch() + 1) % 3,
            r@ == released(old(self).queue_after_seal(g.index as int), final(self).global_epoch()),
            final(self).queue_view() == kept(old(self).queue_after_seal(g.index as int), final(self).global_epoch()),
            final(self).locals_view().len() == old(self).locals_view().len(),
            final(self).locals_view()[g.index as int].pinned == old(self).locals_view()[g.index as int].pinned,
            final(self).locals_view()[g.index as int].guard_count == old(self).locals_view()[g.index as int].guard_count,
    {
        let i = g.index;
        proof {
            assert(old(self).local_wf(old(self).locals@[i as int]));
        }
        let mut l = self.locals.remove(i);
        if !l.bag.is_empty() {
            let mut full = Bag::new();
            std::mem::swap(&mut l.bag, &mut full);
            let sealed = SealedBag { epoch: self.epoch, bag: full, sealed_at: Ghost(self.advanced@) };
            self.queue.push(sealed);
        }
        self.locals.insert(i, l);
        proof {
            assert(self.locals@ =~= old(self).locals@.update(i as int, l));
            assert(self.queue@ =~= old(self).queue_after_seal(i as int));
            assert forall|j: int| 0 <= j < self.locals@.len() implies #[trigger] self.local_wf(self.locals@[j]) by {
                assert(old(self).local_wf(old(self).locals@[j]));
            }
            assert forall|j: int| 0 <= j < self.queue@.len() implies #[trigger] self.sealed_wf(self.queue@[j]) by {
                if j < old(self).queue@.len() {
                    assert(old(self).sealed_wf(old(self).queue@[j]));
                }
            }
        }
        self.try_advance();
        self.collect()
    }
}

impl Collector {
    /// Whether `h` names a participant of this collector.
    pub fn is_registered(&self, h: &Handle) -> (r: bool)
        ensures
            r == self.valid_handle(h),
    {
        h.index < self.locals.len()
    }

    /// Gives up a participant's handle: drops all its pins, then flushes its
    /// bag as `flush` does, handing back what was released.
    pub fn release(&mut self, h: Handle) -> (r: Vec<u64>)
        requires
            old(self).wf(),
            old(self).valid_handle(&h),
        ensures
            final(self).wf(),
            !final(self).is_pinned_spec(h.index as int),
            final(self).locals_view()[h.index as int].guard_count == 0,
            final(self).locals_view()[h.index as int].bag.items().len() == 0,
            final(self).global_epoch() == old(self).global_epoch() || final(self).global_epoch() == (old(self).global_epoch() + 1) % 3,
            r@ == released(old(self).queue_after_seal(h.index as int), final(self).global_epoch()),
            final(self).queue_view() == kept(old(self).queue_after_seal(h.index as int), final(self).global_epoch()),
            final(self).locals_view().len() == old(self).locals_view().len(),
    {
        let i = h.index;
        proof {
            assert(old(self).local_wf(old(self).locals@[i as int]));
        }
        let mut l = self.locals.remove(i);
        l.guard_count = 0;
        l.pinned = false;
        self.locals.insert(i, l);
        proof {
            assert(self.locals@ =~= old(self).locals@.update(i as int, l));
            assert forall|j: int| 0 <= j < self.locals@.len() implies #[trigger] self.local_wf(self.locals@[j]) by {
                assert(old(self).local_wf(old(self).locals@[j]));
            }
            assert forall|j: int| 0 <= j < self.queue@.len() implies #[trigger] self.sealed_wf(self.queue@[j]) by {
                assert(old(self).sealed_wf(old(self).queue@[j]));
            }
            assert(self.queue_after_seal(i as int) == old(self).queue_after_seal(i as int));
        }
        let g = Guard { index: i };
        self.flush(&g)
    }
}

/// While a participant stays pinned, every queued bag that may be released
/// was sealed before the participant pinned: whatever was retired after it
/// pinned is not released until it unpins.
pub proof fn lemma_pinned_participant_safe(c: &Collector, i: int, j: int)
    requires
        c.wf(),
        0 <= i < c.locals_view().len(),
        c.locals_view()[i].pinned,
        0 <= j < c.queue_view().len(),
        expired_spec(c.queue_view()[j].epoch, c.global_epoch()),
    ensures
        c.queue_view()[j].sealed_at@ < c.locals_view()[i].pinned_at@,
{
    let l = c.locals_view()[i];
    let b = c.queue_view()[j];
    assert(c.local_wf(l));
    assert(c.sealed_wf(b));
    let a = c.advancements() as int;
    let s = b.sealed_at@ as int;
    vstd::arithmetic::div_mod::lemma_fundamental_div_mod(a, 3);
    vstd::arithmetic::div_mod::lemma_fundamental_div_mod(s, 3);
    assert(a - s >= 2) by (nonlinear_arith)
        requires
            a == 3 * (a / 3) + a % 3,
            s == 3 * (s / 3) + s % 3,
            0 <= a % 3 < 3,
            0 <= s % 3 < 3,
            s <= a,
            (a % 3 + 3 - s % 3) % 3 == 2,
    ;
}

} // verus!
