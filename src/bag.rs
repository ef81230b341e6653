//! A bounded bag of retired items, kept in an `arrayvec::ArrayVec`.
use vstd::prelude::*;
use arrayvec::ArrayVec;

verus! {

/// The most items a bag holds before it is sealed.
pub const MAX_OBJECTS: usize = 64;

#[verifier::external_type_specification]
#[verifier::external_body]
#[verifier::reject_recursive_types(T)]
pub struct ExArrayVec<T, const CAP: usize>(ArrayVec<T, CAP>);

/// The items of an `ArrayVec`, first pushed first.
pub uninterp spec fn bag_items(v: ArrayVec<u64, 64>) -> Seq<u64>;

/// Relies on `ArrayVec::new`: the new vector is empty.
#[verifier::external_body]
fn array_new() -> (r: ArrayVec<u64, 64>)
    ensures
        bag_items(r) == Seq::<u64>::empty(),
{
    ArrayVec::new()
}

/// Relies on `ArrayVec::len`: the number of items, never above the capacity.
#[verifier::external_body]
fn array_len(v: &ArrayVec<u64, 64>) -> (r: usize)
    ensures
        r == bag_items(*v).len(),
        r <= 64,
{
    v.len()
}

/// Relies on `ArrayVec::try_push`: appends when the length is below the
/// capacity, else hands the item back and leaves the vector as it was.
#[verifier::external_body]
fn array_try_push(v: &mut ArrayVec<u64, 64>, x: u64) -> (r: bool)
    ensures
        r == (bag_items(*old(v)).len() < 64),
        r ==> bag_items(*final(v)) == bag_items(*old(v)).push(x),
        !r ==> bag_items(*final(v)) == bag_items(*old(v)),
{
    match v.try_push(x) {
        Ok(()) => true,
        Err(_) => false,
    }
}

/// Relies on `ArrayVec::pop`: removes and hands back the last item, `None`
/// when empty.
#[verifier::external_body]
fn array_pop(v: &mut ArrayVec<u64, 64>) -> (r: Option<u64>)
    ensures
        bag_items(*old(v)).len() == 0 ==> r is None && bag_items(*final(v)) == bag_items(*old(v)),
        bag_items(*old(v)).len() > 0 ==> r == Some(bag_items(*old(v)).last())
            && bag_items(*final(v)) == bag_items(*old(v)).drop_last(),
{
    v.pop()
}

/// Retired items waiting for their epoch to expire; each item stands for an
/// object whose destruction is deferred.
pub struct Bag {
    deferreds: ArrayVec<u64, 64>,
}

impl Bag {
    /// The items, first deferred first.
    pub closed spec fn items(&self) -> Seq<u64> {
        bag_items(self.deferreds)
    }

    pub open spec fn wf(&self) -> bool {
        self.items().len() <= MAX_OBJECTS
    }

    /// An empty bag.
    pub fn new() -> (r: Self)
        ensures
            r.wf(),
            r.items() == Seq::<u64>::empty(),
    {
        Bag { deferreds: array_new() }
    }

    /// Whether the bag holds nothing.
    pub fn is_empty(&self) -> (r: bool)
        ensures
            r == (self.items().len() == 0),
    {
        array_len(&self.deferreds) == 0
    }

    /// The number of items.
    pub fn len(&self) -> (r: usize)
        ensures
            r == self.items().len(),
            r <= MAX_OBJECTS,
    {
        array_len(&self.deferreds)
    }

    /// Adds an item unless the bag is full; a full bag hands it back.
    pub fn try_push(&mut self, deferred: u64) -> (r: Result<(), u64>)
        requires
            old(self).wf(),
        ensures
            final(self).wf(),
            r is Ok <==> old(self).items().len() < MAX_OBJECTS,
            r is Ok ==> final(self).items() == old(self).items().push(deferred),
            r is Err ==> final(self).items() == old(self).items() && r == Err::<(), u64>(deferred),
    {
        if array_try_push(&mut self.deferreds, deferred) {
            Ok(())
        } else {
            Err(deferred)
        }
    }

    /// Empties the bag into `out`, keeping the order of the items.
    pub fn drain_into(self, out: &mut Vec<u64>)
        ensures
            final(out)@ == old(out)@ + self.items(),
    {
        let mut v = self.deferreds;
        let mut taken: Vec<u64> = Vec::new();
        let ghost all = bag_items(v);
        let ghost n = all.len();
        let mut k: usize = array_len(&v);
        while k > 0
            invariant
                k == bag_items(v).len(),
                bag_items(v) == all.take(k as int),
                k + taken@.len() == n,
                n == all.len(),
                forall|j: int| 0 <= j < taken@.len() ==> taken@[j] == all[n - 1 - j],
            decreases k,
        {
            match array_pop(&mut v) {
                Some(x) => {
                    assert(x == all[k - 1]);
                    taken.push(x);
                },
                None => {},
            }
            k = k - 1;
            assert(bag_items(v) =~= all.take(k as int));
        }
        let ghost start = out@;
        let mut j: usize = taken.len();
        while j > 0
            invariant
                j <= taken@.len(),
                taken@.len() == n,
                n == all.len(),
                forall|t: int| 0 <= t < taken@.len() ==> taken@[t] == all[n - 1 - t],
                out@ == start + all.take(n - j),
            decreases j,
        {
            j = j - 1;
            out.push(taken[j]);
            assert(out@ =~= start + all.take(n - j));
        }
        assert(all.take(n as int) =~= all);
    }
}

} // verus!
