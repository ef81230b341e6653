//! The inner node of fan-out 256: one slot per byte, presence given by a
//! non-empty slot.
use vstd::prelude::*;
use crate::header::{NodeHeader, is_obsolete};
use crate::node::{ArtNode, ArtNodeTrait};

verus! {

broadcast use vstd::std_specs::vec::group_vec_axioms, vstd::seq::group_seq_axioms;

/// The number of non-empty slots of `s`.
pub open spec fn count_present<K, V>(s: Seq<ArtNode<K, V>>) -> nat
    decreases s.len(),
{
    if s.len() == 0 {
        0
    } else {
        count_present(s.drop_last()) + if s.last() != ArtNode::<K, V>::Empty { 1nat } else { 0nat }
    }
}

pub proof fn lemma_count_update<K, V>(s: Seq<ArtNode<K, V>>, i: int, x: ArtNode<K, V>)
    requires
        0 <= i < s.len(),
    ensures
        count_present(s.update(i, x)) + (if s[i] != ArtNode::<K, V>::Empty { 1int } else { 0int })
            == count_present(s) + (if x != ArtNode::<K, V>::Empty { 1int } else { 0int }),
    decreases s.len(),
{
    let t = s.update(i, x);
    if i < s.len() - 1 {
        assert(t.drop_last() =~= s.drop_last().update(i, x));
        lemma_count_update(s.drop_last(), i, x);
    } else {
        assert(t.drop_last() =~= s.drop_last());
    }
}

pub proof fn lemma_count_bound<K, V>(s: Seq<ArtNode<K, V>>)
    ensures
        count_present(s) <= s.len(),
    decreases s.len(),
{
    if s.len() > 0 {
        lemma_count_bound(s.drop_last());
    }
}

pub proof fn lemma_count_all_empty<K, V>(s: Seq<ArtNode<K, V>>)
    requires
        forall|i: int| 0 <= i < s.len() ==> s[i] == ArtNode::<K, V>::Empty,
    ensures
        count_present(s) == 0,
    decreases s.len(),
{
    if s.len() > 0 {
        lemma_count_all_empty(s.drop_last());
    }
}

pub proof fn lemma_count_zero<K, V>(s: Seq<ArtNode<K, V>>)
    requires
        count_present(s) == 0,
    ensures
        forall|i: int| 0 <= i < s.len() ==> s[i] == ArtNode::<K, V>::Empty,
    decreases s.len(),
{
    if s.len() > 0 {
        lemma_count_zero(s.drop_last());
        assert forall|i: int| 0 <= i < s.len() implies s[i] == ArtNode::<K, V>::Empty by {
            if i < s.len() - 1 {
                assert(s[i] == s.drop_last()[i]);
            }
        }
    }
}

pub proof fn lemma_count_full<K, V>(s: Seq<ArtNode<K, V>>)
    requires
        count_present(s) >= s.len(),
    ensures
        forall|i: int| 0 <= i < s.len() ==> s[i] != ArtNode::<K, V>::Empty,
    decreases s.len(),
{
    if s.len() > 0 {
        lemma_count_bound(s.drop_last());
        lemma_count_full(s.drop_last());
        assert forall|i: int| 0 <= i < s.len() implies s[i] != ArtNode::<K, V>::Empty by {
            if i < s.len() - 1 {
                assert(s[i] == s.drop_last()[i]);
            }
        }
    }
}

/// The bytes below `n` whose slot is not empty are as many as the non-empty
/// slots among the first `n`.
pub proof fn lemma_present_prefix<K, V>(s: Seq<ArtNode<K, V>>, n: int)
    requires
        0 <= n <= s.len() <= 256,
    ensures
        Set::new(|b: u8| (b as int) < n && s[b as int] != ArtNode::<K, V>::Empty).finite(),
        Set::new(|b: u8| (b as int) < n && s[b as int] != ArtNode::<K, V>::Empty).len() == count_present(s.take(n)),
    decreases n,
{
    broadcast use vstd::set::group_set_axioms;
    let cur = Set::new(|b: u8| (b as int) < n && s[b as int] != ArtNode::<K, V>::Empty);
    if n == 0 {
        assert(cur =~= Set::<u8>::empty());
        assert(s.take(0).len() == 0);
    } else {
        lemma_present_prefix(s, n - 1);
        let prev = Set::new(|b: u8| (b as int) < n - 1 && s[b as int] != ArtNode::<K, V>::Empty);
        assert(s.take(n).drop_last() =~= s.take(n - 1));
        let top = (n - 1) as u8;
        assert(top as int == n - 1);
        if s[n - 1] != ArtNode::<K, V>::Empty {
            assert(cur =~= prev.insert(top));
            assert(!prev.contains(top));
        } else {
            assert(cur =~= prev);
        }
    }
}

pub struct Node256<K, V> {
    pub header: NodeHeader,
    /// `children[b]` is the child for byte `b`.
    pub children: Vec<ArtNode<K, V>>,
}

impl<K, V> Node256<K, V> {
    pub open spec fn child_at(&self, b: u8) -> ArtNode<K, V> {
        if (b as int) < self.children@.len() { self.children@[b as int] } else { ArtNode::Empty }
    }

    pub open spec fn layout_wf(&self) -> bool {
        &&& self.children@.len() == 256
        &&& self.header.num_children as int == count_present(self.children@)
    }

    /// The smallest byte that has a child.
    fn first_present(&self) -> (r: u8)
        requires
            self.layout_wf(),
            self.header.num_children > 0,
        ensures
            self.child_at(r) != ArtNode::<K, V>::Empty,
    {
        let mut b: usize = 0;
        while b < 256
            invariant
                self.layout_wf(),
                self.header.num_children > 0,
                b <= 256,
                forall|c: int| 0 <= c < b ==> self.children@[c] == ArtNode::<K, V>::Empty,
            decreases 256 - b,
        {
            if !self.children[b].is_empty() {
                return b as u8;
            }
            b += 1;
        }
        proof {
            lemma_count_all_empty(self.children@);
        }
        0
    }

    fn slot_mut(&mut self, i: usize) -> (r: &mut ArtNode<K, V>)
        requires
            i < old(self).children@.len(),
        ensures
            *r == old(self).children@[i as int],
            final(self).children@ == old(self).children@.update(i as int, *final(r)),
            final(self).header == old(self).header,
            old(self).children@[i as int] != ArtNode::<K, V>::Empty ==> forall|x: ArtNode<K, V>|
                x != ArtNode::<K, V>::Empty ==> #[trigger] count_present(old(self).children@.update(i as int, x))
                    == count_present(old(self).children@),
    {
        proof {
            assert forall|x: ArtNode<K, V>| x != ArtNode::<K, V>::Empty && self.children@[i as int] != ArtNode::<K, V>::Empty
                implies #[trigger] count_present(self.children@.update(i as int, x)) == count_present(self.children@) by {
                lemma_count_update(self.children@, i as int, x);
            }
        }
        &mut self.children[i]
    }

    /// A mutable borrow of the child for byte `b`.
    pub(crate) fn child_mut(&mut self, b: u8) -> (r: &mut ArtNode<K, V>)
        requires
            old(self).layout_wf(),
            old(self).child_at(b) != ArtNode::<K, V>::Empty,
        ensures
            *r == old(self).child_at(b),
            final(self).header == old(self).header,
            final(self).child_at(b) == *final(r),
            forall|c: u8| c != b ==> final(self).child_at(c) == old(self).child_at(c),
            *final(r) != ArtNode::<K, V>::Empty ==> final(self).layout_wf(),
    {
        self.slot_mut(b as usize)
    }
}

impl<K, V> ArtNodeTrait<K, V> for Node256<K, V> {
    open spec fn header_spec(&self) -> NodeHeader {
        self.header
    }

    open spec fn child_spec(&self, b: u8) -> ArtNode<K, V> {
        self.child_at(b)
    }

    open spec fn inv(&self) -> bool {
        self.layout_wf()
    }

    open spec fn capacity() -> int {
        256
    }

    fn new(header: NodeHeader) -> (r: Self) {
        let mut children: Vec<ArtNode<K, V>> = Vec::new();
        let mut b: usize = 0;
        while b < 256
            invariant
                b <= 256,
                children@.len() == b,
                forall|c: int| 0 <= c < b ==> children@[c] == ArtNode::<K, V>::Empty,
            decreases 256 - b,
        {
            children.push(ArtNode::Empty);
            b += 1;
        }
        proof {
            lemma_count_all_empty(children@);
        }
        Node256 { header, children }
    }

    fn header_ref(&self) -> (r: &NodeHeader) {
        &self.header
    }

    fn get_version(&self) -> (r: u64) {
        self.header.read_version()
    }

    fn prefix_matches(&self, key: &Vec<u8>, level: usize) -> (r: Result<usize, usize>) {
        self.header.prefix_matches(key, level)
    }

    fn is_full(&self) -> (r: bool) {
        self.header.num_children >= 256
    }

    fn has_child(&self, b: u8) -> (r: bool) {
        !self.children[b as usize].is_empty()
    }

    fn find_child(&self, b: u8) -> (r: Option<&ArtNode<K, V>>) {
        let c = &self.children[b as usize];
        if c.is_empty() {
            None
        } else {
            Some(c)
        }
    }

    fn find_child_mut(&mut self, b: u8) -> (r: Option<&mut ArtNode<K, V>>) {
        if !self.header.is_locked() && !is_obsolete(self.header.version) && self.has_child(b) {
            Some(self.child_mut(b))
        } else {
            None
        }
    }

    fn add_child(&mut self, child: ArtNode<K, V>, b: u8) {
        let ghost old_node = *self;
        proof {
            lemma_count_update(old_node.children@, b as int, child);
            lemma_count_bound(old_node.children@.update(b as int, child));
        }
        self.children[b as usize] = child;
        self.header.num_children = self.header.num_children + 1;
    }

    fn remove_child(&mut self, b: u8) -> (r: ArtNode<K, V>) {
        let ghost old_node = *self;
        let mut r: ArtNode<K, V> = ArtNode::Empty;
        {
            let slot = self.slot_mut(b as usize);
            std::mem::swap(slot, &mut r);
        }
        proof {
            lemma_count_update(old_node.children@, b as int, ArtNode::Empty);
        }
        self.header.num_children = self.header.num_children - 1;
        r
    }

    fn pop_child(&mut self) -> (r: (u8, ArtNode<K, V>)) {
        let b = self.first_present();
        let c = self.remove_child(b);
        (b, c)
    }

    open spec fn to_node(&self) -> ArtNode<K, V> {
        ArtNode::Inner256(Box::new(*self))
    }

    proof fn lemma_to_node(&self) {
    }

    fn into_node(self) -> (r: ArtNode<K, V>) {
        ArtNode::Inner256(Box::new(self))
    }

    fn set_prefix(&mut self, partial: Vec<u8>, partial_len: usize, full_prefix: Ghost<Seq<u8>>) {
        self.header.partial = partial;
        self.header.partial_len = partial_len;
        self.header.full_prefix = full_prefix;
    }

    fn some_child(&self) -> (r: u8) {
        self.first_present()
    }

    proof fn lemma_some_child(&self) {
        if forall|b: u8| self.child_spec(b) == ArtNode::<K, V>::Empty {
            assert forall|i: int| 0 <= i < self.children@.len() implies self.children@[i] == ArtNode::<K, V>::Empty by {
                assert(self.child_spec(i as u8) == ArtNode::<K, V>::Empty);
            }
            lemma_count_all_empty(self.children@);
        }
    }

    proof fn lemma_count_matches(&self) {
        lemma_present_prefix(self.children@, 256);
        assert(self.children@.take(256) =~= self.children@);
        assert(Set::new(|b: u8| self.child_spec(b) != ArtNode::<K, V>::Empty)
            =~= Set::new(|b: u8| (b as int) < 256 && self.children@[b as int] != ArtNode::<K, V>::Empty));
    }

    fn write_lock(&mut self) -> (r: bool) {
        let r = self.header.write_lock_or_restart();
        r
    }

    fn write_unlock(&mut self) {
        self.header.write_unlock();
    }

    fn write_unlock_obsolete(&mut self) {
        self.header.write_unlock_obsolete();
    }

    proof fn lemma_no_children(&self) {
        lemma_count_zero(self.children@);
    }
}

} // verus!
