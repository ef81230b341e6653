//! The inner node of fan-out forty-eight: a 256-entry byte index into a
//! compact array of children.
use vstd::prelude::*;
use crate::header::{NodeHeader, is_obsolete};
use crate::node::{ArtNode, ArtNodeTrait};

verus! {

broadcast use vstd::std_specs::vec::group_vec_axioms, vstd::seq::group_seq_axioms;

pub struct Node48<K, V> {
    pub header: NodeHeader,
    /// For each byte, 0 when it has no child, else `i + 1` for `children[i]`.
    pub child_index: Vec<u8>,
    /// The children, without gaps.
    pub children: Vec<ArtNode<K, V>>,
}

/// Slot `i` is reached from some byte of the index `ci`.
pub open spec fn has_owner(ci: Seq<u8>, i: int) -> bool {
    exists|b: int| 0 <= b < 256 && ci[b] as int == i + 1
}

impl<K, V> Node48<K, V> {
    pub open spec fn child_at(&self, b: u8) -> ArtNode<K, V> {
        let i = self.child_index@[b as int] as int - 1;
        if 0 <= i < self.children@.len() { self.children@[i] } else { ArtNode::Empty }
    }

    pub open spec fn layout_wf(&self) -> bool {
        &&& self.child_index@.len() == 256
        &&& self.children@.len() == self.header.num_children as int
        &&& self.children@.len() <= 48
        &&& forall|b: int| 0 <= b < 256 ==> self.child_index@[b] as int <= self.children@.len()
        &&& forall|b1: int, b2: int|
            0 <= b1 < 256 && 0 <= b2 < 256 && self.child_index@[b1] != 0
                && #[trigger] self.child_index@[b1] == #[trigger] self.child_index@[b2] ==> b1 == b2
        &&& forall|i: int| 0 <= i < self.children@.len() ==> #[trigger] has_owner(self.child_index@, i)
        &&& forall|i: int| 0 <= i < self.children@.len() ==> self.children@[i] != ArtNode::<K, V>::Empty
    }

    /// The byte whose child sits in slot `i`.
    fn owner_of(&self, i: usize) -> (r: u8)
        requires
            self.layout_wf(),
            i < self.children@.len(),
        ensures
            self.child_index@[r as int] as int == i + 1,
    {
        let target = (i + 1) as u8;
        assert(has_owner(self.child_index@, i as int));
        let mut b: usize = 0;
        while b < 256
            invariant
                self.layout_wf(),
                i < self.children@.len(),
                target as int == i + 1,
                b <= 256,
                has_owner(self.child_index@, i as int),
                forall|c: int| 0 <= c < b ==> self.child_index@[c] as int != i + 1,
            decreases 256 - b,
        {
            if self.child_index[b] == target {
                return b as u8;
            }
            b += 1;
        }
        proof {
            let w = choose|c: int| 0 <= c < 256 && self.child_index@[c] as int == i + 1;
            assert(self.child_index@[w] as int == i + 1);
        }
        0
    }

    fn slot_mut(&mut self, i: usize) -> (r: &mut ArtNode<K, V>)
        requires
            i < old(self).children@.len(),
        ensures
            *r == old(self).children@[i as int],
            final(self).children@ == old(self).children@.update(i as int, *final(r)),
            final(self).child_index == old(self).child_index,
            final(self).header == old(self).header,
    {
        &mut self.children[i]
    }

    /// A mutable borrow of the child for byte `b`.
    pub(crate) fn child_mut(&mut self, b: u8) -> (r: &mut ArtNode<K, V>)
        requires
            old(self).layout_wf(),
            old(self).child_at(b) != ArtNode::<K, V>::Empty,
        ensures
            *r == old(self).child_at(b),
            final(self).header == old(self).header,
            final(self).child_at(b) == *final(r),
            forall|c: u8| c != b ==> final(self).child_at(c) == old(self).child_at(c),
            *final(r) != ArtNode::<K, V>::Empty ==> final(self).layout_wf(),
    {
        let idx = self.child_index[b as usize];
        if idx == 0 {
            proof {
                assert(false);
            }
        }
        self.slot_mut((idx - 1) as usize)
    }
}

impl<K, V> ArtNodeTrait<K, V> for Node48<K, V> {
    open spec fn header_spec(&self) -> NodeHeader {
        self.header
    }

    open spec fn child_spec(&self, b: u8) -> ArtNode<K, V> {
        self.child_at(b)
    }

    open spec fn inv(&self) -> bool {
        self.layout_wf()
    }

    open spec fn capacity() -> int {
        48
    }

    fn new(header: NodeHeader) -> (r: Self) {
        let mut child_index: Vec<u8> = Vec::new();
        let mut b: usize = 0;
        while b < 256
            invariant
                b <= 256,
                child_index@.len() == b,
                forall|c: int| 0 <= c < b ==> child_index@[c] == 0,
            decreases 256 - b,
        {
            child_index.push(0);
            b += 1;
        }
        Node48 { header, child_index, children: Vec::new() }
    }

    fn header_ref(&self) -> (r: &NodeHeader) {
        &self.header
    }

    fn get_version(&self) -> (r: u64) {
        self.header.read_version()
    }

    fn prefix_matches(&self, key: &Vec<u8>, level: usize) -> (r: Result<usize, usize>) {
        self.header.prefix_matches(key, level)
    }

    fn is_full(&self) -> (r: bool) {
        self.header.num_children >= 48
    }

    fn has_child(&self, b: u8) -> (r: bool) {
        self.child_index[b as usize] != 0
    }

    fn find_child(&self, b: u8) -> (r: Option<&ArtNode<K, V>>) {
        let idx = self.child_index[b as usize];
        if idx == 0 {
            None
        } else {
            Some(&self.children[(idx - 1) as usize])
        }
    }

    fn find_child_mut(&mut self, b: u8) -> (r: Option<&mut ArtNode<K, V>>) {
        if !self.header.is_locked() && !is_obsolete(self.header.version) && self.has_child(b) {
            Some(self.child_mut(b))
        } else {
            None
        }
    }

    fn add_child(&mut self, child: ArtNode<K, V>, b: u8) {
        let ghost old_node = *self;
        let n = self.children.len();
        self.child_index[b as usize] = (n + 1) as u8;
        self.children.push(child);
        self.header.num_children = self.header.num_children + 1;
        proof {
            let ci = self.child_index@;
            assert(ci == old_node.child_index@.update(b as int, (n + 1) as u8));
            assert forall|b1: int, b2: int|
                0 <= b1 < 256 && 0 <= b2 < 256 && ci[b1] != 0 && #[trigger] ci[b1] == #[trigger] ci[b2]
                implies b1 == b2 by {
                if b1 != b && b2 != b {
                    assert(old_node.child_index@[b1] == old_node.child_index@[b2]);
                }
            }
            assert forall|i: int| 0 <= i < self.children@.len() implies #[trigger] has_owner(self.child_index@, i) by {
                if i < n {
                    assert(has_owner(old_node.child_index@, i));
                    let w = choose|c: int| 0 <= c < 256 && old_node.child_index@[c] as int == i + 1;
                    assert(ci[w] as int == i + 1);
                } else {
                    assert(ci[b as int] as int == i + 1);
                }
            }
            assert(self.layout_wf());
            assert forall|c: u8| c != b implies self.child_at(c) == old_node.child_at(c) by {
                assert(ci[c as int] == old_node.child_index@[c as int]);
            }
        }
    }

    fn remove_child(&mut self, b: u8) -> (r: ArtNode<K, V>) {
        let ghost old_node = *self;
        let idx = self.child_index[b as usize];
        let i = (idx - 1) as usize;
        let last = self.children.len() - 1;
        let ghost mut moved: int = b as int;
        if i != last {
            let bl = self.owner_of(last);
            proof {
                moved = bl as int;
            }
            self.child_index[bl as usize] = idx;
        }
        self.child_index[b as usize] = 0;
        let r = self.children.swap_remove(i);
        self.header.num_children = self.header.num_children - 1;
        proof {
            let oi = old_node.child_index@;
            let ci = self.child_index@;
            let oc = old_node.children@;
            let nc = self.children@;
            assert(nc.len() == last);
            assert forall|c: int| 0 <= c < 256 && c != b && c != moved implies ci[c] == oi[c] && (oi[c] == 0 || (oi[c] as int - 1 != i && oi[c] as int - 1 != last)) by {
                if oi[c] != 0 && oi[c] as int - 1 == i {
                    assert(oi[c] == oi[b as int]);
                }
                if oi[c] != 0 && oi[c] as int - 1 == last && i != last {
                    assert(oi[c] == oi[moved]);
                }
            }
            assert forall|j: int| 0 <= j < nc.len() && j != i implies nc[j] == oc[j] by {}
            if i != last {
                assert(nc[i as int] == oc[last as int]);
                assert(ci[moved] as int == i + 1);
            }
            assert forall|c: int| 0 <= c < 256 implies ci[c] as int <= nc.len() by {
                if c != b && c != moved {
                    assert(oi[c] as int <= oc.len());
                }
            }
            assert forall|b1: int, b2: int|
                0 <= b1 < 256 && 0 <= b2 < 256 && ci[b1] != 0 && #[trigger] ci[b1] == #[trigger] ci[b2]
                implies b1 == b2 by {
                if b1 != b && b2 != b && b1 != moved && b2 != moved {
                    assert(oi[b1] == oi[b2]);
                }
            }
            assert forall|j: int| 0 <= j < nc.len() implies #[trigger] has_owner(self.child_index@, j) by {
                if j == i {
                    assert(ci[moved] as int == j + 1);
                } else {
                    assert(has_owner(old_node.child_index@, j));
                    let w = choose|c: int| 0 <= c < 256 && oi[c] as int == j + 1;
                    assert(w != b);
                    if i != last {
                        assert(w != moved);
                    }
                    assert(ci[w] as int == j + 1);
                }
            }
            assert forall|j: int| 0 <= j < nc.len() implies nc[j] != ArtNode::<K, V>::Empty by {
                if j == i {
                } else {
                    assert(nc[j] == oc[j]);
                }
            }
            assert(self.layout_wf());
            assert forall|c: u8| c != b implies self.child_at(c) == old_node.child_at(c) by {
                if c as int != moved {
                } else {
                    assert(ci[c as int] as int - 1 == i);
                }
            }
        }
        r
    }

    fn pop_child(&mut self) -> (r: (u8, ArtNode<K, V>)) {
        let last = self.children.len() - 1;
        let b = self.owner_of(last);
        let c = self.remove_child(b);
        (b, c)
    }

    open spec fn to_node(&self) -> ArtNode<K, V> {
        ArtNode::Inner48(Box::new(*self))
    }

    proof fn lemma_to_node(&self) {
    }

    fn into_node(self) -> (r: ArtNode<K, V>) {
        ArtNode::Inner48(Box::new(self))
    }

    fn set_prefix(&mut self, partial: Vec<u8>, partial_len: usize, full_prefix: Ghost<Seq<u8>>) {
        self.header.partial = partial;
        self.header.partial_len = partial_len;
        self.header.full_prefix = full_prefix;
    }

    fn some_child(&self) -> (r: u8) {
        self.owner_of(0)
    }

    proof fn lemma_some_child(&self) {
        assert(has_owner(self.child_index@, 0));
        let w = choose|c: int| 0 <= c < 256 && self.child_index@[c] as int == 1;
        assert(self.child_spec(w as u8) != ArtNode::<K, V>::Empty);
    }

    proof fn lemma_count_matches(&self) {
        broadcast use vstd::seq_lib::seq_to_set_is_finite;
        let ci = self.child_index@;
        let n = self.children@.len();
        let owners = Seq::new(n, |i: int| (choose|b: int| 0 <= b < 256 && ci[b] as int == i + 1) as u8);
        assert forall|i: int| 0 <= i < n implies ci[owners[i] as int] as int == i + 1 by {
            assert(has_owner(ci, i));
            let b = choose|b: int| 0 <= b < 256 && ci[b] as int == i + 1;
            assert(owners[i] as int == b);
        }
        assert(owners.no_duplicates()) by {
            assert forall|i: int, j: int| 0 <= i < n && 0 <= j < n && i != j implies owners[i] != owners[j] by {
                assert(ci[owners[i] as int] as int == i + 1);
                assert(ci[owners[j] as int] as int == j + 1);
            }
        }
        owners.unique_seq_to_set();
        let s = Set::new(|b: u8| self.child_spec(b) != ArtNode::<K, V>::Empty);
        assert forall|b: u8| s.contains(b) == owners.to_set().contains(b) by {
            if s.contains(b) {
                let i = ci[b as int] as int - 1;
                assert(0 <= i < n);
                assert(ci[owners[i] as int] == ci[b as int]);
                assert(owners[i] == b);
                assert(owners.contains(b));
            }
            if owners.to_set().contains(b) {
                assert(owners.contains(b));
                let i = choose|i: int| 0 <= i < n && owners[i] == b;
                assert(ci[b as int] as int == i + 1);
            }
        }
        assert(s =~= owners.to_set());
    }

    fn write_lock(&mut self) -> (r: bool) {
        let r = self.header.write_lock_or_restart();
        r
    }

    fn write_unlock(&mut self) {
        self.header.write_unlock();
    }

    fn write_unlock_obsolete(&mut self) {
        self.header.write_unlock_obsolete();
    }

    proof fn lemma_no_children(&self) {
    }
}

} // verus!
