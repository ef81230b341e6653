//! The inner node of fan-out four: keys kept sorted, found by a linear scan.
use vstd::prelude::*;
use crate::header::{NodeHeader, is_obsolete};
use crate::node::{ArtNode, ArtNodeTrait};

verus! {

broadcast use vstd::std_specs::vec::group_vec_axioms, vstd::seq::group_seq_axioms;

pub struct Node4<K, V> {
    pub header: NodeHeader,
    /// The bytes of the children, strictly ascending.
    pub keys: Vec<u8>,
    /// `children[i]` is the child for `keys[i]`.
    pub children: Vec<ArtNode<K, V>>,
}

impl<K, V> Node4<K, V> {
    /// The slot of byte `b`, or -1.
    pub open spec fn slot(&self, b: u8) -> int {
        if exists|i: int| 0 <= i < self.keys@.len() && self.keys@[i] == b {
            choose|i: int| 0 <= i < self.keys@.len() && self.keys@[i] == b
        } else {
            -1
        }
    }

    pub open spec fn child_at(&self, b: u8) -> ArtNode<K, V> {
        let i = self.slot(b);
        if 0 <= i < self.children@.len() { self.children@[i] } else { ArtNode::Empty }
    }

    pub open spec fn layout_wf(&self) -> bool {
        &&& self.keys@.len() == self.children@.len()
        &&& self.keys@.len() == self.header.num_children as int
        &&& self.keys@.len() <= 4
        &&& forall|i: int, j: int| 0 <= i < j < self.keys@.len() ==> self.keys@[i] < self.keys@[j]
        &&& forall|i: int| 0 <= i < self.children@.len() ==> self.children@[i] != ArtNode::<K, V>::Empty
    }

    proof fn lemma_slot(&self, i: int)
        requires
            self.layout_wf(),
            0 <= i < self.keys@.len(),
        ensures
            self.slot(self.keys@[i]) == i,
            self.child_at(self.keys@[i]) == self.children@[i],
    {
        let b = self.keys@[i];
        let j = self.slot(b);
        assert(0 <= j < self.keys@.len() && self.keys@[j] == b);
        if j < i {
            assert(self.keys@[j] < self.keys@[i]);
        } else if i < j {
            assert(self.keys@[i] < self.keys@[j]);
        }
    }

    proof fn lemma_absent(&self, b: u8)
        requires
            forall|i: int| 0 <= i < self.keys@.len() ==> self.keys@[i] != b,
        ensures
            self.slot(b) == -1,
            self.child_at(b) == ArtNode::<K, V>::Empty,
    {
    }

    fn slot_mut(&mut self, i: usize) -> (r: &mut ArtNode<K, V>)
        requires
            i < old(self).children@.len(),
        ensures
            *r == old(self).children@[i as int],
            final(self).children@ == old(self).children@.update(i as int, *final(r)),
            final(self).keys == old(self).keys,
            final(self).header == old(self).header,
    {
        &mut self.children[i]
    }

    /// The slot of byte `b`, found by a linear scan.
    fn index_of(&self, b: u8) -> (r: Option<usize>)
        requires
            self.layout_wf(),
        ensures
            r is Some ==> r->0 < self.keys@.len() && self.keys@[r->0 as int] == b && self.slot(b) == r->0,
            r is None ==> self.slot(b) == -1 && self.child_at(b) == ArtNode::<K, V>::Empty,
    {
        let n = self.keys.len();
        let mut i: usize = 0;
        while i < n
            invariant
                self.layout_wf(),
                i <= n,
                n == self.keys@.len(),
                forall|j: int| 0 <= j < i ==> self.keys@[j] != b,
            decreases n - i,
        {
            if self.keys[i] == b {
                proof {
                    self.lemma_slot(i as int);
                }
                return Some(i);
            }
            i += 1;
        }
        proof {
            self.lemma_absent(b);
        }
        None
    }

    /// A mutable borrow of the child for byte `b`.
    pub(crate) fn child_mut(&mut self, b: u8) -> (r: &mut ArtNode<K, V>)
        requires
            old(self).layout_wf(),
            old(self).child_at(b) != ArtNode::<K, V>::Empty,
        ensures
            *r == old(self).child_at(b),
            final(self).header == old(self).header,
            final(self).child_at(b) == *final(r),
            forall|c: u8| c != b ==> final(self).child_at(c) == old(self).child_at(c),
            *final(r) != ArtNode::<K, V>::Empty ==> final(self).layout_wf(),
    {
        let i = match self.index_of(b) {
            Some(i) => i,
            None => {
                proof {
                    assert(false);
                }
                0
            },
        };
        proof {
            self.lemma_slot(i as int);
        }
        self.slot_mut(i)
    }
}

impl<K, V> ArtNodeTrait<K, V> for Node4<K, V> {
    open spec fn header_spec(&self) -> NodeHeader {
        self.header
    }

    open spec fn child_spec(&self, b: u8) -> ArtNode<K, V> {
        self.child_at(b)
    }

    open spec fn inv(&self) -> bool {
        self.layout_wf()
    }

    open spec fn capacity() -> int {
        4
    }

    fn new(header: NodeHeader) -> (r: Self) {
        Node4 { header, keys: Vec::new(), children: Vec::new() }
    }

    fn header_ref(&self) -> (r: &NodeHeader) {
        &self.header
    }

    fn get_version(&self) -> (r: u64) {
        self.header.read_version()
    }

    fn prefix_matches(&self, key: &Vec<u8>, level: usize) -> (r: Result<usize, usize>) {
        self.header.prefix_matches(key, level)
    }

    fn is_full(&self) -> (r: bool) {
        self.header.num_children >= 4
    }

    fn has_child(&self, b: u8) -> (r: bool) {
        match self.index_of(b) {
            Some(i) => {
                proof {
                    self.lemma_slot(i as int);
                }
                true
            },
            None => false,
        }
    }

    fn find_child(&self, b: u8) -> (r: Option<&ArtNode<K, V>>) {
        match self.index_of(b) {
            Some(i) => {
                proof {
                    self.lemma_slot(i as int);
                }
                Some(&self.children[i])
            },
            None => None,
        }
    }

    fn find_child_mut(&mut self, b: u8) -> (r: Option<&mut ArtNode<K, V>>) {
        if !self.header.is_locked() && !is_obsolete(self.header.version) && self.has_child(b) {
            Some(self.child_mut(b))
        } else {
            None
        }
    }

    fn add_child(&mut self, child: ArtNode<K, V>, b: u8) {
        let n = self.keys.len();
        let mut p: usize = 0;
        while p < n && self.keys[p] < b
            invariant
                p <= n,
                n == self.keys@.len(),
                forall|j: int| 0 <= j < p ==> self.keys@[j] < b,
            decreases n - p,
        {
            p += 1;
        }
        let ghost old_node = *self;
        proof {
            assert forall|j: int| 0 <= j < n implies old_node.keys@[j] != b by {
                if j < p {
                } else {
                    if j > p {
                        assert(old_node.keys@[p as int] < old_node.keys@[j]);
                    }
                    assert(old_node.keys@[p as int] >= b);
                    if old_node.keys@[j] == b {
                        old_node.lemma_slot(j);
                    }
                }
            }
        }
        self.keys.insert(p, b);
        self.children.insert(p, child);
        self.header.num_children = self.header.num_children + 1;
        proof {
            let nk = self.keys@;
            assert forall|i: int, j: int| 0 <= i < j < nk.len() implies nk[i] < nk[j] by {
                if i < p && j < p {
                } else if i < p && j == p {
                } else if i < p {
                    assert(nk[j] == old_node.keys@[j - 1]);
                } else if i == p {
                    assert(nk[j] == old_node.keys@[j - 1]);
                    assert(old_node.keys@[p as int] >= b);
                    if j - 1 > p {
                        assert(old_node.keys@[p as int] < old_node.keys@[j - 1]);
                    }
                } else {
                    assert(nk[i] == old_node.keys@[i - 1]);
                    assert(nk[j] == old_node.keys@[j - 1]);
                }
            }
            assert(self.layout_wf());
            self.lemma_slot(p as int);
            assert forall|c: u8| c != b implies self.child_at(c) == old_node.child_at(c) by {
                if exists|i: int| 0 <= i < old_node.keys@.len() && old_node.keys@[i] == c {
                    let i = choose|i: int| 0 <= i < old_node.keys@.len() && old_node.keys@[i] == c;
                    old_node.lemma_slot(i);
                    if i < p {
                        assert(nk[i] == c);
                        self.lemma_slot(i);
                    } else {
                        assert(nk[i + 1] == c);
                        self.lemma_slot(i + 1);
                    }
                } else {
                    assert forall|i: int| 0 <= i < nk.len() implies nk[i] != c by {
                        if i < p {
                            assert(nk[i] == old_node.keys@[i]);
                        } else if i > p {
                            assert(nk[i] == old_node.keys@[i - 1]);
                        }
                    }
                    self.lemma_absent(c);
                }
            }
        }
    }

    fn remove_child(&mut self, b: u8) -> (r: ArtNode<K, V>) {
        let i = match self.index_of(b) {
            Some(i) => i,
            None => {
                proof {
                    assert(false);
                }
                0
            },
        };
        let ghost old_node = *self;
        proof {
            old_node.lemma_slot(i as int);
        }
        self.keys.remove(i);
        let r = self.children.remove(i);
        self.header.num_children = self.header.num_children - 1;
        proof {
            let nk = self.keys@;
            assert forall|x: int, y: int| 0 <= x < y < nk.len() implies nk[x] < nk[y] by {
                if x < i && y < i {
                } else if x < i {
                    assert(nk[y] == old_node.keys@[y + 1]);
                } else {
                    assert(nk[x] == old_node.keys@[x + 1]);
                    assert(nk[y] == old_node.keys@[y + 1]);
                }
            }
            assert(self.layout_wf());
            assert forall|j: int| 0 <= j < nk.len() implies nk[j] != b by {
                if j < i {
                    assert(old_node.keys@[j] < old_node.keys@[i as int]);
                } else {
                    assert(nk[j] == old_node.keys@[j + 1]);
                    assert(old_node.keys@[i as int] < old_node.keys@[j + 1]);
                }
            }
            self.lemma_absent(b);
            assert forall|c: u8| c != b implies self.child_at(c) == old_node.child_at(c) by {
                if exists|j: int| 0 <= j < old_node.keys@.len() && old_node.keys@[j] == c {
                    let j = choose|j: int| 0 <= j < old_node.keys@.len() && old_node.keys@[j] == c;
                    old_node.lemma_slot(j);
                    if j < i {
                        assert(nk[j] == c);
                        self.lemma_slot(j);
                    } else {
                        assert(j != i);
                        assert(nk[j - 1] == c);
                        self.lemma_slot(j - 1);
                    }
                } else {
                    assert forall|j: int| 0 <= j < nk.len() implies nk[j] != c by {
                        if j < i {
                            assert(nk[j] == old_node.keys@[j]);
                        } else {
                            assert(nk[j] == old_node.keys@[j + 1]);
                        }
                    }
                    self.lemma_absent(c);
                }
            }
        }
        r
    }

    fn pop_child(&mut self) -> (r: (u8, ArtNode<K, V>)) {
        let b = self.keys[self.keys.len() - 1];
        proof {
            self.lemma_slot(self.keys@.len() - 1);
        }
        let c = self.remove_child(b);
        (b, c)
    }

    open spec fn to_node(&self) -> ArtNode<K, V> {
        ArtNode::Inner4(Box::new(*self))
    }

    proof fn lemma_to_node(&self) {
    }

    fn into_node(self) -> (r: ArtNode<K, V>) {
        ArtNode::Inner4(Box::new(self))
    }

    fn set_prefix(&mut self, partial: Vec<u8>, partial_len: usize, full_prefix: Ghost<Seq<u8>>) {
        self.header.partial = partial;
        self.header.partial_len = partial_len;
        self.header.full_prefix = full_prefix;
        proof {
            assert(self.keys@ == old(self).keys@);
            assert(self.children@ == old(self).children@);
            assert forall|b: u8| self.child_spec(b) == old(self).child_spec(b) by {
                assert(self.slot(b) == old(self).slot(b));
            }
        }
    }

    fn some_child(&self) -> (r: u8) {
        proof {
            self.lemma_slot(0);
        }
        self.keys[0]
    }

    proof fn lemma_some_child(&self) {
        self.lemma_slot(0);
        assert(self.child_spec(self.keys@[0]) != ArtNode::<K, V>::Empty);
    }

    proof fn lemma_count_matches(&self) {
        broadcast use vstd::seq_lib::seq_to_set_is_finite;
        let ks = self.keys@;
        assert(ks.no_duplicates()) by {
            assert forall|i: int, j: int| 0 <= i < ks.len() && 0 <= j < ks.len() && i != j implies ks[i] != ks[j] by {
                if i < j {
                    assert(ks[i] < ks[j]);
                } else {
                    assert(ks[j] < ks[i]);
                }
            }
        }
        ks.unique_seq_to_set();
        let s = Set::new(|b: u8| self.child_spec(b) != ArtNode::<K, V>::Empty);
        assert forall|b: u8| s.contains(b) == ks.to_set().contains(b) by {
            if s.contains(b) {
                let i = self.slot(b);
                assert(0 <= i < ks.len() && ks[i] == b);
                assert(ks.contains(b));
            }
            if ks.to_set().contains(b) {
                assert(ks.contains(b));
                let i = choose|i: int| 0 <= i < ks.len() && ks[i] == b;
                self.lemma_slot(i);
            }
        }
        assert(s =~= ks.to_set());
    }

    fn write_lock(&mut self) -> (r: bool) {
        let r = self.header.write_lock_or_restart();
        proof {
            assert(self.keys@ == old(self).keys@);
            assert(self.children@ == old(self).children@);
            assert forall|b: u8| self.child_spec(b) == old(self).child_spec(b) by {
                assert(self.slot(b) == old(self).slot(b));
            }
        }
        r
    }

    fn write_unlock(&mut self) {
        self.header.write_unlock();
        proof {
            assert(self.keys@ == old(self).keys@);
            assert(self.children@ == old(self).children@);
            assert forall|b: u8| self.child_spec(b) == old(self).child_spec(b) by {
                assert(self.slot(b) == old(self).slot(b));
            }
        }
    }

    fn write_unlock_obsolete(&mut self) {
        self.header.write_unlock_obsolete();
        proof {
            assert(self.keys@ == old(self).keys@);
            assert(self.children@ == old(self).children@);
            assert forall|b: u8| self.child_spec(b) == old(self).child_spec(b) by {
                assert(self.slot(b) == old(self).slot(b));
            }
        }
    }

    proof fn lemma_no_children(&self) {
        assert forall|b: u8| self.child_spec(b) == ArtNode::<K, V>::Empty by {
            self.lemma_absent(b);
        }
    }
}

} // verus!
