//! The tagged child slot of the tree and what all inner node kinds share.
use vstd::prelude::*;
use crate::header::{NodeHeader, matches_at};
use crate::key::Digital;
use crate::node4::Node4;
use crate::node16::Node16;
use crate::node48::Node48;
use crate::node256::Node256;

verus! {

broadcast use vstd::std_specs::vec::group_vec_axioms, vstd::seq::group_seq_axioms;

/// A stored key with its value; the full key is kept to verify a match.
pub struct Leaf<K, V> {
    pub key: K,
    pub value: V,
}

/// What an edge of the tree holds.
pub enum ArtNode<K, V> {
    Empty,
    Inner4(Box<Node4<K, V>>),
    Inner16(Box<Node16<K, V>>),
    Inner48(Box<Node48<K, V>>),
    Inner256(Box<Node256<K, V>>),
    Leaf(Box<Leaf<K, V>>),
}

impl<K, V> ArtNode<K, V> {
    /// Whether the slot holds nothing.
    pub fn is_empty(&self) -> (r: bool)
        ensures
            r == (*self == ArtNode::<K, V>::Empty),
    {
        match self {
            ArtNode::Empty => true,
            _ => false,
        }
    }

    pub open spec fn is_inner(self) -> bool {
        match self {
            ArtNode::Inner4(_) | ArtNode::Inner16(_) | ArtNode::Inner48(_) | ArtNode::Inner256(_) => true,
            _ => false,
        }
    }

    /// The header of an inner node.
    pub open spec fn header_of(self) -> NodeHeader {
        match self {
            ArtNode::Inner4(n) => n.header,
            ArtNode::Inner16(n) => n.header,
            ArtNode::Inner48(n) => n.header,
            ArtNode::Inner256(n) => n.header,
            _ => arbitrary(),
        }
    }

    /// The child of an inner node for byte `b` (`Empty` when there is none).
    pub open spec fn child_at(self, b: u8) -> ArtNode<K, V> {
        match self {
            ArtNode::Inner4(n) => n.child_at(b),
            ArtNode::Inner16(n) => n.child_at(b),
            ArtNode::Inner48(n) => n.child_at(b),
            ArtNode::Inner256(n) => n.child_at(b),
            _ => ArtNode::Empty,
        }
    }

    /// The layout of an inner node is consistent: the byte-to-slot mapping,
    /// the child count, and the capacity of its kind.
    pub open spec fn layout_wf(self) -> bool {
        match self {
            ArtNode::Inner4(n) => n.layout_wf(),
            ArtNode::Inner16(n) => n.layout_wf(),
            ArtNode::Inner48(n) => n.layout_wf(),
            ArtNode::Inner256(n) => n.layout_wf(),
            _ => true,
        }
    }

    /// The most children an inner node of this kind holds.
    pub open spec fn capacity(self) -> int {
        match self {
            ArtNode::Inner4(_) => 4,
            ArtNode::Inner16(_) => 16,
            ArtNode::Inner48(_) => 48,
            ArtNode::Inner256(_) => 256,
            _ => 0,
        }
    }

    /// The same node in the next larger kind; the node must be full.
    pub fn grow(self) -> (r: ArtNode<K, V>)
        requires
            self.is_inner(),
            self.layout_wf(),
            !(self is Inner256),
            self.header_of().num_children == self.capacity(),
        ensures
            same_shape(self, r),
            r.layout_wf(),
            r.header_of().num_children < r.capacity(),
            r.header_of().version == 0,
            self is Inner4 ==> r is Inner16,
            self is Inner16 ==> r is Inner48,
            self is Inner48 ==> r is Inner256,
    {
        match self {
            ArtNode::Inner4(n) => move_into::<K, V, Node4<K, V>, Node16<K, V>>(*n),
            ArtNode::Inner16(n) => move_into::<K, V, Node16<K, V>, Node48<K, V>>(*n),
            ArtNode::Inner48(n) => move_into::<K, V, Node48<K, V>, Node256<K, V>>(*n),
            _ => self,
        }
    }

    /// The same node in the next smaller kind; the children must fit.
    pub fn shrink(self) -> (r: ArtNode<K, V>)
        requires
            self.is_inner(),
            self.layout_wf(),
            !(self is Inner4),
            self is Inner16 ==> self.header_of().num_children <= 4,
            self is Inner48 ==> self.header_of().num_children <= 16,
            self is Inner256 ==> self.header_of().num_children <= 48,
        ensures
            same_shape(self, r),
            r.layout_wf(),
            r.header_of().version == 0,
            self is Inner16 ==> r is Inner4,
            self is Inner48 ==> r is Inner16,
            self is Inner256 ==> r is Inner48,
    {
        match self {
            ArtNode::Inner16(n) => move_into::<K, V, Node16<K, V>, Node4<K, V>>(*n),
            ArtNode::Inner48(n) => move_into::<K, V, Node48<K, V>, Node16<K, V>>(*n),
            ArtNode::Inner256(n) => move_into::<K, V, Node256<K, V>, Node48<K, V>>(*n),
            _ => self,
        }
    }

    /// The bytes for which an inner node has a child.
    pub open spec fn present_bytes(self) -> Set<u8> {
        Set::new(|b: u8| self.child_at(b) != ArtNode::<K, V>::Empty)
    }

    /// Every inner node below this edge has at least two children, and its
    /// child count is the number of bytes that have a child.
    pub open spec fn counts_sound(self) -> bool
        decreases self,
    {
        if self.is_inner() {
            &&& self.header_of().num_children >= 2
            &&& self.present_bytes().finite()
            &&& self.present_bytes().len() == self.header_of().num_children
            &&& forall|b: u8| #![trigger self.child_at(b)]
                self.child_at(b) != ArtNode::<K, V>::Empty ==> {
                    &&& decreases_to!(self => self.child_at(b))
                    &&& self.child_at(b).counts_sound()
                }
        } else {
            true
        }
    }

    pub proof fn lemma_count_matches(self)
        requires
            self.is_inner(),
            self.layout_wf(),
        ensures
            self.present_bytes().finite(),
            self.present_bytes().len() == self.header_of().num_children,
    {
        match self {
            ArtNode::Inner4(n) => {
                n.lemma_count_matches();
                assert(self.present_bytes() =~= Set::new(|b: u8| n.child_spec(b) != ArtNode::<K, V>::Empty));
            },
            ArtNode::Inner16(n) => {
                n.lemma_count_matches();
                assert(self.present_bytes() =~= Set::new(|b: u8| n.child_spec(b) != ArtNode::<K, V>::Empty));
            },
            ArtNode::Inner48(n) => {
                n.lemma_count_matches();
                assert(self.present_bytes() =~= Set::new(|b: u8| n.child_spec(b) != ArtNode::<K, V>::Empty));
            },
            ArtNode::Inner256(n) => {
                n.lemma_count_matches();
                assert(self.present_bytes() =~= Set::new(|b: u8| n.child_spec(b) != ArtNode::<K, V>::Empty));
            },
            _ => {},
        }
    }

    /// A full node of fan-out 256 has a child for every byte.
    pub proof fn lemma_full_256(self, b: u8)
        requires
            self is Inner256,
            self.layout_wf(),
            self.header_of().num_children >= 256,
        ensures
            self.child_at(b) != ArtNode::<K, V>::Empty,
    {
        match self {
            ArtNode::Inner256(n) => crate::node256::lemma_count_full(n.children@),
            _ => {},
        }
    }

    pub proof fn lemma_child_decreases(self, b: u8)
        ensures
            self.child_at(b) != ArtNode::<K, V>::Empty ==> decreases_to!(self => self.child_at(b)),
    {
        match self {
            ArtNode::Inner4(n) => {
                let i = n.slot(b);
                if 0 <= i < n.children@.len() {
                    assert(decreases_to!(n.children => n.children@));
                    assert(decreases_to!(n.children@ => n.children@[i]));
                }
            },
            ArtNode::Inner16(n) => {
                let i = n.slot(b);
                if 0 <= i < n.children@.len() {
                    assert(decreases_to!(n.children => n.children@));
                    assert(decreases_to!(n.children@ => n.children@[i]));
                }
            },
            ArtNode::Inner48(n) => {
                let i = n.child_index@[b as int] as int - 1;
                if 0 <= i < n.children@.len() {
                    assert(decreases_to!(n.children => n.children@));
                    assert(decreases_to!(n.children@ => n.children@[i]));
                }
            },
            ArtNode::Inner256(n) => {
                if (b as int) < n.children@.len() {
                    assert(decreases_to!(n.children => n.children@));
                    assert(decreases_to!(n.children@ => n.children@[b as int]));
                }
            },
            _ => {},
        }
    }
}

/// The prefix fields and the version of two headers agree.
pub open spec fn same_prefix(a: NodeHeader, b: NodeHeader) -> bool {
    &&& a.version == b.version
    &&& a.partial == b.partial
    &&& a.partial_len == b.partial_len
    &&& a.full_prefix == b.full_prefix
}

/// What every inner node kind offers: a byte-to-child mapping with a
/// capacity, over a common header.
pub trait ArtNodeTrait<K, V>: Sized {
    /// The header of the node.
    spec fn header_spec(&self) -> NodeHeader;

    /// The child for byte `b`, `Empty` when there is none.
    spec fn child_spec(&self, b: u8) -> ArtNode<K, V>;

    /// The layout is consistent: byte-to-slot mapping, child count, capacity.
    spec fn inv(&self) -> bool;

    /// The largest number of children of this kind.
    spec fn capacity() -> int;

    /// An empty node with the given header.
    fn new(header: NodeHeader) -> (r: Self)
        requires
            header.num_children == 0,
        ensures
            r.inv(),
            r.header_spec() == header,
            forall|b: u8| r.child_spec(b) == ArtNode::<K, V>::Empty,
    ;

    /// The header of the node.
    fn header_ref(&self) -> (r: &NodeHeader)
        ensures
            *r == self.header_spec(),
    ;

    /// The current version word of the node.
    fn get_version(&self) -> (r: u64)
        ensures
            r == self.header_spec().version,
    ;

    /// Where the walk for `key` goes on after the node's prefix at `level`
    /// (see `NodeHeader::prefix_matches`).
    fn prefix_matches(&self, key: &Vec<u8>, level: usize) -> (r: Result<usize, usize>)
        ensures
            matches_at(key@, level as int, self.header_spec().partial@) && level + self.header_spec().partial_len <= usize::MAX
                ==> r == Ok::<usize, usize>((level + self.header_spec().partial_len) as usize),
            !(matches_at(key@, level as int, self.header_spec().partial@) && level + self.header_spec().partial_len <= usize::MAX)
                ==> r == Err::<usize, usize>(level),
    ;

    /// Whether no child can be added without growing.
    fn is_full(&self) -> (r: bool)
        requires
            self.inv(),
        ensures
            r == (self.header_spec().num_children >= Self::capacity()),
    ;

    /// Whether byte `b` has a child.
    fn has_child(&self, b: u8) -> (r: bool)
        requires
            self.inv(),
        ensures
            r == (self.child_spec(b) != ArtNode::<K, V>::Empty),
    ;

    /// The child for byte `b`, if any.
    fn find_child(&self, b: u8) -> (r: Option<&ArtNode<K, V>>)
        requires
            self.inv(),
        ensures
            r is Some <==> self.child_spec(b) != ArtNode::<K, V>::Empty,
            r is Some ==> *r->0 == self.child_spec(b),
    ;

    /// A mutable borrow of the child for byte `b`; `None` when the byte has
    /// no child, or when the node is locked or obsolete (the caller restarts).
    fn find_child_mut(&mut self, b: u8) -> (r: Option<&mut ArtNode<K, V>>)
        requires
            old(self).inv(),
        ensures
            r is None <==> (old(self).child_spec(b) == ArtNode::<K, V>::Empty || !old(self).header_spec().is_idle()),
            r is None ==> *final(self) == *old(self),
            r is Some ==> *r->0 == old(self).child_spec(b),
            r is Some ==> final(self).header_spec() == old(self).header_spec(),
            r is Some ==> final(self).child_spec(b) == *final(r->0),
            r is Some ==> forall|c: u8| c != b ==> final(self).child_spec(c) == old(self).child_spec(c),
            r is Some ==> (*final(r->0) != ArtNode::<K, V>::Empty ==> final(self).inv()),
    ;

    /// Adds a child for a byte that has none; the node must not be full.
    fn add_child(&mut self, child: ArtNode<K, V>, b: u8)
        requires
            old(self).inv(),
            old(self).child_spec(b) == ArtNode::<K, V>::Empty,
            child != ArtNode::<K, V>::Empty,
            old(self).header_spec().num_children < Self::capacity(),
        ensures
            final(self).inv(),
            same_prefix(final(self).header_spec(), old(self).header_spec()),
            final(self).header_spec().num_children == old(self).header_spec().num_children + 1,
            final(self).child_spec(b) == child,
            forall|c: u8| c != b ==> final(self).child_spec(c) == old(self).child_spec(c),
    ;

    /// Removes the child for byte `b` and hands it back.
    fn remove_child(&mut self, b: u8) -> (r: ArtNode<K, V>)
        requires
            old(self).inv(),
            old(self).child_spec(b) != ArtNode::<K, V>::Empty,
        ensures
            r == old(self).child_spec(b),
            final(self).inv(),
            same_prefix(final(self).header_spec(), old(self).header_spec()),
            final(self).header_spec().num_children == old(self).header_spec().num_children - 1,
            final(self).child_spec(b) == ArtNode::<K, V>::Empty,
            forall|c: u8| c != b ==> final(self).child_spec(c) == old(self).child_spec(c),
    ;

    /// Removes some child and hands it back with its byte.
    fn pop_child(&mut self) -> (r: (u8, ArtNode<K, V>))
        requires
            old(self).inv(),
            old(self).header_spec().num_children > 0,
        ensures
            r.1 == old(self).child_spec(r.0),
            r.1 != ArtNode::<K, V>::Empty,
            final(self).inv(),
            same_prefix(final(self).header_spec(), old(self).header_spec()),
            final(self).header_spec().num_children == old(self).header_spec().num_children - 1,
            final(self).child_spec(r.0) == ArtNode::<K, V>::Empty,
            forall|c: u8| c != r.0 ==> final(self).child_spec(c) == old(self).child_spec(c),
    ;

    /// The node as the content of an edge.
    spec fn to_node(&self) -> ArtNode<K, V>;

    proof fn lemma_to_node(&self)
        ensures
            self.to_node().is_inner(),
            self.to_node().header_of() == self.header_spec(),
            self.to_node().layout_wf() == self.inv(),
            self.to_node().capacity() == Self::capacity(),
            forall|b: u8| #[trigger] self.to_node().child_at(b) == self.child_spec(b),
    ;

    /// Puts the node on an edge.
    fn into_node(self) -> (r: ArtNode<K, V>)
        ensures
            r == self.to_node(),
    ;

    /// Replaces the compressed prefix; the children stay.
    fn set_prefix(&mut self, partial: Vec<u8>, partial_len: usize, full_prefix: Ghost<Seq<u8>>)
        requires
            old(self).inv(),
        ensures
            final(self).inv(),
            final(self).header_spec().partial == partial,
            final(self).header_spec().partial_len == partial_len,
            final(self).header_spec().full_prefix == full_prefix,
            final(self).header_spec().version == old(self).header_spec().version,
            final(self).header_spec().num_children == old(self).header_spec().num_children,
            forall|b: u8| final(self).child_spec(b) == old(self).child_spec(b),
    ;

    /// Some byte that has a child.
    fn some_child(&self) -> (r: u8)
        requires
            self.inv(),
            self.header_spec().num_children > 0,
        ensures
            self.child_spec(r) != ArtNode::<K, V>::Empty,
    ;

    /// A node with children has a child for some byte.
    proof fn lemma_some_child(&self)
        requires
            self.inv(),
            self.header_spec().num_children > 0,
        ensures
            exists|b: u8| self.child_spec(b) != ArtNode::<K, V>::Empty,
    ;

    /// The child count is the number of bytes that have a child.
    proof fn lemma_count_matches(&self)
        requires
            self.inv(),
        ensures
            Set::new(|b: u8| self.child_spec(b) != ArtNode::<K, V>::Empty).finite(),
            Set::new(|b: u8| self.child_spec(b) != ArtNode::<K, V>::Empty).len() == self.header_spec().num_children,
    ;

    /// Takes the node's write lock: `false` on success, `true` when it is
    /// locked or obsolete (then nothing changes).
    fn write_lock(&mut self) -> (r: bool)
        requires
            old(self).inv(),
        ensures
            final(self).inv(),
            r == !old(self).header_spec().is_idle(),
            !r ==> final(self).header_spec().is_locked_spec() && !final(self).header_spec().is_obsolete_spec(),
            r ==> final(self).header_spec().version == old(self).header_spec().version,
            final(self).header_spec().num_children == old(self).header_spec().num_children,
            final(self).header_spec().partial == old(self).header_spec().partial,
            final(self).header_spec().partial_len == old(self).header_spec().partial_len,
            final(self).header_spec().full_prefix == old(self).header_spec().full_prefix,
            forall|b: u8| final(self).child_spec(b) == old(self).child_spec(b),
    ;

    /// Releases the write lock; the version counter moves on.
    fn write_unlock(&mut self)
        requires
            old(self).inv(),
            old(self).header_spec().is_locked_spec(),
        ensures
            final(self).inv(),
            !final(self).header_spec().is_locked_spec(),
            final(self).header_spec().is_obsolete_spec() == old(self).header_spec().is_obsolete_spec(),
            final(self).header_spec().version == old(self).header_spec().version.wrapping_add(2),
            final(self).header_spec().num_children == old(self).header_spec().num_children,
            final(self).header_spec().partial == old(self).header_spec().partial,
            final(self).header_spec().partial_len == old(self).header_spec().partial_len,
            final(self).header_spec().full_prefix == old(self).header_spec().full_prefix,
            forall|b: u8| final(self).child_spec(b) == old(self).child_spec(b),
    ;

    /// Releases the write lock and retires the node.
    fn write_unlock_obsolete(&mut self)
        requires
            old(self).inv(),
            old(self).header_spec().is_locked_spec(),
            !old(self).header_spec().is_obsolete_spec(),
        ensures
            final(self).inv(),
            !final(self).header_spec().is_locked_spec(),
            final(self).header_spec().is_obsolete_spec(),
            final(self).header_spec().num_children == old(self).header_spec().num_children,
            final(self).header_spec().partial == old(self).header_spec().partial,
            final(self).header_spec().partial_len == old(self).header_spec().partial_len,
            final(self).header_spec().full_prefix == old(self).header_spec().full_prefix,
            forall|b: u8| final(self).child_spec(b) == old(self).child_spec(b),
    ;

    /// A node without children has no child for any byte.
    proof fn lemma_no_children(&self)
        requires
            self.inv(),
            self.header_spec().num_children == 0,
        ensures
            forall|b: u8| self.child_spec(b) == ArtNode::<K, V>::Empty,
    ;
}

/// Two inner nodes, perhaps of different kinds, with the same prefix, child
/// count and children.
pub open spec fn same_shape<K, V>(a: ArtNode<K, V>, b: ArtNode<K, V>) -> bool {
    &&& a.is_inner()
    &&& b.is_inner()
    &&& a.header_of().partial@ == b.header_of().partial@
    &&& a.header_of().partial_len == b.header_of().partial_len
    &&& a.header_of().full_prefix == b.header_of().full_prefix
    &&& a.header_of().num_children == b.header_of().num_children
    &&& forall|c: u8| #[trigger] a.child_at(c) == b.child_at(c)
}

/// A header for a replacement node: the same prefix, a fresh version and no
/// children yet.
pub fn copy_prefix_header(h: &NodeHeader) -> (r: NodeHeader)
    ensures
        r.partial@ == h.partial@,
        r.partial_len == h.partial_len,
        r.full_prefix == h.full_prefix,
        r.num_children == 0,
        r.version == 0,
{
    let mut partial: Vec<u8> = Vec::new();
    let n = h.partial.len();
    let mut i: usize = 0;
    while i < n
        invariant
            i <= n,
            n == h.partial@.len(),
            partial@ == h.partial@.take(i as int),
        decreases n - i,
    {
        partial.push(h.partial[i]);
        assert(partial@ =~= h.partial@.take(i + 1));
        i += 1;
    }
    assert(partial@ =~= h.partial@);
    NodeHeader {
        version: 0,
        num_children: 0,
        partial,
        partial_len: h.partial_len,
        full_prefix: Ghost(h.full_prefix@),
    }
}

/// Moves every child of `from` into the empty node `to`, keeping each byte's
/// child.
pub fn migrate<K, V, F: ArtNodeTrait<K, V>, T: ArtNodeTrait<K, V>>(from: F, to: T) -> (r: T)
    requires
        from.inv(),
        to.inv(),
        to.header_spec().num_children == 0,
        forall|b: u8| to.child_spec(b) == ArtNode::<K, V>::Empty,
        from.header_spec().num_children <= T::capacity(),
    ensures
        r.inv(),
        same_prefix(r.header_spec(), to.header_spec()),
        r.header_spec().num_children == from.header_spec().num_children,
        forall|b: u8| r.child_spec(b) == from.child_spec(b),
{
    let mut src = from;
    let mut dst = to;
    while src.header_ref().num_children > 0
        invariant
            src.inv(),
            dst.inv(),
            same_prefix(dst.header_spec(), to.header_spec()),
            dst.header_spec().num_children + src.header_spec().num_children == from.header_spec().num_children,
            from.header_spec().num_children <= T::capacity(),
            forall|c: u8|
                (src.child_spec(c) == ArtNode::<K, V>::Empty && dst.child_spec(c) == from.child_spec(c))
                || (dst.child_spec(c) == ArtNode::<K, V>::Empty && src.child_spec(c) == from.child_spec(c)),
        decreases src.header_spec().num_children,
    {
        let ghost src1 = src;
        let ghost dst1 = dst;
        let (b, c) = src.pop_child();
        assert(dst1.child_spec(b) == ArtNode::<K, V>::Empty);
        dst.add_child(c, b);
        assert forall|x: u8|
            (src.child_spec(x) == ArtNode::<K, V>::Empty && dst.child_spec(x) == from.child_spec(x))
            || (dst.child_spec(x) == ArtNode::<K, V>::Empty && src.child_spec(x) == from.child_spec(x)) by {
            if x != b {
                assert(src.child_spec(x) == src1.child_spec(x));
                assert(dst.child_spec(x) == dst1.child_spec(x));
            }
        }
    }
    proof {
        src.lemma_no_children();
    }
    dst
}

/// Moves the children of `from` into a fresh node of kind `T` with the same
/// prefix.
pub fn move_into<K, V, F: ArtNodeTrait<K, V>, T: ArtNodeTrait<K, V>>(from: F) -> (r: ArtNode<K, V>)
    requires
        from.inv(),
        from.header_spec().num_children <= T::capacity(),
    ensures
        same_shape(from.to_node(), r),
        r.layout_wf(),
        r.capacity() == T::capacity(),
        r.header_of().version == 0,
{
    let h = copy_prefix_header(from.header_ref());
    let to = T::new(h);
    let to = migrate(from, to);
    proof {
        from.lemma_to_node();
        to.lemma_to_node();
    }
    to.into_node()
}

/// Operations on an inner node, whatever its kind.
impl<K, V> ArtNode<K, V> {
    /// The header of an inner node; `None` for an empty slot or a leaf.
    pub fn header(&self) -> (r: Option<&NodeHeader>)
        ensures
            r is Some <==> self.is_inner(),
            r is Some ==> *r->0 == self.header_of(),
    {
        match self {
            ArtNode::Inner4(n) => Some(n.header_ref()),
            ArtNode::Inner16(n) => Some(n.header_ref()),
            ArtNode::Inner48(n) => Some(n.header_ref()),
            ArtNode::Inner256(n) => Some(n.header_ref()),
            _ => None,
        }
    }

    /// The child for byte `b` of an inner node, if any.
    pub fn find_child(&self, b: u8) -> (r: Option<&ArtNode<K, V>>)
        requires
            self.is_inner(),
            self.layout_wf(),
        ensures
            r is Some <==> self.child_at(b) != ArtNode::<K, V>::Empty,
            r is Some ==> *r->0 == self.child_at(b),
    {
        match self {
            ArtNode::Inner4(n) => n.find_child(b),
            ArtNode::Inner16(n) => n.find_child(b),
            ArtNode::Inner48(n) => n.find_child(b),
            ArtNode::Inner256(n) => n.find_child(b),
            _ => None,
        }
    }

    /// Whether an inner node has no room for another child.
    pub fn is_full(&self) -> (r: bool)
        requires
            self.is_inner(),
            self.layout_wf(),
        ensures
            r == (self.header_of().num_children >= self.capacity()),
    {
        match self {
            ArtNode::Inner4(n) => n.is_full(),
            ArtNode::Inner16(n) => n.is_full(),
            ArtNode::Inner48(n) => n.is_full(),
            ArtNode::Inner256(n) => n.is_full(),
            _ => false,
        }
    }

    /// Some byte for which an inner node has a child.
    pub fn some_child(&self) -> (r: u8)
        requires
            self.is_inner(),
            self.layout_wf(),
            self.header_of().num_children > 0,
        ensures
            self.child_at(r) != ArtNode::<K, V>::Empty,
    {
        match self {
            ArtNode::Inner4(n) => n.some_child(),
            ArtNode::Inner16(n) => n.some_child(),
            ArtNode::Inner48(n) => n.some_child(),
            ArtNode::Inner256(n) => n.some_child(),
            _ => 0,
        }
    }

    pub proof fn lemma_some_child(self)
        requires
            self.is_inner(),
            self.layout_wf(),
            self.header_of().num_children > 0,
        ensures
            exists|b: u8| self.child_at(b) != ArtNode::<K, V>::Empty,
    {
        match self {
            ArtNode::Inner4(n) => {
                n.lemma_some_child();
                let b = choose|b: u8| n.child_spec(b) != ArtNode::<K, V>::Empty;
                assert(self.child_at(b) != ArtNode::<K, V>::Empty);
            },
            ArtNode::Inner16(n) => {
                n.lemma_some_child();
                let b = choose|b: u8| n.child_spec(b) != ArtNode::<K, V>::Empty;
                assert(self.child_at(b) != ArtNode::<K, V>::Empty);
            },
            ArtNode::Inner48(n) => {
                n.lemma_some_child();
                let b = choose|b: u8| n.child_spec(b) != ArtNode::<K, V>::Empty;
                assert(self.child_at(b) != ArtNode::<K, V>::Empty);
            },
            ArtNode::Inner256(n) => {
                n.lemma_some_child();
                let b = choose|b: u8| n.child_spec(b) != ArtNode::<K, V>::Empty;
                assert(self.child_at(b) != ArtNode::<K, V>::Empty);
            },
            _ => {},
        }
    }

    /// An inner node without children has no child for any byte.
    pub proof fn lemma_no_children(self)
        requires
            self.is_inner(),
            self.layout_wf(),
            self.header_of().num_children == 0,
        ensures
            forall|b: u8| #[trigger] self.child_at(b) == ArtNode::<K, V>::Empty,
    {
        match self {
            ArtNode::Inner4(n) => {
                n.lemma_no_children();
                assert forall|b: u8| #[trigger] self.child_at(b) == ArtNode::<K, V>::Empty by {
                    assert(n.child_spec(b) == ArtNode::<K, V>::Empty);
                }
            },
            ArtNode::Inner16(n) => {
                n.lemma_no_children();
                assert forall|b: u8| #[trigger] self.child_at(b) == ArtNode::<K, V>::Empty by {
                    assert(n.child_spec(b) == ArtNode::<K, V>::Empty);
                }
            },
            ArtNode::Inner48(n) => {
                n.lemma_no_children();
                assert forall|b: u8| #[trigger] self.child_at(b) == ArtNode::<K, V>::Empty by {
                    assert(n.child_spec(b) == ArtNode::<K, V>::Empty);
                }
            },
            ArtNode::Inner256(n) => {
                n.lemma_no_children();
                assert forall|b: u8| #[trigger] self.child_at(b) == ArtNode::<K, V>::Empty by {
                    assert(n.child_spec(b) == ArtNode::<K, V>::Empty);
                }
            },
            _ => {},
        }
    }

    /// A mutable borrow of the child for byte `b` of an inner node.
    pub(crate) fn child_mut(&mut self, b: u8) -> (r: &mut ArtNode<K, V>)
        requires
            old(self).is_inner(),
            old(self).layout_wf(),
            old(self).child_at(b) != ArtNode::<K, V>::Empty,
        ensures
            *r == old(self).child_at(b),
            final(self).is_inner(),
            final(self).capacity() == old(self).capacity(),
            final(self).header_of() == old(self).header_of(),
            final(self).child_at(b) == *final(r),
            forall|c: u8| c != b ==> final(self).child_at(c) == old(self).child_at(c),
            *final(r) != ArtNode::<K, V>::Empty ==> final(self).layout_wf(),
    {
        match self {
            ArtNode::Inner4(n) => n.child_mut(b),
            ArtNode::Inner16(n) => n.child_mut(b),
            ArtNode::Inner48(n) => n.child_mut(b),
            ArtNode::Inner256(n) => n.child_mut(b),
            _ => {
                proof {
                    assert(false);
                }
                self
            },
        }
    }

    /// Adds a child to an inner node that has room and no child for `b`.
    pub fn add_child(&mut self, child: ArtNode<K, V>, b: u8)
        requires
            old(self).is_inner(),
            old(self).layout_wf(),
            old(self).child_at(b) == ArtNode::<K, V>::Empty,
            child != ArtNode::<K, V>::Empty,
            old(self).header_of().num_children < old(self).capacity(),
        ensures
            final(self).is_inner(),
            final(self).layout_wf(),
            final(self).capacity() == old(self).capacity(),
            same_prefix(final(self).header_of(), old(self).header_of()),
            final(self).header_of().num_children == old(self).header_of().num_children + 1,
            final(self).child_at(b) == child,
            forall|c: u8| c != b ==> final(self).child_at(c) == old(self).child_at(c),
    {
        match self {
            ArtNode::Inner4(n) => {
                let ghost o = **n;
                n.add_child(child, b);
                proof {
                    assert forall|c: u8| c != b implies n.child_at(c) == o.child_at(c) by {
                        assert(n.child_spec(c) == o.child_spec(c));
                    }
                }
            },
            ArtNode::Inner16(n) => {
                let ghost o = **n;
                n.add_child(child, b);
                proof {
                    assert forall|c: u8| c != b implies n.child_at(c) == o.child_at(c) by {
                        assert(n.child_spec(c) == o.child_spec(c));
                    }
                }
            },
            ArtNode::Inner48(n) => {
                let ghost o = **n;
                n.add_child(child, b);
                proof {
                    assert forall|c: u8| c != b implies n.child_at(c) == o.child_at(c) by {
                        assert(n.child_spec(c) == o.child_spec(c));
                    }
                }
            },
            ArtNode::Inner256(n) => {
                let ghost o = **n;
                n.add_child(child, b);
                proof {
                    assert forall|c: u8| c != b implies n.child_at(c) == o.child_at(c) by {
                        assert(n.child_spec(c) == o.child_spec(c));
                    }
                }
            },
            _ => {},
        }
    }

    /// Removes the child for byte `b` of an inner node and hands it back.
    pub fn remove_child(&mut self, b: u8) -> (r: ArtNode<K, V>)
        requires
            old(self).is_inner(),
            old(self).layout_wf(),
            old(self).child_at(b) != ArtNode::<K, V>::Empty,
        ensures
            r == old(self).child_at(b),
            final(self).is_inner(),
            final(self).layout_wf(),
            final(self).capacity() == old(self).capacity(),
            same_prefix(final(self).header_of(), old(self).header_of()),
            final(self).header_of().num_children == old(self).header_of().num_children - 1,
            final(self).child_at(b) == ArtNode::<K, V>::Empty,
            forall|c: u8| c != b ==> final(self).child_at(c) == old(self).child_at(c),
    {
        match self {
            ArtNode::Inner4(n) => {
                let ghost o = **n;
                let r = n.remove_child(b);
                proof {
                    assert forall|c: u8| c != b implies n.child_at(c) == o.child_at(c) by {
                        assert(n.child_spec(c) == o.child_spec(c));
                    }
                }
                r
            },
            ArtNode::Inner16(n) => {
                let ghost o = **n;
                let r = n.remove_child(b);
                proof {
                    assert forall|c: u8| c != b implies n.child_at(c) == o.child_at(c) by {
                        assert(n.child_spec(c) == o.child_spec(c));
                    }
                }
                r
            },
            ArtNode::Inner48(n) => {
                let ghost o = **n;
                let r = n.remove_child(b);
                proof {
                    assert forall|c: u8| c != b implies n.child_at(c) == o.child_at(c) by {
                        assert(n.child_spec(c) == o.child_spec(c));
                    }
                }
                r
            },
            ArtNode::Inner256(n) => {
                let ghost o = **n;
                let r = n.remove_child(b);
                proof {
                    assert forall|c: u8| c != b implies n.child_at(c) == o.child_at(c) by {
                        assert(n.child_spec(c) == o.child_spec(c));
                    }
                }
                r
            },
            _ => ArtNode::Empty,
        }
    }

    /// Takes the write lock of an inner node: `false` on success, `true`
    /// when it is locked or obsolete (then nothing changes).
    pub fn write_lock(&mut self) -> (r: bool)
        requires
            old(self).is_inner(),
            old(self).layout_wf(),
        ensures
            final(self).is_inner(),
            final(self).layout_wf(),
            final(self).capacity() == old(self).capacity(),
            final(self).header_of().num_children == old(self).header_of().num_children,
            final(self).header_of().partial == old(self).header_of().partial,
            final(self).header_of().partial_len == old(self).header_of().partial_len,
            final(self).header_of().full_prefix == old(self).header_of().full_prefix,
            forall|c: u8| #[trigger] final(self).child_at(c) == old(self).child_at(c),
            r == !old(self).header_of().is_idle(),
            !r ==> final(self).header_of().is_locked_spec() && !final(self).header_of().is_obsolete_spec(),
    {
        match self {
            ArtNode::Inner4(n) => {
                let ghost o = **n;
                let r = n.write_lock();
                proof {
                    assert forall|c: u8| #[trigger] n.child_at(c) == o.child_at(c) by {
                        assert(n.child_spec(c) == o.child_spec(c));
                    }
                }
                r
            },
            ArtNode::Inner16(n) => {
                let ghost o = **n;
                let r = n.write_lock();
                proof {
                    assert forall|c: u8| #[trigger] n.child_at(c) == o.child_at(c) by {
                        assert(n.child_spec(c) == o.child_spec(c));
                    }
                }
                r
            },
            ArtNode::Inner48(n) => {
                let ghost o = **n;
                let r = n.write_lock();
                proof {
                    assert forall|c: u8| #[trigger] n.child_at(c) == o.child_at(c) by {
                        assert(n.child_spec(c) == o.child_spec(c));
                    }
                }
                r
            },
            ArtNode::Inner256(n) => {
                let ghost o = **n;
                let r = n.write_lock();
                proof {
                    assert forall|c: u8| #[trigger] n.child_at(c) == o.child_at(c) by {
                        assert(n.child_spec(c) == o.child_spec(c));
                    }
                }
                r
            },
            _ => true,
        }
    }

    /// Releases the write lock of an inner node; its version moves on.
    pub fn write_unlock(&mut self)
        requires
            old(self).is_inner(),
            old(self).layout_wf(),
            old(self).header_of().is_locked_spec(),
        ensures
            final(self).is_inner(),
            final(self).layout_wf(),
            final(self).capacity() == old(self).capacity(),
            final(self).header_of().num_children == old(self).header_of().num_children,
            final(self).header_of().partial == old(self).header_of().partial,
            final(self).header_of().partial_len == old(self).header_of().partial_len,
            final(self).header_of().full_prefix == old(self).header_of().full_prefix,
            forall|c: u8| #[trigger] final(self).child_at(c) == old(self).child_at(c),
            !final(self).header_of().is_locked_spec(),
            final(self).header_of().is_obsolete_spec() == old(self).header_of().is_obsolete_spec(),
            final(self).header_of().version == old(self).header_of().version.wrapping_add(2),
    {
        match self {
            ArtNode::Inner4(n) => {
                let ghost o = **n;
                n.write_unlock();
                proof {
                    assert forall|c: u8| #[trigger] n.child_at(c) == o.child_at(c) by {
                        assert(n.child_spec(c) == o.child_spec(c));
                    }
                }
                
            },
            ArtNode::Inner16(n) => {
                let ghost o = **n;
                n.write_unlock();
                proof {
                    assert forall|c: u8| #[trigger] n.child_at(c) == o.child_at(c) by {
                        assert(n.child_spec(c) == o.child_spec(c));
                    }
                }
                
            },
            ArtNode::Inner48(n) => {
                let ghost o = **n;
                n.write_unlock();
                proof {
                    assert forall|c: u8| #[trigger] n.child_at(c) == o.child_at(c) by {
                        assert(n.child_spec(c) == o.child_spec(c));
                    }
                }
                
            },
            ArtNode::Inner256(n) => {
                let ghost o = **n;
                n.write_unlock();
                proof {
                    assert forall|c: u8| #[trigger] n.child_at(c) == o.child_at(c) by {
                        assert(n.child_spec(c) == o.child_spec(c));
                    }
                }
                
            },
            _ => {},
        }
    }

    /// Releases the write lock of an inner node and retires it.
    pub fn write_unlock_obsolete(&mut self)
        requires
            old(self).is_inner(),
            old(self).layout_wf(),
            old(self).header_of().is_locked_spec(),
            !old(self).header_of().is_obsolete_spec(),
        ensures
            final(self).is_inner(),
            final(self).layout_wf(),
            final(self).capacity() == old(self).capacity(),
            final(self).header_of().num_children == old(self).header_of().num_children,
            final(self).header_of().partial == old(self).header_of().partial,
            final(self).header_of().partial_len == old(self).header_of().partial_len,
            final(self).header_of().full_prefix == old(self).header_of().full_prefix,
            forall|c: u8| #[trigger] final(self).child_at(c) == old(self).child_at(c),
            !final(self).header_of().is_locked_spec(),
            final(self).header_of().is_obsolete_spec(),
    {
        match self {
            ArtNode::Inner4(n) => {
                let ghost o = **n;
                n.write_unlock_obsolete();
                proof {
                    assert forall|c: u8| #[trigger] n.child_at(c) == o.child_at(c) by {
                        assert(n.child_spec(c) == o.child_spec(c));
                    }
                }
                
            },
            ArtNode::Inner16(n) => {
                let ghost o = **n;
                n.write_unlock_obsolete();
                proof {
                    assert forall|c: u8| #[trigger] n.child_at(c) == o.child_at(c) by {
                        assert(n.child_spec(c) == o.child_spec(c));
                    }
                }
                
            },
            ArtNode::Inner48(n) => {
                let ghost o = **n;
                n.write_unlock_obsolete();
                proof {
                    assert forall|c: u8| #[trigger] n.child_at(c) == o.child_at(c) by {
                        assert(n.child_spec(c) == o.child_spec(c));
                    }
                }
                
            },
            ArtNode::Inner256(n) => {
                let ghost o = **n;
                n.write_unlock_obsolete();
                proof {
                    assert forall|c: u8| #[trigger] n.child_at(c) == o.child_at(c) by {
                        assert(n.child_spec(c) == o.child_spec(c));
                    }
                }
                
            },
            _ => {},
        }
    }

    /// Replaces the compressed prefix of an inner node.
    pub fn set_prefix(&mut self, partial: Vec<u8>, partial_len: usize, full_prefix: Ghost<Seq<u8>>)
        requires
            old(self).is_inner(),
            old(self).layout_wf(),
        ensures
            final(self).is_inner(),
            final(self).layout_wf(),
            final(self).capacity() == old(self).capacity(),
            final(self).header_of().partial == partial,
            final(self).header_of().partial_len == partial_len,
            final(self).header_of().full_prefix == full_prefix,
            final(self).header_of().version == old(self).header_of().version,
            final(self).header_of().num_children == old(self).header_of().num_children,
            forall|c: u8| final(self).child_at(c) == old(self).child_at(c),
    {
        match self {
            ArtNode::Inner4(n) => {
                let ghost o = **n;
                n.set_prefix(partial, partial_len, full_prefix);
                proof {
                    assert forall|c: u8| n.child_at(c) == o.child_at(c) by {
                        assert(n.child_spec(c) == o.child_spec(c));
                    }
                }
            },
            ArtNode::Inner16(n) => {
                let ghost o = **n;
                n.set_prefix(partial, partial_len, full_prefix);
                proof {
                    assert forall|c: u8| n.child_at(c) == o.child_at(c) by {
                        assert(n.child_spec(c) == o.child_spec(c));
                    }
                }
            },
            ArtNode::Inner48(n) => {
                let ghost o = **n;
                n.set_prefix(partial, partial_len, full_prefix);
                proof {
                    assert forall|c: u8| n.child_at(c) == o.child_at(c) by {
                        assert(n.child_spec(c) == o.child_spec(c));
                    }
                }
            },
            ArtNode::Inner256(n) => {
                let ghost o = **n;
                n.set_prefix(partial, partial_len, full_prefix);
                proof {
                    assert forall|c: u8| n.child_at(c) == o.child_at(c) by {
                        assert(n.child_spec(c) == o.child_spec(c));
                    }
                }
            },
            _ => {},
        }
    }
}

impl<K: Digital, V> ArtNode<K, V> {
    /// The optimistic walk for `key` from `depth`: at an inner node only the
    /// stored prefix bytes are compared, the full key is compared at the leaf.
    pub open spec fn get_spec(self, key: Seq<u8>, depth: int) -> Option<V>
        decreases self,
        via Self::get_spec_decreases
    {
        match self {
            ArtNode::Empty => None,
            ArtNode::Leaf(l) => if l.key.digits_spec() == key { Some(l.value) } else { None },
            _ => {
                let h = self.header_of();
                let pos = depth + h.partial_len;
                if matches_at(key, depth, h.partial@) && pos < key.len() {
                    let c = self.child_at(key[pos]);
                    if c == ArtNode::<K, V>::Empty { None } else { c.get_spec(key, pos + 1) }
                } else {
                    None
                }
            },
        }
    }

    #[via_fn]
    proof fn get_spec_decreases(self, key: Seq<u8>, depth: int) {
        match self {
            ArtNode::Empty => {},
            ArtNode::Leaf(_) => {},
            _ => {
                let h = self.header_of();
                let pos = depth + h.partial_len;
                if matches_at(key, depth, h.partial@) && pos < key.len() {
                    self.lemma_child_decreases(key[pos]);
                }
            },
        }
    }

    /// Well-formedness of the subtree below an edge reached along `path`:
    /// every leaf's key starts with `path` and the prefixes on the way, every
    /// inner node has a consistent layout and header, at least two children,
    /// and is neither locked nor obsolete.
    pub open spec fn wf(self, path: Seq<u8>) -> bool
        decreases self,
    {
        match self {
            ArtNode::Empty => true,
            ArtNode::Leaf(l) => path.is_prefix_of(l.key.digits_spec()),
            _ => {
                let h = self.header_of();
                &&& self.layout_wf()
                &&& h.wf()
                &&& h.is_idle()
                &&& h.num_children >= 2
                &&& forall|b: u8| #![trigger self.child_at(b)]
                    self.child_at(b) != ArtNode::<K, V>::Empty ==> {
                        &&& decreases_to!(self => self.child_at(b))
                        &&& self.child_at(b).wf(path + h.full_prefix@.push(b))
                    }
            },
        }
    }

    /// `wf` of an inner node, but for the state of its own version word.
    pub open spec fn wf_shape(self, path: Seq<u8>) -> bool {
        let h = self.header_of();
        &&& self.is_inner()
        &&& self.layout_wf()
        &&& h.wf()
        &&& h.num_children >= 2
        &&& forall|b: u8| #![trigger self.child_at(b)]
            self.child_at(b) != ArtNode::<K, V>::Empty ==> {
                &&& decreases_to!(self => self.child_at(b))
                &&& self.child_at(b).wf(path + h.full_prefix@.push(b))
            }
    }
}

} // verus!
