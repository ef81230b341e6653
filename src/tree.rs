//! The tree: lookup, insertion and removal over the adaptive nodes.
//!
//! Lookups compare only the stored prefix bytes on the way down and the full
//! key at the leaf. Insertion compares whole prefixes (fetching the bytes that
//! a header does not store from a leaf below), so every leaf stays below the
//! path that its key spells.
use vstd::prelude::*;
use crate::header::{NodeHeader, MAX_PREFIX_LEN, min_len, matches_at};
use crate::key::Digital;
use crate::node::{ArtNode, ArtNodeTrait, Leaf, same_shape};
use crate::node4::Node4;

verus! {

broadcast use vstd::std_specs::vec::group_vec_axioms, vstd::seq::group_seq_axioms, vstd::set::group_set_axioms;

/// The walk below an inner node for a key that follows the node's path,
/// with the whole compressed prefix compared.
pub open spec fn route<K: Digital, V>(node: ArtNode<K, V>, k: Seq<u8>, d: int) -> Option<V> {
    let h = node.header_of();
    let pos = d + h.partial_len;
    if matches_at(k, d, h.full_prefix@) && pos < k.len() {
        let c = node.child_at(k[pos]);
        if c == ArtNode::<K, V>::Empty { None } else { c.get_spec(k, pos + 1) }
    } else {
        None
    }
}

/// A key off the path of a subtree is found nowhere in it.
pub proof fn lemma_off_path<K: Digital, V>(node: ArtNode<K, V>, path: Seq<u8>, k: Seq<u8>)
    requires
        node.wf(path),
        !path.is_prefix_of(k),
    ensures
        node.get_spec(k, path.len() as int) == None::<V>,
    decreases node,
{
    match node {
        ArtNode::Empty => {},
        ArtNode::Leaf(l) => {},
        _ => {
            let d = path.len() as int;
            let h = node.header_of();
            let pos = d + h.partial_len;
            if matches_at(k, d, h.partial@) && pos < k.len() {
                let b = k[pos];
                let c = node.child_at(b);
                if c != ArtNode::<K, V>::Empty {
                    let below = path + h.full_prefix@.push(b);
                    assert(c.wf(below));
                    if below.is_prefix_of(k) {
                        assert(path =~= below.take(path.len() as int));
                        assert(path =~= k.take(path.len() as int));
                    }
                    lemma_off_path(c, below, k);
                }
            }
        },
    }
}

/// Below a well-formed inner node, the optimistic walk of a key on the
/// node's path is the walk that compares the whole prefix.
pub proof fn lemma_route<K: Digital, V>(node: ArtNode<K, V>, path: Seq<u8>, k: Seq<u8>)
    requires
        node.is_inner(),
        node.wf(path),
        path.is_prefix_of(k),
    ensures
        node.get_spec(k, path.len() as int) == route(node, k, path.len() as int),
{
    let d = path.len() as int;
    let h = node.header_of();
    let fp = h.full_prefix@;
    let pos = d + h.partial_len;
    let m = min_len(h.partial_len as int, MAX_PREFIX_LEN as int);
    if matches_at(k, d, fp) {
        assert(k.subrange(d, d + m) =~= k.subrange(d, d + fp.len()).take(m));
        assert(matches_at(k, d, h.partial@));
    } else if matches_at(k, d, h.partial@) && pos < k.len() {
        let b = k[pos];
        let c = node.child_at(b);
        if c != ArtNode::<K, V>::Empty {
            let below = path + fp.push(b);
            assert(c.wf(below));
            if below.is_prefix_of(k) {
                assert(k.subrange(d, d + fp.len()) =~= below.subrange(d, d + fp.len()));
                assert(below.subrange(d, d + fp.len()) =~= fp);
            }
            lemma_off_path(c, below, k);
        }
    }
}

/// Two inner nodes of the same shape answer every walk alike, and are
/// well-formed alike but for their version words.
pub proof fn lemma_same_shape<K: Digital, V>(a: ArtNode<K, V>, b: ArtNode<K, V>, path: Seq<u8>)
    requires
        same_shape(a, b),
        b.layout_wf(),
    ensures
        forall|k: Seq<u8>, d: int| #[trigger] b.get_spec(k, d) == a.get_spec(k, d),
        a.wf_shape(path) ==> b.wf_shape(path),
{
    assert forall|k: Seq<u8>, d: int| #[trigger] b.get_spec(k, d) == a.get_spec(k, d) by {
        let pos = d + a.header_of().partial_len;
        if matches_at(k, d, a.header_of().partial@) && pos < k.len() {
            assert(b.child_at(k[pos]) == a.child_at(k[pos]));
        }
    }
    if a.wf_shape(path) {
        assert forall|c: u8| #[trigger] b.child_at(c) != ArtNode::<K, V>::Empty implies {
            &&& decreases_to!(b => b.child_at(c))
            &&& b.child_at(c).wf(path + b.header_of().full_prefix@.push(c))
        } by {
            b.lemma_child_decreases(c);
            assert(a.child_at(c) == b.child_at(c));
        }
    }
}

/// Some leaf below a non-empty subtree: its key follows the path, and below
/// an inner node also the node's whole prefix and one more byte.
pub proof fn lemma_some_leaf<K: Digital, V>(node: ArtNode<K, V>, path: Seq<u8>) -> (lk: K)
    requires
        node.wf(path),
        node != ArtNode::<K, V>::Empty,
    ensures
        path.is_prefix_of(lk.digits_spec()),
        node.is_inner() ==> (path + node.header_of().full_prefix@).is_prefix_of(lk.digits_spec())
            && lk.digits_spec().len() > path.len() + node.header_of().full_prefix@.len(),
    decreases node,
{
    match node {
        ArtNode::Leaf(l) => l.key,
        _ => {
            node.lemma_some_child();
            let b = choose|b: u8| node.child_at(b) != ArtNode::<K, V>::Empty;
            let c = node.child_at(b);
            let fp = node.header_of().full_prefix@;
            let below = path + fp.push(b);
            let lk = lemma_some_leaf(c, below);
            let ks = lk.digits_spec();
            assert(below.is_prefix_of(ks));
            assert((path + fp) =~= below.take((path.len() + fp.len()) as int));
            assert(path =~= below.take(path.len() as int));
            lk
        },
    }
}

/// Whether two byte strings are equal.
fn bytes_equal(a: &Vec<u8>, b: &Vec<u8>) -> (r: bool)
    ensures
        r == (a@ == b@),
{
    if a.len() != b.len() {
        return false;
    }
    let n = a.len();
    let mut i: usize = 0;
    while i < n
        invariant
            i <= n,
            n == a@.len(),
            n == b@.len(),
            forall|j: int| 0 <= j < i ==> a@[j] == b@[j],
        decreases n - i,
    {
        if a[i] != b[i] {
            return false;
        }
        i += 1;
    }
    assert(a@ =~= b@);
    true
}

/// The optimistic walk for the key bytes `kd` from `depth`.
fn get_rec<'a, K: Digital, V>(node: &'a ArtNode<K, V>, kd: &Vec<u8>, depth: usize, Ghost(path): Ghost<Seq<u8>>) -> (r: Option<&'a V>)
    requires
        node.wf(path),
        path.len() == depth,
        depth <= kd@.len(),
    ensures
        r is Some <==> node.get_spec(kd@, depth as int) is Some,
        r is Some ==> *r->0 == node.get_spec(kd@, depth as int)->0,
    decreases node,
{
    match node {
        ArtNode::Empty => None,
        ArtNode::Leaf(l) => {
            let ld = l.key.digits();
            if bytes_equal(&ld, kd) {
                Some(&l.value)
            } else {
                None
            }
        },
        _ => {
            let h = match node.header() {
                Some(h) => h,
                None => {
                    return None;
                },
            };
            // an optimistic read: take the version, read, then check that
            // the version did not move (in a well-formed tree the node is
            // idle, so neither step asks for a restart)
            let v = match h.read_lock_or_restart() {
                Ok(v) => v,
                Err(_) => {
                    return None;
                },
            };
            if !h.prefix_match(kd, depth) {
                return None;
            }
            let plen = h.partial_len;
            if plen >= kd.len() - depth {
                return None;
            }
            let pos = depth + plen;
            let b = kd[pos];
            let next = node.find_child(b);
            if NodeHeader::read_unlock_or_restart(h.read_version(), v) {
                return None;
            }
            match next {
                None => None,
                Some(c) => {
                    proof {
                        node.lemma_child_decreases(b);
                    }
                    get_rec(c, kd, pos + 1, Ghost(path + h.full_prefix@.push(b)))
                },
            }
        },
    }
}

/// A leaf holding `key` and `value`.
pub open spec fn leaf_of<K, V>(key: K, value: V) -> ArtNode<K, V> {
    ArtNode::Leaf(Box::new(Leaf { key, value }))
}

/// The capacity of the kind that a full node of capacity `cap` grows into.
pub open spec fn grown_capacity(cap: int) -> int {
    if cap == 4 {
        16
    } else if cap == 16 {
        48
    } else {
        256
    }
}

/// The capacity of the kind that a node of capacity `cap` left with `n`
/// children is shrunk into (its own when it is not shrunk).
pub open spec fn shrunk_capacity(cap: int, n: int) -> int {
    if cap == 16 && n <= 3 {
        4
    } else if cap == 48 && n <= 12 {
        16
    } else if cap == 256 && n <= 37 {
        48
    } else {
        cap
    }
}

/// `r` is the node of fan-out four that holds `old_leaf` (key bytes `ld`)
/// and `new_leaf` (key bytes `kd`) below depth `d`: its prefix is what the
/// two keys share from `d` on, and each leaf sits under its first byte past
/// it.
pub open spec fn leaf_split_shape<K, V>(
    r: ArtNode<K, V>,
    old_leaf: ArtNode<K, V>,
    ld: Seq<u8>,
    new_leaf: ArtNode<K, V>,
    kd: Seq<u8>,
    d: int,
) -> bool {
    let i = d + r.header_of().partial_len;
    &&& r is Inner4
    &&& r.header_of().wf()
    &&& r.header_of().num_children == 2
    &&& i < kd.len()
    &&& i < ld.len()
    &&& r.header_of().full_prefix@ == kd.subrange(d, i)
    &&& kd.subrange(d, i) == ld.subrange(d, i)
    &&& kd[i] != ld[i]
    &&& r.child_at(ld[i]) == old_leaf
    &&& r.child_at(kd[i]) == new_leaf
    &&& forall|c: u8| c != ld[i] && c != kd[i] ==> #[trigger] r.child_at(c) == ArtNode::<K, V>::Empty
}

/// `r` is the node of fan-out four that splits the prefix of inner node
/// `old` (at depth `d`) where the key bytes `kd` leave it: its prefix is the
/// matched part; under the prefix byte sits `old` with the rest of its
/// prefix, under the key's byte the new leaf.
pub open spec fn prefix_split_shape<K, V>(r: ArtNode<K, V>, old: ArtNode<K, V>, kd: Seq<u8>, d: int, new_leaf: ArtNode<K, V>) -> bool {
    let h = old.header_of();
    let fp = h.full_prefix@;
    let m = r.header_of().partial_len as int;
    let moved = r.child_at(fp[m]);
    &&& r is Inner4
    &&& r.header_of().wf()
    &&& r.header_of().num_children == 2
    &&& m < h.partial_len
    &&& r.header_of().full_prefix@ == fp.take(m)
    &&& d + m < kd.len()
    &&& kd[d + m] != fp[m]
    &&& r.child_at(kd[d + m]) == new_leaf
    &&& forall|c: u8| c != fp[m] && c != kd[d + m] ==> #[trigger] r.child_at(c) == ArtNode::<K, V>::Empty
    &&& moved.is_inner()
    &&& moved.capacity() == old.capacity()
    &&& moved.header_of().partial_len == h.partial_len - m - 1
    &&& moved.header_of().full_prefix@ == fp.subrange(m + 1, fp.len() as int)
    &&& moved.header_of().num_children == h.num_children
    &&& forall|c: u8| #[trigger] moved.child_at(c) == old.child_at(c)
}

/// What inserting `key` (key bytes `kd`) with `value` makes of the edge
/// `old`, entered at depth `d`: a leaf in an empty slot; the value replaced
/// in the key's own leaf; a split of another leaf; a split of an inner
/// node's prefix; or, below a matching prefix, the same node (grown when it
/// was full and gains a child) with the new leaf under the key's byte or a
/// changed child there.
pub open spec fn insert_shape<K: Digital, V>(old: ArtNode<K, V>, new: ArtNode<K, V>, kd: Seq<u8>, d: int, key: K, value: V) -> bool {
    match old {
        ArtNode::Empty => new == leaf_of(key, value),
        ArtNode::Leaf(l) => if l.key.digits_spec() == kd {
            new == leaf_of(l.key, value)
        } else {
            leaf_split_shape(new, old, l.key.digits_spec(), leaf_of(key, value), kd, d)
        },
        _ => {
            let h = old.header_of();
            let pos = d + h.partial_len;
            if matches_at(kd, d, h.full_prefix@) {
                let b = kd[pos];
                &&& pos < kd.len()
                &&& new.is_inner()
                &&& new.header_of().partial@ == h.partial@
                &&& new.header_of().partial_len == h.partial_len
                &&& new.header_of().full_prefix == h.full_prefix
                &&& forall|c: u8| c != b ==> #[trigger] new.child_at(c) == old.child_at(c)
                &&& if old.child_at(b) == ArtNode::<K, V>::Empty {
                    &&& new.child_at(b) == leaf_of(key, value)
                    &&& new.header_of().num_children == h.num_children + 1
                    &&& new.capacity() == if h.num_children >= old.capacity() {
                        grown_capacity(old.capacity())
                    } else {
                        old.capacity()
                    }
                } else {
                    &&& new.header_of().num_children == h.num_children
                    &&& new.capacity() == old.capacity()
                }
            } else {
                prefix_split_shape(new, old, kd, d, leaf_of(key, value))
            }
        },
    }
}

/// A byte for which `node` has a child; the only one when it has one child.
pub open spec fn sole_child_byte<K, V>(node: ArtNode<K, V>) -> u8 {
    choose|c: u8| node.child_at(c) != ArtNode::<K, V>::Empty
}

/// What replaces an inner node `old` left with the single child `sc` (for
/// byte `sb`): a leaf child moves up as it is; an inner child keeps its
/// kind, count and children, and takes `old`'s prefix, `sb` and its own
/// prefix as its prefix.
pub open spec fn collapse_shape<K, V>(old: ArtNode<K, V>, sb: u8, sc: ArtNode<K, V>, r: ArtNode<K, V>) -> bool {
    if sc is Leaf {
        r == sc
    } else {
        &&& r.is_inner()
        &&& r.capacity() == sc.capacity()
        &&& r.header_of().num_children == sc.header_of().num_children
        &&& r.header_of().full_prefix@ == old.header_of().full_prefix@.push(sb) + sc.header_of().full_prefix@
        &&& r.header_of().partial_len == r.header_of().full_prefix@.len()
        &&& forall|x: u8| #[trigger] r.child_at(x) == sc.child_at(x)
    }
}

/// What removing the key bytes `kd` makes of the inner edge `old`, entered
/// at depth `d`. When the optimistic walk finds the key's leaf right below
/// `old`, that child goes: a node of two children is replaced by its other
/// child (`collapse_shape`), a larger one keeps its prefix, loses one child
/// and is shrunk when it falls under its kind's threshold. Otherwise the
/// node keeps its prefix, count, kind and every child but the one on the
/// key's way.
pub open spec fn remove_shape<K: Digital, V>(old: ArtNode<K, V>, new: ArtNode<K, V>, kd: Seq<u8>, d: int) -> bool {
    let h = old.header_of();
    let pos = d + h.partial_len;
    let b = kd[pos];
    let c = old.child_at(b);
    if matches_at(kd, d, h.partial@) && pos < kd.len() && c is Leaf && c->Leaf_0.key.digits_spec() == kd {
        if h.num_children == 2 {
            let sb = choose|x: u8| x != b && old.child_at(x) != ArtNode::<K, V>::Empty;
            collapse_shape(old, sb, old.child_at(sb), new)
        } else {
            &&& new.is_inner()
            &&& new.header_of().partial@ == h.partial@
            &&& new.header_of().partial_len == h.partial_len
            &&& new.header_of().full_prefix == h.full_prefix
            &&& new.header_of().num_children == h.num_children - 1
            &&& new.child_at(b) == ArtNode::<K, V>::Empty
            &&& forall|x: u8| x != b ==> #[trigger] new.child_at(x) == old.child_at(x)
            &&& new.capacity() == shrunk_capacity(old.capacity(), h.num_children - 1)
        }
    } else {
        &&& new.is_inner()
        &&& new.header_of().partial@ == h.partial@
        &&& new.header_of().partial_len == h.partial_len
        &&& new.header_of().full_prefix == h.full_prefix
        &&& new.header_of().num_children == h.num_children
        &&& new.capacity() == old.capacity()
        &&& forall|x: u8| x != b ==> #[trigger] new.child_at(x) == old.child_at(x)
    }
}

/// The bytes `v[from..to]`.
fn copy_range(v: &Vec<u8>, from: usize, to: usize) -> (r: Vec<u8>)
    requires
        from <= to <= v@.len(),
    ensures
        r@ == v@.subrange(from as int, to as int),
{
    let mut r: Vec<u8> = Vec::new();
    let mut i: usize = from;
    while i < to
        invariant
            from <= i <= to,
            to <= v@.len(),
            r@ == v@.subrange(from as int, i as int),
        decreases to - i,
    {
        r.push(v[i]);
        assert(r@ =~= v@.subrange(from as int, i + 1));
        i += 1;
    }
    r
}

/// The key of some leaf below a non-empty subtree.
fn leaf_below<'a, K: Digital, V>(node: &'a ArtNode<K, V>, Ghost(path): Ghost<Seq<u8>>) -> (r: &'a K)
    requires
        node.wf(path),
        *node != ArtNode::<K, V>::Empty,
    ensures
        path.is_prefix_of(r.digits_spec()),
        node.is_inner() ==> (path + node.header_of().full_prefix@).is_prefix_of(r.digits_spec())
            && r.digits_spec().len() > path.len() + node.header_of().full_prefix@.len(),
    decreases node,
{
    match node {
        ArtNode::Leaf(l) => &l.key,
        _ => {
            let b = node.some_child();
            let ghost fp = node.header_of().full_prefix@;
            let ghost below = path + fp.push(b);
            match node.find_child(b) {
                Some(c) => {
                    proof {
                        node.lemma_child_decreases(b);
                    }
                    let k = leaf_below(c, Ghost(below));
                    proof {
                        assert(below.is_prefix_of(k.digits_spec()));
                        assert((path + fp) =~= below.take((path.len() + fp.len()) as int));
                        assert(path =~= below.take(path.len() as int));
                    }
                    k
                },
                None => {
                    proof {
                        assert(false);
                    }
                    leaf_below(node, Ghost(path))
                },
            }
        },
    }
}

/// The whole compressed prefix of an inner node; bytes that the header does
/// not store are read from a leaf below it.
fn full_prefix_of<K: Digital, V>(node: &ArtNode<K, V>, depth: usize, Ghost(path): Ghost<Seq<u8>>) -> (r: Vec<u8>)
    requires
        node.is_inner(),
        node.wf(path),
        path.len() == depth,
    ensures
        r@ == node.header_of().full_prefix@,
{
    let h = match node.header() {
        Some(h) => h,
        None => {
            return Vec::new();
        },
    };
    let plen = h.partial_len;
    if plen <= MAX_PREFIX_LEN {
        let r = copy_range(&h.partial, 0, h.partial.len());
        assert(r@ =~= h.full_prefix@);
        r
    } else {
        let k = leaf_below(node, Ghost(path));
        let lk = k.digits();
        let n = lk.len();
        assert(n > depth + plen);
        proof {
            assert(lk@.subrange(depth as int, depth + plen) =~= (path + h.full_prefix@).subrange(depth as int, depth + plen));
            assert((path + h.full_prefix@).subrange(depth as int, depth + plen) =~= h.full_prefix@);
        }
        copy_range(&lk, depth, depth + plen)
    }
}

/// A new node of fan-out four holding an old leaf and a new one, with the
/// bytes that their keys share after `depth` as its prefix.
fn split_leaf<K: Digital, V>(lkey: K, lval: V, key: K, kd: &Vec<u8>, depth: usize, value: V) -> (r: ArtNode<K, V>)
    requires
        kd@ == key.digits_spec(),
        depth <= kd@.len(),
        kd@.take(depth as int).is_prefix_of(lkey.digits_spec()),
        lkey.digits_spec() != kd@,
    ensures
        r.wf(kd@.take(depth as int)),
        r.is_inner(),
        forall|k2: Seq<u8>| #[trigger] r.get_spec(k2, depth as int) == if k2 == kd@ {
            Some(value)
        } else if k2 == lkey.digits_spec() {
            Some(lval)
        } else {
            None
        },
        leaf_split_shape(r, leaf_of(lkey, lval), lkey.digits_spec(), leaf_of(key, value), kd@, depth as int),
{
    let ld = lkey.digits();
    let mut i: usize = depth;
    while i < ld.len() && i < kd.len() && ld[i] == kd[i]
        invariant
            depth <= i,
            i <= ld@.len(),
            i <= kd@.len(),
            ld@.take(i as int) =~= kd@.take(i as int),
        decreases ld@.len() - i,
    {
        assert(ld@.take(i + 1) =~= kd@.take(i + 1));
        i += 1;
    }
    if i >= ld.len() || i >= kd.len() {
        proof {
            if i >= ld@.len() {
                assert(ld@.is_prefix_of(kd@));
                K::lemma_prefix_free(&lkey, &key);
            } else {
                assert(kd@.is_prefix_of(ld@));
                K::lemma_prefix_free(&key, &lkey);
            }
        }
        return ArtNode::Empty;
    }
    let plen = i - depth;
    let stored = if plen < MAX_PREFIX_LEN { plen } else { MAX_PREFIX_LEN };
    let partial = copy_range(kd, depth, depth + stored);
    let ghost fp = kd@.subrange(depth as int, i as int);
    proof {
        assert(partial@ =~= fp.take(min_len(plen as int, MAX_PREFIX_LEN as int)));
    }
    let header = NodeHeader::with_prefix(partial, plen, Ghost(fp));
    let mut n: Node4<K, V> = Node4::new(header);
    let lb = ld[i];
    let kb = kd[i];
    let old_leaf = ArtNode::Leaf(Box::new(Leaf { key: lkey, value: lval }));
    let new_leaf = ArtNode::Leaf(Box::new(Leaf { key, value }));
    let ghost ol = old_leaf;
    let ghost nl = new_leaf;
    n.add_child(old_leaf, lb);
    n.add_child(new_leaf, kb);
    let r = n.into_node();
    proof {
        let path = kd@.take(depth as int);
        assert(r.child_at(lb) == ol) by {
            assert(n.child_spec(lb) == ol);
        }
        assert(r.child_at(kb) == nl) by {
            assert(n.child_spec(kb) == nl);
        }
        assert forall|c: u8| c != lb && c != kb implies r.child_at(c) == ArtNode::<K, V>::Empty by {
            assert(n.child_spec(c) == ArtNode::<K, V>::Empty);
        }
        assert(path + fp =~= kd@.take(i as int));
        assert((path + fp).push(lb) =~= ld@.take(i + 1));
        assert((path + fp).push(kb) =~= kd@.take(i + 1));
        assert(path + fp.push(lb) =~= (path + fp).push(lb));
        assert(path + fp.push(kb) =~= (path + fp).push(kb));
        assert forall|c: u8| #[trigger] r.child_at(c) != ArtNode::<K, V>::Empty implies {
            &&& decreases_to!(r => r.child_at(c))
            &&& r.child_at(c).wf(path + r.header_of().full_prefix@.push(c))
        } by {
            r.lemma_child_decreases(c);
        }
        NodeHeader::lemma_version_zero_idle();
        assert(r.wf(path));
        assert(kd@.subrange(depth as int, i as int) =~= ld@.subrange(depth as int, i as int)) by {
            assert(kd@.subrange(depth as int, i as int) =~= kd@.take(i as int).subrange(depth as int, i as int));
            assert(ld@.subrange(depth as int, i as int) =~= ld@.take(i as int).subrange(depth as int, i as int));
        }
        assert(ol == leaf_of(lkey, lval));
        assert(nl == leaf_of(key, value));
        assert(r.header_of().partial_len == plen);
        assert forall|k2: Seq<u8>| #[trigger] r.get_spec(k2, depth as int) == if k2 == kd@ {
            Some(value)
        } else if k2 == ld@ {
            Some(lval)
        } else {
            None
        } by {
            if path.is_prefix_of(k2) {
                lemma_route(r, path, k2);
                if k2 == kd@ {
                    assert(k2.subrange(depth as int, i as int) =~= fp);
                } else if k2 == ld@ {
                    assert(k2.subrange(depth as int, i as int) =~= ld@.take(i as int).subrange(depth as int, i as int));
                    assert(kd@.take(i as int).subrange(depth as int, i as int) =~= fp);
                }
            } else {
                lemma_off_path(r, path, k2);
                assert(path.is_prefix_of(kd@));
            }
        }
    }
    r
}

/// The walk of any key below the node that `split_prefix` builds.
proof fn lemma_split_prefix_walk<K: Digital, V>(
    r: ArtNode<K, V>,
    old_node: ArtNode<K, V>,
    moved: ArtNode<K, V>,
    nl: ArtNode<K, V>,
    path: Seq<u8>,
    kd: Seq<u8>,
    value: V,
    m: int,
    k2: Seq<u8>,
)
    requires
        r.is_inner(),
        r.wf(path),
        old_node.is_inner(),
        old_node.wf(path),
        moved.is_inner(),
        0 <= m < old_node.header_of().full_prefix@.len(),
        r.header_of().full_prefix@ == old_node.header_of().full_prefix@.take(m),
        r.header_of().partial_len == m,
        moved.wf(path + old_node.header_of().full_prefix@.take(m).push(old_node.header_of().full_prefix@[m])),
        moved.header_of().full_prefix@ == old_node.header_of().full_prefix@.subrange(m + 1, old_node.header_of().full_prefix@.len() as int),
        moved.header_of().partial_len == old_node.header_of().partial_len - m - 1,
        old_node.header_of().partial_len == old_node.header_of().full_prefix@.len(),
        forall|c: u8| moved.child_at(c) == old_node.child_at(c),
        path.is_prefix_of(kd),
        path.len() + m < kd.len(),
        matches_at(kd, path.len() as int, old_node.header_of().full_prefix@.take(m)),
        kd[path.len() + m] != old_node.header_of().full_prefix@[m],
        r.child_at(old_node.header_of().full_prefix@[m]) == moved,
        r.child_at(kd[path.len() + m]) == nl,
        forall|c: u8| c != old_node.header_of().full_prefix@[m] && c != kd[path.len() + m] ==> r.child_at(c) == ArtNode::<K, V>::Empty,
        forall|x: int| #[trigger] nl.get_spec(k2, x) == if k2 == kd { Some(value) } else { None::<V> },
    ensures
        r.get_spec(k2, path.len() as int) == if k2 == kd {
            Some(value)
        } else {
            old_node.get_spec(k2, path.len() as int)
        },
{
    let d = path.len() as int;
    let fp = old_node.header_of().full_prefix@;
    let plen = fp.len() as int;
    let fp1 = fp.take(m);
    let fp2 = fp.subrange(m + 1, plen);
    let nb = fp[m];
    let path2 = path + fp1.push(nb);
    if path.is_prefix_of(k2) {
        lemma_route(r, path, k2);
        lemma_route(old_node, path, k2);
        if k2 == kd {
        } else if matches_at(k2, d, fp1) && d + m < k2.len() && k2[d + m] == nb {
            assert(path2.is_prefix_of(k2)) by {
                assert(k2.take(d + m + 1) =~= k2.take(d) + k2.subrange(d, d + m).push(k2[d + m]));
            }
            lemma_route(moved, path2, k2);
            if matches_at(k2, d + m + 1, fp2) {
                assert(k2.subrange(d, d + plen) =~= k2.subrange(d, d + m) + seq![nb] + k2.subrange(d + m + 1, d + plen));
                assert(fp =~= fp1 + seq![nb] + fp2);
            }
            if matches_at(k2, d, fp) {
                assert(k2.subrange(d + m + 1, d + plen) =~= k2.subrange(d, d + plen).subrange(m + 1, plen));
            }
        } else {
            if matches_at(k2, d, fp) {
                assert(k2.subrange(d, d + m) =~= k2.subrange(d, d + plen).take(m));
                assert(k2[d + m] == k2.subrange(d, d + plen)[m]);
            }
        }
    } else {
        lemma_off_path(r, path, k2);
        lemma_off_path(old_node, path, k2);
    }
}

/// Splits the compressed prefix of an inner node where the new key leaves
/// it: a new node of fan-out four takes the matched part as its prefix, with
/// the old node (its prefix shortened) and a new leaf as children.
fn split_prefix<K: Digital, V>(
    node: ArtNode<K, V>,
    full: &Vec<u8>,
    m: usize,
    key: K,
    kd: &Vec<u8>,
    depth: usize,
    value: V,
    Ghost(path): Ghost<Seq<u8>>,
) -> (r: ArtNode<K, V>)
    requires
        node.is_inner(),
        node.wf(path),
        path == kd@.take(depth as int),
        kd@ == key.digits_spec(),
        full@ == node.header_of().full_prefix@,
        m < full@.len(),
        depth + m < kd.len(),
        kd@[depth + m] != full@[m as int],
        forall|j: int| 0 <= j < m ==> kd@[depth + j] == full@[j],
    ensures
        r.wf(path),
        r.is_inner(),
        forall|k2: Seq<u8>| #[trigger] r.get_spec(k2, depth as int) == if k2 == kd@ {
            Some(value)
        } else {
            node.get_spec(k2, depth as int)
        },
        prefix_split_shape(r, node, kd@, depth as int, leaf_of(key, value)),
{
    let ghost old_node = node;
    let ghost fp = full@;
    let plen = full.len();
    let rest = plen - m - 1;
    let rest_stored = if rest < MAX_PREFIX_LEN { rest } else { MAX_PREFIX_LEN };
    let partial2 = copy_range(full, m + 1, m + 1 + rest_stored);
    let ghost fp2 = fp.subrange(m + 1, plen as int);
    let mut node = node;
    node.write_lock();
    node.set_prefix(partial2, rest, Ghost(fp2));
    node.write_unlock();
    let stored = if m < MAX_PREFIX_LEN { m } else { MAX_PREFIX_LEN };
    let partial1 = copy_range(full, 0, stored);
    let ghost fp1 = fp.take(m as int);
    proof {
        assert(partial1@ =~= fp1.take(min_len(m as int, MAX_PREFIX_LEN as int)));
    }
    let header = NodeHeader::with_prefix(partial1, m, Ghost(fp1));
    let mut n: Node4<K, V> = Node4::new(header);
    let nb = full[m];
    let kb = kd[depth + m];
    let ghost moved = node;
    let new_leaf = ArtNode::Leaf(Box::new(Leaf { key, value }));
    let ghost nl = new_leaf;
    let ghost path2 = path + fp1.push(nb);
    proof {
        // the shortened node is well-formed one level further down
        assert(path2 + fp2 =~= path + fp);
        assert(partial2@ =~= fp2.take(min_len(rest as int, MAX_PREFIX_LEN as int)));
        assert forall|c: u8| #[trigger] moved.child_at(c) != ArtNode::<K, V>::Empty implies {
            &&& decreases_to!(moved => moved.child_at(c))
            &&& moved.child_at(c).wf(path2 + moved.header_of().full_prefix@.push(c))
        } by {
            moved.lemma_child_decreases(c);
            assert(moved.child_at(c) == old_node.child_at(c));
            assert(path2 + fp2.push(c) =~= path + fp.push(c));
        }
        assert(moved.wf(path2));
    }
    n.add_child(node, nb);
    n.add_child(new_leaf, kb);
    let r = n.into_node();
    proof {
        assert(r.child_at(nb) == moved) by {
            assert(n.child_spec(nb) == moved);
        }
        assert(r.child_at(kb) == nl) by {
            assert(n.child_spec(kb) == nl);
        }
        assert forall|c: u8| c != nb && c != kb implies r.child_at(c) == ArtNode::<K, V>::Empty by {
            assert(n.child_spec(c) == ArtNode::<K, V>::Empty);
        }
        assert(path + fp1 =~= kd@.take(depth + m));
        assert(kd@.subrange(depth as int, depth + m) =~= fp1);
        assert(path.is_prefix_of(kd@));
        assert(path + fp1.push(kb) =~= kd@.take(depth + m + 1));
        assert forall|c: u8| #[trigger] r.child_at(c) != ArtNode::<K, V>::Empty implies {
            &&& decreases_to!(r => r.child_at(c))
            &&& r.child_at(c).wf(path + r.header_of().full_prefix@.push(c))
        } by {
            r.lemma_child_decreases(c);
        }
        NodeHeader::lemma_version_zero_idle();
        assert(r.wf(path));
        assert forall|k2: Seq<u8>| #[trigger] r.get_spec(k2, depth as int) == if k2 == kd@ {
            Some(value)
        } else {
            old_node.get_spec(k2, depth as int)
        } by {
            lemma_split_prefix_walk(r, old_node, moved, nl, path, kd@, value, m as int, k2);
        }
    }
    r
}

/// Inserts below the edge `node`, reached along the first `depth` bytes of
/// the key, which every leaf below it shares.
fn insert_rec<K: Digital, V>(node: &mut ArtNode<K, V>, key: K, kd: &Vec<u8>, depth: usize, value: V) -> (r: Option<V>)
    requires
        old(node).wf(kd@.take(depth as int)),
        depth <= kd@.len(),
        kd@ == key.digits_spec(),
    ensures
        final(node).wf(kd@.take(depth as int)),
        *final(node) != ArtNode::<K, V>::Empty,
        r == old(node).get_spec(kd@, depth as int),
        forall|k2: Seq<u8>| #[trigger] final(node).get_spec(k2, depth as int) == if k2 == kd@ {
            Some(value)
        } else {
            old(node).get_spec(k2, depth as int)
        },
        insert_shape(*old(node), *final(node), kd@, depth as int, key, value),
    decreases *old(node),
{
    let ghost path = kd@.take(depth as int);
    let ghost old_node = *node;
    if node.is_empty() {
        *node = ArtNode::Leaf(Box::new(Leaf { key, value }));
        proof {
            assert(path.is_prefix_of(kd@));
        }
        return None;
    }
    let mut cur: ArtNode<K, V> = ArtNode::Empty;
    std::mem::swap(node, &mut cur);
    match cur {
        ArtNode::Leaf(l) => {
            let Leaf { key: lkey, value: lval } = *l;
            let ld = lkey.digits();
            if bytes_equal(&ld, kd) {
                *node = ArtNode::Leaf(Box::new(Leaf { key: lkey, value }));
                proof {
                    assert(path.is_prefix_of(kd@));
                }
                Some(lval)
            } else {
                *node = split_leaf(lkey, lval, key, kd, depth, value);
                None
            }
        },
        mut cur => {
            let full = full_prefix_of(&cur, depth, Ghost(path));
            let plen = full.len();
            let ghost fp = full@;
            let ghost lk = lemma_some_leaf(cur, path);
            let mut m: usize = 0;
            while m < plen && m < kd.len() - depth && kd[depth + m] == full[m]
                invariant
                    m <= plen,
                    plen == full@.len(),
                    depth <= kd@.len(),
                    forall|j: int| 0 <= j < m ==> kd@[depth + j] == full@[j],
                decreases plen - m,
            {
                m += 1;
            }
            proof {
                // the key cannot end inside the prefix or right after it: it
                // would be a strict prefix of the key of a leaf below
                let ks = lk.digits_spec();
                if depth + m >= kd@.len() || (m == plen && depth + plen >= kd@.len()) {
                    assert(kd@.is_prefix_of(ks)) by {
                        assert forall|j: int| 0 <= j < kd@.len() implies kd@[j] == ks[j] by {
                            if j < depth {
                                assert(kd@[j] == path[j]);
                            } else {
                                assert(ks[j] == (path + fp)[j]);
                            }
                        }
                    }
                    K::lemma_prefix_free(&key, &lk);
                }
            }
            if m < plen {
                *node = split_prefix(cur, &full, m, key, kd, depth, value, Ghost(path));
                proof {
                    lemma_route(old_node, path, kd@);
                    if matches_at(kd@, depth as int, fp) {
                        assert(kd@.subrange(depth as int, depth + plen)[m as int] == kd@[depth + m]);
                    }
                }
                return None;
            }
            let pos = depth + plen;
            let b = kd[pos];
            let ghost below = path + fp.push(b);
            proof {
                assert(kd@.subrange(depth as int, pos as int) =~= fp);
                assert(below =~= kd@.take(pos + 1));
                lemma_route(old_node, path, kd@);
            }
            if cur.find_child(b).is_some() {
                let ghost before = cur;
                let r;
                {
                    let c = cur.child_mut(b);
                    proof {
                        before.lemma_child_decreases(b);
                    }
                    r = insert_rec(c, key, kd, pos + 1, value);
                }
                proof {
                    assert forall|c: u8| #[trigger] cur.child_at(c) != ArtNode::<K, V>::Empty implies {
                        &&& decreases_to!(cur => cur.child_at(c))
                        &&& cur.child_at(c).wf(path + cur.header_of().full_prefix@.push(c))
                    } by {
                        cur.lemma_child_decreases(c);
                    }
                    assert(cur.wf(path));
                    assert forall|k2: Seq<u8>| #[trigger] cur.get_spec(k2, depth as int) == if k2 == kd@ {
                        Some(value)
                    } else {
                        before.get_spec(k2, depth as int)
                    } by {
                        if path.is_prefix_of(k2) {
                            lemma_route(cur, path, k2);
                            lemma_route(before, path, k2);
                        } else {
                            lemma_off_path(cur, path, k2);
                            lemma_off_path(before, path, k2);
                            assert(path.is_prefix_of(kd@));
                        }
                    }
                }
                *node = cur;
                r
            } else {
                let ghost before = cur;
                // the write step: lock the node, add the leaf (first moving
                // the children to a larger node when this one is full, and
                // retiring this one), unlock
                let full = cur.is_full();
                cur.write_lock();
                if full {
                    proof {
                        if cur is Inner256 {
                            cur.lemma_full_256(b);
                        }
                    }
                    cur.write_unlock_obsolete();
                    let ghost retired = cur;
                    cur = cur.grow();
                    proof {
                        assert(same_shape(before, cur)) by {
                            assert forall|c: u8| #[trigger] before.child_at(c) == cur.child_at(c) by {
                                assert(retired.child_at(c) == before.child_at(c));
                                assert(retired.child_at(c) == cur.child_at(c));
                            }
                        }
                        lemma_same_shape(before, cur, path);
                    }
                }
                let ghost grown = cur;
                proof {
                    assert forall|c: u8| #[trigger] grown.child_at(c) == before.child_at(c) by {}
                }
                let new_leaf = ArtNode::Leaf(Box::new(Leaf { key, value }));
                let ghost nl = new_leaf;
                cur.add_child(new_leaf, b);
                let ghost added = cur;
                if !full {
                    cur.write_unlock();
                }
                proof {
                    assert forall|c: u8| #[trigger] cur.child_at(c) == added.child_at(c) by {}
                    assert(nl.wf(below)) by {
                        assert(below.is_prefix_of(kd@));
                    }
                    assert forall|c: u8| #[trigger] cur.child_at(c) != ArtNode::<K, V>::Empty implies {
                        &&& decreases_to!(cur => cur.child_at(c))
                        &&& cur.child_at(c).wf(path + cur.header_of().full_prefix@.push(c))
                    } by {
                        cur.lemma_child_decreases(c);
                        assert(cur.child_at(c) == added.child_at(c));
                        if c != b {
                            assert(grown.child_at(c) == before.child_at(c));
                        }
                    }
                    NodeHeader::lemma_version_zero_idle();
                    assert(cur.wf(path));
                    assert forall|k2: Seq<u8>| #[trigger] cur.get_spec(k2, depth as int) == if k2 == kd@ {
                        Some(value)
                    } else {
                        before.get_spec(k2, depth as int)
                    } by {
                        if path.is_prefix_of(k2) {
                            lemma_route(cur, path, k2);
                            lemma_route(before, path, k2);
                            if matches_at(k2, depth as int, fp) && pos < k2.len() {
                                assert(cur.child_at(k2[pos as int]) == added.child_at(k2[pos as int]));
                                if k2[pos as int] != b {
                                    assert(grown.child_at(k2[pos as int]) == before.child_at(k2[pos as int]));
                                }
                            }
                        } else {
                            lemma_off_path(cur, path, k2);
                            lemma_off_path(before, path, k2);
                            assert(path.is_prefix_of(kd@));
                        }
                    }
                }
                *node = cur;
                None
            }
        },
    }
}

/// A copy of the stored prefix bytes of an inner node, with the prefix's
/// length.
fn stored_prefix<K, V>(node: &ArtNode<K, V>) -> (r: (Vec<u8>, usize))
    requires
        node.is_inner(),
    ensures
        r.0@ == node.header_of().partial@,
        r.1 == node.header_of().partial_len,
{
    match node.header() {
        Some(h) => {
            let p = copy_range(&h.partial, 0, h.partial.len());
            assert(p@ =~= h.partial@);
            (p, h.partial_len)
        },
        None => (Vec::new(), 0),
    }
}

/// The stored part of the prefix `fp`, then `sb`, then `fc`, from the
/// stored parts of `fp` and `fc`.
fn join_prefix(partial: &Vec<u8>, sb: u8, cpartial: &Vec<u8>, Ghost(fp): Ghost<Seq<u8>>, Ghost(fc): Ghost<Seq<u8>>) -> (r: Vec<u8>)
    requires
        partial@ == fp.take(min_len(fp.len() as int, MAX_PREFIX_LEN as int)),
        cpartial@ == fc.take(min_len(fc.len() as int, MAX_PREFIX_LEN as int)),
    ensures
        r@ == (fp.push(sb) + fc).take(min_len((fp.len() + 1 + fc.len()) as int, MAX_PREFIX_LEN as int)),
{
    let ghost nfp = fp.push(sb) + fc;
    let mut np: Vec<u8> = Vec::new();
    let mut i: usize = 0;
    while i < partial.len() && np.len() < MAX_PREFIX_LEN
        invariant
            i <= partial@.len(),
            np@.len() == i,
            i <= MAX_PREFIX_LEN,
            np@ == nfp.take(i as int),
            nfp == fp.push(sb) + fc,
            partial@ == fp.take(min_len(fp.len() as int, MAX_PREFIX_LEN as int)),
        decreases partial@.len() - i,
    {
        assert(partial@[i as int] == fp[i as int]);
        assert(nfp[i as int] == fp[i as int]);
        np.push(partial[i]);
        i += 1;
        assert(np@ =~= nfp.take(i as int));
    }
    if np.len() < MAX_PREFIX_LEN {
        assert(i == fp.len());
        assert(nfp[i as int] == sb);
        np.push(sb);
        assert(np@ =~= nfp.take(np@.len() as int));
        let mut j: usize = 0;
        while j < cpartial.len() && np.len() < MAX_PREFIX_LEN
            invariant
                j <= cpartial@.len(),
                np@.len() == fp.len() + 1 + j,
                np@.len() <= MAX_PREFIX_LEN,
                np@ == nfp.take(np@.len() as int),
                nfp == fp.push(sb) + fc,
                cpartial@ == fc.take(min_len(fc.len() as int, MAX_PREFIX_LEN as int)),
            decreases cpartial@.len() - j,
        {
            assert(cpartial@[j as int] == fc[j as int]);
            assert(nfp[fp.len() + 1 + j] == fc[j as int]);
            np.push(cpartial[j]);
            j += 1;
            assert(np@ =~= nfp.take(np@.len() as int));
        }
    }
    np
}

/// The walk below a node that took the place of its parent's only child.
proof fn lemma_collapse_walk<K: Digital, V>(
    before: ArtNode<K, V>,
    old_inner: ArtNode<K, V>,
    inner: ArtNode<K, V>,
    path: Seq<u8>,
    sb: u8,
    k2: Seq<u8>,
)
    requires
        before.is_inner(),
        before.header_of().wf(),
        forall|c: u8| c != sb ==> #[trigger] before.child_at(c) == ArtNode::<K, V>::Empty,
        before.child_at(sb) == old_inner,
        old_inner.is_inner(),
        old_inner.wf(path + before.header_of().full_prefix@.push(sb)),
        inner.is_inner(),
        inner.wf(path),
        inner.header_of().full_prefix@ == before.header_of().full_prefix@.push(sb) + old_inner.header_of().full_prefix@,
        inner.header_of().partial_len == inner.header_of().full_prefix@.len(),
        forall|c: u8| #[trigger] inner.child_at(c) == old_inner.child_at(c),
        path.is_prefix_of(k2),
    ensures
        inner.get_spec(k2, path.len() as int) == route(before, k2, path.len() as int),
{
    let d = path.len() as int;
    let fp = before.header_of().full_prefix@;
    let fc = old_inner.header_of().full_prefix@;
    let nfp = inner.header_of().full_prefix@;
    let plen = fp.len() as int;
    let new_len = nfp.len() as int;
    let below = path + fp.push(sb);
    lemma_route(inner, path, k2);
    if matches_at(k2, d, fp) && d + plen < k2.len() && k2[d + plen] == sb {
        assert(below.is_prefix_of(k2)) by {
            assert(k2.take(d + plen + 1) =~= k2.take(d) + k2.subrange(d, d + plen).push(k2[d + plen]));
        }
        lemma_route(old_inner, below, k2);
        if matches_at(k2, d + plen + 1, fc) {
            assert(k2.subrange(d, d + new_len) =~= k2.subrange(d, d + plen) + seq![sb] + k2.subrange(d + plen + 1, d + new_len));
            assert(nfp =~= fp + seq![sb] + fc);
        }
        if matches_at(k2, d, nfp) {
            assert(k2.subrange(d + plen + 1, d + new_len) =~= k2.subrange(d, d + new_len).subrange(plen + 1, new_len));
            assert(nfp.subrange(plen + 1, new_len) =~= fc);
        }
    } else {
        if matches_at(k2, d, nfp) {
            assert(k2.subrange(d, d + plen) =~= k2.subrange(d, d + new_len).take(plen));
            assert(k2[d + plen] == k2.subrange(d, d + new_len)[plen]);
            assert(nfp.take(plen) =~= fp);
            assert(nfp[plen] == sb);
        }
    }
}

/// Replaces an inner node that has one child left by that child: a leaf
/// moves up as it is, an inner child takes the node's prefix, the byte that
/// led to it, and its own prefix as its new prefix.
fn collapse<K: Digital, V>(cur: ArtNode<K, V>, depth: usize, Ghost(path): Ghost<Seq<u8>>) -> (r: ArtNode<K, V>)
    requires
        cur.is_inner(),
        cur.layout_wf(),
        cur.header_of().wf(),
        cur.header_of().num_children == 1,
        path.len() == depth,
        forall|c: u8| #[trigger] cur.child_at(c) != ArtNode::<K, V>::Empty ==> {
            &&& decreases_to!(cur => cur.child_at(c))
            &&& cur.child_at(c).wf(path + cur.header_of().full_prefix@.push(c))
        },
    ensures
        r.wf(path),
        r != ArtNode::<K, V>::Empty,
        forall|k2: Seq<u8>| path.is_prefix_of(k2) ==> #[trigger] r.get_spec(k2, depth as int) == route(cur, k2, depth as int),
        forall|c: u8| cur.child_at(c) != ArtNode::<K, V>::Empty ==> c == sole_child_byte(cur),
        collapse_shape(cur, sole_child_byte(cur), cur.child_at(sole_child_byte(cur)), r),
{
    let ghost before = cur;
    let ghost fp = cur.header_of().full_prefix@;
    let mut cur = cur;
    let sb = cur.some_child();
    let ghost below = path + fp.push(sb);
    let (partial, plen) = stored_prefix(&cur);
    let child = cur.remove_child(sb);
    proof {
        // no other byte had a child: none is left after removing this one
        cur.lemma_no_children();
        assert forall|c: u8| c != sb implies #[trigger] before.child_at(c) == ArtNode::<K, V>::Empty by {
            assert(cur.child_at(c) == ArtNode::<K, V>::Empty);
        }
        assert(sole_child_byte(before) == sb);
    }
    match child {
        ArtNode::Leaf(l) => {
            let r = ArtNode::Leaf(l);
            proof {
                assert(path.is_prefix_of(below));
                assert forall|k2: Seq<u8>| path.is_prefix_of(k2) implies #[trigger] r.get_spec(k2, depth as int) == route(before, k2, depth as int) by {
                    let ks = r->Leaf_0.key.digits_spec();
                    if k2 == ks {
                        assert(k2.subrange(depth as int, depth + fp.len()) =~= below.subrange(depth as int, depth + fp.len()));
                        assert(below.subrange(depth as int, depth + fp.len()) =~= fp);
                        assert(k2[depth + fp.len()] == below[depth + fp.len()]);
                    }
                }
            }
            r
        },
        mut inner => {
            let lk = leaf_below(&inner, Ghost(below));
            let lkd = lk.digits();
            let ghost fc = inner.header_of().full_prefix@;
            let (cpartial, cplen) = stored_prefix(&inner);
            let ln = lkd.len();
            proof {
                assert(lkd@.len() > below.len() + fc.len());
                assert(plen + 1 + cplen < ln);
            }
            let new_len = plen + 1 + cplen;
            let ghost nfp = fp.push(sb) + fc;
            let np = join_prefix(&partial, sb, &cpartial, Ghost(fp), Ghost(fc));
            let ghost old_inner = inner;
            inner.write_lock();
            inner.set_prefix(np, new_len, Ghost(nfp));
            inner.write_unlock();
            proof {
                assert(path + nfp =~= below + fc);
                assert forall|c: u8| #[trigger] inner.child_at(c) != ArtNode::<K, V>::Empty implies {
                    &&& decreases_to!(inner => inner.child_at(c))
                    &&& inner.child_at(c).wf(path + inner.header_of().full_prefix@.push(c))
                } by {
                    inner.lemma_child_decreases(c);
                    assert(old_inner.child_at(c) == inner.child_at(c));
                    assert(path + nfp.push(c) =~= below + fc.push(c));
                }
                assert(inner.wf(path));
                assert forall|k2: Seq<u8>| path.is_prefix_of(k2) implies #[trigger] inner.get_spec(k2, depth as int) == route(before, k2, depth as int) by {
                    lemma_collapse_walk(before, old_inner, inner, path, sb, k2);
                }
            }
            inner
        },
    }
}

/// What a removal finds under the byte it follows.
enum Found {
    Nothing,
    SameLeaf,
    OtherLeaf,
    Inner,
}

/// Removes the leaf for byte `b` of an inner node reached along `path`,
/// whose key bytes are `kd`, and reshapes the node: a node left with one
/// child is replaced by it, one under its kind's threshold is shrunk.
#[verifier::rlimit(30)]
fn remove_leaf_child<K: Digital, V>(node: &mut ArtNode<K, V>, b: u8, kd: &Vec<u8>, depth: usize, Ghost(path): Ghost<Seq<u8>>) -> (r: Option<V>)
    requires
        old(node).is_inner(),
        old(node).wf(path),
        path.len() == depth,
        depth <= kd@.len(),
        matches_at(kd@, depth as int, old(node).header_of().partial@),
        depth + old(node).header_of().partial_len < kd@.len(),
        b == kd@[depth + old(node).header_of().partial_len],
        old(node).child_at(b) is Leaf,
        old(node).child_at(b)->Leaf_0.key.digits_spec() == kd@,
    ensures
        final(node).wf(path),
        *final(node) != ArtNode::<K, V>::Empty,
        r == old(node).get_spec(kd@, depth as int),
        forall|k2: Seq<u8>| #[trigger] final(node).get_spec(k2, depth as int) == if k2 == kd@ {
            None
        } else {
            old(node).get_spec(k2, depth as int)
        },
        remove_shape(*old(node), *final(node), kd@, depth as int),
{
    let ghost before = *node;
    let ghost fp = before.header_of().full_prefix@;
    let ghost pos = depth + before.header_of().partial_len;
    // the write step: lock the node, remove the leaf, then either
    // unlock it, or retire it in favour of a smaller node or of its
    // only remaining child
    node.write_lock();
    let removed = node.remove_child(b);
    let r = match removed {
        ArtNode::Leaf(l) => {
            let Leaf { key: _, value } = *l;
            Some(value)
        },
        _ => None,
    };
    proof {
        let leaf = before.child_at(b);
        assert(leaf.get_spec(kd@, pos + 1) == Some(leaf->Leaf_0.value));
        assert(before.get_spec(kd@, depth as int) == leaf.get_spec(kd@, pos + 1));
    }
    let ghost after = *node;
    let mut cur: ArtNode<K, V> = ArtNode::Empty;
    std::mem::swap(node, &mut cur);
    let n = match cur.header() {
        Some(h) => h.num_children,
        None => 0,
    };
    proof {
        assert forall|c: u8| #[trigger] after.child_at(c) != ArtNode::<K, V>::Empty implies {
            &&& decreases_to!(after => after.child_at(c))
            &&& after.child_at(c).wf(path + after.header_of().full_prefix@.push(c))
        } by {
            after.lemma_child_decreases(c);
        }
        assert forall|k2: Seq<u8>| path.is_prefix_of(k2) implies route(after, k2, depth as int) == if k2 == kd@ {
            None
        } else {
            route(before, k2, depth as int)
        } by {
            let d = depth as int;
            if matches_at(k2, d, fp) && pos < k2.len() && k2[pos as int] == b && k2 != kd@ {
                assert(before.child_at(b).get_spec(k2, pos + 1) == None::<V>);
            }
        }
    }
    if n == 1 {
        cur.write_unlock_obsolete();
        proof {
            assert forall|c: u8| #[trigger] cur.child_at(c) == after.child_at(c) by {}
        }
        let ghost cin = cur;
        *node = collapse(cur, depth, Ghost(path));
        proof {
            // the other child of the node is the one that collapse moved up
            cin.lemma_some_child();
            let sb = sole_child_byte(cin);
            assert(cin.child_at(sb) != ArtNode::<K, V>::Empty);
            assert(sb != b);
            assert(before.child_at(sb) == cin.child_at(sb));
            let ob = choose|x: u8| x != b && before.child_at(x) != ArtNode::<K, V>::Empty;
            assert(ob != b && before.child_at(ob) != ArtNode::<K, V>::Empty);
            assert(cin.child_at(ob) == before.child_at(ob));
            assert(ob == sb);
            assert(remove_shape(before, *node, kd@, depth as int));
        }
    } else {
        let small = match &cur {
            ArtNode::Inner16(_) => n <= 3,
            ArtNode::Inner48(_) => n <= 12,
            ArtNode::Inner256(_) => n <= 37,
            _ => false,
        };
        if small {
            cur.write_unlock_obsolete();
            let ghost retired = cur;
            cur = cur.shrink();
            proof {
                assert(same_shape(after, cur)) by {
                    assert forall|c: u8| #[trigger] after.child_at(c) == cur.child_at(c) by {
                        assert(retired.child_at(c) == after.child_at(c));
                        assert(retired.child_at(c) == cur.child_at(c));
                    }
                }
                lemma_same_shape(after, cur, path);
            }
        } else {
            cur.write_unlock();
            proof {
                assert forall|c: u8| #[trigger] cur.child_at(c) == after.child_at(c) by {}
                assert forall|c: u8| #[trigger] cur.child_at(c) != ArtNode::<K, V>::Empty implies {
                    &&& decreases_to!(cur => cur.child_at(c))
                    &&& cur.child_at(c).wf(path + cur.header_of().full_prefix@.push(c))
                } by {
                    cur.lemma_child_decreases(c);
                    assert(cur.child_at(c) == after.child_at(c));
                }
            }
        }
        proof {
            assert forall|c: u8| #[trigger] cur.child_at(c) == after.child_at(c) by {}
            assert(cur.capacity() == shrunk_capacity(before.capacity(), n as int));
            assert(remove_shape(before, cur, kd@, depth as int));
        }
        *node = cur;
    }
    proof {
        let fin = *node;
        NodeHeader::lemma_version_zero_idle();
        assert(fin.wf(path));
        assert forall|k2: Seq<u8>| #[trigger] fin.get_spec(k2, depth as int) == if k2 == kd@ {
            None
        } else {
            before.get_spec(k2, depth as int)
        } by {
            if path.is_prefix_of(k2) {
                lemma_route(before, path, k2);
                if n != 1 {
                    lemma_route(fin, path, k2);
                    let d = depth as int;
                    if matches_at(k2, d, fp) && pos < k2.len() {
                        assert(fin.child_at(k2[pos as int]) == after.child_at(k2[pos as int]));
                    }
                }
            } else {
                lemma_off_path(fin, path, k2);
                lemma_off_path(before, path, k2);
            }
        }
    }
    r
}

/// Removes the key bytes `kd` below an inner node reached along `path`.
#[verifier::rlimit(60)]
fn remove_inner<K: Digital, V>(node: &mut ArtNode<K, V>, kd: &Vec<u8>, depth: usize, Ghost(path): Ghost<Seq<u8>>) -> (r: Option<V>)
    requires
        old(node).is_inner(),
        old(node).wf(path),
        path.len() == depth,
        depth <= kd@.len(),
    ensures
        final(node).wf(path),
        *final(node) != ArtNode::<K, V>::Empty,
        r == old(node).get_spec(kd@, depth as int),
        forall|k2: Seq<u8>| #[trigger] final(node).get_spec(k2, depth as int) == if k2 == kd@ {
            None
        } else {
            old(node).get_spec(k2, depth as int)
        },
        remove_shape(*old(node), *final(node), kd@, depth as int),
    decreases *old(node),
{
    let ghost before = *node;
    let (matched, plen) = match node.header() {
        Some(h) => (h.prefix_match(kd, depth), h.partial_len),
        None => (false, 0),
    };
    let ghost fp = before.header_of().full_prefix@;
    if !matched || plen >= kd.len() - depth {
        return None;
    }
    let pos = depth + plen;
    let b = kd[pos];
    let ghost below = path + fp.push(b);
    let found = match node.find_child(b) {
        None => Found::Nothing,
        Some(c) => match c {
            ArtNode::Leaf(l) => {
                let ld = l.key.digits();
                if bytes_equal(&ld, kd) {
                    Found::SameLeaf
                } else {
                    proof {
                        assert(before.child_at(b) is Leaf);
                        assert(before.child_at(b)->Leaf_0.key.digits_spec() != kd@);
                    }
                    Found::OtherLeaf
                }
            },
            _ => Found::Inner,
        },
    };
    match found {
        Found::Nothing => {
            proof {
                assert(matches_at(kd@, depth as int, before.header_of().partial@));
                assert(before.child_at(b) == ArtNode::<K, V>::Empty);
                assert(before.get_spec(kd@, depth as int) == None::<V>);
            }
            None
        },
        Found::OtherLeaf => {
            proof {
                assert(matches_at(kd@, depth as int, before.header_of().partial@));
                assert(before.get_spec(kd@, depth as int) == None::<V>);
            }
            None
        },
        Found::Inner => {
            {
                let r;
                {
                    let c = node.child_mut(b);
                    proof {
                        before.lemma_child_decreases(b);
                    }
                    r = remove_inner(c, kd, pos + 1, Ghost(below));
                }
                proof {
                    let cur = *node;
                    assert forall|c: u8| #[trigger] cur.child_at(c) != ArtNode::<K, V>::Empty implies {
                        &&& decreases_to!(cur => cur.child_at(c))
                        &&& cur.child_at(c).wf(path + cur.header_of().full_prefix@.push(c))
                    } by {
                        cur.lemma_child_decreases(c);
                    }
                    assert(cur.wf(path));
                    assert forall|k2: Seq<u8>| #[trigger] cur.get_spec(k2, depth as int) == if k2 == kd@ {
                        None
                    } else {
                        before.get_spec(k2, depth as int)
                    } by {
                        if path.is_prefix_of(k2) {
                            lemma_route(cur, path, k2);
                            lemma_route(before, path, k2);
                        } else {
                            lemma_off_path(cur, path, k2);
                            lemma_off_path(before, path, k2);
                        }
                    }
                }
                r
            }
        },
        Found::SameLeaf => remove_leaf_child(node, b, kd, depth, Ghost(path)),
    }
}

/// An ordered index from keys to values, as an adaptive radix tree.
pub struct Radix<K, V> {
    root: ArtNode<K, V>,
    size: usize,
    keys: Ghost<Set<Seq<u8>>>,
}

impl<K: Digital, V> Default for Radix<K, V> {
    /// An empty tree.
    fn default() -> (r: Self)
        ensures
            r.wf(),
            r@ == Map::<Seq<u8>, V>::empty(),
    {
        Self::new()
    }
}

impl<K: Digital, V> View for Radix<K, V> {
    type V = Map<Seq<u8>, V>;

    /// The tree as a map from key bytes to values.
    closed spec fn view(&self) -> Map<Seq<u8>, V> {
        Map::new(|k: Seq<u8>| self.lookup(k) is Some, |k: Seq<u8>| self.lookup(k)->0)
    }
}

impl<K: Digital, V> Radix<K, V> {
    /// The root edge of the tree.
    pub closed spec fn root_node(&self) -> ArtNode<K, V> {
        self.root
    }

    /// The value stored under the key bytes `k`, if any.
    pub closed spec fn lookup(&self, k: Seq<u8>) -> Option<V> {
        self.root.get_spec(k, 0)
    }

    /// The tree is well-formed (every inner node has a consistent layout and
    /// at least two children, every leaf lies on the path of its key) and the
    /// count is the number of keys.
    pub closed spec fn wf(&self) -> bool {
        &&& self.root.wf(Seq::empty())
        &&& self.keys@.finite()
        &&& forall|k: Seq<u8>| #[trigger] self.keys@.contains(k) <==> self.lookup(k) is Some
        &&& self.size as int == self.keys@.len()
    }

    /// An empty tree.
    pub fn new() -> (r: Self)
        ensures
            r.wf(),
            r@ == Map::<Seq<u8>, V>::empty(),
            r@.dom().finite(),
            r.root_node() == ArtNode::<K, V>::Empty,
    {
        let r = Radix { root: ArtNode::Empty, size: 0, keys: Ghost(Set::empty()) };
        assert(r@ =~= Map::<Seq<u8>, V>::empty());
        assert(r@.dom() =~= r.keys@);
        r
    }

    /// The number of keys.
    pub fn len(&self) -> (r: usize)
        requires
            self.wf(),
        ensures
            r as int == self@.dom().len(),
    {
        proof {
            assert(self@.dom() =~= self.keys@);
        }
        self.size
    }

    /// Stores `value` under `key`; hands back the value that was stored under
    /// it before, if any.
    pub fn insert(&mut self, key: K, value: V) -> (r: Option<V>)
        requires
            old(self).wf(),
            old(self)@.dom().len() < usize::MAX,
        ensures
            final(self).wf(),
            final(self)@ == old(self)@.insert(key.digits_spec(), value),
            final(self)@.dom().finite(),
            insert_shape(old(self).root_node(), final(self).root_node(), key.digits_spec(), 0, key, value),
            r == (if old(self)@.contains_key(key.digits_spec()) {
                Some(old(self)@[key.digits_spec()])
            } else {
                None
            }),
    {
        let ghost old_tree = *self;
        let kd = key.digits();
        let ghost ks = kd@;
        proof {
            assert(kd@.take(0) =~= Seq::<u8>::empty());
            assert(old_tree@.dom() =~= old_tree.keys@);
        }
        let r = insert_rec(&mut self.root, key, &kd, 0, value);
        if r.is_none() {
            self.size = self.size + 1;
            self.keys = Ghost(self.keys@.insert(ks));
        }
        proof {
            assert forall|k: Seq<u8>| #[trigger] self.keys@.contains(k) <==> self.lookup(k) is Some by {
                assert(old_tree.keys@.contains(k) <==> old_tree.lookup(k) is Some);
            }
            assert(self@ =~= old_tree@.insert(ks, value));
            assert(self@.dom() =~= self.keys@);
        }
        r
    }

    /// Removes `key`; hands back the value that was stored under it, if any.
    pub fn remove(&mut self, key: &K) -> (r: Option<V>)
        requires
            old(self).wf(),
        ensures
            final(self).wf(),
            final(self)@ == old(self)@.remove(key.digits_spec()),
            final(self)@.dom().finite(),
            old(self).root_node() == ArtNode::<K, V>::Empty ==> final(self).root_node() == ArtNode::<K, V>::Empty,
            old(self).root_node() is Leaf ==> final(self).root_node() == if old(self).root_node()->Leaf_0.key.digits_spec()
                == key.digits_spec() {
                ArtNode::<K, V>::Empty
            } else {
                old(self).root_node()
            },
            old(self).root_node().is_inner() ==> remove_shape(old(self).root_node(), final(self).root_node(), key.digits_spec(), 0),
            r == (if old(self)@.contains_key(key.digits_spec()) {
                Some(old(self)@[key.digits_spec()])
            } else {
                None
            }),
    {
        let ghost old_tree = *self;
        let kd = key.digits();
        let ghost ks = kd@;
        let mut cur: ArtNode<K, V> = ArtNode::Empty;
        std::mem::swap(&mut self.root, &mut cur);
        let r = match cur {
            ArtNode::Empty => None,
            ArtNode::Leaf(l) => {
                let ld = l.key.digits();
                if bytes_equal(&ld, &kd) {
                    let Leaf { key: _, value } = *l;
                    Some(value)
                } else {
                    self.root = ArtNode::Leaf(l);
                    None
                }
            },
            inner => {
                self.root = inner;
                remove_inner(&mut self.root, &kd, 0, Ghost(Seq::empty()))
            },
        };
        proof {
            assert(old_tree@.dom() =~= old_tree.keys@);
            assert forall|k: Seq<u8>| #[trigger] self.lookup(k) == if k == ks { None } else { old_tree.lookup(k) } by {}
        }
        if r.is_some() {
            proof {
                assert(old_tree.keys@.contains(ks));
                assert(old_tree.keys@.remove(ks).len() + 1 == old_tree.keys@.len());
            }
            self.size = self.size - 1;
            self.keys = Ghost(self.keys@.remove(ks));
        }
        proof {
            assert forall|k: Seq<u8>| #[trigger] self.keys@.contains(k) <==> self.lookup(k) is Some by {
                assert(old_tree.keys@.contains(k) <==> old_tree.lookup(k) is Some);
            }
            assert(self@ =~= old_tree@.remove(ks));
            assert(self@.dom() =~= self.keys@);
        }
        r
    }

    /// The fan-out of the root node: 4, 16, 48 or 256 for an inner node, 0
    /// when the root is empty or a leaf.
    pub fn root_fanout(&self) -> (r: usize)
        ensures
            r == self.root_node().capacity(),
    {
        match &self.root {
            ArtNode::Inner4(_) => 4,
            ArtNode::Inner16(_) => 16,
            ArtNode::Inner48(_) => 48,
            ArtNode::Inner256(_) => 256,
            _ => 0,
        }
    }

    /// The stored prefix bytes of the root node (none when the root is not an
    /// inner node).
    pub fn root_prefix(&self) -> (r: Vec<u8>)
        ensures
            self.root_node().is_inner() ==> r@ == self.root_node().header_of().partial@,
            !self.root_node().is_inner() ==> r@.len() == 0,
    {
        match self.root.header() {
            Some(h) => {
                let r = copy_range(&h.partial, 0, h.partial.len());
                assert(r@ =~= h.partial@);
                r
            },
            None => Vec::new(),
        }
    }

    /// The value stored under `key`, if any.
    pub fn get(&self, key: &K) -> (r: Option<&V>)
        requires
            self.wf(),
        ensures
            r is Some <==> self@.contains_key(key.digits_spec()),
            r is Some ==> *r->0 == self@[key.digits_spec()],
    {
        let kd = key.digits();
        get_rec(&self.root, &kd, 0, Ghost(Seq::empty()))
    }
}

/// Below a well-formed edge every inner node has at least two children and
/// counts them right.
pub proof fn lemma_wf_counts_sound<K: Digital, V>(node: ArtNode<K, V>, path: Seq<u8>)
    requires
        node.wf(path),
    ensures
        node.counts_sound(),
    decreases node,
{
    if node.is_inner() {
        node.lemma_count_matches();
        let fp = node.header_of().full_prefix@;
        assert forall|b: u8| #[trigger] node.child_at(b) != ArtNode::<K, V>::Empty implies {
            &&& decreases_to!(node => node.child_at(b))
            &&& node.child_at(b).counts_sound()
        } by {
            lemma_wf_counts_sound(node.child_at(b), path + fp.push(b));
        }
    }
}

impl<K: Digital, V> Radix<K, V> {
    /// Whenever no operation is under way (the tree is well-formed), every
    /// inner node has at least two children and its child count is the
    /// number of bytes that have a child.
    pub proof fn lemma_structure(&self)
        requires
            self.wf(),
        ensures
            self.root_node().counts_sound(),
    {
        lemma_wf_counts_sound(self.root, Seq::empty());
    }
}

/// The map after inserting the pairs of `s` into `m`, first pair first: what
/// a sequence of `Radix::insert` calls makes of the tree's view.
pub open spec fn insert_all<V>(m: Map<Seq<u8>, V>, s: Seq<(Seq<u8>, V)>) -> Map<Seq<u8>, V>
    decreases s.len(),
{
    if s.len() == 0 {
        m
    } else {
        insert_all(m, s.drop_last()).insert(s.last().0, s.last().1)
    }
}

/// After a sequence of inserts, every inserted key is found, with the value
/// of its last insert.
pub proof fn lemma_inserted_keys_found<V>(m: Map<Seq<u8>, V>, s: Seq<(Seq<u8>, V)>, i: int)
    requires
        0 <= i < s.len(),
        forall|j: int| i < j < s.len() ==> s[j].0 != s[i].0,
    ensures
        insert_all(m, s).contains_key(s[i].0),
        insert_all(m, s)[s[i].0] == s[i].1,
    decreases s.len(),
{
    if i < s.len() - 1 {
        lemma_inserted_keys_found(m, s.drop_last(), i);
    }
}

/// Removing a key right after inserting it leaves it absent, and leaves the
/// map as it was when the key was absent before.
pub proof fn lemma_insert_then_remove<V>(m: Map<Seq<u8>, V>, k: Seq<u8>, v: V)
    ensures
        !m.insert(k, v).remove(k).contains_key(k),
        !m.contains_key(k) ==> m.insert(k, v).remove(k) == m,
{
    if !m.contains_key(k) {
        assert(m.insert(k, v).remove(k) =~= m);
    }
}

/// A key inserted into a tree is found under its own bytes with the value
/// inserted.
pub proof fn lemma_digits_round_trip<K: Digital, V>(m: Map<Seq<u8>, V>, key: K, v: V)
    ensures
        m.insert(key.digits_spec(), v).contains_key(key.digits_spec()),
        m.insert(key.digits_spec(), v)[key.digits_spec()] == v,
{
}

/// The value of the last pair of `s` with key `k`, if any.
pub open spec fn last_for<V>(s: Seq<(Seq<u8>, V)>, k: Seq<u8>) -> Option<V>
    decreases s.len(),
{
    if s.len() == 0 {
        None
    } else if s.last().0 == k {
        Some(s.last().1)
    } else {
        last_for(s.drop_last(), k)
    }
}

/// The number of `true` entries of `pick`.
pub open spec fn count_true(pick: Seq<bool>) -> nat
    decreases pick.len(),
{
    if pick.len() == 0 {
        0
    } else {
        count_true(pick.drop_last()) + if pick.last() { 1nat } else { 0nat }
    }
}

/// The pairs of `a` and `b` merged in the order that `pick` gives: a `true`
/// entry takes the next pair of `a`, a `false` one the next pair of `b`.
pub open spec fn interleave<V>(a: Seq<(Seq<u8>, V)>, b: Seq<(Seq<u8>, V)>, pick: Seq<bool>) -> Seq<(Seq<u8>, V)>
    decreases pick.len(),
{
    if pick.len() == 0 {
        Seq::empty()
    } else if pick.last() {
        interleave(a.drop_last(), b, pick.drop_last()).push(a.last())
    } else {
        interleave(a, b.drop_last(), pick.drop_last()).push(b.last())
    }
}

/// No key occurs in both `a` and `b`.
pub open spec fn disjoint_keys<V>(a: Seq<(Seq<u8>, V)>, b: Seq<(Seq<u8>, V)>) -> bool {
    forall|i: int, j: int| 0 <= i < a.len() && 0 <= j < b.len() ==> a[i].0 != b[j].0
}

proof fn lemma_count_true_bound(pick: Seq<bool>)
    ensures
        count_true(pick) <= pick.len(),
    decreases pick.len(),
{
    if pick.len() > 0 {
        lemma_count_true_bound(pick.drop_last());
    }
}

proof fn lemma_last_for_occurs<V>(s: Seq<(Seq<u8>, V)>, k: Seq<u8>) -> (i: int)
    requires
        last_for(s, k) is Some,
    ensures
        0 <= i < s.len(),
        s[i].0 == k,
    decreases s.len(),
{
    if s.last().0 == k {
        s.len() - 1
    } else {
        lemma_last_for_occurs(s.drop_last(), k)
    }
}

proof fn lemma_insert_all_at<V>(m: Map<Seq<u8>, V>, s: Seq<(Seq<u8>, V)>, k: Seq<u8>)
    ensures
        insert_all(m, s).contains_key(k) == (last_for(s, k) is Some || m.contains_key(k)),
        insert_all(m, s).contains_key(k) ==> insert_all(m, s)[k] == if last_for(s, k) is Some {
            last_for(s, k)->0
        } else {
            m[k]
        },
    decreases s.len(),
{
    if s.len() > 0 {
        lemma_insert_all_at(m, s.drop_last(), k);
    }
}

proof fn lemma_interleave_last<V>(a: Seq<(Seq<u8>, V)>, b: Seq<(Seq<u8>, V)>, pick: Seq<bool>, k: Seq<u8>)
    requires
        count_true(pick) == a.len(),
        pick.len() == a.len() + b.len(),
        disjoint_keys(a, b),
    ensures
        last_for(interleave(a, b, pick), k) == if last_for(a, k) is Some {
            last_for(a, k)
        } else {
            last_for(b, k)
        },
    decreases pick.len(),
{
    if pick.len() > 0 {
        let s = interleave(a, b, pick);
        if pick.last() {
            let a2 = a.drop_last();
            assert(disjoint_keys(a2, b)) by {
                assert forall|i: int, j: int| 0 <= i < a2.len() && 0 <= j < b.len() implies a2[i].0 != b[j].0 by {
                    assert(a2[i] == a[i]);
                }
            }
            lemma_interleave_last(a2, b, pick.drop_last(), k);
            assert(s.drop_last() =~= interleave(a2, b, pick.drop_last()));
            if a.last().0 == k {
                if last_for(b, k) is Some {
                    let j = lemma_last_for_occurs(b, k);
                    assert(a[a.len() - 1].0 != b[j].0);
                }
            }
        } else {
            lemma_count_true_bound(pick.drop_last());
            let b2 = b.drop_last();
            assert(disjoint_keys(a, b2)) by {
                assert forall|i: int, j: int| 0 <= i < a.len() && 0 <= j < b2.len() implies a[i].0 != b2[j].0 by {
                    assert(b2[j] == b[j]);
                }
            }
            lemma_interleave_last(a, b2, pick.drop_last(), k);
            assert(s.drop_last() =~= interleave(a, b2, pick.drop_last()));
            if b.last().0 == k {
                if last_for(a, k) is Some {
                    let i = lemma_last_for_occurs(a, k);
                    assert(a[i].0 != b[b.len() - 1].0);
                }
            }
        }
    }
}

/// Two sequences of inserts on disjoint key sets give the same map whatever
/// their interleaving: the union of what each inserts.
pub proof fn lemma_disjoint_inserts_interleave<V>(
    m: Map<Seq<u8>, V>,
    a: Seq<(Seq<u8>, V)>,
    b: Seq<(Seq<u8>, V)>,
    pick: Seq<bool>,
)
    requires
        count_true(pick) == a.len(),
        pick.len() == a.len() + b.len(),
        disjoint_keys(a, b),
    ensures
        insert_all(m, interleave(a, b, pick)) == insert_all(insert_all(m, a), b),
{
    let l = insert_all(m, interleave(a, b, pick));
    let r = insert_all(insert_all(m, a), b);
    assert forall|k: Seq<u8>| #[trigger] l.contains_key(k) == r.contains_key(k) && (l.contains_key(k) ==> l[k] == r[k]) by {
        lemma_interleave_last(a, b, pick, k);
        lemma_insert_all_at(m, interleave(a, b, pick), k);
        lemma_insert_all_at(insert_all(m, a), b, k);
        lemma_insert_all_at(m, a, k);
        if last_for(a, k) is Some && last_for(b, k) is Some {
            let i = lemma_last_for_occurs(a, k);
            let j = lemma_last_for_occurs(b, k);
            assert(a[i].0 != b[j].0);
        }
    }
    assert(l =~= r);
}

} // verus!
