use art_tree::header::NodeHeader;
use art_tree::node::{ArtNode, ArtNodeTrait, Leaf};
use art_tree::node16::Node16;
use art_tree::node256::Node256;
use art_tree::node4::Node4;
use art_tree::node48::Node48;

fn leaf(k: u64) -> ArtNode<u64, u64> {
    ArtNode::Leaf(Box::new(Leaf { key: k, value: k * 2 }))
}

fn value_at(n: &ArtNode<u64, u64>, b: u8) -> Option<u64> {
    match n.find_child(b) {
        Some(ArtNode::Leaf(l)) => Some(l.value),
        _ => None,
    }
}

#[test]
fn node4_keeps_keys_sorted() {
    let mut n: Node4<u64, u64> = Node4::new(NodeHeader::new());
    n.add_child(leaf(3), 30);
    n.add_child(leaf(1), 10);
    n.add_child(leaf(2), 20);
    assert_eq!(n.keys, vec![10, 20, 30]);
    assert!(n.has_child(20));
    assert!(!n.has_child(25));
    assert!(!n.is_full());
    n.add_child(leaf(0), 0);
    assert!(n.is_full());
    assert_eq!(n.keys, vec![0, 10, 20, 30]);
    match n.remove_child(20) {
        ArtNode::Leaf(l) => assert_eq!(l.key, 2),
        _ => panic!("expected a leaf"),
    }
    assert_eq!(n.keys, vec![0, 10, 30]);
    assert_eq!(n.header.num_children, 3);
}

#[test]
fn grow_through_every_kind_keeps_children() {
    let mut node: ArtNode<u64, u64> = Node4::new(NodeHeader::from_prefix(&vec![9, 9])).into_node();
    let mut next: u64 = 0;
    for cap in [4usize, 16, 48] {
        while !node.is_full() {
            node.add_child(leaf(next), (next * 5) as u8);
            next += 1;
        }
        assert_eq!(next as usize, cap);
        node = node.grow();
    }
    match &node {
        ArtNode::Inner256(n) => {
            assert_eq!(n.header.num_children, 48);
            assert_eq!(n.header.partial, vec![9, 9]);
        },
        _ => panic!("expected the widest kind"),
    }
    for k in 0..48u64 {
        assert_eq!(value_at(&node, (k * 5) as u8), Some(k * 2));
    }
    assert_eq!(value_at(&node, 1), None);
}

#[test]
fn shrink_through_every_kind_keeps_children() {
    let mut n: Node256<u64, u64> = Node256::new(NodeHeader::new());
    for k in 0..3u64 {
        n.add_child(leaf(k), (k * 7) as u8);
    }
    let mut node = n.into_node();
    node = node.shrink();
    assert!(matches!(node, ArtNode::Inner48(_)));
    node = node.shrink();
    assert!(matches!(node, ArtNode::Inner16(_)));
    node = node.shrink();
    match &node {
        ArtNode::Inner4(n4) => assert_eq!(n4.keys, vec![0, 7, 14]),
        _ => panic!("expected the narrowest kind"),
    }
    for k in 0..3u64 {
        assert_eq!(value_at(&node, (k * 7) as u8), Some(k * 2));
    }
}

#[test]
fn node48_reuses_slots_after_removal() {
    let mut n: Node48<u64, u64> = Node48::new(NodeHeader::new());
    for k in 0..48u64 {
        n.add_child(leaf(k), k as u8 + 100);
    }
    assert!(n.is_full());
    n.remove_child(100);
    assert!(!n.has_child(100));
    assert_eq!(n.child_index[147], 1);
    n.add_child(leaf(99), 3);
    assert_eq!(n.children.len(), 48);
    let node = n.into_node();
    assert_eq!(value_at(&node, 3), Some(198));
    assert_eq!(value_at(&node, 147), Some(94));
}

#[test]
fn node16_pop_and_some_child() {
    let mut n: Node16<u64, u64> = Node16::new(NodeHeader::new());
    for k in 0..5u64 {
        n.add_child(leaf(k), k as u8 * 3);
    }
    assert_eq!(n.some_child(), 0);
    let (b, c) = n.pop_child();
    assert_eq!(b, 12);
    assert!(matches!(c, ArtNode::Leaf(_)));
    assert_eq!(n.header.num_children, 4);
    assert_eq!(n.get_version(), 0);
    assert_eq!(n.prefix_matches(&vec![5, 5], 1), Ok(1));
}

#[test]
fn find_child_mut_reports_absent_and_locked() {
    let mut n: Node4<u64, u64> = Node4::new(NodeHeader::new());
    n.add_child(leaf(1), 10);
    n.add_child(leaf(2), 20);
    assert!(n.find_child_mut(30).is_none());
    match n.find_child_mut(20) {
        Some(c) => *c = leaf(7),
        None => panic!("expected a child"),
    }
    match n.find_child(20) {
        Some(ArtNode::Leaf(l)) => assert_eq!(l.value, 14),
        _ => panic!("expected the replaced leaf"),
    }
    assert!(!n.write_lock());
    assert!(n.find_child_mut(10).is_none());
    n.write_unlock();
    assert!(n.find_child_mut(10).is_some());
    n.write_lock();
    n.write_unlock_obsolete();
    assert!(n.find_child_mut(10).is_none());
}

#[test]
fn grow_and_shrink_pick_the_next_kind() {
    let mut n: Node4<u64, u64> = Node4::new(NodeHeader::new());
    for k in 0..4u64 {
        n.add_child(leaf(k), k as u8);
    }
    let g = n.into_node().grow();
    assert!(matches!(g, ArtNode::Inner16(_)));
    let s = g.shrink();
    assert!(matches!(s, ArtNode::Inner4(_)));
}
