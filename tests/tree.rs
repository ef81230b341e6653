use art_tree::key::Digital;
use art_tree::tree::Radix;

fn bytes(s: &str) -> Vec<u8> {
    s.as_bytes().to_vec()
}

#[test]
fn grow_chain_single_byte_keys() {
    let mut t: Radix<u8, u32> = Radix::new();
    let mut kinds: Vec<usize> = Vec::new();
    for k in 0u32..256 {
        assert_eq!(t.insert(k as u8, k * 10), None);
        let f = t.root_fanout();
        if kinds.last() != Some(&f) {
            kinds.push(f);
        }
    }
    assert_eq!(kinds, vec![0, 4, 16, 48, 256]);
    assert_eq!(t.get(&0x7F), Some(&1270));
    assert_eq!(t.len(), 256);
    for k in 0u32..256 {
        assert_eq!(t.get(&(k as u8)), Some(&(k * 10)));
    }
}

#[test]
fn wide_node_with_word_keys() {
    let mut t: Radix<u32, u32> = Radix::new();
    for k in 0u32..256 {
        assert_eq!(t.insert(k, k * 10), None);
    }
    assert_eq!(t.root_fanout(), 256);
    assert_eq!(t.root_prefix(), vec![0, 0, 0]);
    assert_eq!(t.get(&0x7F), Some(&1270));
    assert_eq!(t.get(&256), None);
}

#[test]
fn split_shares_prefix() {
    let mut t: Radix<Vec<u8>, u32> = Radix::new();
    assert_eq!(t.insert(bytes("apple"), 1), None);
    assert_eq!(t.insert(bytes("apricot"), 2), None);
    assert_eq!(t.root_fanout(), 4);
    assert_eq!(t.root_prefix(), bytes("ap"));
    assert_eq!(t.get(&bytes("apple")), Some(&1));
    assert_eq!(t.get(&bytes("apricot")), Some(&2));
    assert_eq!(t.get(&bytes("ap")), None);
    assert_eq!(t.len(), 2);
}

#[test]
fn collapse_after_remove() {
    let mut t: Radix<Vec<u8>, u32> = Radix::new();
    t.insert(bytes("apple"), 1);
    t.insert(bytes("apricot"), 2);
    assert_eq!(t.remove(&bytes("apricot")), Some(2));
    assert_eq!(t.root_fanout(), 0);
    assert_eq!(t.get(&bytes("apple")), Some(&1));
    assert_eq!(t.get(&bytes("apricot")), None);
    assert_eq!(t.len(), 1);
}

#[test]
fn optimistic_prefix_distinguished_at_leaf() {
    let mut t: Radix<Vec<u8>, u32> = Radix::new();
    // the common prefix is eleven bytes, beyond the eight that a header stores
    t.insert(bytes("abcdefghijkX"), 1);
    t.insert(bytes("abcdefghijkY"), 2);
    // differs from both only in the tenth byte, which no header stores
    assert_eq!(t.get(&bytes("abcdefghiZkX")), None);
    assert_eq!(t.insert(bytes("abcdefghiZkX"), 3), None);
    assert_eq!(t.get(&bytes("abcdefghijkX")), Some(&1));
    assert_eq!(t.get(&bytes("abcdefghijkY")), Some(&2));
    assert_eq!(t.get(&bytes("abcdefghiZkX")), Some(&3));
    assert_eq!(t.len(), 3);
}

#[test]
fn insert_returns_previous_value() {
    let mut t: Radix<u64, &str> = Radix::new();
    assert_eq!(t.insert(7, "a"), None);
    assert_eq!(t.insert(7, "b"), Some("a"));
    assert_eq!(t.get(&7), Some(&"b"));
    assert_eq!(t.len(), 1);
}

#[test]
fn insert_then_remove_then_lookup_is_none() {
    let mut t: Radix<u64, u64> = Radix::new();
    for k in 0u64..1000 {
        t.insert(k * 7919, k);
    }
    for k in 0u64..1000 {
        assert_eq!(t.remove(&(k * 7919)), Some(k));
        assert_eq!(t.get(&(k * 7919)), None);
    }
    assert_eq!(t.len(), 0);
    assert_eq!(t.remove(&5), None);
}

#[test]
fn shrink_through_all_kinds() {
    let mut t: Radix<u32, u32> = Radix::new();
    for k in 0u32..256 {
        t.insert(k, k);
    }
    for k in 0u32..255 {
        assert_eq!(t.remove(&k), Some(k));
        for j in (k + 1)..256 {
            assert_eq!(t.get(&j), Some(&j));
        }
    }
    assert_eq!(t.len(), 1);
    assert_eq!(t.get(&255), Some(&255));
}

#[test]
fn signed_keys() {
    let mut t: Radix<i64, i64> = Radix::new();
    for k in -50i64..50 {
        t.insert(k, -k);
    }
    assert_eq!(t.get(&-50), Some(&50));
    assert_eq!(t.get(&49), Some(&-49));
    assert_eq!(t.get(&50), None);
}

#[test]
fn byte_string_digits_escape_and_terminate() {
    assert_eq!(vec![0x61u8, 0x00, 0x01, 0x62].digits(), vec![0x61, 0x01, 0x01, 0x01, 0x02, 0x62, 0x00]);
    assert_eq!(Vec::<u8>::new().digits(), vec![0x00]);
    assert_eq!(0x0102_0304u32.digits(), vec![1, 2, 3, 4]);
    assert_eq!((-1i64).digits(), vec![0x7F, 0xFF, 0xFF, 0xFF, 0xFF, 0xFF, 0xFF, 0xFF]);
    assert_eq!(0x0102_0304_0506_0708u64.digits(), vec![1, 2, 3, 4, 5, 6, 7, 8]);
}

#[test]
fn embedded_zero_keys_are_distinct() {
    let mut t: Radix<Vec<u8>, u32> = Radix::new();
    t.insert(vec![1, 0], 1);
    t.insert(vec![1], 2);
    t.insert(vec![1, 0, 0], 3);
    t.insert(vec![], 4);
    assert_eq!(t.get(&vec![1, 0]), Some(&1));
    assert_eq!(t.get(&vec![1]), Some(&2));
    assert_eq!(t.get(&vec![1, 0, 0]), Some(&3));
    assert_eq!(t.get(&vec![]), Some(&4));
    assert_eq!(t.len(), 4);
}

#[test]
fn default_tree_is_empty() {
    let t: Radix<u64, u64> = Radix::default();
    assert_eq!(t.len(), 0);
    assert_eq!(t.get(&0), None);
    assert_eq!(t.root_fanout(), 0);
    assert_eq!(t.root_prefix(), Vec::<u8>::new());
}
