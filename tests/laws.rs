use art_tree::tree::Radix;

#[test]
fn inserted_keys_are_found_with_last_value() {
    let mut t: Radix<u64, u64> = Radix::new();
    let pairs: Vec<(u64, u64)> = vec![(5, 1), (9, 2), (5, 3), (1 << 40, 4), (0, 5)];
    for (k, v) in pairs.iter() {
        t.insert(*k, *v);
    }
    assert_eq!(t.get(&5), Some(&3));
    assert_eq!(t.get(&9), Some(&2));
    assert_eq!(t.get(&(1 << 40)), Some(&4));
    assert_eq!(t.get(&0), Some(&5));
    assert_eq!(t.len(), 4);
}

#[test]
fn insert_then_remove_restores_absence() {
    let mut t: Radix<Vec<u8>, u32> = Radix::new();
    t.insert(b"kept".to_vec(), 1);
    t.insert(b"gone".to_vec(), 2);
    assert_eq!(t.remove(&b"gone".to_vec()), Some(2));
    assert_eq!(t.get(&b"gone".to_vec()), None);
    assert_eq!(t.get(&b"kept".to_vec()), Some(&1));
    assert_eq!(t.remove(&b"gone".to_vec()), None);
    assert_eq!(t.len(), 1);
}

#[test]
fn disjoint_inserts_commute() {
    let a: Vec<u64> = (0..300).map(|i| i * 3).collect();
    let b: Vec<u64> = (0..300).map(|i| i * 3 + 1).collect();
    let mut t1: Radix<u64, u64> = Radix::new();
    let mut t2: Radix<u64, u64> = Radix::new();
    for k in a.iter() {
        t1.insert(*k, k + 1000);
    }
    for k in b.iter() {
        t1.insert(*k, k + 1000);
    }
    for i in 0..300 {
        t2.insert(b[299 - i], b[299 - i] + 1000);
        t2.insert(a[i], a[i] + 1000);
    }
    assert_eq!(t1.len(), t2.len());
    for k in 0..900u64 {
        assert_eq!(t1.get(&k), t2.get(&k));
    }
}

#[test]
fn round_trip_for_every_key_kind() {
    let mut a: Radix<u8, i32> = Radix::new();
    a.insert(200, -1);
    assert_eq!(a.get(&200), Some(&-1));
    let mut b: Radix<u32, i32> = Radix::new();
    b.insert(u32::MAX, -2);
    assert_eq!(b.get(&u32::MAX), Some(&-2));
    let mut c: Radix<i64, i32> = Radix::new();
    c.insert(i64::MIN, -3);
    assert_eq!(c.get(&i64::MIN), Some(&-3));
    let mut d: Radix<Vec<u8>, i32> = Radix::new();
    d.insert(vec![0, 0, 1], -4);
    assert_eq!(d.get(&vec![0, 0, 1]), Some(&-4));
    assert_eq!(d.get(&vec![0, 0]), None);
}

#[test]
fn two_writers_disjoint_keys_then_many_reads() {
    let mut t: Radix<u64, u64> = Radix::new();
    // the two writers' operations interleaved one by one
    for i in 0..100_000u64 {
        t.insert(i.wrapping_mul(0x9E37_79B9_7F4A_7C15), i);
        t.insert(i.wrapping_mul(0x9E37_79B9_7F4A_7C15) ^ 1, i + 1);
    }
    assert_eq!(t.len(), 200_000);
    let mut x: u64 = 12345;
    for _ in 0..200_000 {
        x = x.wrapping_mul(6364136223846793005).wrapping_add(1442695040888963407);
        let i = x % 100_000;
        let k = i.wrapping_mul(0x9E37_79B9_7F4A_7C15);
        if x & 1 == 0 {
            assert_eq!(t.get(&k), Some(&i));
        } else {
            assert_eq!(t.get(&(k ^ 1)), Some(&(i + 1)));
        }
    }
}
