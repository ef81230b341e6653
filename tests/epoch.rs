use art_tree::bag::{Bag, MAX_OBJECTS};
use art_tree::epoch::Collector;

#[test]
fn bag_fills_and_drains_in_order() {
    let mut b = Bag::new();
    assert!(b.is_empty());
    for i in 0..MAX_OBJECTS as u64 {
        assert_eq!(b.try_push(i), Ok(()));
    }
    assert_eq!(b.len(), 64);
    assert_eq!(b.try_push(999), Err(999));
    let mut out = vec![7u64];
    b.drain_into(&mut out);
    assert_eq!(out.len(), 65);
    assert_eq!(out[0], 7);
    assert_eq!(out[1], 0);
    assert_eq!(out[64], 63);
}

#[test]
fn pins_nest_and_unpin_at_the_outermost() {
    let mut c = Collector::new();
    let h = c.register();
    assert!(!c.is_pinned(&h));
    let g1 = c.pin(&h);
    let g2 = c.pin(&h);
    assert!(c.is_pinned(&h));
    c.unpin(g2);
    assert!(c.is_pinned(&h));
    c.unpin(g1);
    assert!(!c.is_pinned(&h));
}

#[test]
fn epoch_advances_only_past_current_readers() {
    let mut c = Collector::new();
    let reader = c.register();
    let writer = c.register();
    let _r = c.pin(&reader);
    // the reader saw epoch 0: one advancement is allowed
    assert!(c.try_advance());
    // now the reader lags behind: no further advancement
    assert!(!c.try_advance());
    let w = c.pin(&writer);
    assert!(!c.try_advance());
    c.unpin(w);
}

#[test]
fn retired_items_wait_for_pinned_reader() {
    let mut c = Collector::new();
    let reader = c.register();
    let writer = c.register();
    let r = c.pin(&reader);
    let w = c.pin(&writer);
    c.defer(&w, 42);
    // while the reader stays pinned nothing deferred after it pinned is released
    for _ in 0..10 {
        assert!(c.flush(&w).is_empty());
    }
    c.unpin(r);
    c.unpin(w);
    // the writer, pinned since before it retired the item, holds it up too
    // until it pins anew
    let mut released: Vec<u64> = Vec::new();
    for _ in 0..3 {
        let w = c.pin(&writer);
        released.extend(c.flush(&w));
        c.unpin(w);
    }
    assert_eq!(released, vec![42]);
}

#[test]
fn full_bag_is_sealed_into_the_queue() {
    let mut c = Collector::new();
    let h = c.register();
    let g = c.pin(&h);
    for i in 0..(MAX_OBJECTS as u64 + 1) {
        c.defer(&g, i);
    }
    c.unpin(g);
    let mut released: Vec<u64> = Vec::new();
    for round in 0..4 {
        let g = c.pin(&h);
        let got = c.flush(&g);
        if round == 0 {
            // one advancement only: nothing has expired yet
            assert!(got.is_empty());
        }
        released.extend(got);
        c.unpin(g);
    }
    released.sort();
    let expect: Vec<u64> = (0..(MAX_OBJECTS as u64 + 1)).collect();
    assert_eq!(released, expect);
}

#[test]
fn repin_lets_the_epoch_move_on() {
    let mut c = Collector::new();
    let h = c.register();
    let g = c.pin(&h);
    assert!(c.try_advance());
    assert!(!c.try_advance());
    c.repin(&g);
    assert!(c.try_advance());
    // with a nested guard, repinning changes nothing
    let g2 = c.pin(&h);
    c.repin(&g2);
    assert!(!c.try_advance());
    c.unpin(g2);
    c.unpin(g);
}

#[test]
fn release_unpins_and_flushes() {
    let mut c = Collector::new();
    let h = c.register();
    let other = c.register();
    assert!(c.is_registered(&h));
    let _g1 = c.pin(&h);
    let g2 = c.pin(&h);
    c.defer(&g2, 5);
    let index = h.index;
    assert!(c.release(h).is_empty());
    let again = art_tree::epoch::Handle { index };
    assert!(!c.is_pinned(&again));
    let mut released: Vec<u64> = Vec::new();
    for _ in 0..3 {
        let g = c.pin(&other);
        released.extend(c.flush(&g));
        c.unpin(g);
    }
    assert_eq!(released, vec![5]);
}
