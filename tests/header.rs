use art_tree::header::{is_locked, is_obsolete, NodeHeader, Restart};

#[test]
fn lock() {
    let mut header = NodeHeader::new();
    assert_eq!(header.is_locked(), false);
    assert_eq!(header.write_lock_or_restart(), false);
    assert_eq!(header.is_locked(), true);
    header.write_unlock();
    assert_eq!(header.is_locked(), false);
}

#[test]
fn version_bits() {
    assert!(!is_locked(0));
    assert!(is_locked(2));
    assert!(!is_obsolete(2));
    assert!(is_obsolete(1));
    assert!(is_locked(7) && is_obsolete(7));
}

#[test]
fn read_lock_fails_while_locked_or_obsolete() {
    let mut h = NodeHeader::new();
    assert_eq!(h.read_lock_or_restart(), Ok(0));
    assert!(!h.write_lock_or_restart());
    assert_eq!(h.read_lock_or_restart(), Err(Restart::Retry));
    // a second writer cannot take the lock
    assert!(h.write_lock_or_restart());
    h.write_unlock();
    assert_eq!(h.read_version(), 4);
    assert_eq!(h.read_lock_or_restart(), Ok(4));
    assert!(!h.write_lock_or_restart());
    h.write_unlock_obsolete();
    assert_eq!(h.read_version(), 9);
    assert_eq!(h.read_lock_or_restart(), Err(Restart::Obsolete));
    assert!(h.write_lock_or_restart());
}

#[test]
fn validation_and_upgrade() {
    let mut h = NodeHeader::new();
    let v = h.read_lock_or_restart().unwrap();
    assert!(!NodeHeader::read_unlock_or_restart(h.read_version(), v));
    assert_eq!(h.upgrade_to_write_lock_or_restart(v), Ok(()));
    assert!(h.is_locked());
    // the version moved on: the old read no longer validates
    assert!(NodeHeader::read_unlock_or_restart(h.read_version(), v));
    assert_eq!(h.upgrade_to_write_lock_or_restart(v), Err(Restart::Retry));
    h.write_unlock();
    assert_eq!(h.read_version(), 4);
    assert_eq!(h.upgrade_to_write_lock_or_restart(v), Err(Restart::Retry));
}

#[test]
fn upgrade_failure_releases_parent() {
    let mut parent = NodeHeader::new();
    let mut child = NodeHeader::new();
    assert!(!parent.write_lock_or_restart());
    let stale = child.read_version();
    assert!(!child.write_lock_or_restart());
    child.write_unlock();
    assert_eq!(child.upgrade_to_write_lock_or_write_unlock_and_restart(stale, &mut parent), Err(Restart::Retry));
    assert!(!parent.is_locked());
    assert_eq!(parent.read_version(), 4);

    assert!(!parent.write_lock_or_restart());
    let fresh = child.read_version();
    assert_eq!(child.upgrade_to_write_lock_or_write_unlock_and_restart(fresh, &mut parent), Ok(()));
    assert!(parent.is_locked());
    assert!(child.is_locked());
}

#[test]
fn lock_version_locks_idle_node() {
    let mut h = NodeHeader::new();
    assert!(!h.lock_version_or_restart());
    assert_eq!(h.read_version(), 2);
    assert!(h.is_locked());
    assert!(!is_obsolete(h.read_version()));
    // already locked: restart
    assert!(h.lock_version_or_restart());
    h.write_unlock();
    assert_eq!(h.read_version(), 4);
    h.write_lock_or_restart();
    h.write_unlock_obsolete();
    // obsolete: restart
    assert!(h.lock_version_or_restart());
}

#[test]
fn prefix_checks() {
    let h = NodeHeader::from_prefix(&vec![7, 8, 9]);
    assert_eq!(h.get_partial_len(), 3);
    assert!(h.prefix_match(&vec![1, 7, 8, 9, 4], 1));
    assert!(!h.prefix_match(&vec![1, 7, 8, 0, 4], 1));
    assert!(!h.prefix_match(&vec![1, 7, 8], 1));
    assert_eq!(h.compute_prefix_match(&vec![1, 7, 8, 0, 4], 1), 2);
    assert_eq!(h.compute_prefix_match(&vec![1, 7], 1), 1);
    assert_eq!(h.compute_prefix_match(&vec![1, 7, 8, 9], 1), 3);
    assert_eq!(h.prefix_matches(&vec![1, 7, 8, 9, 4], 1), Ok(4));
    assert_eq!(h.prefix_matches(&vec![1, 7, 0, 9, 4], 1), Err(1));
}

#[test]
fn long_prefix_is_stored_in_part() {
    let h = NodeHeader::from_prefix(&vec![1, 2, 3, 4, 5, 6, 7, 8, 9, 10]);
    assert_eq!(h.get_partial_len(), 10);
    assert_eq!(h.partial, vec![1, 2, 3, 4, 5, 6, 7, 8]);
    // bytes past the stored ones are taken optimistically
    assert_eq!(h.compute_prefix_match(&vec![1, 2, 3, 4, 5, 6, 7, 8, 0, 0], 0), 10);
    assert!(h.prefix_match(&vec![1, 2, 3, 4, 5, 6, 7, 8], 0));
}
