use auto_diff::AutoDiffError;
use auto_diff::collection::generational_index::GenIndex;

#[test]
fn arena_round_trip() {
    let mut a: GenIndex<u64> = GenIndex::new();
    let h = a.insert(41);
    assert_eq!(*a.get(&h).unwrap(), 41);
    let h2 = a.insert(42);
    assert_eq!(*a.get(&h2).unwrap(), 42);
    assert_eq!(*a.get(&h).unwrap(), 41);
    let removed = a.remove(&h).unwrap();
    assert_eq!(removed, 41);
    // the removed handle is rejected from now on
    assert!(matches!(a.get(&h), Err(AutoDiffError::InvalidHandle)));
    assert!(matches!(a.remove(&h), Err(AutoDiffError::InvalidHandle)));
    // an insert that reuses the freed slot hands out a different handle
    let h3 = a.insert(43);
    assert_ne!(h3, h);
    assert!(matches!(a.get(&h), Err(AutoDiffError::InvalidHandle)));
    assert_eq!(*a.get(&h3).unwrap(), 43);
    assert_eq!(*a.get(&h2).unwrap(), 42);
}

#[test]
fn arena_set_replaces_value() {
    let mut a: GenIndex<u64> = GenIndex::new();
    let h = a.insert(1);
    a.set(&h, 7).unwrap();
    assert_eq!(*a.get(&h).unwrap(), 7);
    let mut b: GenIndex<u64> = GenIndex::new();
    let stale = b.insert(0);
    b.remove(&stale).unwrap();
    assert!(matches!(b.set(&stale, 9), Err(AutoDiffError::InvalidHandle)));
}
