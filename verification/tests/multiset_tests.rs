use array_sets::MultiSet;
use array_sets::MultiSetMut;

#[test]
fn inserts_keep_order_and_count() {
    let mut set: MultiSetMut<u64> = MultiSetMut::new();
    set.insert(3);
    set.insert(1);
    set.insert(2);
    assert_eq!(set.len(), 3);
    assert_eq!(set.iter(), &[3, 1, 2]);
}

#[test]
fn duplicate_inserts_are_counted() {
    let mut set: MultiSetMut<u64> = MultiSetMut::new();
    assert_eq!(set.len(), 0);
    set.insert(1);
    assert_eq!(set.len(), 1);
    set.insert(1);
    assert_eq!(set.len(), 2);
    set.insert(2);
    assert_eq!(set.len(), 3);
    assert_eq!(set.iter(), &[1, 1, 2]);
}

#[test]
fn remove_takes_one_duplicate_at_a_time() {
    let mut set: MultiSetMut<char> = MultiSetMut::new();
    set.insert('a');
    set.insert('a');
    assert_eq!(set.remove(&'a'), true);
    assert_eq!(set.contains(&'a'), true);
    assert_eq!(set.len(), 1);
    assert_eq!(set.remove(&'a'), true);
    assert_eq!(set.contains(&'a'), false);
    assert_eq!(set.len(), 0);
}

#[test]
fn remove_on_absent_value_is_a_noop() {
    let mut set: MultiSetMut<u64> = MultiSetMut::new();
    set.insert(2);
    assert_eq!(set.remove(&2), true);
    assert_eq!(set.remove(&2), false);
    assert_eq!(set.len(), 0);
}

#[test]
fn remove_takes_the_most_recently_inserted_match() {
    let mut set: MultiSetMut<u64> = MultiSetMut::new();
    set.insert(1);
    set.insert(2);
    set.insert(1);
    assert_eq!(set.remove(&1), true);
    assert_eq!(set.iter(), &[1, 2]);
}

#[test]
fn remove_all_takes_every_match() {
    let mut set: MultiSetMut<char> = MultiSetMut::new();
    set.insert('a');
    set.insert('a');
    set.insert('b');
    assert_eq!(set.remove_all(&'a'), true);
    assert_eq!(set.iter(), &['b']);
    assert_eq!(set.len(), 1);
    assert_eq!(set.remove_all(&'a'), false);
    assert_eq!(set.iter(), &['b']);
}

#[test]
fn builder_contains_scans_all_duplicates() {
    let mut set: MultiSetMut<u64> = MultiSetMut::new();
    assert_eq!(set.contains(&1), false);
    set.insert(1);
    assert_eq!(set.contains(&1), true);
    set.insert(7);
    assert_eq!(set.contains(&7), true);
    assert_eq!(set.contains(&3), false);
}

#[test]
fn freezing_preserves_order_and_duplicates() {
    let mut set: MultiSetMut<u64> = MultiSetMut::new();
    set.insert(3);
    set.insert(1);
    set.insert(2);
    let set = MultiSet::from(set);
    assert_eq!(set.iter(), &[3, 1, 2]);
    assert_eq!(set.len(), 3);
}

#[test]
fn frozen_multiset_keeps_duplicates() {
    let mut set: MultiSetMut<u64> = MultiSetMut::new();
    set.insert(1);
    set.insert(1);
    let set = MultiSet::from(set);
    assert_eq!(set.len(), 2);
    assert_eq!(set.iter(), &[1, 1]);
    assert!(set.contains(&1));
    assert!(!set.contains(&2));
}

#[test]
fn multiset_from_slice_keeps_the_slice_verbatim() {
    let set: MultiSet<u64> = MultiSet::from_slice(&[(5, ()), (3, ()), (5, ())]);
    assert_eq!(set.iter(), &[5, 3, 5]);
    assert_eq!(set.len(), 3);
    assert!(set.contains(&5));
    assert!(!set.contains(&4));
}

#[test]
fn empty_multiset_from_slice() {
    let set: MultiSet<u64> = MultiSet::from_slice(&[]);
    assert!(set.is_empty());
    assert_eq!(set.iter(), &[] as &[u64]);
}

#[test]
fn is_empty_tracks_len_in_builder_and_frozen_set() {
    let mut set: MultiSetMut<u64> = MultiSetMut::new();
    assert_eq!(set.is_empty(), set.len() == 0);
    assert!(set.is_empty());
    set.insert(1);
    assert_eq!(set.is_empty(), set.len() == 0);
    assert!(!set.is_empty());
    set.remove(&1);
    assert_eq!(set.is_empty(), set.len() == 0);
    assert!(set.is_empty());
    set.insert(2);
    let frozen = MultiSet::from(set);
    assert_eq!(frozen.is_empty(), frozen.len() == 0);
    assert!(!frozen.is_empty());

    let empty = MultiSet::from(MultiSetMut::<u64>::new());
    assert_eq!(empty.is_empty(), empty.len() == 0);
    assert!(empty.is_empty());
}
