use array_sets::MultiSetMut;
use array_sets::SortedSet;

#[test]
fn conversion_sorts_and_deduplicates() {
    let mut set: MultiSetMut<u64> = MultiSetMut::new();
    set.insert(3);
    set.insert(1);
    set.insert(1);
    set.insert(2);
    let set = SortedSet::from(set);
    assert_eq!(set.iter(), &[1, 2, 3]);
    assert_eq!(set.len(), 3);
}

#[test]
fn binary_search_finds_exactly_the_members() {
    let mut set: MultiSetMut<u64> = MultiSetMut::new();
    for v in [1, 2, 3, 5, 8] {
        set.insert(v);
    }
    let set = SortedSet::from(set);
    assert_eq!(set.contains(&4), false);
    assert_eq!(set.contains(&5), true);
    assert_eq!(set.contains(&0), false);
    assert_eq!(set.contains(&1), true);
    assert_eq!(set.contains(&8), true);
    assert_eq!(set.contains(&9), false);
}

#[test]
fn conversion_of_reversed_input_ascends() {
    let mut set: MultiSetMut<i64> = MultiSetMut::new();
    for v in [9, 7, 5, 3, 1, -1] {
        set.insert(v);
    }
    let set = SortedSet::from(set);
    assert_eq!(set.iter(), &[-1, 1, 3, 5, 7, 9]);
}

#[test]
fn conversion_collapses_all_duplicates() {
    let mut set: MultiSetMut<char> = MultiSetMut::new();
    for c in ['b', 'a', 'b', 'b', 'a'] {
        set.insert(c);
    }
    let set = SortedSet::from(set);
    assert_eq!(set.iter(), &['a', 'b']);
    assert_eq!(set.len(), 2);
    assert!(set.contains(&'a'));
    assert!(set.contains(&'b'));
    assert!(!set.contains(&'c'));
}

#[test]
fn sorted_set_from_slice_keeps_the_slice() {
    let set: SortedSet<u64> = SortedSet::from_slice(&[(1, ()), (4, ()), (9, ())]);
    assert_eq!(set.iter(), &[1, 4, 9]);
    assert_eq!(set.len(), 3);
    assert!(set.contains(&4));
    assert!(!set.contains(&2));
}

#[test]
fn empty_sorted_set_from_slice() {
    let set: SortedSet<u64> = SortedSet::from_slice(&[]);
    assert!(set.is_empty());
    assert_eq!(set.iter(), &[] as &[u64]);
}

#[test]
fn is_empty_tracks_len_in_sorted_set() {
    let set = SortedSet::from(MultiSetMut::<u64>::new());
    assert_eq!(set.is_empty(), set.len() == 0);
    assert!(set.is_empty());
    let mut builder: MultiSetMut<u64> = MultiSetMut::new();
    builder.insert(1);
    let set = SortedSet::from(builder);
    assert_eq!(set.is_empty(), set.len() == 0);
    assert!(!set.is_empty());
}

#[test]
fn removals_in_the_builder_reach_the_sorted_set() {
    let mut builder: MultiSetMut<u64> = MultiSetMut::new();
    builder.insert(4);
    builder.insert(2);
    builder.insert(4);
    builder.remove_all(&4);
    let set = SortedSet::from(builder);
    assert_eq!(set.iter(), &[2]);
    assert!(!set.contains(&4));
}
