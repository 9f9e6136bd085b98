use fastset::FastSet;

#[test]
fn clone() {
    let mut set1 = FastSet::new(10).unwrap();
    set1.add(3).unwrap();
    set1.add(4).unwrap();
    set1.add(5).unwrap();
    let mut set2 = FastSet::new(10).unwrap();
    let mut set3 = FastSet::new(11).unwrap();
    let mut set4 = FastSet::new(2).unwrap();
    set2.clone_from(&set1);
    set3.clone_from(&set1);
    set4.clone_from(&set1);
    let set5 = set1.clone();
    for set in &[set2, set3, set4, set5] {
        assert!(set.contains(5));
        assert!(!set.contains(6));
    }
}

#[test]
fn it_works() {
    let mut set = FastSet::new(234).unwrap();
    assert!(!set.contains(5));
    assert!(!set.contains(300));
    set.add(5).unwrap();
    set.add(3).unwrap();
    set.add(5).unwrap();
    assert!(set.contains(3));
    assert!(!set.contains(4));
    assert!(set.contains(5));
    assert_eq!(set.len(), 2);
    set.remove(3).unwrap();
    assert!(set.contains(5));
    assert!(!set.contains(3));
    assert_eq!(set.len(), 1);
    for key in &set.keys() {
        assert_eq!(*key, 5);
    }
    let other = set.clone();
    set.clear();
    assert!(!set.contains(5));
    assert!(other.contains(5));
}

#[test]
fn fresh_set_is_empty() {
    let set = FastSet::new(7).unwrap();
    assert_eq!(set.len(), 0);
    assert_eq!(set.cap(), 7);
    for k in 0..7 {
        assert!(!set.contains(k));
    }
    assert!(set.keys().is_empty());
}

#[test]
fn out_of_range_keys_are_rejected() {
    let mut set = FastSet::new(6).unwrap();
    set.add(2).unwrap();
    assert!(!set.contains(6));
    assert!(!set.contains(100));
    let add_err = set.add(6).unwrap_err();
    assert_eq!(add_err.cap, 6);
    assert_eq!(add_err.key, 6);
    let remove_err = set.remove(100).unwrap_err();
    assert_eq!(remove_err.cap, 6);
    assert_eq!(remove_err.key, 100);
    assert_eq!(set.len(), 1);
    assert!(set.contains(2));
}

fn sorted_keys(set: &FastSet) -> Vec<usize> {
    let mut ks = set.keys();
    ks.sort();
    ks
}

#[test]
fn length_tracks_distinct_keys() {
    let mut set = FastSet::new(20).unwrap();
    set.add(4).unwrap();
    assert_eq!(set.len(), 1);
    assert_eq!(sorted_keys(&set), vec![4]);
    set.add(9).unwrap();
    assert_eq!(set.len(), 2);
    assert_eq!(sorted_keys(&set), vec![4, 9]);
    set.add(4).unwrap();
    assert_eq!(set.len(), 2);
    assert_eq!(sorted_keys(&set), vec![4, 9]);
    set.add(0).unwrap();
    assert_eq!(set.len(), 3);
    assert_eq!(sorted_keys(&set), vec![0, 4, 9]);
    set.remove(9).unwrap();
    assert_eq!(set.len(), 2);
    assert_eq!(sorted_keys(&set), vec![0, 4]);
    set.remove(9).unwrap();
    assert_eq!(set.len(), 2);
    assert_eq!(sorted_keys(&set), vec![0, 4]);
    set.remove(0).unwrap();
    set.remove(4).unwrap();
    assert_eq!(set.len(), 0);
    assert_eq!(sorted_keys(&set), vec![]);
}

#[test]
fn add_twice_is_idempotent() {
    let mut once = FastSet::new(12).unwrap();
    once.add(7).unwrap();
    let mut twice = FastSet::new(12).unwrap();
    twice.add(7).unwrap();
    twice.add(7).unwrap();
    assert_eq!(once.len(), twice.len());
    assert_eq!(once.cap(), twice.cap());
    for k in 0..12 {
        assert_eq!(once.contains(k), twice.contains(k));
    }
}

#[test]
fn remove_absent_is_noop() {
    let mut set = FastSet::new(12).unwrap();
    set.add(3).unwrap();
    set.add(8).unwrap();
    set.remove(5).unwrap();
    assert_eq!(set.len(), 2);
    assert!(set.contains(3));
    assert!(set.contains(8));
    assert!(!set.contains(5));
}

#[test]
fn clone_round_trip_is_independent() {
    let mut set = FastSet::new(9).unwrap();
    set.add(1).unwrap();
    set.add(6).unwrap();
    let mut copy = set.clone();
    assert_eq!(copy.cap(), set.cap());
    for k in 0..9 {
        assert_eq!(copy.contains(k), set.contains(k));
    }
    set.add(2).unwrap();
    set.remove(6).unwrap();
    assert!(!copy.contains(2));
    assert!(copy.contains(6));
    copy.remove(1).unwrap();
    assert!(set.contains(1));
}

#[test]
fn clear_empties_but_spares_clones() {
    let mut set = FastSet::new(15).unwrap();
    set.add(10).unwrap();
    set.add(14).unwrap();
    let snapshot = set.clone();
    set.clear();
    assert_eq!(set.len(), 0);
    for k in 0..15 {
        assert!(!set.contains(k));
    }
    assert_eq!(snapshot.len(), 2);
    assert!(snapshot.contains(10));
    assert!(snapshot.contains(14));
}

#[test]
fn clone_from_preserves_membership_across_capacities() {
    let mut source = FastSet::new(10).unwrap();
    source.add(3).unwrap();
    source.add(4).unwrap();
    source.add(5).unwrap();
    let mut shrunk = FastSet::new(11).unwrap();
    shrunk.add(10).unwrap();
    let mut grown = FastSet::new(2).unwrap();
    grown.add(1).unwrap();
    let mut equal = FastSet::new(10).unwrap();
    equal.add(9).unwrap();
    shrunk.clone_from(&source);
    grown.clone_from(&source);
    equal.clone_from(&source);
    for set in &[shrunk, grown, equal] {
        assert_eq!(set.cap(), 10);
        assert_eq!(set.len(), 3);
        assert!(set.contains(3));
        assert!(set.contains(4));
        assert!(set.contains(5));
        assert!(!set.contains(6));
        assert!(!set.contains(9));
    }
}

#[test]
fn zero_capacity_set() {
    let mut set = FastSet::new(0).unwrap();
    assert_eq!(set.len(), 0);
    assert_eq!(set.cap(), 0);
    assert!(!set.contains(0));
    assert!(set.add(0).is_err());
    assert!(set.remove(0).is_err());
    assert!(set.keys().is_empty());
    let copy = set.clone();
    assert_eq!(copy.len(), 0);
}

#[test]
fn oversized_capacity_is_an_allocation_error() {
    assert!(FastSet::new(usize::MAX).is_err());
}

#[test]
fn keys_lists_each_present_key_once() {
    let mut set = FastSet::new(30).unwrap();
    set.add(2).unwrap();
    set.add(9).unwrap();
    set.add(4).unwrap();
    set.add(9).unwrap();
    assert_eq!(sorted_keys(&set), vec![2, 4, 9]);
    set.remove(9).unwrap();
    assert_eq!(sorted_keys(&set), vec![2, 4]);
}

#[test]
fn unchecked_operations_agree_with_checked_ones() {
    let mut set = FastSet::new(8).unwrap();
    set.unchecked_add(5);
    assert!(set.unchecked_contains(5));
    assert!(!set.unchecked_contains(4));
    assert!(set.contains(5));
    assert_eq!(set.len(), 1);
    set.unchecked_remove(5);
    assert!(!set.unchecked_contains(5));
    assert_eq!(set.len(), 0);
}
