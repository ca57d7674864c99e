use nfa_converter::pair_table::PairTable;
use nfa_converter::state_set::StateSet;
use nfa_converter::union_find::UnionFind;
use std::collections::HashSet;

#[test]
fn state_set_keeps_elements_once_and_in_order() {
    let set = StateSet::from_vec(&vec![5, 1, 3, 1, 5, 2]);
    assert_eq!(set.to_vec(), vec![1, 2, 3, 5]);
    assert_eq!(set.len(), 4);
    assert!(!set.is_empty());
    assert!(set.contains(3));
    assert!(!set.contains(4));
}

#[test]
fn state_set_insert_reports_new_elements() {
    let mut set = StateSet::new();
    assert!(set.is_empty());
    assert!(set.insert(7));
    assert!(set.insert(2));
    assert!(!set.insert(7));
    assert!(set.insert(u32::MAX));
    assert!(set.insert(0));
    assert_eq!(set.to_vec(), vec![0, 2, 7, u32::MAX]);
    assert_eq!(set.get(2), 7);
}

#[test]
fn state_set_index_of_gives_the_rank() {
    let set = StateSet::from_vec(&vec![10, 30, 20]);
    assert_eq!(set.index_of(10), Some(0));
    assert_eq!(set.index_of(20), Some(1));
    assert_eq!(set.index_of(30), Some(2));
    assert_eq!(set.index_of(25), None);
    assert_eq!(StateSet::new().index_of(0), None);
}

#[test]
fn state_set_equality_ignores_the_order_of_insertion() {
    let a = StateSet::from_vec(&vec![3, 1, 2]);
    let b = StateSet::from_vec(&vec![1, 2, 3, 3]);
    let c = StateSet::from_vec(&vec![1, 2]);
    let d = StateSet::from_vec(&vec![1, 2, 4]);
    assert!(a.equals(&b));
    assert!(!a.equals(&c));
    assert!(!a.equals(&d));
    assert_eq!(a, b);
    assert_eq!(a.clone(), a);
}

#[test]
fn state_set_meets_a_hash_set() {
    let a = StateSet::from_vec(&vec![1, 4, 9]);
    assert!(a.meets(&HashSet::from([9, 2])));
    assert!(!a.meets(&HashSet::from([2, 3, 5])));
    assert!(!a.meets(&HashSet::new()));
    assert!(!StateSet::new().meets(&HashSet::from([1])));
}

#[test]
fn state_set_goes_to_and_from_a_hash_set() {
    let hashed = HashSet::from([8, 3, 5, 0]);
    let set = StateSet::from_hash_set(&hashed);
    assert_eq!(set.to_vec(), vec![0, 3, 5, 8]);
    assert_eq!(set.to_hash_set(), hashed);
    assert_eq!(StateSet::from_hash_set(&HashSet::new()).to_vec(), Vec::<u32>::new());
    assert_eq!(StateSet::new().to_hash_set(), HashSet::new());
}

#[test]
fn state_set_first_lists_an_initial_segment() {
    assert_eq!(StateSet::first(0).to_vec(), Vec::<u32>::new());
    assert_eq!(StateSet::first(4).to_vec(), vec![0, 1, 2, 3]);
}

#[test]
fn union_find_merges_classes_under_the_smallest_member() {
    let mut classes = UnionFind::new(6);
    for i in 0..6 {
        assert_eq!(classes.find(i), i);
    }
    classes.union(4, 2);
    classes.union(5, 4);
    classes.union(1, 3);
    assert_eq!(classes.find(5), 2);
    assert_eq!(classes.find(4), 2);
    assert_eq!(classes.find(2), 2);
    assert_eq!(classes.find(3), 1);
    assert_eq!(classes.find(0), 0);
    classes.union(3, 5);
    assert_eq!(classes.find(5), 1);
    assert_eq!(classes.find(2), 1);
    classes.union(2, 4);
    assert_eq!(classes.find(4), 1);
}

#[test]
fn pair_table_marks_are_symmetric_and_stay() {
    let mut table = PairTable::new(4);
    for i in 0..4 {
        for j in 0..4 {
            assert!(!table.is_marked(i, j));
        }
    }
    table.mark(2, 0);
    table.mark(1, 3);
    table.mark(0, 2);
    assert!(table.is_marked(0, 2));
    assert!(table.is_marked(2, 0));
    assert!(table.is_marked(3, 1));
    assert!(!table.is_marked(0, 1));
    assert!(!table.is_marked(2, 2));
}
