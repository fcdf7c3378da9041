use pairing_heap::forward_list::ForwardList;
use pairing_heap::PairingHeap;
use pairing_heap::ParingNode;

fn drain(h: PairingHeap<u64>) -> Vec<u64> {
    let mut it = h.into_iter();
    let mut out = Vec::new();
    while let Some(v) = it.next() {
        out.push(v);
    }
    out
}

#[test]
fn lib_test() {
    let mut a = PairingHeap::<u64>::default();
    let mut b = PairingHeap::<u64>::default();
    a.insert(5);
    a.insert(2);
    a.insert(3);
    b.insert(7);
    b.insert(1);
    b.insert(4);
    a.merge(b);
    assert!(a.get_minium().unwrap() == &1);
    let x = drain(a);
    assert!(x == vec![1, 2, 3, 4, 5, 7]);
}

#[test]
fn from_vec_drains_sorted() {
    let h = PairingHeap::from_vec(vec![5u64, 2, 1, 7, 4, 6, 9, 2]);
    assert_eq!(drain(h), vec![1, 2, 2, 4, 5, 6, 7, 9]);
}

#[test]
fn empty_heap_is_absent() {
    let mut h = PairingHeap::<u64>::new();
    assert!(h.get_minium().is_none());
    assert!(h.pop_min().is_none());
    assert!(h.get_minium().is_none());
}

#[test]
fn find_min_tracks_minimum() {
    let mut h = PairingHeap::<u64>::new();
    h.insert(8);
    assert!(h.get_minium() == Some(&8));
    h.insert(3);
    assert!(h.get_minium() == Some(&3));
    h.insert(5);
    assert!(h.get_minium() == Some(&3));
    assert_eq!(h.pop_min(), Some(3));
    assert!(h.get_minium() == Some(&5));
    let mut other = PairingHeap::<u64>::new();
    other.insert(1);
    other.insert(9);
    h.merge(other);
    assert!(h.get_minium() == Some(&1));
    assert_eq!(h.pop_min(), Some(1));
    assert!(h.get_minium() == Some(&5));
}

#[test]
fn merge_keeps_duplicates() {
    let mut a = PairingHeap::<u64>::new();
    a.insert(2);
    a.insert(2);
    a.insert(9);
    let mut b = PairingHeap::<u64>::new();
    b.insert(2);
    b.insert(5);
    a.merge(b);
    assert_eq!(drain(a), vec![2, 2, 2, 5, 9]);
}

#[test]
fn merge_with_empty_sides() {
    let mut a = PairingHeap::<u64>::new();
    a.merge(PairingHeap::new());
    assert!(a.get_minium().is_none());
    a.merge(PairingHeap::of(4));
    assert!(a.get_minium() == Some(&4));
    a.merge(PairingHeap::new());
    assert_eq!(drain(a), vec![4]);
}

#[test]
fn extraction_is_sorted_and_counted() {
    let values: Vec<u64> = vec![13, 4, 4, 99, 0, 27, 4];
    let mut h = PairingHeap::<u64>::new();
    for v in &values {
        h.insert(*v);
    }
    let out = drain(h);
    assert_eq!(out.len(), values.len());
    for w in out.windows(2) {
        assert!(w[0] <= w[1]);
    }
    assert_eq!(out, vec![0, 4, 4, 4, 13, 27, 99]);
}

#[test]
fn add_child_moves_subtree() {
    let mut n = ParingNode::<u64>::new(3);
    let mut c = ParingNode::new(8u64);
    c.add_child(ParingNode::new(11));
    n.add_child(c);
    let h = PairingHeap::Head(n);
    assert_eq!(drain(h), vec![3, 8, 11]);
}

#[test]
fn merge_pairs_of_singletons() {
    let mut l = ForwardList::new();
    l.push_back(PairingHeap::of(6u64));
    l.push_back(PairingHeap::of(1));
    l.push_back(PairingHeap::of(4));
    l.push_back(PairingHeap::of(2));
    l.push_back(PairingHeap::of(4));
    let h = PairingHeap::merge_pairs(l);
    assert_eq!(drain(h), vec![1, 2, 4, 4, 6]);
}

#[test]
fn merge_pairs_of_nothing() {
    let l = ForwardList::<PairingHeap<u64>>::new();
    let mut h = PairingHeap::merge_pairs(l);
    assert!(h.pop_min().is_none());
}

#[test]
fn of_holds_one_value() {
    let mut h = PairingHeap::of(7u64);
    assert!(h.get_minium() == Some(&7));
    assert_eq!(h.pop_min(), Some(7));
    assert!(h.pop_min().is_none());
}

#[test]
fn into_iter_on_empty() {
    let mut it = PairingHeap::<u64>::new().into_iter();
    assert!(it.next().is_none());
    assert!(it.next().is_none());
}

#[test]
fn largest_values_survive() {
    let mut h = PairingHeap::<u64>::new();
    h.insert(u64::MAX);
    h.insert(0);
    h.insert(u64::MAX - 1);
    assert_eq!(drain(h), vec![0, u64::MAX - 1, u64::MAX]);
}
