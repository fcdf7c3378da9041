use pairing_heap::forward_list::ForwardList;

fn drain(l: ForwardList<i32>) -> Vec<i32> {
    let mut it = l.into_iter();
    let mut out = Vec::new();
    while let Some(x) = it.next() {
        out.push(x);
    }
    out
}

fn collect_refs<'a>(l: &'a ForwardList<i32>) -> Vec<&'a i32> {
    let mut it = l.iter();
    let mut out = Vec::new();
    while let Some(v) = it.next() {
        out.push(v);
    }
    out
}

#[test]
fn forward_list_test() {
    let mut a = ForwardList::default();
    let mut b = ForwardList::default();
    a.push_back(5);
    a.push_back(2);
    a.push_front(3);
    b.push_front(7);
    b.push_back(1);
    b.push_back(4);
    a.append(&mut b);
    let n = a.pop_front_node().unwrap();
    a.push_back_node(n);
    assert!(b.is_empty());
    {
        let x = collect_refs(&a);
        assert!(x == vec![&5, &2, &7, &1, &4, &3]);
    }
    {
        let x = collect_refs(&a);
        assert!(x == vec![&5, &2, &7, &1, &4, &3]);
    }
    let x = drain(a);
    assert!(x == vec![5, 2, 7, 1, 4, 3]);
}

#[test]
fn append_both_non_empty() {
    let mut a = ForwardList::new();
    let mut b = ForwardList::new();
    a.push_back(1);
    a.push_back(2);
    b.push_back(3);
    b.push_back(4);
    a.append(&mut b);
    assert!(b.is_empty());
    assert_eq!(drain(a), vec![1, 2, 3, 4]);
}

#[test]
fn append_to_empty() {
    let mut a = ForwardList::new();
    let mut b = ForwardList::new();
    b.push_back(3);
    b.push_back(5);
    b.push_back(2);
    a.append(&mut b);
    assert!(b.is_empty());
    assert_eq!(drain(a), vec![3, 5, 2]);
}

#[test]
fn append_empty_source() {
    let mut a = ForwardList::new();
    let mut b = ForwardList::new();
    a.push_back(9);
    a.append(&mut b);
    assert!(b.is_empty());
    assert_eq!(drain(a), vec![9]);
}

#[test]
fn append_both_empty() {
    let mut a: ForwardList<i32> = ForwardList::new();
    let mut b = ForwardList::new();
    a.append(&mut b);
    assert!(a.is_empty());
    assert!(b.is_empty());
}

#[test]
fn pop_node_push_front_restores() {
    let mut l = ForwardList::new();
    l.push_back(1);
    l.push_back(2);
    l.push_back(3);
    let n = l.pop_front_node().unwrap();
    l.push_front_node(n);
    assert_eq!(drain(l), vec![1, 2, 3]);
}

#[test]
fn pop_node_push_back_rotates() {
    let mut l = ForwardList::new();
    l.push_back(1);
    l.push_back(2);
    l.push_back(3);
    let n = l.pop_front_node().unwrap();
    l.push_back_node(n);
    assert_eq!(drain(l), vec![2, 3, 1]);
}

#[test]
fn push_pop_front_ends() {
    let mut l = ForwardList::new();
    assert!(l.pop_front().is_none());
    assert!(l.pop_front_node().is_none());
    assert!(l.front().is_none());
    l.push_front(2);
    l.push_front(1);
    l.push_back(3);
    assert!(l.front() == Some(&1));
    assert_eq!(l.pop_front(), Some(1));
    assert_eq!(l.pop_front(), Some(2));
    assert_eq!(l.pop_front(), Some(3));
    assert_eq!(l.pop_front(), None);
    assert!(l.is_empty());
}

#[test]
fn back_and_end_mutation() {
    let mut l = ForwardList::new();
    assert!(l.back().is_none());
    assert!(l.front_mut().is_none());
    assert!(l.back_mut().is_none());
    l.push_back(1);
    l.push_back(2);
    l.push_back(3);
    assert!(l.back() == Some(&3));
    if let Some(v) = l.front_mut() {
        *v = 10;
    }
    if let Some(v) = l.back_mut() {
        *v = 30;
    }
    assert!(l.back() == Some(&30));
    assert_eq!(drain(l), vec![10, 2, 30]);
}

#[test]
fn node_value_moves_through_push_back() {
    let mut l = ForwardList::new();
    l.push_back(String::from("left"));
    l.push_back(String::from("right"));
    let n = l.pop_front_node().unwrap();
    assert_eq!(n.val, "left");
    let mut l2 = ForwardList::new();
    l2.push_back_node(n);
    assert_eq!(l2.pop_front(), Some(String::from("left")));
    assert_eq!(l.pop_front(), Some(String::from("right")));
}
