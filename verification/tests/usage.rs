use skiplist::List;

fn collect(list: &List<i32>) -> Vec<i32> {
    let mut out = Vec::new();
    let mut it = list.iter();
    while let Some(e) = it.next() {
        out.push(*e);
    }
    out
}

#[test]
fn insert_yields_ascending_order() {
    let mut list = List::new();
    assert!(list.insert(5));
    assert!(list.insert(3));
    assert!(list.insert(8));
    assert!(list.insert(1));
    assert_eq!(collect(&list), vec![1, 3, 5, 8]);
    assert_eq!(list.len(), 4);
}

#[test]
fn second_insert_is_refused() {
    let mut list = List::new();
    assert!(list.insert(5));
    assert!(!list.insert(5));
    assert_eq!(list.len(), 1);
    assert_eq!(collect(&list), vec![5]);
}

#[test]
fn remove_takes_the_element_out_once() {
    let mut list = List::new();
    for e in [1, 3, 5, 8] {
        assert!(list.insert(e));
    }
    assert!(list.remove(&3));
    assert_eq!(collect(&list), vec![1, 5, 8]);
    assert!(!list.remove(&3));
    assert_eq!(collect(&list), vec![1, 5, 8]);
    assert_eq!(list.len(), 3);
}

#[test]
fn empty_list_contains_nothing() {
    let list: List<i32> = List::new();
    for x in [i32::MIN, -1, 0, 1, 42, i32::MAX] {
        assert!(!list.contains(&x));
    }
    assert_eq!(list.len(), 0);
    assert!(list.is_empty());
}

#[test]
fn insert_then_remove_leaves_an_empty_list() {
    let mut list = List::new();
    assert!(list.insert(10));
    assert!(list.remove(&10));
    assert_eq!(list.len(), 0);
    assert_eq!(list.height(), 1);
    assert!(list.iter().next().is_none());
    assert!(list.is_empty());
}
