use skiplist::order::less;
use skiplist::order::same;
use skiplist::store::NodeStore;

#[test]
fn less_and_same_compare_as_the_operators_do() {
    assert!(less(&1, &2));
    assert!(!less(&2, &1));
    assert!(!less(&2, &2));
    assert!(same(&2, &2));
    assert!(!same(&2, &3));
    assert!(less(&"a", &"b"));
    assert!(same(&"a", &"a"));
}

#[test]
fn a_new_node_has_its_element_and_no_links() {
    let mut store = NodeStore::new();
    assert_eq!(store.len(), 0);
    let id = store.allocate(7, 3);
    assert_eq!(store.len(), 1);
    assert_eq!(*store.elem(id), 7);
    assert_eq!(store.height(id), 3);
    for level in 0..3 {
        assert_eq!(store.next(id, level), None);
    }
}

#[test]
fn live_identities_differ() {
    let mut store = NodeStore::new();
    let a = store.allocate('a', 1);
    let b = store.allocate('b', 2);
    let c = store.allocate('c', 1);
    assert!(a != b && b != c && a != c);
    store.release(b);
    assert_eq!(store.len(), 2);
    let d = store.allocate('d', 4);
    assert!(d != a && d != c);
    assert_eq!(store.len(), 3);
    assert_eq!(*store.elem(a), 'a');
    assert_eq!(*store.elem(c), 'c');
    assert_eq!(*store.elem(d), 'd');
    assert_eq!(store.height(d), 4);
    assert_eq!(store.next(d, 3), None);
}

#[test]
fn a_link_is_set_at_its_level_only() {
    let mut store = NodeStore::new();
    let a = store.allocate(1, 3);
    let b = store.allocate(2, 2);
    store.set_next(a, 1, Some(b));
    assert_eq!(store.next(a, 0), None);
    assert_eq!(store.next(a, 1), Some(b));
    assert_eq!(store.next(a, 2), None);
    assert_eq!(store.next(b, 0), None);
    assert_eq!(store.next(b, 1), None);
    store.set_next(a, 1, None);
    assert_eq!(store.next(a, 1), None);
    assert_eq!(*store.elem(a), 1);
}

#[test]
fn clear_frees_every_node() {
    let mut store = NodeStore::new();
    store.allocate(1, 1);
    store.allocate(2, 1);
    store.clear();
    assert_eq!(store.len(), 0);
    let id = store.allocate(3, 2);
    assert_eq!(*store.elem(id), 3);
    assert_eq!(store.len(), 1);
}
