use skiplist::List;
use std::collections::BTreeSet;

fn level_of(list: &List<i32>, level: usize) -> Vec<i32> {
    let mut out = Vec::new();
    let mut it = list.iter_level(level);
    while let Some(e) = it.next() {
        out.push(*e);
    }
    out
}

fn is_subsequence(small: &[i32], big: &[i32]) -> bool {
    let mut at = 0;
    for x in small {
        while at < big.len() && big[at] != *x {
            at += 1;
        }
        if at == big.len() {
            return false;
        }
        at += 1;
    }
    true
}

fn strictly_ascending(v: &[i32]) -> bool {
    v.windows(2).all(|w| w[0] < w[1])
}

/// Holds the list to what a well-formed list shows from outside.
fn check_shape(list: &List<i32>, model: &BTreeSet<i32>) {
    let height = list.height();
    assert!(height >= 1);
    let ground = level_of(list, 0);
    let expected: Vec<i32> = model.iter().copied().collect();
    assert_eq!(ground, expected);
    assert!(strictly_ascending(&ground));
    assert_eq!(list.len(), model.len());
    assert_eq!(list.is_empty(), model.is_empty());
    let mut below = ground.clone();
    for level in 1..height {
        let here = level_of(list, level);
        assert!(strictly_ascending(&here));
        assert!(is_subsequence(&here, &ground));
        assert!(is_subsequence(&here, &below));
        below = here;
    }
    if height > 1 {
        assert!(!below.is_empty());
    }
    assert!(level_of(list, height).is_empty());
    assert!(level_of(list, height + 7).is_empty());
}

#[test]
fn levels_hold_the_nodes_that_reach_them() {
    let mut list = List::new();
    assert!(list.insert_with_height(10, 1));
    assert!(list.insert_with_height(20, 3));
    assert!(list.insert_with_height(30, 2));
    assert!(list.insert_with_height(40, 1));
    assert!(list.insert_with_height(50, 4));
    assert!(list.insert_with_height(25, 2));
    assert_eq!(list.height(), 4);
    assert_eq!(level_of(&list, 0), vec![10, 20, 25, 30, 40, 50]);
    assert_eq!(level_of(&list, 1), vec![20, 25, 30, 50]);
    assert_eq!(level_of(&list, 2), vec![20, 50]);
    assert_eq!(level_of(&list, 3), vec![50]);
    assert_eq!(level_of(&list, 4), Vec::<i32>::new());
}

#[test]
fn height_is_that_of_the_tallest_node() {
    let mut list = List::new();
    assert_eq!(list.height(), 1);
    assert!(list.insert_with_height(5, 3));
    assert_eq!(list.height(), 3);
    assert!(list.insert_with_height(7, 1));
    assert_eq!(list.height(), 3);
    assert!(list.insert_with_height(6, 5));
    assert_eq!(list.height(), 5);
    assert!(list.remove(&6));
    assert_eq!(list.height(), 3);
    assert!(list.remove(&7));
    assert_eq!(list.height(), 3);
    assert!(list.remove(&5));
    assert_eq!(list.height(), 1);
    assert!(list.is_empty());
}

#[test]
fn a_height_far_above_the_list_is_taken() {
    let mut list = List::new();
    assert!(list.insert_with_height(1, 1));
    assert!(list.insert_with_height(9, 40));
    assert_eq!(list.height(), 40);
    for level in 1..40 {
        assert_eq!(level_of(&list, level), vec![9]);
    }
    assert_eq!(level_of(&list, 0), vec![1, 9]);
    assert!(list.insert_with_height(4, 2));
    assert_eq!(level_of(&list, 1), vec![4, 9]);
    assert!(list.remove(&9));
    assert_eq!(list.height(), 2);
    assert_eq!(level_of(&list, 1), vec![4]);
    assert_eq!(level_of(&list, 0), vec![1, 4]);
}

#[test]
fn a_new_minimum_is_linked_from_the_head_at_every_level() {
    let mut list = List::new();
    assert!(list.insert_with_height(50, 3));
    assert!(list.insert_with_height(60, 2));
    assert!(list.insert_with_height(1, 3));
    assert_eq!(list.first(), Some(&1));
    assert_eq!(level_of(&list, 0), vec![1, 50, 60]);
    assert_eq!(level_of(&list, 1), vec![1, 50, 60]);
    assert_eq!(level_of(&list, 2), vec![1, 50]);
}

#[test]
fn a_duplicate_leaves_the_structure_as_it_was() {
    let mut list = List::new();
    assert!(list.insert_with_height(3, 2));
    assert!(list.insert_with_height(8, 1));
    assert!(!list.insert_with_height(3, 5));
    assert!(!list.insert_with_height(8, 4));
    assert!(!list.insert(3));
    assert_eq!(list.height(), 2);
    assert_eq!(list.len(), 2);
    assert_eq!(level_of(&list, 0), vec![3, 8]);
    assert_eq!(level_of(&list, 1), vec![3]);
    assert_eq!(level_of(&list, 2), Vec::<i32>::new());
}

#[test]
fn removing_an_absent_element_leaves_the_structure_as_it_was() {
    let mut list = List::new();
    assert!(list.insert_with_height(2, 1));
    assert!(list.insert_with_height(4, 3));
    assert!(list.insert_with_height(6, 2));
    let before: Vec<Vec<i32>> = (0..4).map(|level| level_of(&list, level)).collect();
    for absent in [1, 3, 5, 7, -9] {
        assert!(!list.remove(&absent));
    }
    let after: Vec<Vec<i32>> = (0..4).map(|level| level_of(&list, level)).collect();
    assert_eq!(before, after);
    assert_eq!(list.len(), 3);
    assert_eq!(list.height(), 3);
}

#[test]
fn removal_unlinks_the_node_at_each_of_its_levels() {
    let mut list = List::new();
    for (e, h) in [(1, 2), (2, 3), (3, 1), (4, 3), (5, 2)] {
        assert!(list.insert_with_height(e, h));
    }
    assert!(list.remove(&2));
    assert_eq!(level_of(&list, 0), vec![1, 3, 4, 5]);
    assert_eq!(level_of(&list, 1), vec![1, 4, 5]);
    assert_eq!(level_of(&list, 2), vec![4]);
    assert!(list.remove(&5));
    assert_eq!(level_of(&list, 0), vec![1, 3, 4]);
    assert_eq!(level_of(&list, 1), vec![1, 4]);
    assert!(list.remove(&1));
    assert_eq!(list.first(), Some(&3));
    assert_eq!(level_of(&list, 1), vec![4]);
    assert_eq!(list.height(), 3);
}

#[test]
fn clear_gives_an_empty_list_of_height_one() {
    let mut list = List::new();
    for (e, h) in [(1, 2), (2, 5), (3, 1)] {
        assert!(list.insert_with_height(e, h));
    }
    list.clear();
    assert_eq!(list.len(), 0);
    assert_eq!(list.height(), 1);
    assert!(list.is_empty());
    assert!(list.iter().next().is_none());
    assert!(list.first().is_none());
    assert!(!list.contains(&2));
    assert!(list.insert_with_height(2, 1));
    assert_eq!(level_of(&list, 0), vec![2]);
}

#[test]
fn contains_tells_what_was_inserted_and_not_removed() {
    let mut list = List::new();
    for e in [7, 3, 9, 1, 5] {
        assert!(list.insert(e));
    }
    assert!(list.remove(&9));
    assert!(list.remove(&3));
    assert!(list.insert(3));
    assert!(list.remove(&7));
    for (e, held) in [(1, true), (3, true), (5, true), (7, false), (9, false), (4, false)] {
        assert_eq!(list.contains(&e), held);
    }
}

#[test]
fn first_is_the_least_element() {
    let mut list = List::new();
    assert_eq!(list.first(), None);
    assert!(list.insert(4));
    assert_eq!(list.first(), Some(&4));
    assert!(list.insert(-2));
    assert_eq!(list.first(), Some(&-2));
    assert!(list.insert(3));
    assert_eq!(list.first(), Some(&-2));
    assert!(list.remove(&-2));
    assert_eq!(list.first(), Some(&3));
}

#[test]
fn into_iter_takes_the_elements_out_in_ascending_order() {
    let mut list = List::new();
    for (e, h) in [(30, 2), (10, 1), (20, 4)] {
        assert!(list.insert_with_height(e, h));
    }
    let mut it = list.into_iter();
    assert_eq!(it.next(), Some(10));
    assert_eq!(it.next(), Some(20));
    assert_eq!(it.next(), Some(30));
    assert_eq!(it.next(), None);
    assert_eq!(it.next(), None);
}

#[test]
fn a_traversal_ends_once_and_for_all() {
    let mut list = List::new();
    assert!(list.insert(1));
    let mut it = list.iter();
    assert_eq!(it.next(), Some(&1));
    assert_eq!(it.next(), None);
    assert_eq!(it.next(), None);
    let mut again = list.iter();
    assert_eq!(again.next(), Some(&1));
}

#[test]
fn owned_elements_are_ordered_too() {
    let mut list: List<String> = List::new();
    for word in ["pear", "apple", "quince", "fig"] {
        assert!(list.insert(word.to_string()));
    }
    assert!(!list.insert("fig".to_string()));
    assert!(list.contains(&"apple".to_string()));
    assert!(list.remove(&"pear".to_string()));
    let mut out = Vec::new();
    let mut it = list.iter();
    while let Some(w) = it.next() {
        out.push(w.clone());
    }
    assert_eq!(out, vec!["apple", "fig", "quince"]);
}

#[test]
fn freed_nodes_make_room_for_new_ones() {
    let mut list = List::new();
    let mut model = BTreeSet::new();
    for round in 0..50 {
        for e in 0..20 {
            assert!(list.insert_with_height(e + round, 1 + ((e + round) % 4) as usize));
            model.insert(e + round);
        }
        check_shape(&list, &model);
        for e in 0..20 {
            assert!(list.remove(&(e + round)));
            model.remove(&(e + round));
        }
        check_shape(&list, &model);
        assert_eq!(list.height(), 1);
    }
}

#[test]
fn any_run_of_operations_keeps_the_shape() {
    let mut list = List::new();
    let mut model = BTreeSet::new();
    let mut state: u64 = 0x2545_f491_4f6c_dd1d;
    for step in 0..3000 {
        state = state.wrapping_mul(6364136223846793005).wrapping_add(1442695040888963407);
        let key = ((state >> 33) % 97) as i32 - 48;
        let kind = (state >> 20) % 4;
        let height = 1 + ((state >> 50) % 6) as usize;
        match kind {
            0 => assert_eq!(list.insert(key), model.insert(key)),
            1 => assert_eq!(list.insert_with_height(key, height), model.insert(key)),
            _ => assert_eq!(list.remove(&key), model.remove(&key)),
        }
        assert_eq!(list.contains(&key), model.contains(&key));
        if step % 25 == 0 {
            check_shape(&list, &model);
            for probe in -50..50 {
                assert_eq!(list.contains(&probe), model.contains(&probe));
            }
        }
    }
    check_shape(&list, &model);
}

#[test]
fn an_insertion_raises_the_list_by_one_level_at_most() {
    let mut list = List::new();
    let mut model = BTreeSet::new();
    for e in 0..2000 {
        let before = list.height();
        assert!(list.insert(e * 7 % 2003));
        model.insert(e * 7 % 2003);
        let after = list.height();
        assert!(before <= after && after <= before + 1);
    }
    check_shape(&list, &model);
    assert!(list.height() > 1);
}
