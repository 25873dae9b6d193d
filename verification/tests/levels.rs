use skiplist::level::level_for_flips;
use skiplist::level::pick_level;

#[test]
fn a_level_is_at_least_one_and_at_most_one_above_the_list() {
    for current in [0usize, 1, 2, 3, 8, 31] {
        for _ in 0..500 {
            let h = pick_level(current);
            assert!(h >= 1);
            assert!(h <= current + 1);
        }
    }
}

#[test]
fn a_list_without_levels_gets_height_one() {
    for _ in 0..200 {
        assert_eq!(pick_level(0), 1);
    }
}

#[test]
fn the_greatest_height_is_no_trap() {
    for _ in 0..200 {
        let h = pick_level(usize::MAX);
        assert!(h >= 1);
    }
}

#[test]
fn both_outcomes_of_the_coin_occur() {
    let mut ones = 0;
    let mut others = 0;
    for _ in 0..1000 {
        if pick_level(1) == 1 {
            ones += 1;
        } else {
            others += 1;
        }
    }
    assert!(ones > 0);
    assert!(others > 0);
}

#[test]
fn heights_follow_a_geometric_distribution() {
    let draws = 40000;
    let mut counts = [0usize; 6];
    for _ in 0..draws {
        let h = pick_level(64);
        if h <= 5 {
            counts[h] += 1;
        }
    }
    let share = |n: usize| n as f64 / draws as f64;
    assert!((share(counts[1]) - 0.5).abs() < 0.03);
    assert!((share(counts[2]) - 0.25).abs() < 0.03);
    assert!((share(counts[3]) - 0.125).abs() < 0.02);
    assert!((share(counts[4]) - 0.0625).abs() < 0.02);
    assert!(counts[1] > counts[2] && counts[2] > counts[3] && counts[3] > counts[4]);
}

#[test]
fn each_heads_before_the_first_tails_climbs_one_level() {
    assert_eq!(level_for_flips(&vec![], 5), 1);
    assert_eq!(level_for_flips(&vec![false], 5), 1);
    assert_eq!(level_for_flips(&vec![false, true, true], 5), 1);
    assert_eq!(level_for_flips(&vec![true, false], 5), 2);
    assert_eq!(level_for_flips(&vec![true, true, false, true], 5), 3);
    assert_eq!(level_for_flips(&vec![true, true, true], 5), 4);
}

#[test]
fn the_climb_ends_one_level_above_the_list() {
    assert_eq!(level_for_flips(&vec![true; 10], 3), 4);
    assert_eq!(level_for_flips(&vec![true, true, true], 3), 4);
    assert_eq!(level_for_flips(&vec![true, true, true, false], 2), 3);
    assert_eq!(level_for_flips(&vec![true], 1), 2);
    assert_eq!(level_for_flips(&vec![true, true], 0), 1);
    assert_eq!(level_for_flips(&vec![], 0), 1);
}
