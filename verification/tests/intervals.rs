use beacon_exclusion::interval::{clamp, clamp_all, discard_empty};
use beacon_exclusion::merge::{merge_intervals, merged_length};
use beacon_exclusion::sorting::{comes_before, sort_intervals};
use std::ops::Range;

fn brute_union(v: &Vec<Range<i64>>, lo: i64, hi: i64) -> i64 {
    let mut n = 0;
    for x in lo..hi {
        if v.iter().any(|r| r.start <= x && x < r.end) {
            n += 1;
        }
    }
    n
}

#[test]
fn merged_length_of_nothing_is_zero() {
    assert_eq!(merged_length(&vec![]), 0);
}

#[test]
fn merged_length_of_one_interval_is_its_length() {
    assert_eq!(merged_length(&vec![-1..18]), 19);
    assert_eq!(merged_length(&vec![5..6]), 1);
}

#[test]
fn merged_length_adjacent() {
    assert_eq!(merged_length(&vec![0..5, 5..10]), 10);
    assert_eq!(merged_length(&vec![5..10, 0..5]), 10);
}

#[test]
fn merged_length_containment() {
    assert_eq!(merged_length(&vec![0..10, 3..7]), 10);
    assert_eq!(merged_length(&vec![3..7, 0..10]), 10);
}

#[test]
fn merged_length_overlap() {
    assert_eq!(merged_length(&vec![0..6, 4..10]), 10);
    assert_eq!(merged_length(&vec![4..10, 0..6]), 10);
}

#[test]
fn merged_length_disjoint() {
    assert_eq!(merged_length(&vec![0..3, 10..14]), 7);
    assert_eq!(merged_length(&vec![10..14, 0..3]), 7);
    assert_eq!(merged_length(&vec![0..3, 4..5]), 4);
}

#[test]
fn merged_length_equal_starts() {
    assert_eq!(merged_length(&vec![2..9, 2..4, 2..6]), 7);
    assert_eq!(merged_length(&vec![2..4, 2..4]), 2);
}

#[test]
fn merged_length_ignores_empty_intervals() {
    let plain = vec![0..5, 7..9];
    assert_eq!(merged_length(&plain), 7);
    assert_eq!(merged_length(&vec![0..0, 0..5, 6..6, 7..9, 100..100]), 7);
    assert_eq!(merged_length(&vec![3..3, 0..5, 7..9, 8..8, -4..-4]), 7);
    assert_eq!(merged_length(&vec![0..0, 0..0, 0..0]), 0);
    assert_eq!(merged_length(&vec![5..6, 6..6]), 1);
}

#[test]
fn merged_length_treats_a_reversed_interval_as_empty() {
    assert_eq!(merged_length(&vec![9..2]), 0);
    assert_eq!(merged_length(&vec![9..2, 0..4]), 4);
}

#[test]
fn merged_length_negative_coordinates() {
    assert_eq!(merged_length(&vec![-10..-5, -7..-1, -1..2]), 12);
}

#[test]
fn merged_length_far_apart() {
    assert_eq!(merged_length(&vec![i64::MIN..(i64::MIN + 4), (i64::MAX - 3)..i64::MAX]), 7);
    assert_eq!(merged_length(&vec![0..i64::MAX]), i64::MAX);
    assert_eq!(merged_length(&vec![(i64::MIN + 1)..-1, -1..0]), i64::MAX);
}

#[test]
fn merged_length_matches_a_count_of_the_points() {
    let cases: Vec<Vec<Range<i64>>> = vec![
        vec![0..5, 5..10],
        vec![0..10, 3..7],
        vec![1..4, 2..3, 8..12, 11..15, 15..16, 20..20],
        vec![-6..-2, -3..3, 3..3, 4..9, 8..9, -12..-11],
        vec![7..8, 6..7, 5..6, 4..5, 3..4],
        vec![0..1, 2..3, 4..5, 6..7, 1..2],
        vec![-20..20, -1..1, 0..0, 19..21, -22..-20],
        vec![5..5],
        vec![12..3, 1..2],
    ];
    for v in cases.iter() {
        assert_eq!(merged_length(v), brute_union(v, -30, 30), "{:?}", v);
    }
}

#[test]
fn merged_length_does_not_depend_on_the_order() {
    let a = 1..4;
    let b = 3..9;
    let c = 12..14;
    let orders: Vec<Vec<Range<i64>>> = vec![
        vec![a.clone(), b.clone(), c.clone()],
        vec![a.clone(), c.clone(), b.clone()],
        vec![b.clone(), a.clone(), c.clone()],
        vec![b.clone(), c.clone(), a.clone()],
        vec![c.clone(), a.clone(), b.clone()],
        vec![c.clone(), b.clone(), a.clone()],
    ];
    for v in orders.iter() {
        assert_eq!(merged_length(v), 10);
        assert_eq!(merge_intervals(v), vec![1..9, 12..14]);
    }
}

#[test]
fn merged_length_is_the_same_on_every_call() {
    let v = vec![4..9, 0..5, 20..22, 21..30];
    let first = merged_length(&v);
    assert_eq!(first, 19);
    assert_eq!(merged_length(&v), first);
    assert_eq!(v, vec![4..9, 0..5, 20..22, 21..30]);
}

#[test]
fn merge_intervals_of_nothing_is_nothing() {
    assert_eq!(merge_intervals(&vec![]), Vec::<Range<i64>>::new());
    assert_eq!(merge_intervals(&vec![4..4, 9..1]), Vec::<Range<i64>>::new());
}

#[test]
fn merge_intervals_joins_what_touches_or_overlaps() {
    assert_eq!(merge_intervals(&vec![0..5, 5..10]), vec![0..10]);
    assert_eq!(merge_intervals(&vec![0..10, 3..7]), vec![0..10]);
    assert_eq!(merge_intervals(&vec![0..6, 4..10]), vec![0..10]);
    assert_eq!(merge_intervals(&vec![6..8, 0..2, 2..4, 7..12]), vec![0..4, 6..12]);
}

#[test]
fn merge_intervals_keeps_a_gap_of_one_cell() {
    assert_eq!(merge_intervals(&vec![0..5, 6..10]), vec![0..5, 6..10]);
    assert_eq!(merge_intervals(&vec![6..10, 0..5]), vec![0..5, 6..10]);
}

#[test]
fn merge_intervals_blocks_add_up_to_the_merged_length() {
    let v = vec![1..4, 2..3, 8..12, 11..15, 15..16, 20..20, 30..31];
    let blocks = merge_intervals(&v);
    assert_eq!(blocks, vec![1..4, 8..16, 30..31]);
    let sum: i64 = blocks.iter().map(|r| r.end - r.start).sum();
    assert_eq!(sum, merged_length(&v));
    assert_eq!(sum, 12);
}

#[test]
fn sort_intervals_orders_by_start_then_length() {
    let v = vec![5..9, 2..8, 2..3, -1..0, 5..6, 2..8];
    assert_eq!(sort_intervals(&v), vec![-1..0, 2..3, 2..8, 2..8, 5..6, 5..9]);
    assert_eq!(v.len(), 6);
}

#[test]
fn sort_intervals_small_inputs() {
    assert_eq!(sort_intervals(&vec![]), Vec::<Range<i64>>::new());
    assert_eq!(sort_intervals(&vec![3..4]), vec![3..4]);
    assert_eq!(sort_intervals(&vec![3..4, 1..2]), vec![1..2, 3..4]);
    assert_eq!(sort_intervals(&vec![1..2, 3..4]), vec![1..2, 3..4]);
    assert_eq!(sort_intervals(&vec![3..4, 1..2, 2..3]), vec![1..2, 2..3, 3..4]);
}

#[test]
fn sort_intervals_long_input() {
    let mut v: Vec<Range<i64>> = Vec::new();
    let mut x: i64 = 7;
    for _ in 0..200 {
        x = (x * 31 + 11) % 101;
        v.push(x..(x + x % 7));
    }
    let sorted = sort_intervals(&v);
    assert_eq!(sorted.len(), 200);
    for i in 1..sorted.len() {
        assert!(comes_before(&sorted[i - 1], &sorted[i]));
    }
    let mut expected = v.clone();
    expected.sort_by(|a, b| a.start.cmp(&b.start).then_with(|| a.end.cmp(&b.end)));
    assert_eq!(sorted, expected);
}

#[test]
fn comes_before_orders_by_start_then_end() {
    assert!(comes_before(&(1..5), &(2..3)));
    assert!(!comes_before(&(2..3), &(1..5)));
    assert!(comes_before(&(2..3), &(2..5)));
    assert!(!comes_before(&(2..5), &(2..3)));
    assert!(comes_before(&(2..5), &(2..5)));
}

#[test]
fn discard_empty_keeps_the_order_of_the_rest() {
    assert_eq!(discard_empty(&vec![0..0, 4..6, 3..3, 1..2, 9..2, 4..6]), vec![4..6, 1..2, 4..6]);
    assert_eq!(discard_empty(&vec![0..0]), Vec::<Range<i64>>::new());
    assert_eq!(discard_empty(&vec![]), Vec::<Range<i64>>::new());
}

#[test]
fn clamp_cuts_to_the_bounds() {
    assert_eq!(clamp(&(-3..25), 0, 20), 0..20);
    assert_eq!(clamp(&(4..9), 0, 20), 4..9);
    assert_eq!(clamp(&(-3..5), 0, 20), 0..5);
    assert_eq!(clamp(&(16..25), 0, 20), 16..20);
    assert_eq!(clamp(&(0..20), 0, 20), 0..20);
}

#[test]
fn clamp_outside_the_bounds_is_empty() {
    assert_eq!(clamp(&(30..40), 0, 20), 0..0);
    assert_eq!(clamp(&(-9..-2), 0, 20), 0..0);
    assert_eq!(clamp(&(20..25), 0, 20), 0..0);
    assert_eq!(clamp(&(-5..0), 0, 20), 0..0);
    assert_eq!(clamp(&(7..7), 0, 20), 0..0);
    assert_eq!(clamp(&(3..8), 10, 5), 0..0);
}

#[test]
fn clamp_all_cuts_each_interval() {
    assert_eq!(clamp_all(&vec![-3..25, 30..40, 4..9], 0, 20), vec![0..20, 0..0, 4..9]);
    assert_eq!(clamp_all(&vec![], 0, 20), Vec::<Range<i64>>::new());
}
