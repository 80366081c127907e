use std::cmp::Ordering;

use set_search_experiment::answer::Answer;
use set_search_experiment::bounds::{length_bounds, overlap_threshold_for, threshold, LENGTH_MAX};
use set_search_experiment::inverted_index::{complement_of, index_prefix_len_of, query_prefix_len_of};
use set_search_experiment::order::larger_first;
use set_search_experiment::overlap::count_common;
use set_search_experiment::ratio::wide_product;
use set_search_experiment::topk::insert_answer;
use set_search_experiment::{OrderedSet, Ratio};

fn parts(r: Ratio) -> (u64, u64) {
    (r.num, r.den)
}

#[test]
fn threshold_is_one_minus_the_clamped_radius() {
    assert_eq!(parts(threshold(Ratio::new(33, 100))), (67, 100));
    assert_eq!(parts(threshold(Ratio::new(0, 7))), (7, 7));
    assert_eq!(parts(threshold(Ratio::new(1, 1))), (0, 1));
    assert_eq!(parts(threshold(Ratio::new(5, 2))), (0, 1));
    assert_eq!(parts(threshold(Ratio::infinity())), (0, 1));
    assert_eq!(parts(threshold(Ratio::new(0, 0))), (0, 1));
    assert_eq!(parts(complement_of(Ratio::new(67, 100))), (33, 100));
    assert_eq!(parts(complement_of(Ratio::new(0, 1))), (1, 1));
}

#[test]
fn overlap_threshold_rounds_up() {
    // 0.67 * 10 / 1.67 = 4.01...
    assert_eq!(overlap_threshold_for(Ratio::new(67, 100), 10), 5);
    // 0.66 * 10 / 1.66 = 3.97...
    assert_eq!(overlap_threshold_for(Ratio::new(66, 100), 10), 4);
    // 0.5 * 6 / 1.5 = 2 exactly
    assert_eq!(overlap_threshold_for(Ratio::new(1, 2), 6), 2);
    assert_eq!(overlap_threshold_for(Ratio::new(1, 2), 7), 3);
    assert_eq!(overlap_threshold_for(Ratio::new(1, 1), 10), 5);
    assert_eq!(overlap_threshold_for(Ratio::new(0, 1), 10), 0);
    assert_eq!(overlap_threshold_for(Ratio::new(1, 3), 0), 0);
    assert_eq!(overlap_threshold_for(Ratio::new(u64::MAX, u64::MAX), u64::MAX), 1 << 63);
}

#[test]
fn length_bounds_round_inwards() {
    // 5 * 0.67 = 3.35 and 5 / 0.67 = 7.46...
    assert_eq!(length_bounds(Ratio::new(67, 100), 5), (4, 7));
    // 2 * 0.67 = 1.34 and 2 / 0.67 = 2.98...
    assert_eq!(length_bounds(Ratio::new(67, 100), 2), (2, 2));
    // 2 * 0.66 = 1.32 and 2 / 0.66 = 3.03...
    assert_eq!(length_bounds(Ratio::new(66, 100), 2), (2, 3));
    assert_eq!(length_bounds(Ratio::new(1, 1), 5), (5, 5));
    assert_eq!(length_bounds(Ratio::new(0, 1), 5), (0, LENGTH_MAX));
    assert_eq!(length_bounds(Ratio::new(1, u64::MAX), u64::MAX), (1, LENGTH_MAX));
    assert_eq!(length_bounds(Ratio::new(1, 2), 0), (0, 0));
}

#[test]
fn prefix_lengths_round_down_and_add_one() {
    // 6 * 0.5 / 1.5 = 2
    assert_eq!(index_prefix_len_of(Ratio::new(1, 2), 6), 3);
    // 3 * 0.5 = 1.5
    assert_eq!(query_prefix_len_of(Ratio::new(1, 2), 3), 2);
    assert_eq!(index_prefix_len_of(Ratio::new(1, 1), 6), 1);
    assert_eq!(query_prefix_len_of(Ratio::new(1, 1), 6), 1);
    assert_eq!(index_prefix_len_of(Ratio::new(0, 1), 6), 6);
    assert_eq!(query_prefix_len_of(Ratio::new(0, 1), 6), 6);
    assert_eq!(index_prefix_len_of(Ratio::new(7, 10), 10), 2);
    assert_eq!(query_prefix_len_of(Ratio::new(7, 10), 10), 4);
    assert_eq!(index_prefix_len_of(Ratio::new(1, 2), 0), 0);
    assert_eq!(query_prefix_len_of(Ratio::new(1, 2), 0), 0);
}

#[test]
fn common_elements_are_counted() {
    let a = OrderedSet::<u32>::from_unsorted(vec![1, 2, 3, 4, 5]);
    let b = OrderedSet::<u32>::from_unsorted(vec![3, 4, 5, 6, 7]);
    let none = OrderedSet::<u32>::new();
    assert_eq!(count_common(&a, &b), 3);
    assert_eq!(count_common(&b, &a), 3);
    assert_eq!(count_common(&a, &a), 5);
    assert_eq!(count_common(&a, &none), 0);
    assert_eq!(count_common(&none, &none), 0);
    let far = OrderedSet::<u32>::from_unsorted(vec![0, u32::MAX]);
    assert_eq!(count_common(&far, &OrderedSet::from_unsorted(vec![u32::MAX])), 1);
}

#[test]
fn wide_product_does_not_overflow() {
    assert_eq!(wide_product(u64::MAX, u64::MAX), (u64::MAX as u128) * (u64::MAX as u128));
    assert_eq!(wide_product(0, u64::MAX), 0);
    assert_eq!(wide_product(3, 5), 15);
}

#[test]
fn answers_enter_behind_their_equals() {
    let mut kept = vec![
        Answer { id: 1, dist: Ratio::new(0, 1) },
        Answer { id: 4, dist: Ratio::new(1, 2) },
        Answer { id: 9, dist: Ratio::new(1, 2) },
    ];
    insert_answer(&mut kept, Answer { id: 6, dist: Ratio::new(2, 4) });
    insert_answer(&mut kept, Answer { id: 0, dist: Ratio::new(1, 3) });
    insert_answer(&mut kept, Answer { id: 0, dist: Ratio::new(1, 1) });
    insert_answer(&mut kept, Answer { id: 4, dist: Ratio::new(3, 6) });
    assert_eq!(
        kept.iter().map(|a| (a.id, a.dist.num, a.dist.den)).collect::<Vec<_>>(),
        vec![(1, 0, 1), (0, 1, 3), (4, 1, 2), (4, 3, 6), (6, 2, 4), (9, 1, 2), (0, 1, 1)]
    );
    let first = Answer { id: 1, dist: Ratio::new(1, 2) };
    assert_eq!(first.order(&Answer { id: 2, dist: Ratio::new(1, 2) }), Ordering::Less);
    assert_eq!(first.order(&Answer { id: 1, dist: Ratio::new(2, 4) }), Ordering::Equal);
    assert_eq!(first.order(&Answer { id: 0, dist: Ratio::new(1, 3) }), Ordering::Greater);
    assert!(first.comes_before(&Answer { id: 0, dist: Ratio::infinity() }));
    assert!(!first.comes_before(&first));
}

#[test]
fn larger_numbers_come_first() {
    assert_eq!(larger_first(&3, &1), Ordering::Less);
    assert_eq!(larger_first(&1, &3), Ordering::Greater);
    assert_eq!(larger_first(&2, &2), Ordering::Equal);
}
