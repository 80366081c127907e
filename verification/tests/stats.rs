use set_search_experiment::metric::Evaluation;
use set_search_experiment::stats::{count_evaluations, elem_freqs, evaluate_range_search, lengths};
use set_search_experiment::{FilterConfig, LinearScan, OrderedSet, Ratio, Record};

fn stat_sets(sets: Vec<Vec<u32>>) -> Vec<OrderedSet<u32>> {
    sets.into_iter().map(OrderedSet::from_unsorted).collect()
}

#[test]
fn lengths_of_the_sets() {
    let sets = stat_sets(vec![vec![1, 2, 3], vec![], vec![9, 9, 4]]);
    assert_eq!(lengths(&sets), vec![3, 0, 2]);
    assert!(lengths(&[]).is_empty());
}

#[test]
fn element_frequencies_descend() {
    let sets = stat_sets(vec![vec![1, 2, 3], vec![2, 3], vec![3], vec![7, 3], vec![]]);
    // 3 occurs four times, 2 twice, 1 and 7 once
    assert_eq!(elem_freqs(&sets), vec![4, 2, 1, 1]);
    assert!(elem_freqs(&[]).is_empty());
    assert!(elem_freqs(&stat_sets(vec![vec![], vec![]])).is_empty());
}

#[test]
fn evaluations_are_counted_by_kind() {
    let evaluations = vec![
        Evaluation::Accepted(Ratio::new(1, 2)),
        Evaluation::Verified,
        Evaluation::LengthFiltered,
        Evaluation::Accepted(Ratio::zero()),
        Evaluation::Undefined,
        Evaluation::PositionFiltered,
        Evaluation::Verified,
        Evaluation::Verified,
    ];
    let counter = count_evaluations(&evaluations);
    assert_eq!(counter.accepted, 2);
    assert_eq!(counter.verified, 3);
    assert_eq!(counter.length_filtered, 1);
    assert_eq!(counter.position_filtered, 1);
    assert_eq!(counter.undefined, 1);
}

#[test]
fn range_search_is_counted_per_query() {
    let records: Vec<Record<u32>> = vec![vec![1, 2, 3, 4, 5], vec![2, 3, 4, 5, 6], vec![1, 2], vec![]]
        .into_iter()
        .enumerate()
        .map(|(id, set)| Record { id: id as u32, set: OrderedSet::from_sorted(set).unwrap() })
        .collect();
    let queries = stat_sets(vec![vec![1, 2, 3, 4, 5], vec![]]);
    let radius = Ratio::new(33, 100);
    let plain = LinearScan::from_records(&records, 10).unwrap();
    let counters = evaluate_range_search(&plain, &queries, radius);
    assert_eq!(counters.len(), 2);
    assert_eq!((counters[0].accepted, counters[0].verified), (1, 3));
    assert_eq!(counters[0].length_filtered + counters[0].position_filtered, 0);
    assert_eq!((counters[1].undefined, counters[1].verified), (1, 3));
    let filtered = plain.filter_config(FilterConfig { length: true, position: true });
    let counters = evaluate_range_search(&filtered, &queries, radius);
    assert_eq!(counters[0].accepted, 1);
    assert_eq!(counters[0].length_filtered, 1);
    assert_eq!(counters[0].position_filtered, 1);
    assert_eq!(counters[0].verified, 1);
    assert_eq!(counters[0].undefined, 0);
}
