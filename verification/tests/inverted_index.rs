use approx::AbsDiffEq;
use set_search_experiment::inverted_index::InvertedIndex;
use set_search_experiment::{Answer, Error, FilterConfig, LinearScan, OrderedSet, Ratio, Record};

fn index_radius(r: f32) -> Ratio {
    let threshold = 1.0f32 - r.max(0.0).min(1.0);
    let scaled = (threshold * 16777216.0) as u64;
    Ratio::new(16777216 - scaled, 16777216)
}

fn index_float(dist: Ratio) -> f32 {
    1.0 - ((dist.den - dist.num) as f32) / (dist.den as f32)
}

fn index_close(answers: &[Answer], expected: &[(u32, f32)]) -> bool {
    answers.len() == expected.len()
        && answers
            .iter()
            .zip(expected)
            .all(|(a, e)| a.id == e.0 && index_float(a.dist).abs_diff_eq(&e.1, 1e-6))
}

fn index_records(sets: Vec<Vec<u32>>) -> Vec<Record<u32>> {
    sets.into_iter()
        .enumerate()
        .map(|(id, set)| Record { id: id as u32, set: OrderedSet::from_sorted(set).unwrap() })
        .collect()
}

#[test]
fn test_range_search() {
    let a = OrderedSet::from_sorted(vec![1, 2, 3]).unwrap();
    let b = OrderedSet::from_sorted(vec![1, 2, 3, 4]).unwrap();
    let c = OrderedSet::from_sorted(vec![2, 3, 4]).unwrap();
    let records = vec![
        Record { id: 0, set: a },
        Record { id: 1, set: b },
        Record { id: 2, set: c },
    ];

    let index = InvertedIndex::from_records(&records, 10, index_radius(0.5)).unwrap();
    let query = OrderedSet::from_sorted(vec![1, 2, 3]).unwrap();
    let answers = index.range_query(&query);
    assert_eq!(
        answers,
        vec![
            Answer { id: 0, dist: Ratio::new(0, 3) },
            Answer { id: 1, dist: Ratio::new(1, 4) },
            Answer { id: 2, dist: Ratio::new(2, 4) },
        ]
    );
    assert!(index_close(&answers, &[(0, 1. - 3. / 3.), (1, 1. - 3. / 4.), (2, 1. - 2. / 4.)]));

    let index = InvertedIndex::from_records(&records, 10, index_radius(0.3)).unwrap();
    let query = OrderedSet::from_sorted(vec![1, 2, 3]).unwrap();
    let answers = index.range_query(&query);
    assert_eq!(
        answers,
        vec![
            Answer { id: 0, dist: Ratio::new(0, 3) },
            Answer { id: 1, dist: Ratio::new(1, 4) },
        ]
    );
    assert!(index_close(&answers, &[(0, 1. - 3. / 3.), (1, 1. - 3. / 4.)]));

    let index = InvertedIndex::from_records(&records, 10, index_radius(0.1)).unwrap();
    let query = OrderedSet::from_sorted(vec![1, 2, 3]).unwrap();
    let answers = index.range_query(&query);
    assert_eq!(answers, vec![Answer { id: 0, dist: Ratio::new(0, 3) }]);
    assert!(index_close(&answers, &[(0, 1. - 3. / 3.)]));
}

#[test]
fn index_agrees_with_the_scan_where_no_record_is_longer_than_the_query() {
    let records = index_records(vec![
        vec![1, 2, 3],
        vec![1, 2, 3, 4],
        vec![2, 3, 4],
        vec![],
        vec![5, 6, 7, 8],
        vec![0, 9],
        vec![3],
        vec![1, 2, 4, 8],
    ]);
    let queries = vec![vec![1, 2, 3, 4], vec![0, 1, 2, 3, 4, 5, 6, 7, 8, 9], vec![2, 4, 6, 8, 9], vec![1, 2, 3, 4, 5, 7]];
    for query in queries {
        let query = OrderedSet::from_sorted(query).unwrap();
        for (num, den) in [(0u64, 1u64), (1, 10), (1, 4), (1, 3), (1, 2), (2, 3), (9, 10), (99, 100)] {
            let radius = Ratio::new(num, den);
            let scan = LinearScan::from_records(&records, 10)
                .unwrap()
                .filter_config(FilterConfig { length: true, position: true })
                .range_query(&query, radius);
            let index = InvertedIndex::from_records(&records, 10, radius).unwrap();
            assert_eq!(index.range_query(&query), scan);
        }
    }
}

#[test]
fn index_misses_a_longer_record_that_shares_no_prefix_element() {
    // The record is within the radius, yet none of its first three elements
    // is among the first two of the query.
    let records = index_records(vec![vec![1, 2, 3, 4, 5, 6]]);
    let query = OrderedSet::from_sorted(vec![4, 5, 6]).unwrap();
    let radius = Ratio::new(1, 2);
    let scan = LinearScan::from_records(&records, 10).unwrap().range_query(&query, radius);
    assert_eq!(scan, vec![Answer { id: 0, dist: Ratio::new(1, 2) }]);
    let index = InvertedIndex::from_records(&records, 10, radius).unwrap();
    assert!(index.range_query(&query).is_empty());
    // At a radius of one a record that shares nothing is never reached.
    let apart = index_records(vec![vec![7, 8]]);
    let index = InvertedIndex::from_records(&apart, 10, Ratio::one()).unwrap();
    assert!(index.range_query(&query).is_empty());
    let scan = LinearScan::from_records(&apart, 10).unwrap().range_query(&query, Ratio::one());
    assert_eq!(scan, vec![Answer { id: 0, dist: Ratio::one() }]);
}

#[test]
fn index_evaluates_every_candidate_once() {
    // All records share both prefix elements of the query.
    let records = index_records(vec![vec![1, 2], vec![1, 2], vec![1, 2, 3]]);
    let query = OrderedSet::from_sorted(vec![1, 2, 3]).unwrap();
    let index = InvertedIndex::from_records(&records, 4, Ratio::new(1, 2)).unwrap();
    let answers = index.range_query(&query);
    assert_eq!(
        answers.iter().map(|a| (a.id, a.dist.num, a.dist.den)).collect::<Vec<_>>(),
        vec![(2, 0, 3), (0, 1, 3), (1, 1, 3)]
    );
}

#[test]
fn index_refuses_an_empty_universe() {
    let records = index_records(vec![vec![1, 2, 3]]);
    assert_eq!(
        InvertedIndex::from_records(&records, 0, Ratio::new(1, 2)).err(),
        Some(Error::InvalidUniverse)
    );
}
