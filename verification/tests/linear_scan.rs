use approx::AbsDiffEq;
use set_search_experiment::metric::Evaluation;
use set_search_experiment::{Answer, Error, FilterConfig, LinearScan, OrderedSet, Ratio, Record};

fn scan_radius(r: f32) -> Ratio {
    let threshold = 1.0f32 - r.max(0.0).min(1.0);
    let scaled = (threshold * 16777216.0) as u64;
    Ratio::new(16777216 - scaled, 16777216)
}

fn scan_float(dist: Ratio) -> f32 {
    if dist.den == 0 {
        f32::INFINITY
    } else {
        1.0 - ((dist.den - dist.num) as f32) / (dist.den as f32)
    }
}

fn scan_close(answers: &[Answer], expected: &[(u32, f32)]) -> bool {
    answers.len() == expected.len()
        && answers
            .iter()
            .zip(expected)
            .all(|(a, e)| a.id == e.0 && scan_float(a.dist).abs_diff_eq(&e.1, 1e-6))
}

fn scan_records(sets: Vec<Vec<u32>>) -> Vec<Record<u32>> {
    sets.into_iter()
        .enumerate()
        .map(|(id, set)| Record { id: id as u32, set: OrderedSet::from_sorted(set).unwrap() })
        .collect()
}

fn both_filters() -> FilterConfig {
    FilterConfig { length: true, position: true }
}

#[test]
fn test_all_distances() {
    let a = OrderedSet::from_sorted(vec![1, 2, 3]).unwrap();
    let b = OrderedSet::from_sorted(vec![2, 3, 4, 5]).unwrap();
    let c = OrderedSet::from_sorted(vec![3, 4, 5, 6, 7]).unwrap();
    let records = vec![
        Record { id: 0, set: a },
        Record { id: 1, set: b },
        Record { id: 2, set: c },
    ];
    let index = LinearScan::from_records(&records, 10).unwrap();

    let query = OrderedSet::from_sorted(vec![1, 2, 3]).unwrap();
    let answers = index.all_distances(&query);
    assert_eq!(
        answers,
        vec![
            Answer { id: 0, dist: Ratio::new(0, 3) },
            Answer { id: 1, dist: Ratio::new(3, 5) },
            Answer { id: 2, dist: Ratio::new(6, 7) },
        ]
    );
    assert!(scan_close(&answers, &[(0, 1. - 3. / 3.), (1, 1. - 2. / 5.), (2, 1. - 1. / 7.)]));

    let query = OrderedSet::from_sorted(vec![5, 7, 9]).unwrap();
    let answers = index.all_distances(&query);
    assert_eq!(
        answers,
        vec![
            Answer { id: 0, dist: Ratio::new(6, 6) },
            Answer { id: 1, dist: Ratio::new(5, 6) },
            Answer { id: 2, dist: Ratio::new(4, 6) },
        ]
    );
    assert!(scan_close(&answers, &[(0, 1. - 0. / 6.), (1, 1. - 1. / 6.), (2, 1. - 2. / 6.)]));
}

#[test]
fn all_distances_is_infinite_where_both_are_empty() {
    let records = scan_records(vec![vec![], vec![4], vec![]]);
    let index = LinearScan::from_records(&records, 10).unwrap();
    let answers = index.all_distances(&OrderedSet::new());
    assert_eq!(answers.len(), 3);
    assert!(answers[0].dist.is_infinite());
    assert_eq!(answers[1].dist, Ratio::one());
    assert!(answers[2].dist.is_infinite());
    assert_eq!(scan_float(answers[0].dist), f32::INFINITY);
    assert_eq!(answers.iter().map(|a| a.id).collect::<Vec<_>>(), vec![0, 1, 2]);
}

#[test]
fn range_query_scenarios() {
    let records = scan_records(vec![vec![1, 2, 3], vec![1, 2, 3, 4], vec![2, 3, 4]]);
    let index = LinearScan::from_records(&records, 10).unwrap().filter_config(both_filters());
    let query = OrderedSet::from_sorted(vec![1, 2, 3]).unwrap();

    let answers = index.range_query(&query, scan_radius(0.5));
    assert!(scan_close(&answers, &[(0, 0.0), (1, 0.25), (2, 0.5)]));
    assert_eq!(
        answers,
        vec![
            Answer { id: 0, dist: Ratio::new(0, 1) },
            Answer { id: 1, dist: Ratio::new(1, 4) },
            Answer { id: 2, dist: Ratio::new(1, 2) },
        ]
    );

    let answers = index.range_query(&query, scan_radius(0.3));
    assert!(scan_close(&answers, &[(0, 0.0), (1, 0.25)]));

    let answers = index.range_query(&query, scan_radius(0.1));
    assert!(scan_close(&answers, &[(0, 0.0)]));
}

#[test]
fn range_query_does_not_depend_on_the_filters() {
    let records = scan_records(vec![
        vec![1, 2, 3],
        vec![1, 2, 3, 4],
        vec![2, 3, 4],
        vec![],
        vec![5, 6, 7, 8, 9],
        vec![0, 1, 2, 3, 4, 5, 6, 7, 8, 9],
        vec![3],
    ]);
    let queries = vec![vec![1, 2, 3], vec![], vec![3, 4, 5, 6], vec![9], vec![0, 1, 2, 3, 4, 5, 6, 7, 8, 9]];
    for query in queries {
        let query = OrderedSet::from_sorted(query).unwrap();
        for (num, den) in [(0u64, 1u64), (1, 10), (1, 4), (1, 2), (2, 3), (9, 10), (1, 1), (3, 2)] {
            let radius = Ratio::new(num, den);
            let plain = LinearScan::from_records(&records, 10).unwrap().range_query(&query, radius);
            for (length, position) in [(true, false), (false, true), (true, true)] {
                let index = LinearScan::from_records(&records, 10)
                    .unwrap()
                    .filter_config(FilterConfig { length, position });
                assert_eq!(index.range_query(&query, radius), plain);
            }
            for pair in plain.windows(2) {
                assert!(pair[0] <= pair[1]);
                assert!(!pair[1].dist.less_than(&pair[0].dist));
            }
            for answer in &plain {
                assert!(!radius.less_than(&answer.dist));
            }
        }
    }
}

#[test]
fn answers_are_ordered_by_distance_then_identifier() {
    let records = vec![
        Record { id: 9, set: OrderedSet::from_sorted(vec![1, 2]).unwrap() },
        Record { id: 4, set: OrderedSet::from_sorted(vec![1, 3]).unwrap() },
        Record { id: 7, set: OrderedSet::from_sorted(vec![1]).unwrap() },
        Record { id: 2, set: OrderedSet::from_sorted(vec![2, 3]).unwrap() },
    ];
    let index = LinearScan::from_records(&records, 4).unwrap();
    let query = OrderedSet::from_sorted(vec![1]).unwrap();
    let answers = index.range_query(&query, Ratio::one());
    assert_eq!(
        answers.iter().map(|a| (a.id, a.dist.num, a.dist.den)).collect::<Vec<_>>(),
        vec![(7, 0, 1), (4, 1, 2), (9, 1, 2), (2, 3, 3)]
    );
    assert!(Answer { id: 4, dist: Ratio::new(1, 2) } < Answer { id: 9, dist: Ratio::new(2, 4) });
    assert!(Answer { id: 9, dist: Ratio::new(1, 3) } < Answer { id: 4, dist: Ratio::new(1, 2) });
    assert_eq!(Answer { id: 4, dist: Ratio::new(1, 2) }, Answer { id: 4, dist: Ratio::new(3, 6) });
    assert_ne!(Answer { id: 4, dist: Ratio::new(1, 2) }, Answer { id: 5, dist: Ratio::new(1, 2) });
}

#[test]
fn topk_returns_the_nearest() {
    let records = scan_records(vec![
        vec![5, 6, 7],
        vec![1, 2, 3, 4],
        vec![1, 2, 3],
        vec![2, 3, 4],
        vec![1, 2],
        vec![1, 2, 3, 8, 9],
    ]);
    let query = OrderedSet::from_sorted(vec![1, 2, 3]).unwrap();
    for (length, position) in [(false, false), (true, false), (false, true), (true, true)] {
        let index = LinearScan::from_records(&records, 10)
            .unwrap()
            .filter_config(FilterConfig { length, position });
        let all = index.all_distances(&query);
        for k in 0..9 {
            let top = index.topk_query(&query, k);
            assert_eq!(top.len(), k.min(records.len()));
            for pair in top.windows(2) {
                assert!(pair[0] <= pair[1]);
            }
            for answer in &all {
                let returned = top.iter().any(|t| t.id == answer.id);
                if !returned {
                    for t in &top {
                        assert!(!answer.dist.less_than(&t.dist));
                    }
                }
            }
        }
        let top = index.topk_query(&query, 3);
        assert_eq!(
            top,
            vec![
                Answer { id: 2, dist: Ratio::new(0, 1) },
                Answer { id: 1, dist: Ratio::new(1, 4) },
                Answer { id: 4, dist: Ratio::new(1, 3) },
            ]
        );
    }
}

#[test]
fn topk_keeps_the_first_of_equally_far_records() {
    let records = vec![
        Record { id: 5, set: OrderedSet::from_sorted(vec![1, 4]).unwrap() },
        Record { id: 3, set: OrderedSet::from_sorted(vec![1, 5]).unwrap() },
        Record { id: 9, set: OrderedSet::from_sorted(vec![1, 6]).unwrap() },
        Record { id: 1, set: OrderedSet::from_sorted(vec![1]).unwrap() },
    ];
    let index = LinearScan::from_records(&records, 10).unwrap();
    let query = OrderedSet::from_sorted(vec![1]).unwrap();
    let top = index.topk_query(&query, 2);
    assert_eq!(
        top.iter().map(|a| (a.id, a.dist.num, a.dist.den)).collect::<Vec<_>>(),
        vec![(1, 0, 1), (3, 1, 2)]
    );
}

#[test]
fn topk_passes_over_records_without_a_distance() {
    let records = scan_records(vec![vec![], vec![1], vec![]]);
    let index = LinearScan::from_records(&records, 10).unwrap();
    let top = index.topk_query(&OrderedSet::new(), 3);
    assert_eq!(top, vec![Answer { id: 1, dist: Ratio::one() }]);
    assert!(index.topk_query(&OrderedSet::new(), 0).is_empty());
}

#[test]
fn evaluate_classifies_every_record() {
    let records = scan_records(vec![vec![1, 2, 3, 4, 5], vec![2, 3, 4, 5, 6], vec![1, 2], vec![]]);
    let index = LinearScan::from_records(&records, 10)
        .unwrap()
        .filter_config(FilterConfig { length: true, position: false });
    let query = OrderedSet::from_sorted(vec![1, 2, 3, 4, 5]).unwrap();
    let evaluations = index.evaluate(&query, scan_radius(0.33));
    assert_eq!(
        evaluations,
        vec![
            Evaluation::Accepted(Ratio::zero()),
            Evaluation::Verified,
            Evaluation::LengthFiltered,
            Evaluation::Verified,
        ]
    );
    let evaluations = index.evaluate(&OrderedSet::new(), scan_radius(1.0));
    assert_eq!(evaluations[3], Evaluation::Undefined);
    assert_eq!(evaluations[2], Evaluation::Accepted(Ratio::one()));
}

#[test]
fn linear_scan_refuses_an_empty_universe() {
    let records = scan_records(vec![vec![1, 2, 3]]);
    assert_eq!(LinearScan::from_records(&records, 0).err(), Some(Error::InvalidUniverse));
}
