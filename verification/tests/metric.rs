use approx::AbsDiffEq;
use set_search_experiment::metric::{Evaluation, Jaccard};
use set_search_experiment::{FilterConfig, OrderedSet, Ratio};

/// The radius as single precision holds it: `1 - r`, clamped, is an exact
/// multiple of 2^-24 there, and the fraction keeps that threshold.
fn radius(r: f32) -> Ratio {
    let threshold = 1.0f32 - r.max(0.0).min(1.0);
    let scaled = (threshold * 16777216.0) as u64;
    Ratio::new(16777216 - scaled, 16777216)
}

fn as_float(dist: Ratio) -> f32 {
    1.0 - ((dist.den - dist.num) as f32) / (dist.den as f32)
}

fn close(dist: Ratio, expected: f32) -> bool {
    as_float(dist).abs_diff_eq(&expected, 1e-6)
}

fn accepted_distance(evaluation: Evaluation) -> Ratio {
    match evaluation {
        Evaluation::Accepted(dist) => dist,
        other => panic!("not accepted: {:?}", other),
    }
}

#[test]
fn test_jaccard() {
    let a = OrderedSet::<u32>::from_unsorted(vec![1, 2, 3, 4, 5]);
    let b = OrderedSet::<u32>::from_unsorted(vec![3, 4, 5, 6, 7]);
    let jaccard = Jaccard::new(&a, radius(1.0), FilterConfig::default());
    let dist = jaccard.distance(&b).unwrap();
    assert!(as_float(dist).abs_diff_eq(&(1. - 3. / 7.), f32::default_epsilon()));
    assert_eq!(dist, Ratio::new(4, 7));
    assert_eq!((dist.num, dist.den), (4, 7));
}

#[test]
fn test_length_filter_1() {
    let cfg = FilterConfig { length: true, position: false };

    // J(a,b) = 1 - 4/6 = 0.333...
    let a = OrderedSet::<u32>::from_unsorted(vec![1, 2, 3, 4, 5]);
    let b = OrderedSet::<u32>::from_unsorted(vec![2, 3, 4, 5, 6]);

    // length bounds 4..=7
    assert_eq!(Jaccard::new(&a, radius(0.33), cfg).evaluate(&b), Evaluation::Verified);

    // length bounds 4..=7
    let accepted = Jaccard::new(&a, radius(0.34), cfg).evaluate(&b);
    assert_eq!(accepted, Evaluation::Accepted(Ratio::new(1, 3)));
    assert!(close(accepted_distance(accepted), 1. / 3.));
}

#[test]
fn test_length_filter_2() {
    let cfg = FilterConfig { length: true, position: false };

    // J(a,b) = 1 - 2/3 = 0.333...
    let a = OrderedSet::<u32>::from_unsorted(vec![1, 2]);
    let b = OrderedSet::<u32>::from_unsorted(vec![1, 2, 3]);

    // length bounds 2..=2
    assert_eq!(Jaccard::new(&a, radius(0.33), cfg).evaluate(&b), Evaluation::LengthFiltered);

    // length bounds 2..=3
    let accepted = Jaccard::new(&a, radius(0.34), cfg).evaluate(&b);
    assert_eq!(accepted, Evaluation::Accepted(Ratio::new(1, 3)));
    assert!(close(accepted_distance(accepted), 1. / 3.));
}

#[test]
fn test_position_filter_1() {
    let cfg = FilterConfig { length: false, position: true };

    // J(a,b) = 1 - 4/6 = 0.333...
    let a = OrderedSet::<u32>::from_unsorted(vec![1, 2, 3, 4, 5]);
    let b = OrderedSet::<u32>::from_unsorted(vec![2, 3, 4, 5, 6]);

    // overlap threshold 5; after the first step: no hit, suffixes 4 and 5
    assert_eq!(Jaccard::new(&a, radius(0.33), cfg).evaluate(&b), Evaluation::PositionFiltered);

    // overlap threshold 4
    let accepted = Jaccard::new(&a, radius(0.34), cfg).evaluate(&b);
    assert_eq!(accepted, Evaluation::Accepted(Ratio::new(1, 3)));
    assert!(close(accepted_distance(accepted), 1. / 3.));
}

#[test]
fn test_position_filter_2() {
    let cfg = FilterConfig { length: false, position: true };

    // J(a,b) = 1 - 4/6 = 0.333...
    let a = OrderedSet::<u32>::from_unsorted(vec![2, 3, 4, 5, 6]);
    let b = OrderedSet::<u32>::from_unsorted(vec![2, 3, 4, 5, 7]);

    // overlap threshold 5; after the fifth step: 4 hits, suffixes 0 and 1
    assert_eq!(Jaccard::new(&a, radius(0.33), cfg).evaluate(&b), Evaluation::PositionFiltered);

    // overlap threshold 4
    let accepted = Jaccard::new(&a, radius(0.34), cfg).evaluate(&b);
    assert_eq!(accepted, Evaluation::Accepted(Ratio::new(1, 3)));
    assert!(close(accepted_distance(accepted), 1. / 3.));
}

#[test]
fn test_position_filter_3() {
    let cfg = FilterConfig { length: false, position: true };

    // J(a,b) = 1 - 1/3 = 0.666...
    let a = OrderedSet::<u32>::from_unsorted(vec![1]);
    let b = OrderedSet::<u32>::from_unsorted(vec![1, 2, 3]);

    // overlap threshold 2
    assert_eq!(Jaccard::new(&a, radius(0.66), cfg).evaluate(&b), Evaluation::PositionFiltered);

    // overlap threshold 1
    let accepted = Jaccard::new(&a, radius(0.67), cfg).evaluate(&b);
    assert_eq!(accepted, Evaluation::Accepted(Ratio::new(2, 3)));
    assert!(close(accepted_distance(accepted), 2. / 3.));
}

#[test]
fn test_identical() {
    let cfg = FilterConfig { length: true, position: true };

    let a = OrderedSet::<u32>::from_unsorted(vec![1, 2, 3, 4, 5]);
    let b = OrderedSet::<u32>::from_unsorted(vec![1, 2, 3, 4, 5]);

    let at_zero = Jaccard::new(&a, radius(0.00), cfg).evaluate(&b);
    assert_eq!(at_zero, Evaluation::Accepted(Ratio::zero()));
    assert!(close(accepted_distance(at_zero), 0.00));
    let at_one = Jaccard::new(&a, radius(1.00), cfg).evaluate(&b);
    assert_eq!(at_one, Evaluation::Accepted(Ratio::zero()));
    assert!(close(accepted_distance(at_one), 0.00));
}

#[test]
fn test_one_side_empty() {
    let cfg = FilterConfig { length: true, position: true };

    let a = OrderedSet::<u32>::from_unsorted(vec![1, 2, 3, 4, 5]);
    let b = OrderedSet::<u32>::from_unsorted(vec![]);

    assert_eq!(Jaccard::new(&a, radius(0.00), cfg).evaluate(&b), Evaluation::Verified);
    let at_one = Jaccard::new(&a, radius(1.00), cfg).evaluate(&b);
    assert_eq!(at_one, Evaluation::Accepted(Ratio::one()));
    assert!(close(accepted_distance(at_one), 1.00));
}

#[test]
fn test_undifined() {
    let cfg = FilterConfig { length: true, position: true };

    let a = OrderedSet::<u32>::from_unsorted(vec![]);
    let b = OrderedSet::<u32>::from_unsorted(vec![]);

    assert_eq!(Jaccard::new(&a, radius(0.00), cfg).evaluate(&b), Evaluation::Undefined);
    assert_eq!(Jaccard::new(&a, radius(1.00), cfg).evaluate(&b), Evaluation::Undefined);
}

#[test]
fn undefined_at_any_radius_and_filter() {
    let a = OrderedSet::<u32>::new();
    let b = OrderedSet::<u32>::new();
    for percent in [0u64, 10, 33, 50, 99, 100, 250] {
        for (length, position) in [(false, false), (true, false), (false, true), (true, true)] {
            let cfg = FilterConfig { length, position };
            let jaccard = Jaccard::new(&a, Ratio::new(percent, 100), cfg);
            assert_eq!(jaccard.evaluate(&b), Evaluation::Undefined);
            assert_eq!(jaccard.distance(&b), None);
        }
    }
    assert_eq!(Jaccard::new(&a, Ratio::infinity(), FilterConfig::default()).evaluate(&b), Evaluation::Undefined);
}

#[test]
fn distance_is_symmetric_and_bounded() {
    let sets: Vec<OrderedSet<u32>> = vec![
        OrderedSet::from_unsorted(vec![]),
        OrderedSet::from_unsorted(vec![1]),
        OrderedSet::from_unsorted(vec![1, 2, 3]),
        OrderedSet::from_unsorted(vec![2, 3, 4, 9]),
        OrderedSet::from_unsorted(vec![10, 11]),
        OrderedSet::from_unsorted(vec![0, 1, 2, 3, 4, 5, 6, 7]),
    ];
    for a in &sets {
        for b in &sets {
            let ab = Jaccard::new(a, Ratio::one(), FilterConfig::default()).distance(b);
            let ba = Jaccard::new(b, Ratio::one(), FilterConfig::default()).distance(a);
            assert_eq!(ab, ba);
            match ab {
                None => assert!(a.is_empty() && b.is_empty()),
                Some(dist) => {
                    assert!(dist.den > 0 && dist.num <= dist.den);
                    assert_eq!((dist.num, dist.den), (ba.unwrap().num, ba.unwrap().den));
                    if a == b {
                        assert_eq!(dist, Ratio::zero());
                    }
                }
            }
        }
    }
}

#[test]
fn distance_exact_values() {
    let a = OrderedSet::<u32>::from_unsorted(vec![1, 2, 3]);
    let jaccard = Jaccard::new(&a, Ratio::one(), FilterConfig::default());
    let disjoint = jaccard.distance(&OrderedSet::from_unsorted(vec![7, 8])).unwrap();
    assert_eq!((disjoint.num, disjoint.den), (5, 5));
    let empty = jaccard.distance(&OrderedSet::from_unsorted(vec![])).unwrap();
    assert_eq!((empty.num, empty.den), (3, 3));
    assert_eq!(empty, Ratio::one());
    let partly = jaccard.distance(&OrderedSet::from_unsorted(vec![2, 3, 4, 5])).unwrap();
    assert_eq!((partly.num, partly.den), (3, 5));
    assert!(close(partly, 0.6));
}

#[test]
fn radius_one_accepts_everything_but_two_empty_sets() {
    let a = OrderedSet::<u32>::from_unsorted(vec![1, 2, 3]);
    let others: Vec<OrderedSet<u32>> = vec![
        OrderedSet::from_unsorted(vec![]),
        OrderedSet::from_unsorted(vec![4, 5, 6, 7, 8, 9, 10, 11, 12, 13, 14, 15]),
        OrderedSet::from_unsorted(vec![1, 2, 3]),
        OrderedSet::from_unsorted(vec![3]),
    ];
    for (length, position) in [(false, false), (true, false), (false, true), (true, true)] {
        let cfg = FilterConfig { length, position };
        let jaccard = Jaccard::new(&a, radius(1.0), cfg);
        for b in &others {
            let dist = jaccard.distance(b).unwrap();
            assert_eq!(jaccard.evaluate(b), Evaluation::Accepted(dist));
        }
    }
}

#[test]
fn filters_never_reject_a_pair_within_the_radius() {
    let sets: Vec<OrderedSet<u32>> = vec![
        OrderedSet::from_unsorted(vec![1]),
        OrderedSet::from_unsorted(vec![1, 2]),
        OrderedSet::from_unsorted(vec![1, 2, 3]),
        OrderedSet::from_unsorted(vec![2, 3, 4]),
        OrderedSet::from_unsorted(vec![1, 2, 3, 4, 5, 6]),
        OrderedSet::from_unsorted(vec![4, 5, 6]),
        OrderedSet::from_unsorted(vec![6, 7, 8, 9]),
    ];
    for a in &sets {
        for b in &sets {
            let dist = Jaccard::new(a, Ratio::one(), FilterConfig::default()).distance(b).unwrap();
            for (num, den) in [(0u64, 1u64), (1, 10), (1, 4), (1, 3), (1, 2), (2, 3), (3, 4), (1, 1)] {
                let r = Ratio::new(num, den);
                let inside = !r.less_than(&dist);
                for (length, position) in [(false, false), (true, false), (false, true), (true, true)] {
                    let cfg = FilterConfig { length, position };
                    let evaluation = Jaccard::new(a, r, cfg).evaluate(b);
                    if inside {
                        assert_eq!(evaluation, Evaluation::Accepted(dist));
                    } else {
                        assert!(!matches!(evaluation, Evaluation::Accepted(_)));
                        assert!(!matches!(evaluation, Evaluation::Undefined));
                    }
                }
            }
        }
    }
}

#[test]
fn update_radius_changes_the_classification() {
    let a = OrderedSet::<u32>::from_unsorted(vec![1, 2, 3, 4, 5]);
    let b = OrderedSet::<u32>::from_unsorted(vec![2, 3, 4, 5, 6]);
    let cfg = FilterConfig { length: false, position: false };
    let mut jaccard = Jaccard::new(&a, Ratio::new(1, 2), cfg);
    assert_eq!(jaccard.evaluate(&b), Evaluation::Accepted(Ratio::new(1, 3)));
    jaccard.update_radius(Ratio::new(1, 4));
    assert_eq!(jaccard.evaluate(&b), Evaluation::Verified);
    jaccard.update_radius(Ratio::new(1, 3));
    assert_eq!(jaccard.evaluate(&b), Evaluation::Accepted(Ratio::new(2, 6)));
}

#[test]
fn ratio_order_and_equality() {
    assert_eq!(Ratio::new(1, 2), Ratio::new(2, 4));
    assert_ne!(Ratio::new(1, 2), Ratio::new(2, 3));
    assert!(Ratio::new(1, 3).less_than(&Ratio::new(1, 2)));
    assert!(!Ratio::new(1, 2).less_than(&Ratio::new(2, 4)));
    assert!(Ratio::new(1, 1).less_than(&Ratio::infinity()));
    assert!(!Ratio::infinity().less_than(&Ratio::new(u64::MAX, 1)));
    assert!(Ratio::new(u64::MAX - 1, u64::MAX).less_than(&Ratio::new(u64::MAX, u64::MAX)));
    assert_eq!(Ratio::infinity(), Ratio::new(5, 0));
    assert!(Ratio::infinity().is_infinite());
    assert!(!Ratio::zero().is_infinite());
}
