use set_search_experiment::{Error, OrderedSet};

#[test]
fn test_from_sorted() {
    let set = OrderedSet::<u32>::from_sorted(vec![1, 2, 3]).unwrap();
    assert_eq!(set.iter().collect::<Vec<_>>(), vec![&1, &2, &3]);
}

#[test]
fn test_from_sorted_empty() {
    let set = OrderedSet::<u32>::from_sorted(vec![]).unwrap();
    assert!(set.is_empty());
}

#[test]
fn test_from_sorted_invalid() {
    let set = OrderedSet::<u32>::from_sorted(vec![1, 2, 2, 3]);
    assert!(set.is_err());
}

#[test]
fn test_from_unsorted() {
    let set = OrderedSet::<u32>::from_unsorted(vec![3, 2, 3, 1]);
    assert_eq!(set.iter().collect::<Vec<_>>(), vec![&1, &2, &3]);
}

#[test]
fn test_from_unsorted_empty() {
    let set = OrderedSet::<u32>::from_unsorted(vec![]);
    assert!(set.is_empty());
}

#[test]
fn from_sorted_refuses_a_descent_with_invalid_input() {
    assert_eq!(OrderedSet::<u32>::from_sorted(vec![3, 1]).unwrap_err(), Error::InvalidInput);
    assert_eq!(OrderedSet::<u32>::from_sorted(vec![7, 7]).unwrap_err(), Error::InvalidInput);
    assert_eq!(Error::InvalidInput.message(), "The input must be sorted and unique.");
}

#[test]
fn from_unsorted_is_strictly_increasing_and_keeps_the_distinct_values() {
    let inputs: Vec<Vec<u32>> = vec![
        vec![],
        vec![5],
        vec![5, 5, 5],
        vec![9, 1, 8, 2, 7, 3, 1, 9],
        vec![u32::MAX, 0, u32::MAX, 0],
        vec![4, 3, 2, 1, 0],
    ];
    for input in inputs {
        let set = OrderedSet::<u32>::from_unsorted(input.clone());
        let elems = set.iter().copied().collect::<Vec<_>>();
        assert!(elems.windows(2).all(|pair| pair[0] < pair[1]));
        let mut distinct = input.clone();
        distinct.sort_unstable();
        distinct.dedup();
        assert_eq!(elems, distinct);
        assert_eq!(set.len(), distinct.len());
        assert!(input.iter().all(|x| elems.contains(x)));
    }
}

#[test]
fn from_sorted_fails_exactly_on_a_descent() {
    let inputs: Vec<(Vec<u32>, bool)> = vec![
        (vec![], true),
        (vec![3], true),
        (vec![1, 2, 3], true),
        (vec![0, u32::MAX], true),
        (vec![1, 1], false),
        (vec![1, 2, 2, 3], false),
        (vec![1, 3, 2], false),
        (vec![2, 1], false),
        (vec![1, 2, 3, 0], false),
    ];
    for (input, fine) in inputs {
        let descent = input.windows(2).any(|pair| pair[0] >= pair[1]);
        assert_eq!(descent, !fine);
        let result = OrderedSet::<u32>::from_sorted(input.clone());
        assert_eq!(result.is_err(), descent);
        if let Ok(set) = result {
            assert_eq!(set.iter().copied().collect::<Vec<_>>(), input);
        }
    }
}

#[test]
fn accessors_read_the_sorted_sequence() {
    let set = OrderedSet::<u32>::from_unsorted(vec![30, 10, 20]);
    assert_eq!(set.get(0), Some(&10));
    assert_eq!(set.get(2), Some(&30));
    assert_eq!(set.get(3), None);
    assert_eq!(set.len(), 3);
    assert!(!set.is_empty());
    let empty = OrderedSet::<u32>::new();
    assert_eq!(empty.get(0), None);
    assert_eq!(empty.len(), 0);
    assert!(empty.is_empty());
    assert_eq!(empty.iter().count(), 0);
    assert!(OrderedSet::<u32>::from_sorted(vec![1, 2]).unwrap() < OrderedSet::from_sorted(vec![1, 3]).unwrap());
}
