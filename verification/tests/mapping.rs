use set_search_experiment::{Error, Mapping, OrderedSet, Record};

#[test]
fn test_mapping() {
    let a = OrderedSet::from_sorted(vec![0, 1, 3]).unwrap();
    let b = OrderedSet::from_sorted(vec![0, 3]).unwrap();
    let c = OrderedSet::from_sorted(vec![3]).unwrap();
    let records = vec![
        Record { id: 0, set: a },
        Record { id: 1, set: b },
        Record { id: 2, set: c },
    ];
    let mapping = Mapping::from_records(&records, 4).unwrap();

    let mapped = mapping.apply(&OrderedSet::from_sorted(vec![2, 3]).unwrap());
    assert_eq!(mapped, OrderedSet::from_sorted(vec![0, 3]).unwrap());

    let mapped = mapping.apply(&OrderedSet::from_sorted(vec![0, 1]).unwrap());
    assert_eq!(mapped, OrderedSet::from_sorted(vec![1, 2]).unwrap());
}

#[test]
fn mapping_is_a_permutation_by_ascending_frequency() {
    let records = vec![
        Record { id: 0, set: OrderedSet::from_sorted(vec![0, 1, 3]).unwrap() },
        Record { id: 1, set: OrderedSet::from_sorted(vec![0, 3]).unwrap() },
        Record { id: 2, set: OrderedSet::from_sorted(vec![3]).unwrap() },
    ];
    let mapping = Mapping::from_records(&records, 6).unwrap();
    // frequencies: 0 -> 2, 1 -> 1, 2 -> 0, 3 -> 3, 4 -> 0, 5 -> 0
    assert_eq!(mapping.as_slice(), &[4, 3, 0, 5, 1, 2]);
    assert_eq!(mapping.universe(), 6);
    let sum: u32 = mapping.as_slice().iter().sum();
    assert_eq!(sum, (0..6).sum());
    let mut codes = mapping.as_slice().to_vec();
    codes.sort_unstable();
    assert_eq!(codes, vec![0, 1, 2, 3, 4, 5]);
}

#[test]
fn mapping_apply_preserves_cardinality() {
    let records = vec![
        Record { id: 0, set: OrderedSet::from_sorted(vec![1, 2, 3, 7]).unwrap() },
        Record { id: 1, set: OrderedSet::from_sorted(vec![2, 3]).unwrap() },
    ];
    let mapping = Mapping::from_records(&records, 8).unwrap();
    let set = OrderedSet::from_unsorted(vec![7, 0, 3, 5]);
    let mapped = mapping.apply(&set);
    assert_eq!(mapped.len(), 4);
    let whole = OrderedSet::from_unsorted((0..8).collect());
    assert_eq!(mapping.apply(&whole), whole);
}

#[test]
fn mapping_refuses_an_empty_universe() {
    let records: Vec<Record<u32>> = vec![];
    assert_eq!(Mapping::from_records(&records, 0).err(), Some(Error::InvalidUniverse));
    assert_eq!(Error::InvalidUniverse.message(), "Invalid universe.");
    let some = vec![Record { id: 0, set: OrderedSet::from_sorted(vec![1, 2]).unwrap() }];
    assert!(Mapping::from_records(&some, 0).is_err());
}

#[test]
fn mapping_from_slice_keeps_the_table() {
    let mapping = Mapping::from_slice(&[2, 0, 1, 1]);
    assert_eq!(mapping.as_slice(), &[2, 0, 1, 1]);
    assert_eq!(mapping.universe(), 4);
    // a table that is no permutation may fold elements together
    let mapped = mapping.apply(&OrderedSet::from_sorted(vec![0, 2, 3]).unwrap());
    assert_eq!(mapped, OrderedSet::from_sorted(vec![1, 2]).unwrap());
}
