use set_search_experiment::text::{features_from_hashes, FeatureExtractor};
use set_search_experiment::{Error, OrderedSet};

#[test]
fn test_extract() {
    let extractor = FeatureExtractor::new(1..=3, u32::MAX, Some(334)).unwrap();
    let tokens = vec!["a", "b", "a", "b", "c"];
    let features = extractor.extract(&tokens);
    // a, b, c, ab, ba, bc, aba, bab, abc
    assert_eq!(features.len(), 9);
}

#[test]
fn extract_is_fixed_by_the_seed() {
    let first = FeatureExtractor::new(1..=2, 1 << 20, Some(7)).unwrap();
    let second = FeatureExtractor::new(1..=2, 1 << 20, Some(7)).unwrap();
    let tokens = vec!["to", "be", "or", "not", "to", "be"];
    assert_eq!(first.extract(&tokens), second.extract(&tokens));
    assert_eq!(first.seed(), 7);
    assert_eq!(first.universe(), 1 << 20);
    // to, be, or, not, to be, be or, or not, not to
    assert_eq!(first.extract(&tokens).len(), 8);
}

#[test]
fn extract_stays_within_the_universe() {
    let extractor = FeatureExtractor::new(1..=3, 5, None).unwrap();
    let tokens = vec!["a", "b", "c", "d", "e", "f", "g", "h"];
    let features = extractor.extract(&tokens);
    assert!(features.len() <= 5);
    assert!(features.iter().all(|&f| f < 5));
    assert!(extractor.extract(&[]).is_empty());
    // two tokens have two windows of one token and one of two
    assert!(extractor.extract(&["a", "b"]).len() <= 3);
    let single = FeatureExtractor::new(3..=4, 1000, Some(1)).unwrap();
    assert!(single.extract(&["a", "b"]).is_empty());
    assert_eq!(single.extract(&["a", "b", "c"]).len(), 1);
}

#[test]
fn extractor_refuses_bad_arguments() {
    assert_eq!(FeatureExtractor::new(1..=3, 0, Some(1)).err(), Some(Error::InvalidUniverse));
    assert_eq!(FeatureExtractor::new(3..=1, 10, Some(1)).err(), Some(Error::InvalidRange));
    assert_eq!(FeatureExtractor::new(3..=1, 0, None).err(), Some(Error::InvalidUniverse));
    assert_eq!(Error::InvalidRange.message(), "Invalid ngram range.");
    assert!(FeatureExtractor::new(2..=2, 1, None).is_ok());
}

#[test]
fn features_are_the_hashes_reduced_into_the_universe() {
    let hashes = vec![7, 17, (1u64 << 32) + 3, 13, 3, u64::MAX];
    let features = features_from_hashes(hashes, 10);
    // u64::MAX keeps 2^32 - 1 in its lower half, which is 5 modulo 10
    assert_eq!(features, OrderedSet::from_sorted(vec![3, 5, 7]).unwrap());
    assert!(features_from_hashes(vec![], 10).is_empty());
}

#[test]
fn a_cloned_extractor_extracts_the_same_features() {
    let extractor = FeatureExtractor::new(1..=2, 1 << 16, Some(99)).unwrap();
    let copy = extractor.clone();
    let tokens = vec!["x", "y", "z", "x", "y"];
    assert_eq!(copy.extract(&tokens), extractor.extract(&tokens));
    assert_eq!(copy.seed(), 99);
    assert_eq!(copy.universe(), 1 << 16);
}

#[test]
fn features_depend_on_the_seed_and_on_the_tokens_of_each_window() {
    let tokens = vec!["a", "b", "a", "b", "c"];
    let first = FeatureExtractor::new(1..=3, u32::MAX, Some(334)).unwrap();
    let second = FeatureExtractor::new(1..=3, u32::MAX, Some(335)).unwrap();
    assert_ne!(first.extract(&tokens), second.extract(&tokens));
    // the windows of two tokens are "a b", "b a" and "b c": three features
    let pairs = FeatureExtractor::new(2..=2, u32::MAX, Some(334)).unwrap();
    assert_eq!(pairs.extract(&tokens).len(), 3);
    // a window is hashed token by token, so "ab" + "c" is not "a" + "bc"
    assert_ne!(pairs.extract(&["ab", "c"]), pairs.extract(&["a", "bc"]));
    // the features of the single tokens are among those of the larger range
    let singles = FeatureExtractor::new(1..=1, u32::MAX, Some(334)).unwrap();
    let mixed = first.extract(&tokens);
    assert_eq!(singles.extract(&tokens).len(), 3);
    assert!(singles.extract(&tokens).iter().all(|f| mixed.iter().any(|g| g == f)));
    assert!(pairs.extract(&tokens).iter().all(|f| mixed.iter().any(|g| g == f)));
    // the order of the tokens in a window counts
    assert_ne!(pairs.extract(&["a", "b"]), pairs.extract(&["b", "a"]));
}
