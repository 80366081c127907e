use vstd::prelude::*;
use std::cmp::Ordering;

verus! {

/// No number is smaller than a later one.
pub open spec fn descending(s: Seq<usize>) -> bool {
    forall|i: int, j: int| 0 <= i <= j < s.len() ==> s[i] >= s[j]
}

/// The order of numbers turned round: the larger number comes first.
pub fn larger_first(a: &usize, b: &usize) -> (o: Ordering)
    ensures
        o == Ordering::Less <==> *a > *b,
        o == Ordering::Equal <==> *a == *b,
        o == Ordering::Greater <==> *a < *b,
{
    if *a > *b {
        Ordering::Less
    } else if *a < *b {
        Ordering::Greater
    } else {
        Ordering::Equal
    }
}

/// `sort_unstable_by` of std with the order of numbers turned round:
/// afterwards the same numbers, each as often as before, stand in
/// descending order.
#[verifier::external_body]
pub(crate) fn sort_descending(v: &mut Vec<usize>)
    ensures
        final(v)@.to_multiset() == old(v)@.to_multiset(),
        descending(final(v)@),
{
    v.sort_unstable_by(|a, b| larger_first(a, b));
}

} // verus!
