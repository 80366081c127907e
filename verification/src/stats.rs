use vstd::prelude::*;
use std::collections::HashMap;
use crate::bounds::threshold_of;
use crate::linear_scan::{evaluations, LinearScan};
use crate::mapping::remap;
use crate::metric::Evaluation;
use crate::order::{descending, sort_descending};
use crate::ratio::Ratio;
use crate::record::set_within;
use crate::set::{sorted_members, OrderedSet};

verus! {

/// In how many of the sets `elem` occurs.
pub open spec fn occurrences(sets: Seq<OrderedSet<u32>>, elem: u32) -> nat
    decreases sets.len(),
{
    if sets.len() == 0 {
        0
    } else {
        occurrences(sets.drop_last(), elem) + if sets.last()@.contains(elem) {
            1nat
        } else {
            0nat
        }
    }
}

/// The elements that occur in some set.
pub open spec fn occurring(sets: Seq<OrderedSet<u32>>) -> Set<u32> {
    Set::new(|e: u32| occurrences(sets, e) > 0)
}

/// The frequency of every element that occurs, in ascending order of the
/// elements.
pub open spec fn frequencies(sets: Seq<OrderedSet<u32>>) -> Seq<usize> {
    sorted_members(occurring(sets)).map_values(|e: u32| occurrences(sets, e) as usize)
}

/// The count that a map holds for an element: zero where it holds none.
pub open spec fn count_at(counts: Map<u32, usize>, elem: u32) -> nat {
    if counts.contains_key(elem) {
        counts[elem] as nat
    } else {
        0
    }
}

/// The kinds of classification, without the distance of an accepted pair.
#[derive(Debug, Clone, Copy, PartialEq, Eq, Structural)]
pub enum Kind {
    LengthFiltered,
    PositionFiltered,
    Verified,
    Undefined,
    Accepted,
}

/// The kind of an evaluation.
pub open spec fn kind_of(evaluation: Evaluation) -> Kind {
    match evaluation {
        Evaluation::LengthFiltered => Kind::LengthFiltered,
        Evaluation::PositionFiltered => Kind::PositionFiltered,
        Evaluation::Verified => Kind::Verified,
        Evaluation::Undefined => Kind::Undefined,
        Evaluation::Accepted(_) => Kind::Accepted,
    }
}

/// How many of the evaluations are of the given kind.
pub open spec fn count_kind(evaluations: Seq<Evaluation>, kind: Kind) -> nat
    decreases evaluations.len(),
{
    if evaluations.len() == 0 {
        0
    } else {
        count_kind(evaluations.drop_last(), kind) + if kind_of(evaluations.last()) == kind {
            1nat
        } else {
            0nat
        }
    }
}

/// How often the evaluator came to each classification.
#[derive(Debug, Clone, Copy)]
pub struct Counter {
    pub length_filtered: usize,
    pub position_filtered: usize,
    pub verified: usize,
    pub undefined: usize,
    pub accepted: usize,
}

impl Counter {
    /// The counts are those of the given evaluations.
    pub open spec fn counts(&self, evaluations: Seq<Evaluation>) -> bool {
        &&& self.length_filtered == count_kind(evaluations, Kind::LengthFiltered)
        &&& self.position_filtered == count_kind(evaluations, Kind::PositionFiltered)
        &&& self.verified == count_kind(evaluations, Kind::Verified)
        &&& self.undefined == count_kind(evaluations, Kind::Undefined)
        &&& self.accepted == count_kind(evaluations, Kind::Accepted)
    }
}

impl Default for Counter {
    /// All counts at zero.
    fn default() -> (counter: Counter)
        ensures
            counter.counts(Seq::empty()),
    {
        Counter { length_filtered: 0, position_filtered: 0, verified: 0, undefined: 0, accepted: 0 }
    }
}

/// The length of every set.
pub fn lengths(sets: &[OrderedSet<u32>]) -> (lens: Vec<usize>)
    ensures
        lens@.len() == sets@.len(),
        forall|i: int| 0 <= i < sets@.len() ==> (#[trigger] lens@[i]) == sets@[i]@.len(),
{
    let mut lens: Vec<usize> = Vec::new();
    let count: usize = sets.len();
    let mut i: usize = 0;
    while i < count
        invariant
            i <= count,
            count == sets@.len(),
            lens@.len() == i,
            forall|k: int| 0 <= k < i ==> (#[trigger] lens@[k]) == sets@[k]@.len(),
        decreases count - i,
    {
        lens.push(sets[i].len());
        i += 1;
    }
    lens
}

/// The frequencies of the elements that occur in the sets, the largest
/// first.
pub fn elem_freqs(sets: &[OrderedSet<u32>]) -> (freqs: Vec<usize>)
    requires
        forall|i: int| 0 <= i < sets@.len() ==> (#[trigger] sets@[i]).wf(),
    ensures
        descending(freqs@),
        freqs@.to_multiset() == frequencies(sets@).to_multiset(),
{
    broadcast use vstd::std_specs::hash::group_hash_axioms;

    let mut counts: HashMap<u32, usize> = HashMap::new();
    let mut seen: Vec<u32> = Vec::new();
    let count: usize = sets.len();
    let mut r: usize = 0;
    proof {
        assert(sets@.take(0) =~= Seq::<OrderedSet<u32>>::empty());
    }
    while r < count
        invariant
            r <= count,
            count == sets@.len(),
            forall|i: int| 0 <= i < sets@.len() ==> (#[trigger] sets@[i]).wf(),
            forall|e: u32| #[trigger]
                count_at(counts@, e) == occurrences(sets@.take(r as int), e),
            forall|e: u32| #[trigger]
                seen@.contains(e) <==> occurrences(sets@.take(r as int), e) > 0,
        decreases count - r,
    {
        let set = &sets[r];
        let len: usize = set.len();
        let ghost before = sets@.take(r as int);
        let mut k: usize = 0;
        proof {
            assert(set@.take(0) =~= Seq::<u32>::empty());
        }
        while k < len
            invariant
                k <= len,
                len == set@.len(),
                r < count,
                count == sets@.len(),
                set.wf(),
                before == sets@.take(r as int),
                forall|e: u32| #[trigger]
                    count_at(counts@, e) == occurrences(before, e) + (if set@.take(
                        k as int,
                    ).contains(e) {
                        1nat
                    } else {
                        0nat
                    }),
                forall|e: u32| #[trigger]
                    seen@.contains(e) <==> occurrences(before, e) > 0 || set@.take(
                        k as int,
                    ).contains(e),
            decreases len - k,
        {
            let elem: u32 = set.at(k);
            let ghost shorter = set@.take(k as int);
            let ghost longer = set@.take(k + 1);
            let ghost old_counts = counts@;
            let ghost old_seen = seen@;
            proof {
                lemma_occurrences_bound(before, elem);
                assert(longer == shorter.push(elem));
                assert(!shorter.contains(elem)) by {
                    if shorter.contains(elem) {
                        let j = choose|j: int| 0 <= j < shorter.len() && shorter[j] == elem;
                        assert(set@[j] < set@[k as int]);
                    }
                }
                assert(count_at(old_counts, elem) == occurrences(before, elem));
            }
            let known: usize = match counts.get(&elem) {
                Some(c) => *c,
                None => 0,
            };
            counts.insert(elem, known + 1);
            seen.push(elem);
            proof {
                assert forall|e: u32| #[trigger]
                    count_at(counts@, e) == occurrences(before, e) + (if longer.contains(e) {
                        1nat
                    } else {
                        0nat
                    }) by {
                    assert(count_at(old_counts, e) == occurrences(before, e) + (
                    if shorter.contains(e) {
                        1nat
                    } else {
                        0nat
                    }));
                    lemma_push_contains(shorter, elem, e);
                }
                assert forall|e: u32| #[trigger]
                    seen@.contains(e) <==> occurrences(before, e) > 0 || longer.contains(e) by {
                    assert(old_seen.contains(e) <==> occurrences(before, e) > 0
                        || shorter.contains(e));
                    lemma_push_contains(shorter, elem, e);
                    lemma_push_contains(old_seen, elem, e);
                }
            }
            k += 1;
        }
        proof {
            assert(set@.take(len as int) == set@);
            assert(sets@.take(r + 1).drop_last() == before);
            assert(sets@.take(r + 1).last() == sets@[r as int]);
        }
        r += 1;
    }
    proof {
        assert(sets@.take(count as int) == sets@);
        assert(seen@.to_set() =~= occurring(sets@));
    }
    let elems = OrderedSet::from_unsorted(seen);
    let mut freqs: Vec<usize> = Vec::new();
    let distinct: usize = elems.len();
    let mut i: usize = 0;
    while i < distinct
        invariant
            i <= distinct,
            distinct == elems@.len(),
            elems@ == sorted_members(occurring(sets@)),
            elems.members() == occurring(sets@),
            forall|e: u32| #[trigger] count_at(counts@, e) == occurrences(sets@, e),
            freqs@ == elems@.take(i as int).map_values(
                |e: u32| occurrences(sets@, e) as usize,
            ),
        decreases distinct - i,
    {
        let elem: u32 = elems.at(i);
        proof {
            let f = |e: u32| occurrences(sets@, e) as usize;
            assert(elems@.contains(elem));
            assert(occurring(sets@).contains(elem));
            assert(count_at(counts@, elem) == occurrences(sets@, elem));
            assert(elems@.take(i + 1) == elems@.take(i as int).push(elem));
            assert(elems@.take(i as int).push(elem).map_values(f) == elems@.take(
                i as int,
            ).map_values(f).push(f(elem)));
        }
        let known: usize = match counts.get(&elem) {
            Some(c) => *c,
            None => 0,
        };
        freqs.push(known);
        i += 1;
    }
    proof {
        assert(elems@.take(distinct as int) == elems@);
    }
    sort_descending(&mut freqs);
    freqs
}

/// Counts the evaluations of each kind.
pub fn count_evaluations(evaluations: &Vec<Evaluation>) -> (counter: Counter)
    ensures
        counter.counts(evaluations@),
{
    let mut counter = Counter::default();
    let count: usize = evaluations.len();
    let mut i: usize = 0;
    proof {
        assert(evaluations@.take(0) =~= Seq::<Evaluation>::empty());
    }
    while i < count
        invariant
            i <= count,
            count == evaluations@.len(),
            counter.counts(evaluations@.take(i as int)),
        decreases count - i,
    {
        proof {
            let now = evaluations@.take(i + 1);
            assert(now.drop_last() == evaluations@.take(i as int));
            assert(now.last() == evaluations@[i as int]);
            lemma_count_kind_bound(evaluations@.take(i as int), Kind::LengthFiltered);
            lemma_count_kind_bound(evaluations@.take(i as int), Kind::PositionFiltered);
            lemma_count_kind_bound(evaluations@.take(i as int), Kind::Verified);
            lemma_count_kind_bound(evaluations@.take(i as int), Kind::Undefined);
            lemma_count_kind_bound(evaluations@.take(i as int), Kind::Accepted);
        }
        match evaluations[i] {
            Evaluation::LengthFiltered => {
                counter.length_filtered += 1;
            },
            Evaluation::PositionFiltered => {
                counter.position_filtered += 1;
            },
            Evaluation::Verified => {
                counter.verified += 1;
            },
            Evaluation::Undefined => {
                counter.undefined += 1;
            },
            Evaluation::Accepted(_) => {
                counter.accepted += 1;
            },
        }
        i += 1;
    }
    proof {
        assert(evaluations@.take(count as int) == evaluations@);
    }
    counter
}

/// For every query, how often the evaluator of the index comes to each
/// classification of a record at `radius`.
pub fn evaluate_range_search(index: &LinearScan, queries: &[OrderedSet<u32>], radius: Ratio) -> (counters:
    Vec<Counter>)
    requires
        index.wf(),
        forall|q: int|
            0 <= q < queries@.len() ==> (#[trigger] queries@[q]).wf() && set_within(
                queries@[q]@,
                index.table().len(),
            ),
    ensures
        counters@.len() == queries@.len(),
        forall|q: int|
            0 <= q < queries@.len() ==> (#[trigger] counters@[q]).counts(
                evaluations(
                    remap(index.table(), queries@[q]@),
                    index.records(),
                    threshold_of(radius),
                    index.config(),
                ),
            ),
{
    let mut counters: Vec<Counter> = Vec::new();
    let count: usize = queries.len();
    let mut q: usize = 0;
    while q < count
        invariant
            q <= count,
            count == queries@.len(),
            index.wf(),
            forall|q: int|
                0 <= q < queries@.len() ==> (#[trigger] queries@[q]).wf() && set_within(
                    queries@[q]@,
                    index.table().len(),
                ),
            counters@.len() == q,
            forall|p: int|
                0 <= p < q ==> (#[trigger] counters@[p]).counts(
                    evaluations(
                        remap(index.table(), queries@[p]@),
                        index.records(),
                        threshold_of(radius),
                        index.config(),
                    ),
                ),
        decreases count - q,
    {
        let found = index.evaluate(&queries[q], radius);
        counters.push(count_evaluations(&found));
        q += 1;
    }
    counters
}

/// An element occurs in at most as many sets as there are.
pub proof fn lemma_occurrences_bound(sets: Seq<OrderedSet<u32>>, elem: u32)
    ensures
        occurrences(sets, elem) <= sets.len(),
    decreases sets.len(),
{
    if sets.len() > 0 {
        lemma_occurrences_bound(sets.drop_last(), elem);
    }
}

/// There are at most as many evaluations of a kind as evaluations.
pub proof fn lemma_count_kind_bound(evaluations: Seq<Evaluation>, kind: Kind)
    ensures
        count_kind(evaluations, kind) <= evaluations.len(),
    decreases evaluations.len(),
{
    if evaluations.len() > 0 {
        lemma_count_kind_bound(evaluations.drop_last(), kind);
    }
}

proof fn lemma_push_contains(s: Seq<u32>, x: u32, e: u32)
    ensures
        s.push(x).contains(e) <==> s.contains(e) || e == x,
{
    if s.contains(e) {
        let j = choose|j: int| 0 <= j < s.len() && s[j] == e;
        assert(s.push(x)[j] == e);
    }
    if e == x {
        assert(s.push(x)[s.len() as int] == e);
    }
    if s.push(x).contains(e) {
        let j = choose|j: int| 0 <= j < s.push(x).len() && s.push(x)[j] == e;
        if j < s.len() {
            assert(s[j] == e);
        }
    }
}

} // verus!
