use vstd::prelude::*;
use crate::answer::{answers_sorted, sort_answers, Answer};
use crate::bounds::{lemma_floor_div, threshold, threshold_of, unit_ratio};
use crate::error::Error;
use crate::linear_scan::{answer_of, answers_within, remap_records, remapped, within};
use crate::mapping::{is_permutation, rank, remap, Mapping};
use crate::metric::{lemma_filter_soundness, Evaluation, FilterConfig, Jaccard};
use crate::overlap::{common, lemma_set_len_at_most, lemma_sizes, united};
use crate::postings::{
    list_at, positions, positions_insert, positions_new, postings, postings_get,
    postings_insert, postings_new, postings_remove, PostingLists,
};
use crate::ratio::{wide_product, Ratio};
use crate::record::{records_within, set_within, Record};
use crate::set::{strictly_increasing, OrderedSet};

verus! {

/// How many of its first elements a record of `len` elements is indexed
/// under: `len * (1 - t) / (1 + t)`, rounded down, and one more; at most
/// `len`.
pub open spec fn index_prefix_len(t: Ratio, len: nat) -> nat {
    let p = (len * (t.den - t.num)) / (t.den + t.num) + 1;
    if p > len {
        len
    } else {
        p as nat
    }
}

/// How many of its first elements a query of `len` elements looks up:
/// `len * (1 - t)`, rounded down, and one more; at most `len`.
pub open spec fn query_prefix_len(t: Ratio, len: nat) -> nat {
    let p = (len * (t.den - t.num)) / (t.den as int) + 1;
    if p > len {
        len
    } else {
        p as nat
    }
}

/// The elements under which a set is indexed.
pub open spec fn index_prefix(t: Ratio, set: Seq<u32>) -> Seq<u32> {
    set.take(index_prefix_len(t, set.len()) as int)
}

/// The elements that a query looks up.
pub open spec fn query_prefix(t: Ratio, query: Seq<u32>) -> Seq<u32> {
    query.take(query_prefix_len(t, query.len()) as int)
}

/// The query looks up an element under which the set is indexed.
pub open spec fn shares_prefix(query: Seq<u32>, set: Seq<u32>, t: Ratio) -> bool {
    exists|e: u32| query_prefix(t, query).contains(e) && #[trigger] index_prefix(t, set).contains(e)
}

/// The positions of the records that a query reaches through the index.
pub open spec fn candidates(query: Seq<u32>, records: Seq<Record<u32>>, t: Ratio) -> Set<int> {
    Set::new(|i: int| 0 <= i < records.len() && shares_prefix(query, records[i].set@, t))
}

/// The positions of the records that an element of the first `m` elements
/// of the query reaches.
pub open spec fn reached(query: Seq<u32>, records: Seq<Record<u32>>, t: Ratio, m: int) -> Set<int> {
    Set::new(
        |i: int|
            0 <= i < records.len() && exists|k: int|
                0 <= k < m && index_prefix(t, records[i].set@).contains(#[trigger] query[k]),
    )
}

/// The positions among the first `l` of a list.
pub open spec fn listed(list: Seq<u32>, l: int) -> Set<int> {
    Set::new(|i: int| exists|k: int| 0 <= k < l && #[trigger] list[k] == i)
}

/// The posting list of an element over the first `upto` records: the
/// positions of the records that are indexed under it, in ascending order.
pub open spec fn posting_list(records: Seq<Record<u32>>, t: Ratio, upto: int, elem: u32) -> Seq<u32>
    decreases upto,
{
    if upto <= 0 {
        Seq::empty()
    } else {
        let rest = posting_list(records, t, upto - 1, elem);
        if index_prefix(t, records[upto - 1].set@).contains(elem) {
            rest.push((upto - 1) as u32)
        } else {
            rest
        }
    }
}

/// The answers of the records at the chosen positions below `upto` that
/// lie within the threshold of the query, in the order of the records.
pub open spec fn answers_among(
    query: Seq<u32>,
    records: Seq<Record<u32>>,
    t: Ratio,
    chosen: Set<int>,
    upto: int,
) -> Seq<Answer>
    decreases upto,
{
    if upto <= 0 {
        Seq::empty()
    } else {
        let rest = answers_among(query, records, t, chosen, upto - 1);
        if chosen.contains(upto - 1) && within(query, records[upto - 1].set@, t) {
            rest.push(answer_of(query, records[upto - 1]))
        } else {
            rest
        }
    }
}

/// The radius whose threshold is `t`: one minus `t`.
pub open spec fn complement(t: Ratio) -> Ratio {
    Ratio { num: (t.den - t.num) as u64, den: t.den }
}

/// An inverted index on the prefixes of the records, built for one radius.
pub struct InvertedIndex {
    mapping: Mapping,
    records: Vec<Record<u32>>,
    index: PostingLists,
    threshold: Ratio,
}

impl InvertedIndex {
    /// The table of the frequency mapping.
    pub closed spec fn table(&self) -> Seq<u32> {
        self.mapping@
    }

    /// The records held, after remapping.
    pub closed spec fn records(&self) -> Seq<Record<u32>> {
        self.records@
    }

    /// The similarity threshold that the index was built for.
    pub closed spec fn threshold(&self) -> Ratio {
        self.threshold
    }

    /// The inverted lists: under an element, the positions of records.
    pub closed spec fn lists(&self) -> Map<u32, Seq<u32>> {
        postings(self.index)
    }

    /// The invariant of the type: the mapping is a permutation of the
    /// universe, the records lie in the universe, and under every element
    /// stands the posting list of that element.
    pub closed spec fn wf(&self) -> bool {
        &&& is_permutation(self.mapping@)
        &&& records_within(self.records@, self.mapping@.len())
        &&& self.records@.len() <= 0x1_0000_0000
        &&& unit_ratio(self.threshold)
        &&& threshold_of(complement(self.threshold)) == self.threshold
        &&& forall|e: u32| #[trigger]
            list_at(postings(self.index), e) == posting_list(
                self.records@,
                self.threshold,
                self.records@.len() as int,
                e,
            )
    }

    /// Builds the frequency mapping of the records, holds the records
    /// remapped, and enters the position of every record under each
    /// element of its prefix at `radius`.
    pub fn from_records(records: &[Record<u32>], universe: u32, radius: Ratio) -> (res: Result<
        Self,
        Error,
    >)
        requires
            universe > 0 ==> records_within(records@, universe as nat),
            records@.len() <= 0x1_0000_0000,
        ensures
            res is Err <==> universe == 0,
            res matches Err(e) ==> e == Error::InvalidUniverse,
            res matches Ok(index) ==> {
                &&& index.wf()
                &&& index.threshold() == threshold_of(radius)
                &&& index.table().len() == universe
                &&& forall|e: int|
                    0 <= e < universe ==> (#[trigger] index.table()[e]) == rank(
                        records@,
                        universe as nat,
                        e as u32,
                    )
                &&& is_permutation(index.table())
                &&& remapped(records@, index.table(), index.records())
                &&& records_within(index.records(), universe as nat)
                &&& forall|e: u32| #[trigger]
                    list_at(index.lists(), e) == posting_list(
                        index.records(),
                        index.threshold(),
                        index.records().len() as int,
                        e,
                    )
            },
    {
        let t = threshold(radius);
        let mapping = match Mapping::from_records(records, universe) {
            Ok(mapping) => mapping,
            Err(e) => {
                return Err(e);
            },
        };
        let stored = remap_records(&mapping, records);
        let mut index = postings_new();
        let count: usize = stored.len();
        let mut i: usize = 0;
        while i < count
            invariant
                i <= count,
                count == stored@.len(),
                count <= 0x1_0000_0000,
                unit_ratio(t),
                records_within(stored@, mapping@.len()),
                forall|e: u32| #[trigger]
                    list_at(postings(index), e) == posting_list(stored@, t, i as int, e),
            decreases count - i,
        {
            let set = &stored[i].set;
            let prefix: usize = index_prefix_len_of(t, set.len());
            let mut k: usize = 0;
            while k < prefix
                invariant
                    k <= prefix,
                    prefix == index_prefix_len(t, set@.len()),
                    prefix <= set@.len(),
                    i < count,
                    count <= 0x1_0000_0000,
                    set.wf(),
                    forall|e: u32| #[trigger]
                        list_at(postings(index), e) == posting_list(stored@, t, i as int, e) + (
                        if set@.take(k as int).contains(e) {
                            seq![i as u32]
                        } else {
                            Seq::<u32>::empty()
                        }),
                decreases prefix - k,
            {
                let elem: u32 = set.at(k);
                let ghost before = postings(index);
                let mut list = match postings_remove(&mut index, elem) {
                    Some(list) => list,
                    None => Vec::new(),
                };
                list.push(i as u32);
                postings_insert(&mut index, elem, list);
                proof {
                    assert(!set@.take(k as int).contains(elem)) by {
                        if set@.take(k as int).contains(elem) {
                            let j = choose|j: int| 0 <= j < k && set@.take(k as int)[j] == elem;
                            assert(set@[j] < set@[k as int]);
                        }
                    }
                    assert(set@.take(k + 1) == set@.take(k as int).push(elem));
                    assert forall|e: u32| #[trigger]
                        list_at(postings(index), e) == posting_list(stored@, t, i as int, e) + (
                        if set@.take(k + 1).contains(e) {
                            seq![i as u32]
                        } else {
                            Seq::<u32>::empty()
                        }) by {
                        assert(list_at(before, e) == posting_list(stored@, t, i as int, e) + (
                        if set@.take(k as int).contains(e) {
                            seq![i as u32]
                        } else {
                            Seq::<u32>::empty()
                        }));
                        if e == elem {
                            assert(set@.take(k + 1)[k as int] == e);
                            assert(posting_list(stored@, t, i as int, e) + Seq::<u32>::empty()
                                == posting_list(stored@, t, i as int, e));
                            assert(posting_list(stored@, t, i as int, e).push(i as u32)
                                == posting_list(stored@, t, i as int, e) + seq![i as u32]);
                        } else {
                            let shorter = set@.take(k as int);
                            let longer = set@.take(k + 1);
                            if longer.contains(e) {
                                let j = choose|j: int| 0 <= j < longer.len() && longer[j] == e;
                                assert(shorter[j] == e);
                            }
                            if shorter.contains(e) {
                                let j = choose|j: int| 0 <= j < shorter.len() && shorter[j] == e;
                                assert(longer[j] == e);
                            }
                        }
                    }
                }
                k += 1;
            }
            proof {
                assert forall|e: u32| #[trigger]
                    list_at(postings(index), e) == posting_list(stored@, t, i + 1, e) by {
                    assert(list_at(postings(index), e) == posting_list(stored@, t, i as int, e) + (
                    if set@.take(prefix as int).contains(e) {
                        seq![i as u32]
                    } else {
                        Seq::<u32>::empty()
                    }));
                    assert(posting_list(stored@, t, i as int, e) + Seq::<u32>::empty()
                        == posting_list(stored@, t, i as int, e));
                    assert(posting_list(stored@, t, i as int, e).push(i as u32) == posting_list(
                        stored@,
                        t,
                        i as int,
                        e,
                    ) + seq![i as u32]);
                }
            }
            i += 1;
        }
        proof {
            lemma_complement(radius);
        }
        Ok(InvertedIndex { mapping, records: stored, index, threshold: t })
    }

    /// Every record within the radius of the index that the query reaches
    /// through the index, nearest first.
    pub fn range_query(&self, query: &OrderedSet<u32>) -> (answers: Vec<Answer>)
        requires
            self.wf(),
            query.wf(),
            set_within(query@, self.table().len()),
        ensures
            answers_sorted(answers@),
            answers@.to_multiset() == answers_among(
                remap(self.table(), query@),
                self.records(),
                self.threshold(),
                candidates(remap(self.table(), query@), self.records(), self.threshold()),
                self.records().len() as int,
            ).to_multiset(),
    {
        let query = self.mapping.apply(query);
        let t = self.threshold;
        let prefix: usize = query_prefix_len_of(t, query.len());
        let mut answers: Vec<Answer> = Vec::new();
        let mut seen = positions_new();
        let config = FilterConfig { length: true, position: true };
        let jaccard = Jaccard::new(&query, complement_of(t), config);
        let ghost n = self.records@.len() as int;
        let ghost mut visited: Set<int> = Set::empty();
        proof {
            assert(reached(query@, self.records@, t, 0) =~= visited);
            lemma_among_empty(query@, self.records@, t, n);
        }
        let mut m: usize = 0;
        while m < prefix
            invariant
                m <= prefix,
                prefix == query_prefix_len(t, query@.len()),
                prefix <= query@.len(),
                self.wf(),
                t == self.threshold,
                n == self.records@.len(),
                query.wf(),
                jaccard.wf(),
                jaccard.base() == query@,
                jaccard.threshold() == t,
                visited == reached(query@, self.records@, t, m as int),
                forall|x: u32| positions(seen).contains(x) <==> visited.contains(x as int),
                answers@.to_multiset() == answers_among(
                    query@,
                    self.records@,
                    t,
                    visited,
                    n,
                ).to_multiset(),
            decreases prefix - m,
        {
            let elem: u32 = query.at(m);
            let ghost start = visited;
            proof {
                lemma_posting_list(self.records@, t, n, elem);
                assert(list_at(postings(self.index), elem) == posting_list(
                    self.records@,
                    t,
                    n,
                    elem,
                ));
                assert(listed(posting_list(self.records@, t, n, elem), 0) =~= Set::<int>::empty());
                assert(start.union(Set::<int>::empty()) =~= start);
            }
            match postings_get(&self.index, elem) {
                Some(list) => {
                    let len: usize = list.len();
                    let mut l: usize = 0;
                    while l < len
                        invariant
                            l <= len,
                            len == list@.len(),
                            list@ == posting_list(self.records@, t, n, elem),
                            forall|k: int| 0 <= k < list@.len() ==> 0 <= (#[trigger] list@[k]) < n,
                            self.wf(),
                            t == self.threshold,
                            n == self.records@.len(),
                            query.wf(),
                            jaccard.wf(),
                            jaccard.base() == query@,
                            jaccard.threshold() == t,
                            visited == start.union(listed(list@, l as int)),
                            forall|x: u32|
                                positions(seen).contains(x) <==> visited.contains(x as int),
                            answers@.to_multiset() == answers_among(
                                query@,
                                self.records@,
                                t,
                                visited,
                                n,
                            ).to_multiset(),
                        decreases len - l,
                    {
                        let position: u32 = list[l];
                        let ghost was = visited;
                        proof {
                            assert(listed(list@, l + 1) =~= listed(list@, l as int).insert(
                                position as int,
                            ));
                            assert(start.union(listed(list@, l + 1)) =~= was.insert(
                                position as int,
                            ));
                            visited = was.insert(position as int);
                        }
                        if positions_insert(&mut seen, position) {
                            let record = &self.records[position as usize];
                            proof {
                                jaccard.lemma_wf();
                                lemma_filter_soundness(query@, record.set@, t, jaccard.config());
                                lemma_among_insert(
                                    query@,
                                    self.records@,
                                    t,
                                    was,
                                    n,
                                    position as int,
                                );
                                answers@.to_multiset_ensures();
                            }
                            match jaccard.evaluate(&record.set) {
                                Evaluation::Accepted(dist) => {
                                    answers.push(Answer { id: record.id, dist });
                                },
                                _ => {},
                            }
                        } else {
                            proof {
                                assert(was.insert(position as int) =~= was);
                            }
                        }
                        proof {
                            assert forall|x: u32|
                                positions(seen).contains(x) <==> visited.contains(x as int) by {
                                if x != position {
                                    assert(x as int != position as int);
                                }
                            }
                        }
                        l += 1;
                    }
                },
                None => {},
            }
            proof {
                lemma_reached_step(query@, self.records@, t, m as int);
                let list = posting_list(self.records@, t, n, elem);
                assert(list_at(postings(self.index), elem) == list);
            }
            m += 1;
        }
        proof {
            assert(reached(query@, self.records@, t, prefix as int) =~= candidates(
                query@,
                self.records@,
                t,
            )) by {
                lemma_reached_all(query@, self.records@, t);
            }
        }
        sort_answers(&mut answers);
        answers
    }
}

/// Computes the index prefix length of a set of `len` elements.
pub fn index_prefix_len_of(t: Ratio, len: usize) -> (prefix: usize)
    requires
        unit_ratio(t),
    ensures
        prefix == index_prefix_len(t, len as nat),
        prefix <= len,
{
    let n: u128 = wide_product(len as u64, t.den - t.num);
    let d: u128 = t.den as u128 + t.num as u128;
    proof {
        lemma_floor_div(n as int, d as int, 0);
    }
    let p: u128 = n / d;
    if p >= len as u128 {
        len
    } else {
        p as usize + 1
    }
}

/// Computes the query prefix length of a query of `len` elements.
pub fn query_prefix_len_of(t: Ratio, len: usize) -> (prefix: usize)
    requires
        unit_ratio(t),
    ensures
        prefix == query_prefix_len(t, len as nat),
        prefix <= len,
{
    let n: u128 = wide_product(len as u64, t.den - t.num);
    let d: u128 = t.den as u128;
    proof {
        lemma_floor_div(n as int, d as int, 0);
    }
    let p: u128 = n / d;
    if p >= len as u128 {
        len
    } else {
        p as usize + 1
    }
}

/// Both prefix lengths lie between zero and the length of the set, and
/// are positive for a set that is not empty.
pub proof fn lemma_prefix_lens(t: Ratio, len: nat)
    requires
        unit_ratio(t),
    ensures
        index_prefix_len(t, len) <= len,
        query_prefix_len(t, len) <= len,
        len > 0 ==> index_prefix_len(t, len) > 0 && query_prefix_len(t, len) > 0,
{
    assert(len * (t.den - t.num) >= 0) by (nonlinear_arith)
        requires
            len >= 0,
            t.den - t.num >= 0,
    ;
    lemma_floor_div(len * (t.den - t.num), t.den + t.num, 0);
    lemma_floor_div(len * (t.den - t.num), t.den as int, 0);
}

/// Computes the radius whose threshold is `t`.
pub fn complement_of(t: Ratio) -> (radius: Ratio)
    requires
        unit_ratio(t),
    ensures
        radius == complement(t),
{
    Ratio { num: t.den - t.num, den: t.den }
}

/// The threshold of a radius is the threshold of its own complement.
pub proof fn lemma_complement(radius: Ratio)
    ensures
        threshold_of(complement(threshold_of(radius))) == threshold_of(radius),
{
}

/// A posting list holds exactly the positions of the records that are
/// indexed under its element, each once.
pub proof fn lemma_posting_list(records: Seq<Record<u32>>, t: Ratio, upto: int, elem: u32)
    requires
        0 <= upto <= records.len(),
        upto <= 0x1_0000_0000,
    ensures
        forall|k: int|
            0 <= k < posting_list(records, t, upto, elem).len() ==> 0 <= (#[trigger] posting_list(
                records,
                t,
                upto,
                elem,
            )[k]) < upto && index_prefix(
                t,
                records[posting_list(records, t, upto, elem)[k] as int].set@,
            ).contains(elem),
        forall|i: int|
            0 <= i < upto && index_prefix(t, (#[trigger] records[i]).set@).contains(elem)
                ==> listed(
                posting_list(records, t, upto, elem),
                posting_list(records, t, upto, elem).len() as int,
            ).contains(i),
    decreases upto,
{
    if upto > 0 {
        lemma_posting_list(records, t, upto - 1, elem);
        let rest = posting_list(records, t, upto - 1, elem);
        let list = posting_list(records, t, upto, elem);
        assert forall|i: int|
            0 <= i < upto && index_prefix(t, (#[trigger] records[i]).set@).contains(
                elem,
            ) implies listed(list, list.len() as int).contains(i) by {
            if i < upto - 1 {
                assert(listed(rest, rest.len() as int).contains(i));
                let k = choose|k: int| 0 <= k < rest.len() && #[trigger] rest[k] == i;
                assert(list[k] == i);
            } else {
                assert(list[list.len() - 1] == i);
            }
        }
    }
}

/// What one more element of the query reaches is what the elements before
/// it reach and what its posting list holds.
pub proof fn lemma_reached_step(query: Seq<u32>, records: Seq<Record<u32>>, t: Ratio, m: int)
    requires
        0 <= m < query.len(),
        records.len() <= 0x1_0000_0000,
    ensures
        reached(query, records, t, m + 1) == reached(query, records, t, m).union(
            listed(
                posting_list(records, t, records.len() as int, query[m]),
                posting_list(records, t, records.len() as int, query[m]).len() as int,
            ),
        ),
{
    let n = records.len() as int;
    let list = posting_list(records, t, n, query[m]);
    let lhs = reached(query, records, t, m + 1);
    let rhs = reached(query, records, t, m).union(listed(list, list.len() as int));
    lemma_posting_list(records, t, n, query[m]);
    assert forall|i: int| lhs.contains(i) implies rhs.contains(i) by {
        let k = choose|k: int|
            0 <= k < m + 1 && index_prefix(t, records[i].set@).contains(#[trigger] query[k]);
        if k < m {
        } else {
            assert(listed(list, list.len() as int).contains(i));
        }
    }
    assert forall|i: int| rhs.contains(i) implies lhs.contains(i) by {
        if reached(query, records, t, m).contains(i) {
            let k = choose|k: int|
                0 <= k < m && index_prefix(t, records[i].set@).contains(#[trigger] query[k]);
            assert(0 <= k < m + 1);
        } else {
            let k = choose|k: int| 0 <= k < list.len() && #[trigger] list[k] == i;
            assert(index_prefix(t, records[list[k] as int].set@).contains(query[m]));
        }
    }
    assert(lhs =~= rhs);
}

/// What the whole prefix of the query reaches are the candidates.
pub proof fn lemma_reached_all(query: Seq<u32>, records: Seq<Record<u32>>, t: Ratio)
    requires
        unit_ratio(t),
    ensures
        reached(query, records, t, query_prefix_len(t, query.len()) as int) == candidates(
            query,
            records,
            t,
        ),
{
    let m = query_prefix_len(t, query.len()) as int;
    let lhs = reached(query, records, t, m);
    let rhs = candidates(query, records, t);
    lemma_prefix_lens(t, query.len());
    assert forall|i: int| lhs.contains(i) implies rhs.contains(i) by {
        let k = choose|k: int|
            0 <= k < m && index_prefix(t, records[i].set@).contains(#[trigger] query[k]);
        assert(query_prefix(t, query)[k] == query[k]);
        assert(query_prefix(t, query).contains(query[k]));
    }
    assert forall|i: int| rhs.contains(i) implies lhs.contains(i) by {
        let e = choose|e: u32|
            query_prefix(t, query).contains(e) && #[trigger] index_prefix(
                t,
                records[i].set@,
            ).contains(e);
        let k = choose|k: int| 0 <= k < query_prefix(t, query).len() && query_prefix(t, query)[k] == e;
        assert(query[k] == e);
    }
    assert(lhs =~= rhs);
}

/// Where no position is chosen there is no answer.
pub proof fn lemma_among_empty(query: Seq<u32>, records: Seq<Record<u32>>, t: Ratio, upto: int)
    ensures
        answers_among(query, records, t, Set::<int>::empty(), upto) == Seq::<Answer>::empty(),
    decreases upto,
{
    if upto > 0 {
        lemma_among_empty(query, records, t, upto - 1);
    }
}

/// One more chosen position adds the answer of its record, if that lies
/// within the threshold, and nothing else.
pub proof fn lemma_among_insert(
    query: Seq<u32>,
    records: Seq<Record<u32>>,
    t: Ratio,
    chosen: Set<int>,
    upto: int,
    position: int,
)
    requires
        0 <= position,
        !chosen.contains(position),
    ensures
        answers_among(query, records, t, chosen.insert(position), upto).to_multiset() == if position
            < upto && within(query, records[position].set@, t) {
            answers_among(query, records, t, chosen, upto).to_multiset().insert(
                answer_of(query, records[position]),
            )
        } else {
            answers_among(query, records, t, chosen, upto).to_multiset()
        },
    decreases upto,
{
    broadcast use vstd::multiset::group_multiset_axioms;

    if upto > 0 {
        lemma_among_insert(query, records, t, chosen, upto - 1, position);
        let more = chosen.insert(position);
        let rest = answers_among(query, records, t, chosen, upto - 1);
        let rest_more = answers_among(query, records, t, more, upto - 1);
        let last = answer_of(query, records[upto - 1]);
        vstd::seq_lib::to_multiset_build(rest, last);
        vstd::seq_lib::to_multiset_build(rest_more, last);
        if position == upto - 1 {
            if within(query, records[position].set@, t) {
                assert(answers_among(query, records, t, more, upto) == rest_more.push(last));
                assert(answers_among(query, records, t, chosen, upto) == rest);
            }
        } else {
            assert(more.contains(upto - 1) == chosen.contains(upto - 1));
            if position < upto && within(query, records[position].set@, t) {
                let answer = answer_of(query, records[position]);
                if chosen.contains(upto - 1) && within(query, records[upto - 1].set@, t) {
                    assert(rest.to_multiset().insert(answer).insert(last) =~= rest.to_multiset().insert(
                        last,
                    ).insert(answer));
                }
            }
        }
    }
}

/// The index finds what a scan of all records finds, wherever every
/// record within the threshold of the query shares a prefix element with
/// it: then the answers of the candidates are the answers of all records.
pub proof fn lemma_index_agrees_with_scan(query: Seq<u32>, records: Seq<Record<u32>>, t: Ratio)
    requires
        forall|i: int|
            0 <= i < records.len() && within(query, (#[trigger] records[i]).set@, t)
                ==> shares_prefix(query, records[i].set@, t),
    ensures
        answers_among(
            query,
            records,
            t,
            candidates(query, records, t),
            records.len() as int,
        ) == answers_within(query, records, t),
{
    lemma_among_is_within(query, records, t, candidates(query, records, t), records.len() as int);
    assert(records.take(records.len() as int) == records);
}

proof fn lemma_among_is_within(
    query: Seq<u32>,
    records: Seq<Record<u32>>,
    t: Ratio,
    chosen: Set<int>,
    upto: int,
)
    requires
        0 <= upto <= records.len(),
        forall|i: int|
            0 <= i < upto && within(query, (#[trigger] records[i]).set@, t) ==> chosen.contains(i),
    ensures
        answers_among(query, records, t, chosen, upto) == answers_within(
            query,
            records.take(upto),
            t,
        ),
    decreases upto,
{
    if upto > 0 {
        lemma_among_is_within(query, records, t, chosen, upto - 1);
        assert(records.take(upto).drop_last() == records.take(upto - 1));
        assert(records.take(upto).last() == records[upto - 1]);
    }
}

/// The least position of the query, from `start` on, whose element the set
/// holds.
proof fn lemma_first_common(query: Seq<u32>, set: Seq<u32>, start: int) -> (p: int)
    requires
        0 <= start <= query.len(),
        forall|k: int| 0 <= k < start ==> !set.contains(#[trigger] query[k]),
        exists|k: int| 0 <= k < query.len() && set.contains(#[trigger] query[k]),
    ensures
        0 <= p < query.len(),
        set.contains(query[p]),
        forall|k: int| 0 <= k < p ==> !set.contains(#[trigger] query[k]),
    decreases query.len() - start,
{
    if start < query.len() && set.contains(query[start]) {
        start
    } else {
        if start == query.len() {
            let k = choose|k: int| 0 <= k < query.len() && set.contains(#[trigger] query[k]);
            assert(false);
        }
        lemma_first_common(query, set, start + 1)
    }
}

/// The prefix filter: a set that has a value in common with the query, is
/// not longer than it and lies within the threshold shares a prefix element
/// with it.
pub proof fn lemma_prefix_filter(query: Seq<u32>, set: Seq<u32>, t: Ratio)
    requires
        strictly_increasing(query),
        strictly_increasing(set),
        unit_ratio(t),
        within(query, set, t),
        common(query, set) > 0,
        set.len() <= query.len(),
    ensures
        shares_prefix(query, set, t),
{
    let shared = query.to_set().intersect(set.to_set());
    let hits = common(query, set) as int;
    let union_len = united(query, set) as int;
    let q_len = query.len() as int;
    let s_len = set.len() as int;
    let num = t.num as int;
    let den = t.den as int;
    lemma_sizes(query, set);
    vstd::seq_lib::seq_to_set_is_finite(query);
    vstd::seq_lib::seq_to_set_is_finite(set);
    assert(exists|k: int| 0 <= k < query.len() && set.contains(#[trigger] query[k])) by {
        assert(shared.len() > 0);
        let v = shared.choose();
        assert(shared.contains(v));
        assert(query.contains(v));
        let k = choose|k: int| 0 <= k < query.len() && query[k] == v;
        assert(set.contains(query[k]));
    }
    let p = lemma_first_common(query, set, 0);
    let w = query[p];
    let l = choose|l: int| 0 <= l < set.len() && set[l] == w;
    // Every common value stands at or behind `p` in the query and at or
    // behind `l` in the set.
    assert(shared.subset_of(query.skip(p).to_set())) by {
        assert forall|v: u32| shared.contains(v) implies query.skip(p).to_set().contains(v) by {
            assert(query.contains(v));
            let k = choose|k: int| 0 <= k < query.len() && query[k] == v;
            assert(set.contains(query[k]));
            assert(k >= p);
            assert(query.skip(p)[k - p] == v);
        }
    }
    assert(shared.subset_of(set.skip(l).to_set())) by {
        assert forall|v: u32| shared.contains(v) implies set.skip(l).to_set().contains(v) by {
            assert(query.contains(v));
            assert(set.contains(v));
            let k = choose|k: int| 0 <= k < query.len() && query[k] == v;
            let j = choose|j: int| 0 <= j < set.len() && set[j] == v;
            assert(set.contains(query[k]));
            assert(k >= p);
            if k > p {
                assert(query[p] < query[k]);
            }
            if j < l {
                assert(set[j] < set[l]);
            }
            assert(set.skip(l)[j - l] == v);
        }
    }
    lemma_set_len_at_most(query.skip(p));
    lemma_set_len_at_most(set.skip(l));
    vstd::set_lib::lemma_len_subset(shared, query.skip(p).to_set());
    vstd::set_lib::lemma_len_subset(shared, set.skip(l).to_set());
    assert(p <= q_len - hits);
    assert(l <= s_len - hits);
    // The arithmetic of the two prefix lengths.
    assert(q_len * (den - num) >= 0 && s_len * (den - num) >= 0) by (nonlinear_arith)
        requires
            q_len >= 0,
            s_len >= 0,
            den - num >= 0,
    ;
    lemma_floor_div(q_len * (den - num), den, p);
    lemma_floor_div(s_len * (den - num), den + num, l);
    assert(p * den <= q_len * (den - num)) by (nonlinear_arith)
        requires
            hits * den >= num * union_len,
            union_len >= q_len,
            0 <= p <= q_len - hits,
            0 <= num <= den,
            hits >= 0,
    ;
    assert(l * (den + num) <= s_len * (den - num)) by (nonlinear_arith)
        requires
            hits * den >= num * union_len,
            union_len == q_len + s_len - hits,
            s_len <= q_len,
            0 <= l <= s_len - hits,
            0 <= num <= den,
            hits >= 0,
    ;
    lemma_prefix_lens(t, query.len());
    lemma_prefix_lens(t, set.len());
    assert(p < query_prefix_len(t, query.len()));
    assert(l < index_prefix_len(t, set.len()));
    assert(query_prefix(t, query)[p] == w);
    assert(index_prefix(t, set)[l] == w);
    assert(query_prefix(t, query).contains(w));
    assert(index_prefix(t, set).contains(w));
}

/// Below a radius of one, and where no record is longer than the query,
/// the index finds exactly what a scan of all records finds.
pub proof fn lemma_index_complete(query: Seq<u32>, records: Seq<Record<u32>>, t: Ratio)
    requires
        strictly_increasing(query),
        forall|i: int| 0 <= i < records.len() ==> (#[trigger] records[i]).set.wf(),
        forall|i: int| 0 <= i < records.len() ==> (#[trigger] records[i]).set@.len() <= query.len(),
        unit_ratio(t),
        t.num > 0,
    ensures
        answers_among(
            query,
            records,
            t,
            candidates(query, records, t),
            records.len() as int,
        ) == answers_within(query, records, t),
{
    assert forall|i: int|
        0 <= i < records.len() && within(
            query,
            (#[trigger] records[i]).set@,
            t,
        ) implies shares_prefix(query, records[i].set@, t) by {
        let set = records[i].set@;
        let hits = common(query, set) as int;
        let union_len = united(query, set) as int;
        lemma_sizes(query, set);
        assert(hits > 0) by (nonlinear_arith)
            requires
                hits * t.den >= t.num * union_len,
                t.num > 0,
                t.den > 0,
                union_len > 0,
                hits >= 0,
        ;
        lemma_prefix_filter(query, set, t);
    }
    lemma_index_agrees_with_scan(query, records, t);
}

/// The index never finds what a scan of all records does not find: the
/// answers at any chosen positions are among the answers of all records.
pub proof fn lemma_index_within_scan(
    query: Seq<u32>,
    records: Seq<Record<u32>>,
    t: Ratio,
    chosen: Set<int>,
    upto: int,
)
    requires
        0 <= upto <= records.len(),
    ensures
        answers_among(query, records, t, chosen, upto).to_multiset().subset_of(
            answers_within(query, records.take(upto), t).to_multiset(),
        ),
    decreases upto,
{
    broadcast use vstd::multiset::group_multiset_axioms;

    if upto > 0 {
        lemma_index_within_scan(query, records, t, chosen, upto - 1);
        assert(records.take(upto).drop_last() == records.take(upto - 1));
        assert(records.take(upto).last() == records[upto - 1]);
        let among = answers_among(query, records, t, chosen, upto - 1);
        let all = answers_within(query, records.take(upto - 1), t);
        let last = answer_of(query, records[upto - 1]);
        vstd::seq_lib::to_multiset_build(among, last);
        vstd::seq_lib::to_multiset_build(all, last);
    }
}

} // verus!
