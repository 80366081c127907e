use vstd::prelude::*;
use crate::answer::{answers_sorted, sort_answers, Answer};
use crate::bounds::{similar, threshold_of, unit_ratio};
use crate::error::Error;
use crate::mapping::{is_permutation, rank, remap, Mapping};
use crate::metric::{
    evaluation_of, jaccard_distance, lemma_distance_bounds, lemma_filter_soundness, Evaluation,
    FilterConfig, Jaccard,
};
use crate::overlap::{common, lemma_sizes, united};
use crate::ratio::{lemma_trichotomy, Ratio};
use crate::record::{records_within, set_within, Record};
use crate::set::{strictly_increasing, OrderedSet};
use crate::topk::{insert_answer, lemma_drop_last_sorted, lemma_topk, nearest_of, topk_of};

verus! {

/// The pair of a query and a set has a distance: not both are empty.
pub open spec fn has_distance(query: Seq<u32>, set: Seq<u32>) -> bool {
    query.len() > 0 || set.len() > 0
}

/// The set lies within the threshold of the query: they have a distance
/// and are at least as similar as the threshold asks.
pub open spec fn within(query: Seq<u32>, set: Seq<u32>, t: Ratio) -> bool {
    has_distance(query, set) && similar(t, common(query, set), united(query, set))
}

/// The answer that a record gives to a query from which it has a distance.
pub open spec fn answer_of(query: Seq<u32>, record: Record<u32>) -> Answer {
    Answer { id: record.id, dist: jaccard_distance(query, record.set@)->0 }
}

/// The answers of the records that lie within the threshold of the query,
/// in the order of the records.
pub open spec fn answers_within(query: Seq<u32>, records: Seq<Record<u32>>, t: Ratio) -> Seq<
    Answer,
>
    decreases records.len(),
{
    if records.len() == 0 {
        Seq::empty()
    } else {
        let rest = answers_within(query, records.drop_last(), t);
        if within(query, records.last().set@, t) {
            rest.push(answer_of(query, records.last()))
        } else {
            rest
        }
    }
}

/// The answers of all records that have a distance from the query, in the
/// order of the records.
pub open spec fn all_answers(query: Seq<u32>, records: Seq<Record<u32>>) -> Seq<Answer> {
    answers_within(query, records, Ratio { num: 0, den: 1 })
}

/// How the evaluator classifies every record against a query at a
/// threshold, in the order of the records.
pub open spec fn evaluations(
    query: Seq<u32>,
    records: Seq<Record<u32>>,
    t: Ratio,
    config: FilterConfig,
) -> Seq<Evaluation> {
    Seq::new(records.len(), |i: int| evaluation_of(query, records[i].set@, t, config))
}

/// The answers of the records that the evaluations accept, in the order of
/// the records.
pub open spec fn accepted_answers(records: Seq<Record<u32>>, evaluations: Seq<Evaluation>) -> Seq<
    Answer,
>
    decreases records.len(),
{
    if records.len() == 0 {
        Seq::empty()
    } else {
        let rest = accepted_answers(records.drop_last(), evaluations.drop_last());
        match evaluations.last() {
            Evaluation::Accepted(dist) => rest.push(Answer { id: records.last().id, dist }),
            _ => rest,
        }
    }
}

/// The distance of a record as `all_distances` reports it: infinite where
/// the record and the query are both empty.
pub open spec fn distance_or_infinity(query: Seq<u32>, set: Seq<u32>) -> Ratio {
    match jaccard_distance(query, set) {
        Some(d) => d,
        None => Ratio { num: 1, den: 0 },
    }
}

/// `stored` holds the records of `source` in the same order and under the
/// same identifiers, each set sent through the table.
pub open spec fn remapped(source: Seq<Record<u32>>, table: Seq<u32>, stored: Seq<Record<u32>>)
    -> bool {
    &&& stored.len() == source.len()
    &&& forall|i: int|
        0 <= i < source.len() ==> (#[trigger] stored[i]).id == source[i].id && stored[i].set@
            == remap(table, source[i].set@)
}

/// An index that answers every query by evaluating all of its records.
pub struct LinearScan {
    mapping: Mapping,
    records: Vec<Record<u32>>,
    config: FilterConfig,
}

impl LinearScan {
    /// The table of the frequency mapping.
    pub closed spec fn table(&self) -> Seq<u32> {
        self.mapping@
    }

    /// The records held, after remapping.
    pub closed spec fn records(&self) -> Seq<Record<u32>> {
        self.records@
    }

    /// The filters that the evaluator is to use.
    pub closed spec fn config(&self) -> FilterConfig {
        self.config
    }

    /// The invariant of the type: the mapping is a permutation of the
    /// universe and the records lie in the universe.
    pub open spec fn wf(&self) -> bool {
        &&& is_permutation(self.table())
        &&& records_within(self.records(), self.table().len())
    }

    /// Builds the frequency mapping of the records and holds the records
    /// remapped. Both filters start switched off.
    pub fn from_records(records: &[Record<u32>], universe: u32) -> (res: Result<Self, Error>)
        requires
            universe > 0 ==> records_within(records@, universe as nat),
        ensures
            res is Err <==> universe == 0,
            res matches Err(e) ==> e == Error::InvalidUniverse,
            res matches Ok(index) ==> {
                &&& index.wf()
                &&& index.table().len() == universe
                &&& forall|e: int|
                    0 <= e < universe ==> (#[trigger] index.table()[e]) == rank(
                        records@,
                        universe as nat,
                        e as u32,
                    )
                &&& remapped(records@, index.table(), index.records())
                &&& !index.config().length
                &&& !index.config().position
            },
    {
        let mapping = match Mapping::from_records(records, universe) {
            Ok(mapping) => mapping,
            Err(e) => {
                return Err(e);
            },
        };
        let stored = remap_records(&mapping, records);
        Ok(LinearScan { mapping, records: stored, config: FilterConfig::default() })
    }

    /// The same index with other filters.
    pub fn filter_config(self, config: FilterConfig) -> (index: Self)
        ensures
            index.table() == self.table(),
            index.records() == self.records(),
            index.config() == config,
    {
        let mut index = self;
        index.config = config;
        index
    }

    /// Every record within `radius` of the query, nearest first.
    pub fn range_query(&self, query: &OrderedSet<u32>, radius: Ratio) -> (answers: Vec<Answer>)
        requires
            self.wf(),
            query.wf(),
            set_within(query@, self.table().len()),
        ensures
            answers_sorted(answers@),
            answers@.to_multiset() == answers_within(
                remap(self.table(), query@),
                self.records(),
                threshold_of(radius),
            ).to_multiset(),
    {
        let query = self.mapping.apply(query);
        let jaccard = Jaccard::new(&query, radius, self.config);
        let mut answers = collect_within(&jaccard, &self.records);
        sort_answers(&mut answers);
        answers
    }

    /// The `k` records nearest to the query, nearest first. Records that
    /// have no distance from the query, being empty as it is, are passed
    /// over.
    pub fn topk_query(&self, query: &OrderedSet<u32>, k: usize) -> (answers: Vec<Answer>)
        requires
            self.wf(),
            query.wf(),
            set_within(query@, self.table().len()),
        ensures
            answers@ == topk_of(all_answers(remap(self.table(), query@), self.records()), k as nat),
            answers_sorted(answers@),
            answers@.len() <= k,
            answers@.len() <= self.records().len(),
            query@.len() > 0 ==> answers@.len() == if self.records().len() < k {
                self.records().len()
            } else {
                k as nat
            },
            nearest_of(answers@, all_answers(remap(self.table(), query@), self.records())),
    {
        let query = self.mapping.apply(query);
        let mut jaccard = Jaccard::new(&query, Ratio::one(), self.config);
        let mut kept: Vec<Answer> = Vec::new();
        let count: usize = self.records.len();
        let mut r: usize = 0;
        proof {
            assert(self.records@.take(0) =~= Seq::<Record<u32>>::empty());
        }
        while r < count
            invariant
                r <= count,
                count == self.records@.len(),
                records_within(self.records@, self.table().len()),
                query.wf(),
                jaccard.wf(),
                jaccard.base() == query@,
                kept@ == topk_of(all_answers(query@, self.records@.take(r as int)), k as nat),
                answers_sorted(kept@),
                kept@.len() <= k,
                forall|j: int| 0 <= j < kept@.len() ==> unit_ratio((#[trigger] kept@[j]).dist),
                kept@.len() < k ==> jaccard.threshold().num == 0,
                kept@.len() == k && k > 0 ==> jaccard.threshold() == threshold_of(kept@.last().dist),
            decreases count - r,
        {
            let record = &self.records[r];
            let ghost before = self.records@.take(r as int);
            let ghost now = self.records@.take(r + 1);
            let ghost hits = common(query@, record.set@);
            let ghost union_len = united(query@, record.set@);
            let ghost all_before = all_answers(query@, before);
            let ghost all_now = all_answers(query@, now);
            let ghost answer = answer_of(query@, *record);
            proof {
                assert(now.drop_last() == before);
                assert(now.last() == self.records@[r as int]);
                jaccard.lemma_wf();
                lemma_filter_soundness(query@, record.set@, jaccard.threshold(), jaccard.config());
                lemma_sizes(query@, record.set@);
                lemma_similar_at_zero(Ratio { num: 0, den: 1 }, hits, union_len);
                if has_distance(query@, record.set@) {
                    assert(all_now == all_before.push(answer));
                    assert(all_now.drop_last() == all_before);
                    assert(all_now.last() == answer);
                    lemma_distance_bounds(query@, record.set@);
                    if kept@.len() < k {
                        lemma_similar_at_zero(jaccard.threshold(), hits, union_len);
                    } else if k > 0 {
                        lemma_threshold_of_distance(kept@.last().dist, hits, union_len);
                        lemma_trichotomy(kept@.last().dist, answer.dist);
                    }
                } else {
                    assert(all_now == all_before);
                }
            }
            if k > 0 {
                match jaccard.evaluate(&record.set) {
                    Evaluation::Accepted(dist) => {
                        let answer = Answer { id: record.id, dist };
                        if kept.len() < k {
                            insert_answer(&mut kept, answer);
                            if kept.len() == k {
                                jaccard.update_radius(kept[k - 1].dist);
                            }
                        } else if dist.less_than(&kept[k - 1].dist) {
                            proof {
                                lemma_drop_last_sorted(kept@);
                            }
                            kept.pop();
                            proof {
                                assert(kept@ == topk_of(all_before, k as nat).drop_last());
                            }
                            insert_answer(&mut kept, answer);
                            jaccard.update_radius(kept[k - 1].dist);
                        }
                    },
                    _ => {},
                }
            }
            proof {
                lemma_kept_unit(kept@, query@, now, k as nat);
            }
            r += 1;
        }
        proof {
            assert(self.records@.take(count as int) == self.records@);
            lemma_topk(all_answers(query@, self.records@), k as nat);
            lemma_all_answers_len(query@, self.records@);
        }
        kept
    }

    /// The distance of every record from the query, in the order of the
    /// records; infinite where record and query are both empty.
    pub fn all_distances(&self, query: &OrderedSet<u32>) -> (answers: Vec<Answer>)
        requires
            self.wf(),
            query.wf(),
            set_within(query@, self.table().len()),
        ensures
            answers@.len() == self.records().len(),
            forall|i: int|
                0 <= i < answers@.len() ==> (#[trigger] answers@[i]).id == self.records()[i].id
                    && answers@[i].dist == distance_or_infinity(
                    remap(self.table(), query@),
                    self.records()[i].set@,
                ),
    {
        let query = self.mapping.apply(query);
        let jaccard = Jaccard::new(&query, Ratio::one(), self.config);
        let mut answers: Vec<Answer> = Vec::new();
        let count: usize = self.records.len();
        let mut r: usize = 0;
        while r < count
            invariant
                r <= count,
                count == self.records@.len(),
                records_within(self.records@, self.table().len()),
                jaccard.wf(),
                jaccard.base() == query@,
                answers@.len() == r,
                forall|i: int|
                    0 <= i < r ==> (#[trigger] answers@[i]).id == self.records@[i].id
                        && answers@[i].dist == distance_or_infinity(
                        query@,
                        self.records@[i].set@,
                    ),
            decreases count - r,
        {
            let record = &self.records[r];
            let dist = match jaccard.distance(&record.set) {
                Some(d) => d,
                None => Ratio::infinity(),
            };
            answers.push(Answer { id: record.id, dist });
            r += 1;
        }
        answers
    }

    /// How the evaluator classifies every record at `radius`, in the order
    /// of the records.
    pub fn evaluate(&self, query: &OrderedSet<u32>, radius: Ratio) -> (found: Vec<Evaluation>)
        requires
            self.wf(),
            query.wf(),
            set_within(query@, self.table().len()),
        ensures
            found@ == evaluations(
                remap(self.table(), query@),
                self.records(),
                threshold_of(radius),
                self.config(),
            ),
    {
        let query = self.mapping.apply(query);
        let jaccard = Jaccard::new(&query, radius, self.config);
        let mut found: Vec<Evaluation> = Vec::new();
        let count: usize = self.records.len();
        let mut r: usize = 0;
        while r < count
            invariant
                r <= count,
                count == self.records@.len(),
                records_within(self.records@, self.table().len()),
                jaccard.wf(),
                jaccard.base() == query@,
                jaccard.threshold() == threshold_of(radius),
                jaccard.config() == self.config,
                found@.len() == r,
                forall|i: int|
                    0 <= i < r ==> (#[trigger] found@[i]) == evaluation_of(
                        query@,
                        self.records@[i].set@,
                        threshold_of(radius),
                        self.config,
                    ),
            decreases count - r,
        {
            found.push(jaccard.evaluate(&self.records[r].set));
            r += 1;
        }
        proof {
            assert(found@ =~= evaluations(
                query@,
                self.records@,
                threshold_of(radius),
                self.config,
            ));
        }
        found
    }
}

/// Sends the set of every record through the mapping.
pub(crate) fn remap_records(mapping: &Mapping, records: &[Record<u32>]) -> (stored: Vec<
    Record<u32>,
>)
    requires
        is_permutation(mapping@),
        records_within(records@, mapping@.len()),
    ensures
        remapped(records@, mapping@, stored@),
        records_within(stored@, mapping@.len()),
{
    let mut stored: Vec<Record<u32>> = Vec::new();
    let count: usize = records.len();
    let mut r: usize = 0;
    while r < count
        invariant
            r <= count,
            count == records@.len(),
            is_permutation(mapping@),
            records_within(records@, mapping@.len()),
            stored@.len() == r,
            forall|i: int|
                0 <= i < r ==> (#[trigger] stored@[i]).id == records@[i].id && stored@[i].set@
                    == remap(mapping@, records@[i].set@) && stored@[i].set.wf() && set_within(
                    stored@[i].set@,
                    mapping@.len(),
                ),
        decreases count - r,
    {
        let record = &records[r];
        stored.push(Record { id: record.id, set: mapping.apply(&record.set) });
        r += 1;
    }
    stored
}

/// Evaluates every record and gathers the answers of those accepted, in
/// the order of the records.
pub(crate) fn collect_within(jaccard: &Jaccard<'_, u32>, records: &Vec<Record<u32>>) -> (answers:
    Vec<Answer>)
    requires
        jaccard.wf(),
        strictly_increasing(jaccard.base()),
        forall|r: int| 0 <= r < records@.len() ==> (#[trigger] records@[r]).set.wf(),
    ensures
        answers@ == answers_within(jaccard.base(), records@, jaccard.threshold()),
{
    let mut answers: Vec<Answer> = Vec::new();
    let count: usize = records.len();
    let mut r: usize = 0;
    proof {
        assert(records@.take(0) =~= Seq::<Record<u32>>::empty());
    }
    while r < count
        invariant
            r <= count,
            count == records@.len(),
            jaccard.wf(),
            strictly_increasing(jaccard.base()),
            forall|r: int| 0 <= r < records@.len() ==> (#[trigger] records@[r]).set.wf(),
            answers@ == answers_within(
                jaccard.base(),
                records@.take(r as int),
                jaccard.threshold(),
            ),
        decreases count - r,
    {
        let record = &records[r];
        proof {
            assert(records@.take(r + 1).drop_last() == records@.take(r as int));
            assert(records@.take(r + 1).last() == records@[r as int]);
            jaccard.lemma_wf();
            lemma_filter_soundness(
                jaccard.base(),
                record.set@,
                jaccard.threshold(),
                jaccard.config(),
            );
        }
        match jaccard.evaluate(&record.set) {
            Evaluation::Accepted(dist) => {
                answers.push(Answer { id: record.id, dist });
            },
            _ => {},
        }
        r += 1;
    }
    proof {
        assert(records@.take(count as int) == records@);
    }
    answers
}

/// At a threshold of zero every pair is similar enough.
pub proof fn lemma_similar_at_zero(t: Ratio, hits: nat, union_len: nat)
    requires
        t.num == 0,
    ensures
        similar(t, hits, union_len),
{
    assert(t.num * union_len == 0) by (nonlinear_arith)
        requires
            t.num == 0,
    ;
    assert(hits * t.den >= 0) by (nonlinear_arith)
        requires
            hits >= 0,
            t.den >= 0,
    ;
}

/// The threshold of a radius admits exactly the pairs whose distance the
/// radius is not below.
pub proof fn lemma_threshold_of_distance(radius: Ratio, hits: nat, union_len: nat)
    requires
        hits <= union_len,
        0 < union_len <= 0x2_0000_0000,
    ensures
        similar(threshold_of(radius), hits, union_len) <==> !radius.below(
            Ratio { num: (union_len - hits) as u64, den: union_len as u64 },
        ),
{
    let t = threshold_of(radius);
    let n = radius.num as int;
    let m = radius.den as int;
    if radius.den == 0 || radius.num >= radius.den {
        lemma_similar_at_zero(t, hits, union_len);
        if radius.den != 0 {
            assert(n * union_len >= (union_len - hits) * m) by (nonlinear_arith)
                requires
                    n >= m,
                    hits >= 0,
                    m > 0,
                    union_len >= hits,
            ;
        }
    } else {
        assert(hits * m >= (m - n) * union_len <==> n * union_len >= (union_len - hits) * m)
            by (nonlinear_arith);
    }
}

/// A set lies within the threshold of a radius exactly when it has a
/// distance from the query and that distance is at most the radius.
pub proof fn lemma_within_radius(query: Seq<u32>, set: Seq<u32>, radius: Ratio)
    requires
        strictly_increasing(query),
        strictly_increasing(set),
    ensures
        within(query, set, threshold_of(radius)) <==> has_distance(query, set) && jaccard_distance(
            query,
            set,
        )->0.at_most(radius),
{
    if has_distance(query, set) {
        lemma_sizes(query, set);
        lemma_distance_bounds(query, set);
        lemma_threshold_of_distance(radius, common(query, set), united(query, set));
        lemma_trichotomy(radius, jaccard_distance(query, set)->0);
    }
}

/// Every record that has a distance from the query gives an answer, so a
/// query that is not empty gets one from every record.
pub proof fn lemma_all_answers_len(query: Seq<u32>, records: Seq<Record<u32>>)
    ensures
        all_answers(query, records).len() <= records.len(),
        query.len() > 0 ==> all_answers(query, records).len() == records.len(),
    decreases records.len(),
{
    if records.len() > 0 {
        lemma_all_answers_len(query, records.drop_last());
        lemma_similar_at_zero(
            Ratio { num: 0, den: 1 },
            common(query, records.last().set@),
            united(query, records.last().set@),
        );
    }
}

/// Every answer among all answers holds a distance between zero and one.
pub proof fn lemma_all_answers_unit(query: Seq<u32>, records: Seq<Record<u32>>)
    requires
        strictly_increasing(query),
        forall|r: int| 0 <= r < records.len() ==> (#[trigger] records[r]).set.wf(),
    ensures
        forall|i: int|
            0 <= i < all_answers(query, records).len() ==> unit_ratio(
                (#[trigger] all_answers(query, records)[i]).dist,
            ),
    decreases records.len(),
{
    if records.len() > 0 {
        let rest = records.drop_last();
        assert forall|r: int| 0 <= r < rest.len() implies (#[trigger] rest[r]).set.wf() by {
            assert(rest[r] == records[r]);
        }
        lemma_all_answers_unit(query, rest);
        let all = all_answers(query, records);
        let before = all_answers(query, rest);
        if has_distance(query, records.last().set@) {
            assert(records[records.len() - 1].set.wf());
            lemma_distance_bounds(query, records.last().set@);
        }
        assert forall|i: int| 0 <= i < all.len() implies unit_ratio((#[trigger] all[i]).dist) by {
            if i < before.len() {
                assert(all[i] == before[i]);
            }
        }
    }
}

proof fn lemma_kept_unit(kept: Seq<Answer>, query: Seq<u32>, records: Seq<Record<u32>>, k: nat)
    requires
        strictly_increasing(query),
        forall|r: int| 0 <= r < records.len() ==> (#[trigger] records[r]).set.wf(),
        kept == topk_of(all_answers(query, records), k),
    ensures
        forall|j: int| 0 <= j < kept.len() ==> unit_ratio((#[trigger] kept[j]).dist),
{
    let all = all_answers(query, records);
    lemma_topk(all, k);
    lemma_all_answers_unit(query, records);
    kept.to_multiset_ensures();
    all.to_multiset_ensures();
    assert forall|j: int| 0 <= j < kept.len() implies unit_ratio((#[trigger] kept[j]).dist) by {
        assert(kept.contains(kept[j]));
        assert(kept.to_multiset().count(kept[j]) > 0);
        assert(all.to_multiset().count(kept[j]) > 0);
        assert(all.contains(kept[j]));
        let i = choose|i: int| 0 <= i < all.len() && all[i] == kept[j];
        assert(unit_ratio(all[i].dist));
    }
}

/// The filters change classifications, never answers: whatever the
/// filters, the records that the evaluator accepts are those within the
/// threshold, with the same answers.
pub proof fn lemma_filters_keep_answers(
    query: Seq<u32>,
    records: Seq<Record<u32>>,
    t: Ratio,
    config: FilterConfig,
)
    requires
        strictly_increasing(query),
        forall|r: int| 0 <= r < records.len() ==> (#[trigger] records[r]).set.wf(),
        unit_ratio(t),
    ensures
        accepted_answers(records, evaluations(query, records, t, config)) == answers_within(
            query,
            records,
            t,
        ),
    decreases records.len(),
{
    if records.len() > 0 {
        let rest = records.drop_last();
        assert forall|r: int| 0 <= r < rest.len() implies (#[trigger] rest[r]).set.wf() by {
            assert(rest[r] == records[r]);
        }
        lemma_filters_keep_answers(query, rest, t, config);
        assert(evaluations(query, records, t, config).drop_last() == evaluations(
            query,
            rest,
            t,
            config,
        ));
        assert(records[records.len() - 1].set.wf());
        lemma_filter_soundness(query, records.last().set@, t, config);
    }
}

/// An index answers for the records as they were given: the answers of
/// the remapped records to the remapped query are the answers of the given
/// records to the given query.
pub proof fn lemma_remapped_answers(
    query: Seq<u32>,
    source: Seq<Record<u32>>,
    table: Seq<u32>,
    stored: Seq<Record<u32>>,
    t: Ratio,
)
    requires
        is_permutation(table),
        strictly_increasing(query),
        set_within(query, table.len()),
        records_within(source, table.len()),
        remapped(source, table, stored),
    ensures
        answers_within(remap(table, query), stored, t) == answers_within(query, source, t),
    decreases source.len(),
{
    if source.len() > 0 {
        let source_rest = source.drop_last();
        let stored_rest = stored.drop_last();
        assert(records_within(source_rest, table.len())) by {
            assert forall|r: int| 0 <= r < source_rest.len() implies (
            #[trigger] source_rest[r]).set.wf() && set_within(
                source_rest[r].set@,
                table.len(),
            ) by {
                assert(source_rest[r] == source[r]);
            }
        }
        assert(remapped(source_rest, table, stored_rest)) by {
            assert forall|i: int| 0 <= i < source_rest.len() implies (
            #[trigger] stored_rest[i]).id == source_rest[i].id && stored_rest[i].set@ == remap(
                table,
                source_rest[i].set@,
            ) by {
                assert(stored_rest[i] == stored[i]);
            }
        }
        lemma_remapped_answers(query, source_rest, table, stored_rest, t);
        let last = source.len() - 1;
        assert(stored[last].id == source[last].id);
        assert(source[last].set.wf());
        crate::mapping::lemma_remap_keeps_sizes(table, query, source[last].set@);
    }
}

} // verus!
