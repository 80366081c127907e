use vstd::prelude::*;
use crate::bounds::{
    lemma_overlap_threshold, lemma_similar_passes_length, length_bounds, length_lower,
    length_passes, length_upper, overlap_threshold, overlap_threshold_for, similar, threshold,
    threshold_of, unit_ratio,
};
use crate::overlap::{
    common, count_common, lemma_hits_bound, lemma_merge_bounds, lemma_merge_inv,
    lemma_merge_stays, lemma_sizes, merge_active, merge_inv, merge_state, shorter_suffix,
    united, MergeState,
};
use crate::ratio::Ratio;
use crate::set::{strictly_increasing, OrderedSet};

verus! {

/// Which filters the evaluator applies before it verifies a pair.
#[derive(Debug, Clone, Copy)]
pub struct FilterConfig {
    pub length: bool,
    pub position: bool,
}

impl Default for FilterConfig {
    /// Both filters off.
    fn default() -> (config: FilterConfig)
        ensures
            !config.length,
            !config.position,
    {
        FilterConfig { length: false, position: false }
    }
}

/// How the evaluator classified a candidate.
#[derive(Debug, Clone, Copy)]
pub enum Evaluation {
    /// The candidate's length lies outside the bounds of the length filter.
    LengthFiltered,
    /// During the merge the candidate could no longer reach the overlap
    /// threshold.
    PositionFiltered,
    /// The merge ran to its end and the intersection was too small.
    Verified,
    /// Both sets are empty, so there is no distance.
    Undefined,
    /// The candidate lies within the radius, at this distance.
    Accepted(Ratio),
}

impl PartialEq for Evaluation {
    fn eq(&self, other: &Evaluation) -> (r: bool) {
        match (self, other) {
            (Evaluation::LengthFiltered, Evaluation::LengthFiltered) => true,
            (Evaluation::PositionFiltered, Evaluation::PositionFiltered) => true,
            (Evaluation::Verified, Evaluation::Verified) => true,
            (Evaluation::Undefined, Evaluation::Undefined) => true,
            (Evaluation::Accepted(a), Evaluation::Accepted(b)) => a.equals(b),
            _ => false,
        }
    }
}

impl vstd::std_specs::cmp::PartialEqSpecImpl for Evaluation {
    open spec fn obeys_eq_spec() -> bool {
        true
    }

    open spec fn eq_spec(&self, other: &Evaluation) -> bool {
        match (*self, *other) {
            (Evaluation::LengthFiltered, Evaluation::LengthFiltered) => true,
            (Evaluation::PositionFiltered, Evaluation::PositionFiltered) => true,
            (Evaluation::Verified, Evaluation::Verified) => true,
            (Evaluation::Undefined, Evaluation::Undefined) => true,
            (Evaluation::Accepted(a), Evaluation::Accepted(b)) => a.same(b),
            _ => false,
        }
    }
}

impl Eq for Evaluation {

}

/// The Jaccard distance of two duplicate-free sequences, as the exact
/// fraction `(u - c) / u`, where `u` values occur in at least one of the
/// two and `c` in both. Two empty sets have none.
pub open spec fn jaccard_distance(a: Seq<u32>, b: Seq<u32>) -> Option<Ratio> {
    if a.len() == 0 && b.len() == 0 {
        None
    } else {
        Some(Ratio { num: (united(a, b) - common(a, b)) as u64, den: united(a, b) as u64 })
    }
}

/// The position filter fails in a merge state when the hits so far and all
/// of the shorter unconsumed suffix together stay below the overlap
/// threshold.
pub open spec fn position_fails(a: Seq<u32>, b: Seq<u32>, s: MergeState, needed: nat) -> bool {
    s.hits + shorter_suffix(a, b, s) < needed
}

/// The position filter rejects a pair when it fails after some step that
/// the merge takes.
pub open spec fn position_rejects(a: Seq<u32>, b: Seq<u32>, needed: nat) -> bool {
    exists|n: nat|
        merge_active(a, b, merge_state(a, b, n)) && position_fails(
            a,
            b,
            #[trigger] merge_state(a, b, n + 1),
            needed,
        )
}

/// How a candidate `b` is classified against the base set `a` at the
/// similarity threshold `t` with the filters of `config`.
pub open spec fn evaluation_of(a: Seq<u32>, b: Seq<u32>, t: Ratio, config: FilterConfig)
    -> Evaluation {
    if a.len() == 0 && b.len() == 0 {
        Evaluation::Undefined
    } else if t.num == 0 {
        Evaluation::Accepted(jaccard_distance(a, b)->0)
    } else if a.len() == 0 || b.len() == 0 {
        Evaluation::Verified
    } else if config.length && !length_passes(t, a.len(), b.len()) {
        Evaluation::LengthFiltered
    } else if config.position && position_rejects(a, b, overlap_threshold(t, a.len() + b.len())) {
        Evaluation::PositionFiltered
    } else if common(a, b) < overlap_threshold(t, a.len() + b.len()) {
        Evaluation::Verified
    } else {
        Evaluation::Accepted(jaccard_distance(a, b)->0)
    }
}

/// The Jaccard evaluator of one base set at one radius.
pub struct Jaccard<'a, T> {
    base: &'a OrderedSet<T>,
    threshold: Ratio,
    length_lower: u64,
    length_upper: u64,
    config: FilterConfig,
}

impl<'a> Jaccard<'a, u32> {
    /// The base set.
    pub closed spec fn base(&self) -> Seq<u32> {
        self.base@
    }

    /// The similarity threshold, one minus the radius.
    pub closed spec fn threshold(&self) -> Ratio {
        self.threshold
    }

    /// The filters in use.
    pub closed spec fn config(&self) -> FilterConfig {
        self.config
    }

    /// The invariant of the type: the base set is well formed and the
    /// cached bounds are those of the threshold.
    pub closed spec fn wf(&self) -> bool {
        &&& self.base.wf()
        &&& unit_ratio(self.threshold)
        &&& self.length_lower == length_lower(self.threshold, self.base@.len())
        &&& self.length_upper == length_upper(self.threshold, self.base@.len())
    }

    /// What the invariant says to the outside: base set and threshold are
    /// well formed.
    pub proof fn lemma_wf(&self)
        requires
            self.wf(),
        ensures
            strictly_increasing(self.base()),
            unit_ratio(self.threshold()),
    {
    }

    /// An evaluator for `base` at `radius`.
    pub fn new(base: &'a OrderedSet<u32>, radius: Ratio, config: FilterConfig) -> (jaccard: Self)
        requires
            base.wf(),
        ensures
            jaccard.wf(),
            jaccard.base() == base@,
            jaccard.threshold() == threshold_of(radius),
            jaccard.config() == config,
    {
        let t = threshold(radius);
        let bounds = length_bounds(t, base.len() as u64);
        Jaccard { base, threshold: t, length_lower: bounds.0, length_upper: bounds.1, config }
    }

    /// Moves the evaluator to another radius; base set and filters stay.
    pub fn update_radius(&mut self, radius: Ratio)
        requires
            old(self).wf(),
        ensures
            final(self).wf(),
            final(self).base() == old(self).base(),
            final(self).config() == old(self).config(),
            final(self).threshold() == threshold_of(radius),
    {
        let t = threshold(radius);
        let bounds = length_bounds(t, self.base.len() as u64);
        self.threshold = t;
        self.length_lower = bounds.0;
        self.length_upper = bounds.1;
    }

    /// The distance between the base set and `other`, if there is one.
    pub fn distance(&self, other: &OrderedSet<u32>) -> (dist: Option<Ratio>)
        requires
            self.wf(),
            other.wf(),
        ensures
            dist == jaccard_distance(self.base(), other@),
    {
        let a = self.base;
        let b = other;
        if a.is_empty() && b.is_empty() {
            return None;
        }
        proof {
            lemma_sizes(a@, b@);
        }
        let hits: u64 = count_common(a, b);
        let union_len: u64 = a.len() as u64 + b.len() as u64 - hits;
        Some(Ratio { num: union_len - hits, den: union_len })
    }

    /// Classifies `other` against the base set.
    #[verifier::loop_isolation(false)]
    pub fn evaluate(&self, other: &OrderedSet<u32>) -> (res: Evaluation)
        requires
            self.wf(),
            other.wf(),
        ensures
            res == evaluation_of(self.base(), other@, self.threshold(), self.config()),
    {
        let a = self.base;
        let b = other;
        let a_len: usize = a.len();
        let b_len: usize = b.len();
        if a_len == 0 && b_len == 0 {
            return Evaluation::Undefined;
        }
        if self.threshold.num == 0 {
            let dist = self.distance(b).unwrap();
            return Evaluation::Accepted(dist);
        }
        if a_len == 0 || b_len == 0 {
            return Evaluation::Verified;
        }
        let config = self.config;
        if config.length && !(self.length_lower <= b_len as u64 && b_len as u64
            <= self.length_upper) {
            return Evaluation::LengthFiltered;
        }
        proof {
            lemma_sizes(a@, b@);
            lemma_merge_inv(a@, b@, 0);
        }
        let total: u64 = a_len as u64 + b_len as u64;
        let needed: u64 = overlap_threshold_for(self.threshold, total);

        let mut i: usize = 0;
        let mut j: usize = 0;
        let mut hits: u64 = 0;
        let ghost mut steps: nat = 0;
        while i < a_len && j < b_len
            invariant
                a.wf(),
                b.wf(),
                a_len == a@.len(),
                b_len == b@.len(),
                a_len <= 0x1_0000_0000,
                merge_state(a@, b@, steps) == (MergeState {
                    i: i as nat,
                    j: j as nat,
                    hits: hits as nat,
                }),
                merge_inv(a@, b@, merge_state(a@, b@, steps)),
                config.position ==> forall|n: nat|
                    n < steps ==> !position_fails(
                        a@,
                        b@,
                        #[trigger] merge_state(a@, b@, n + 1),
                        needed as nat,
                    ),
            decreases (a_len - i) + (b_len - j),
        {
            let x: u32 = a.at(i);
            let y: u32 = b.at(j);
            proof {
                lemma_merge_inv(a@, b@, steps + 1);
                lemma_hits_bound(a@, b@, merge_state(a@, b@, steps + 1));
            }
            if x == y {
                hits += 1;
                i += 1;
                j += 1;
            } else if x < y {
                i += 1;
            } else {
                j += 1;
            }
            if config.position {
                let a_rest: usize = a_len - i;
                let b_rest: usize = b_len - j;
                let rest: usize = if a_rest <= b_rest {
                    a_rest
                } else {
                    b_rest
                };
                if hits + (rest as u64) < needed {
                    proof {
                        assert(merge_active(a@, b@, merge_state(a@, b@, steps)));
                        assert(position_fails(
                            a@,
                            b@,
                            merge_state(a@, b@, steps + 1),
                            needed as nat,
                        ));
                    }
                    return Evaluation::PositionFiltered;
                }
            }
            proof {
                steps = steps + 1;
            }
        }
        proof {
            lemma_merge_bounds(a@, b@, merge_state(a@, b@, steps));
            if config.position {
                assert forall|n: nat|
                    merge_active(a@, b@, merge_state(a@, b@, n)) implies !position_fails(
                    a@,
                    b@,
                    #[trigger] merge_state(a@, b@, n + 1),
                    needed as nat,
                ) by {
                    if n >= steps {
                        lemma_merge_stays(a@, b@, steps, n);
                    }
                }
            }
        }
        if hits < needed {
            return Evaluation::Verified;
        }
        let union_len: u64 = total - hits;
        Evaluation::Accepted(Ratio { num: union_len - hits, den: union_len })
    }
}

/// The distance does not depend on which of the two sets is the base.
pub proof fn lemma_distance_symmetric(a: Seq<u32>, b: Seq<u32>)
    ensures
        jaccard_distance(a, b) == jaccard_distance(b, a),
{
    assert(a.to_set().intersect(b.to_set()) =~= b.to_set().intersect(a.to_set()));
    assert(a.to_set().union(b.to_set()) =~= b.to_set().union(a.to_set()));
}

/// A distance lies between zero and one, and a non-empty set is at
/// distance zero from itself.
pub proof fn lemma_distance_bounds(a: Seq<u32>, b: Seq<u32>)
    requires
        strictly_increasing(a),
        strictly_increasing(b),
        a.len() > 0 || b.len() > 0,
    ensures
        jaccard_distance(a, b) matches Some(d) && d.den > 0 && d.num <= d.den,
        jaccard_distance(a, b)->0.den == united(a, b),
        jaccard_distance(a, b)->0.num == united(a, b) - common(a, b),
        (Ratio { num: 0, den: 1 }).at_most(jaccard_distance(a, b)->0),
        jaccard_distance(a, b)->0.at_most(Ratio { num: 1, den: 1 }),
        a == b ==> jaccard_distance(a, b)->0.same(Ratio { num: 0, den: 1 }),
{
    lemma_sizes(a, b);
    let d = jaccard_distance(a, b)->0;
    let zero = Ratio { num: 0, den: 1 };
    let one = Ratio { num: 1, den: 1 };
    assert(d.den == united(a, b));
    assert(d.num == united(a, b) - common(a, b));
    assert((zero.num as int) * (d.den as int) == 0);
    assert((d.num as int) * (zero.den as int) == d.num);
    assert((one.num as int) * (d.den as int) == d.den);
    assert((d.num as int) * (one.den as int) == d.num);
    if a == b {
        assert(a.to_set().intersect(a.to_set()) =~= a.to_set());
        assert(a.to_set().union(a.to_set()) =~= a.to_set());
        assert(d.num == 0);
    }
}

/// No false rejections, and no false acceptances: whatever the filters, a
/// pair is accepted exactly when it is as similar as the threshold asks,
/// and then with its distance. A pair of empty sets is never accepted.
pub proof fn lemma_filter_soundness(a: Seq<u32>, b: Seq<u32>, t: Ratio, config: FilterConfig)
    requires
        strictly_increasing(a),
        strictly_increasing(b),
        unit_ratio(t),
    ensures
        (a.len() > 0 || b.len() > 0) && similar(t, common(a, b), united(a, b))
            ==> evaluation_of(a, b, t, config) == Evaluation::Accepted(jaccard_distance(a, b)->0),
        evaluation_of(a, b, t, config) is Accepted ==> (a.len() > 0 || b.len() > 0) && similar(
            t,
            common(a, b),
            united(a, b),
        ),
        a.len() == 0 && b.len() == 0 ==> evaluation_of(a, b, t, config) == Evaluation::Undefined,
{
    lemma_sizes(a, b);
    let hits = common(a, b);
    let union_len = united(a, b);
    let needed = overlap_threshold(t, a.len() + b.len());
    lemma_overlap_threshold(t, hits, union_len);
    if a.len() == 0 && b.len() == 0 {
    } else if t.num == 0 {
        assert(hits * t.den >= 0) by (nonlinear_arith)
            requires
                hits >= 0,
                t.den >= 0,
        ;
        assert(t.num * union_len == 0) by (nonlinear_arith)
            requires
                t.num == 0,
        ;
    } else if a.len() == 0 || b.len() == 0 {
        assert(hits == 0);
        assert(hits * t.den == 0) by (nonlinear_arith)
            requires
                hits == 0,
        ;
        assert(t.num * union_len > 0) by (nonlinear_arith)
            requires
                t.num > 0,
                union_len > 0,
        ;
    } else if similar(t, hits, union_len) {
        lemma_similar_passes_length(t, a.len(), b.len(), hits, union_len);
        assert(!position_rejects(a, b, needed)) by {
            assert forall|n: nat| merge_active(a, b, merge_state(a, b, n)) implies !position_fails(
                a,
                b,
                #[trigger] merge_state(a, b, n + 1),
                needed,
            ) by {
                lemma_merge_inv(a, b, n + 1);
                lemma_merge_bounds(a, b, merge_state(a, b, n + 1));
            }
        }
    }
}

/// At a radius of one or more the evaluator accepts every pair but that of
/// two empty sets.
pub proof fn lemma_radius_one_accepts(a: Seq<u32>, b: Seq<u32>, radius: Ratio, config: FilterConfig)
    requires
        radius.den == 0 || radius.num >= radius.den,
    ensures
        a.len() > 0 || b.len() > 0 ==> evaluation_of(a, b, threshold_of(radius), config)
            == Evaluation::Accepted(jaccard_distance(a, b)->0),
        a.len() == 0 && b.len() == 0 ==> evaluation_of(a, b, threshold_of(radius), config)
            == Evaluation::Undefined,
{
}

/// Which pairs are accepted, and at what distance, does not depend on the
/// filters.
pub proof fn lemma_filters_irrelevant(
    a: Seq<u32>,
    b: Seq<u32>,
    t: Ratio,
    first: FilterConfig,
    second: FilterConfig,
)
    requires
        strictly_increasing(a),
        strictly_increasing(b),
        unit_ratio(t),
    ensures
        evaluation_of(a, b, t, first) is Accepted <==> evaluation_of(a, b, t, second) is Accepted,
        evaluation_of(a, b, t, first) is Accepted ==> evaluation_of(a, b, t, first)
            == evaluation_of(a, b, t, second),
        evaluation_of(a, b, t, first) is Undefined <==> evaluation_of(a, b, t, second) is Undefined,
{
    lemma_filter_soundness(a, b, t, first);
    lemma_filter_soundness(a, b, t, second);
}

} // verus!
