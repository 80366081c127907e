use vstd::prelude::*;
use std::cmp::Ordering;
use crate::ratio::{lemma_order_transitive, lemma_trichotomy, Ratio};

verus! {

/// A record that a query found, with its distance to the query.
#[derive(Debug, Clone, Copy)]
pub struct Answer {
    pub id: u32,
    pub dist: Ratio,
}

/// `a` comes strictly before `b`: by distance, then by identifier.
pub open spec fn answer_before(a: Answer, b: Answer) -> bool {
    a.dist.below(b.dist) || (a.dist.same(b.dist) && a.id < b.id)
}

/// `a` and `b` have the same place in the order: equal distances and the
/// same identifier.
pub open spec fn answer_equal(a: Answer, b: Answer) -> bool {
    a.dist.same(b.dist) && a.id == b.id
}

/// `a` does not come after `b`.
pub open spec fn answer_le(a: Answer, b: Answer) -> bool {
    answer_before(a, b) || answer_equal(a, b)
}

/// No answer comes after a later one.
pub open spec fn answers_sorted(s: Seq<Answer>) -> bool {
    forall|i: int, j: int| 0 <= i <= j < s.len() ==> answer_le(s[i], s[j])
}

impl Answer {
    /// Compares two answers by distance and then by identifier.
    pub fn order(&self, other: &Answer) -> (o: Ordering)
        ensures
            o == Ordering::Less <==> answer_before(*self, *other),
            o == Ordering::Equal <==> answer_equal(*self, *other),
            o == Ordering::Greater <==> answer_before(*other, *self),
    {
        proof {
            lemma_trichotomy(self.dist, other.dist);
        }
        if self.dist.less_than(&other.dist) {
            Ordering::Less
        } else if other.dist.less_than(&self.dist) {
            Ordering::Greater
        } else if self.id < other.id {
            Ordering::Less
        } else if self.id > other.id {
            Ordering::Greater
        } else {
            Ordering::Equal
        }
    }

    /// Whether `self` comes strictly before `other`.
    pub fn comes_before(&self, other: &Answer) -> (b: bool)
        ensures
            b == answer_before(*self, *other),
    {
        proof {
            lemma_trichotomy(self.dist, other.dist);
        }
        if self.dist.less_than(&other.dist) {
            true
        } else if other.dist.less_than(&self.dist) {
            false
        } else {
            self.id < other.id
        }
    }
}

impl PartialEq for Answer {
    fn eq(&self, other: &Answer) -> (r: bool) {
        self.id == other.id && self.dist.equals(&other.dist)
    }
}

impl vstd::std_specs::cmp::PartialEqSpecImpl for Answer {
    open spec fn obeys_eq_spec() -> bool {
        true
    }

    open spec fn eq_spec(&self, other: &Answer) -> bool {
        answer_equal(*self, *other)
    }
}

impl Eq for Answer {

}

impl PartialOrd for Answer {
    fn partial_cmp(&self, other: &Answer) -> (o: Option<Ordering>) {
        Some(self.order(other))
    }
}

impl vstd::std_specs::cmp::PartialOrdSpecImpl for Answer {
    open spec fn obeys_partial_cmp_spec() -> bool {
        true
    }

    open spec fn partial_cmp_spec(&self, other: &Answer) -> Option<Ordering> {
        if answer_before(*self, *other) {
            Some(Ordering::Less)
        } else if answer_equal(*self, *other) {
            Some(Ordering::Equal)
        } else {
            Some(Ordering::Greater)
        }
    }
}

/// `sort_unstable_by` of std with the order of answers, which is total:
/// afterwards the same answers, each as often as before, stand in that
/// order.
#[verifier::external_body]
pub(crate) fn sort_answers(answers: &mut Vec<Answer>)
    ensures
        final(answers)@.to_multiset() == old(answers)@.to_multiset(),
        answers_sorted(final(answers)@),
{
    answers.sort_unstable_by(|a, b| a.order(b));
}

/// The order of answers is total: of two answers one comes before the
/// other or they have the same place, and never two of these at once.
pub proof fn lemma_answer_order_total(a: Answer, b: Answer)
    ensures
        answer_before(a, b) || answer_equal(a, b) || answer_before(b, a),
        !(answer_before(a, b) && answer_equal(a, b)),
        !(answer_before(a, b) && answer_before(b, a)),
        !(answer_equal(a, b) && answer_before(b, a)),
        answer_le(a, b) || answer_le(b, a),
        answer_le(a, a),
{
    lemma_trichotomy(a.dist, b.dist);
}

/// The order of answers is transitive.
pub proof fn lemma_answer_order_transitive(a: Answer, b: Answer, c: Answer)
    ensures
        answer_le(a, b) && answer_le(b, c) ==> answer_le(a, c),
        answer_before(a, b) && answer_le(b, c) ==> answer_before(a, c),
        answer_le(a, b) && answer_before(b, c) ==> answer_before(a, c),
{
    lemma_order_transitive(a.dist, b.dist, c.dist);
    lemma_trichotomy(a.dist, b.dist);
    lemma_trichotomy(b.dist, c.dist);
    lemma_trichotomy(a.dist, c.dist);
}

} // verus!
