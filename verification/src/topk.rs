use vstd::prelude::*;
use vstd::seq_lib::{to_multiset_build, to_multiset_insert, to_multiset_remove};
use crate::answer::{
    answer_before, answer_le, answers_sorted, lemma_answer_order_total,
    lemma_answer_order_transitive, Answer,
};
use crate::ratio::{lemma_order_transitive, lemma_trichotomy};

verus! {

/// Where an answer enters a sorted sequence: behind the last answer that
/// it does not come before.
pub open spec fn insert_place(s: Seq<Answer>, a: Answer) -> int
    decreases s.len(),
{
    if s.len() == 0 {
        0
    } else if answer_before(a, s.last()) {
        insert_place(s.drop_last(), a)
    } else {
        s.len() as int
    }
}

/// The sequence with the answer entered at its place.
pub open spec fn insert_sorted(s: Seq<Answer>, a: Answer) -> Seq<Answer> {
    s.insert(insert_place(s, a), a)
}

/// The `k` nearest of the candidates, as a scan in the given order keeps
/// them: while fewer than `k` are kept every candidate enters; afterwards a
/// candidate enters only where it is strictly nearer than the farthest
/// answer kept, which then leaves. The answers kept stand in their order.
pub open spec fn topk_of(candidates: Seq<Answer>, k: nat) -> Seq<Answer>
    decreases candidates.len(),
{
    if candidates.len() == 0 {
        Seq::empty()
    } else {
        let kept = topk_of(candidates.drop_last(), k);
        let a = candidates.last();
        if kept.len() < k {
            insert_sorted(kept, a)
        } else if k > 0 && a.dist.below(kept.last().dist) {
            insert_sorted(kept.drop_last(), a)
        } else {
            kept
        }
    }
}

/// The answer occurs more often among `all` than among `kept`.
pub open spec fn left_out(kept: Seq<Answer>, all: Seq<Answer>, x: Answer) -> bool {
    all.to_multiset().count(x) > kept.to_multiset().count(x)
}

/// No answer that is left out is nearer than an answer that is kept.
pub open spec fn nearest_of(kept: Seq<Answer>, all: Seq<Answer>) -> bool {
    forall|x: Answer, j: int|
        #[trigger] left_out(kept, all, x) && 0 <= j < kept.len() ==> (#[trigger] kept[j]).dist.at_most(
            x.dist,
        )
}

/// Where the place of an answer in a sorted sequence lies.
pub proof fn lemma_insert_place(s: Seq<Answer>, a: Answer)
    requires
        answers_sorted(s),
    ensures
        0 <= insert_place(s, a) <= s.len(),
        forall|i: int| insert_place(s, a) <= i < s.len() ==> answer_before(a, #[trigger] s[i]),
        forall|i: int| 0 <= i < insert_place(s, a) ==> answer_le(#[trigger] s[i], a),
    decreases s.len(),
{
    if s.len() > 0 {
        if answer_before(a, s.last()) {
            let t = s.drop_last();
            assert(answers_sorted(t)) by {
                assert forall|i: int, j: int| 0 <= i <= j < t.len() implies answer_le(
                    t[i],
                    t[j],
                ) by {
                    assert(answer_le(s[i], s[j]));
                }
            }
            lemma_insert_place(t, a);
            assert forall|i: int| insert_place(s, a) <= i < s.len() implies answer_before(
                a,
                #[trigger] s[i],
            ) by {
                if i < t.len() {
                    assert(t[i] == s[i]);
                }
            }
            assert forall|i: int| 0 <= i < insert_place(s, a) implies answer_le(
                #[trigger] s[i],
                a,
            ) by {
                assert(t[i] == s[i]);
            }
        } else {
            assert forall|i: int| 0 <= i < s.len() implies answer_le(#[trigger] s[i], a) by {
                lemma_answer_order_total(a, s.last());
                assert(answer_le(s[i], s[s.len() - 1]));
                lemma_answer_order_transitive(s[i], s.last(), a);
            }
        }
    }
}

/// Entering an answer at its place keeps the sequence sorted and adds
/// exactly that answer.
pub proof fn lemma_insert_sorted(s: Seq<Answer>, a: Answer)
    requires
        answers_sorted(s),
    ensures
        answers_sorted(insert_sorted(s, a)),
        insert_sorted(s, a).len() == s.len() + 1,
        insert_sorted(s, a).to_multiset() == s.to_multiset().insert(a),
{
    lemma_insert_place(s, a);
    let p = insert_place(s, a);
    let r = insert_sorted(s, a);
    to_multiset_insert(s, p, a);
    assert forall|i: int, j: int| 0 <= i <= j < r.len() implies answer_le(r[i], r[j]) by {
        lemma_answer_order_total(a, a);
        if j < p {
            assert(r[i] == s[i] && r[j] == s[j]);
        } else if j == p {
            if i < p {
                assert(r[i] == s[i]);
            }
        } else {
            assert(r[j] == s[j - 1]);
            if i < p {
                assert(r[i] == s[i]);
                assert(answer_le(s[i], s[j - 1]));
            } else if i == p {
            } else {
                assert(r[i] == s[i - 1]);
                assert(answer_le(s[i - 1], s[j - 1]));
            }
        }
    }
}

/// A sorted sequence without its last answer is sorted, and lacks exactly
/// that answer.
pub proof fn lemma_drop_last_sorted(s: Seq<Answer>)
    requires
        answers_sorted(s),
        s.len() > 0,
    ensures
        answers_sorted(s.drop_last()),
        s.drop_last().to_multiset() == s.to_multiset().remove(s.last()),
{
    let t = s.drop_last();
    assert forall|i: int, j: int| 0 <= i <= j < t.len() implies answer_le(t[i], t[j]) by {
        assert(answer_le(s[i], s[j]));
    }
    assert(t == s.remove(s.len() - 1));
    to_multiset_remove(s, s.len() - 1);
}

/// What the scan keeps: as many answers as asked for, or all candidates if
/// there are fewer; in their order; each of them a candidate; and none of
/// them farther than a candidate that it leaves out.
pub proof fn lemma_topk(candidates: Seq<Answer>, k: nat)
    ensures
        topk_of(candidates, k).len() == if candidates.len() < k {
            candidates.len()
        } else {
            k
        },
        answers_sorted(topk_of(candidates, k)),
        topk_of(candidates, k).to_multiset().subset_of(candidates.to_multiset()),
        candidates.len() <= k ==> topk_of(candidates, k).to_multiset() == candidates.to_multiset(),
        nearest_of(topk_of(candidates, k), candidates),
    decreases candidates.len(),
{
    broadcast use vstd::multiset::group_multiset_axioms;

    let result = topk_of(candidates, k);
    if candidates.len() == 0 {
        assert(candidates.to_multiset() =~= result.to_multiset()) by {
            assert(candidates =~= result);
        }
    } else {
        let prev = candidates.drop_last();
        let a = candidates.last();
        let kept = topk_of(prev, k);
        lemma_topk(prev, k);
        assert(candidates == prev.push(a));
        to_multiset_build(prev, a);
        if kept.len() < k {
            lemma_insert_sorted(kept, a);
            assert(result.to_multiset() =~= candidates.to_multiset());
        } else if k > 0 && a.dist.below(kept.last().dist) {
            let last = kept.last();
            let rest = kept.drop_last();
            lemma_drop_last_sorted(kept);
            lemma_insert_sorted(rest, a);
            lemma_insert_place(rest, a);
            assert(kept.to_multiset().count(last) > 0) by {
                kept.to_multiset_ensures();
                assert(kept.contains(last));
            }
            assert forall|x: Answer, j: int|
                #[trigger] left_out(result, candidates, x) && 0 <= j < result.len() implies (
            #[trigger] result[j]).dist.at_most(x.dist) by {
                // Every answer kept now is at most as far as the one that left.
                let p = insert_place(rest, a);
                assert(result[j].dist.at_most(last.dist)) by {
                    if j == p {
                        assert(result[j] == a);
                    } else if j < p {
                        assert(result[j] == kept[j]);
                        assert(answer_le(kept[j], kept[kept.len() - 1]));
                    } else {
                        assert(result[j] == kept[j - 1]);
                        assert(answer_le(kept[j - 1], kept[kept.len() - 1]));
                    }
                }
                if left_out(kept, prev, x) {
                    assert(kept[kept.len() - 1].dist.at_most(x.dist));
                    lemma_order_transitive(result[j].dist, last.dist, x.dist);
                } else {
                    assert(x == last);
                }
            }
        } else {
            assert forall|x: Answer, j: int|
                #[trigger] left_out(result, candidates, x) && 0 <= j < result.len() implies (
            #[trigger] result[j]).dist.at_most(x.dist) by {
                if left_out(kept, prev, x) {
                } else {
                    assert(x == a);
                    assert(k > 0);
                    lemma_trichotomy(a.dist, kept.last().dist);
                    assert(answer_le(kept[j], kept[kept.len() - 1]));
                    lemma_order_transitive(kept[j].dist, kept.last().dist, a.dist);
                }
            }
        }
    }
}

/// Enters an answer into a sorted vector at its place.
pub fn insert_answer(kept: &mut Vec<Answer>, a: Answer)
    requires
        answers_sorted(old(kept)@),
    ensures
        final(kept)@ == insert_sorted(old(kept)@, a),
        final(kept)@.len() == old(kept)@.len() + 1,
        answers_sorted(final(kept)@),
{
    let mut p: usize = kept.len();
    proof {
        assert(kept@.take(kept@.len() as int) == kept@);
    }
    while p > 0 && a.comes_before(&kept[p - 1])
        invariant
            p <= kept@.len(),
            kept@ == old(kept)@,
            insert_place(kept@, a) == insert_place(kept@.take(p as int), a),
        decreases p,
    {
        proof {
            assert(kept@.take(p as int).drop_last() == kept@.take(p - 1));
        }
        p -= 1;
    }
    proof {
        lemma_insert_sorted(kept@, a);
    }
    kept.insert(p, a);
}

} // verus!
