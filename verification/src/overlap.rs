use vstd::prelude::*;
use vstd::set_lib::{lemma_len_intersect, lemma_len_subset, lemma_len_union};
use crate::set::{lemma_increasing_len_bound, lemma_increasing_no_duplicates, strictly_increasing, OrderedSet};

verus! {

/// The number of values that occur in both sequences.
pub open spec fn common(a: Seq<u32>, b: Seq<u32>) -> nat {
    a.to_set().intersect(b.to_set()).len()
}

/// The number of values that occur in at least one of the sequences.
pub open spec fn united(a: Seq<u32>, b: Seq<u32>) -> nat {
    a.to_set().union(b.to_set()).len()
}

/// Where an ordered merge of two sequences stands: `i` elements of the
/// first and `j` of the second are consumed, and `hits` pairs were equal.
pub struct MergeState {
    pub i: nat,
    pub j: nat,
    pub hits: nat,
}

/// Neither sequence is used up, so the merge takes another step.
pub open spec fn merge_active(a: Seq<u32>, b: Seq<u32>, s: MergeState) -> bool {
    s.i < a.len() && s.j < b.len()
}

/// One step of the merge: on equal heads both sides advance and the pair
/// counts as a hit, otherwise the side with the smaller head advances. A
/// finished merge stays where it is.
pub open spec fn merge_step(a: Seq<u32>, b: Seq<u32>, s: MergeState) -> MergeState {
    if !merge_active(a, b, s) {
        s
    } else if a[s.i as int] == b[s.j as int] {
        MergeState { i: s.i + 1, j: s.j + 1, hits: s.hits + 1 }
    } else if a[s.i as int] < b[s.j as int] {
        MergeState { i: s.i + 1, j: s.j, hits: s.hits }
    } else {
        MergeState { i: s.i, j: s.j + 1, hits: s.hits }
    }
}

/// The state of the merge after `n` steps from the start.
pub open spec fn merge_state(a: Seq<u32>, b: Seq<u32>, n: nat) -> MergeState
    decreases n,
{
    if n == 0 {
        MergeState { i: 0, j: 0, hits: 0 }
    } else {
        merge_step(a, b, merge_state(a, b, (n - 1) as nat))
    }
}

/// The shorter of the two unconsumed suffixes.
pub open spec fn shorter_suffix(a: Seq<u32>, b: Seq<u32>, s: MergeState) -> int {
    if a.len() - s.i <= b.len() - s.j {
        a.len() - s.i
    } else {
        b.len() - s.j
    }
}

/// What holds of every state that a merge of two strictly increasing
/// sequences reaches.
pub open spec fn merge_inv(a: Seq<u32>, b: Seq<u32>, s: MergeState) -> bool {
    &&& s.i <= a.len()
    &&& s.j <= b.len()
    &&& s.hits == common(a.take(s.i as int), b.take(s.j as int))
    &&& (s.i > 0 && s.j < b.len() ==> a[s.i - 1] < b[s.j as int])
    &&& (s.j > 0 && s.i < a.len() ==> b[s.j - 1] < a[s.i as int])
}

proof fn lemma_take_contains(a: Seq<u32>, i: int, v: u32)
    requires
        0 <= i <= a.len(),
    ensures
        a.take(i).to_set().contains(v) <==> exists|k: int| 0 <= k < i && a[k] == v,
{
    if a.take(i).contains(v) {
        let k = choose|k: int| 0 <= k < a.take(i).len() && a.take(i)[k] == v;
        assert(a[k] == v);
    }
    if exists|k: int| 0 <= k < i && a[k] == v {
        let k = choose|k: int| 0 <= k < i && a[k] == v;
        assert(a.take(i)[k] == v);
    }
}

proof fn lemma_take_push(a: Seq<u32>, i: int)
    requires
        0 <= i < a.len(),
    ensures
        a.take(i + 1).to_set() == a.take(i).to_set().insert(a[i]),
        a.take(i).to_set().finite(),
{
    assert(a.take(i + 1) == a.take(i).push(a[i]));
    a.take(i).lemma_push_to_set_commute(a[i]);
    vstd::seq_lib::seq_to_set_is_finite(a.take(i));
}

proof fn lemma_merge_step_inv(a: Seq<u32>, b: Seq<u32>, s: MergeState)
    requires
        strictly_increasing(a),
        strictly_increasing(b),
        merge_inv(a, b, s),
    ensures
        merge_inv(a, b, merge_step(a, b, s)),
{
    if merge_active(a, b, s) {
        let i = s.i as int;
        let j = s.j as int;
        let x = a[i];
        let y = b[j];
        let sa = a.take(i).to_set();
        let sb = b.take(j).to_set();
        lemma_take_push(a, i);
        lemma_take_push(b, j);
        assert(!sa.contains(x)) by {
            lemma_take_contains(a, i, x);
            if exists|k: int| 0 <= k < i && a[k] == x {
                let k = choose|k: int| 0 <= k < i && a[k] == x;
                assert(a[k] < a[i]);
            }
        }
        assert(!sb.contains(y)) by {
            lemma_take_contains(b, j, y);
            if exists|k: int| 0 <= k < j && b[k] == y {
                let k = choose|k: int| 0 <= k < j && b[k] == y;
                assert(b[k] < b[j]);
            }
        }
        let old_common = sa.intersect(sb);
        assert(old_common.finite());
        if x == y {
            assert(sa.insert(x).intersect(sb.insert(y)) =~= old_common.insert(x));
            assert(!old_common.contains(x));
            if i + 1 < a.len() {
                assert(a[i] < a[i + 1]);
            }
            if j + 1 < b.len() {
                assert(b[j] < b[j + 1]);
            }
        } else if x < y {
            assert(!sb.contains(x)) by {
                lemma_take_contains(b, j, x);
                if exists|k: int| 0 <= k < j && b[k] == x {
                    let k = choose|k: int| 0 <= k < j && b[k] == x;
                    if k < j - 1 {
                        assert(b[k] < b[j - 1]);
                    }
                }
            }
            assert(sa.insert(x).intersect(sb) =~= old_common);
            if i + 1 < a.len() {
                assert(a[i] < a[i + 1]);
            }
        } else {
            assert(!sa.contains(y)) by {
                lemma_take_contains(a, i, y);
                if exists|k: int| 0 <= k < i && a[k] == y {
                    let k = choose|k: int| 0 <= k < i && a[k] == y;
                    if k < i - 1 {
                        assert(a[k] < a[i - 1]);
                    }
                }
            }
            assert(sa.intersect(sb.insert(y)) =~= old_common);
            if j + 1 < b.len() {
                assert(b[j] < b[j + 1]);
            }
        }
    }
}

/// Every state that the merge of two strictly increasing sequences reaches
/// satisfies `merge_inv`.
pub proof fn lemma_merge_inv(a: Seq<u32>, b: Seq<u32>, n: nat)
    requires
        strictly_increasing(a),
        strictly_increasing(b),
    ensures
        merge_inv(a, b, merge_state(a, b, n)),
    decreases n,
{
    if n == 0 {
        assert(a.take(0).to_set() =~= Set::<u32>::empty());
        assert(a.take(0).to_set().intersect(b.take(0).to_set()) =~= Set::<u32>::empty());
    } else {
        lemma_merge_inv(a, b, (n - 1) as nat);
        lemma_merge_step_inv(a, b, merge_state(a, b, (n - 1) as nat));
    }
}

/// In a state of the merge, the hits so far are common values, and no more
/// common values are left than the shorter unconsumed suffix is long.
pub proof fn lemma_merge_bounds(a: Seq<u32>, b: Seq<u32>, s: MergeState)
    requires
        strictly_increasing(a),
        strictly_increasing(b),
        merge_inv(a, b, s),
    ensures
        s.hits <= common(a, b) <= s.hits + shorter_suffix(a, b, s),
        !merge_active(a, b, s) ==> s.hits == common(a, b),
{
    let i = s.i as int;
    let j = s.j as int;
    let sa = a.to_set();
    let sb = b.to_set();
    let head = a.take(i).to_set().intersect(b.take(j).to_set());
    let tail = a.skip(i).to_set().intersect(b.skip(j).to_set());
    vstd::seq_lib::seq_to_set_is_finite(a);
    vstd::seq_lib::seq_to_set_is_finite(b);
    vstd::seq_lib::seq_to_set_is_finite(a.take(i));
    vstd::seq_lib::seq_to_set_is_finite(b.take(j));
    vstd::seq_lib::seq_to_set_is_finite(a.skip(i));
    vstd::seq_lib::seq_to_set_is_finite(b.skip(j));
    assert(head.subset_of(sa.intersect(sb))) by {
        assert forall|v: u32| head.contains(v) implies sa.intersect(sb).contains(v) by {
            lemma_take_contains(a, i, v);
            lemma_take_contains(b, j, v);
            let k = choose|k: int| 0 <= k < i && a[k] == v;
            let l = choose|l: int| 0 <= l < j && b[l] == v;
            assert(a.contains(v));
            assert(b.contains(v));
        }
    }
    lemma_len_subset(head, sa.intersect(sb));
    assert(sa.intersect(sb).subset_of(head.union(tail))) by {
        assert forall|v: u32| sa.intersect(sb).contains(v) implies head.union(tail).contains(
            v,
        ) by {
            assert(a.contains(v));
            assert(b.contains(v));
            let k = choose|k: int| 0 <= k < a.len() && a[k] == v;
            let l = choose|l: int| 0 <= l < b.len() && b[l] == v;
            lemma_take_contains(a, i, v);
            lemma_take_contains(b, j, v);
            if k < i && l < j {
            } else if k >= i && l >= j {
                assert(a.skip(i)[k - i] == v);
                assert(b.skip(j)[l - j] == v);
                assert(a.skip(i).contains(v));
                assert(b.skip(j).contains(v));
            } else if k < i {
                if k < i - 1 {
                    assert(a[k] < a[i - 1]);
                }
                if j < l {
                    assert(b[j] < b[l]);
                }
                assert(false);
            } else {
                if l < j - 1 {
                    assert(b[l] < b[j - 1]);
                }
                if i < k {
                    assert(a[i] < a[k]);
                }
                assert(false);
            }
        }
    }
    lemma_len_subset(sa.intersect(sb), head.union(tail));
    lemma_len_union(head, tail);
    lemma_len_intersect(a.skip(i).to_set(), b.skip(j).to_set());
    lemma_len_intersect(b.skip(j).to_set(), a.skip(i).to_set());
    assert(b.skip(j).to_set().intersect(a.skip(i).to_set()) =~= tail);
    lemma_set_len_at_most(a.skip(i));
    lemma_set_len_at_most(b.skip(j));
}

/// A sequence has at most as many distinct members as elements.
pub proof fn lemma_set_len_at_most(s: Seq<u32>)
    ensures
        s.to_set().len() <= s.len(),
        s.to_set().finite(),
    decreases s.len(),
{
    vstd::seq_lib::seq_to_set_is_finite(s);
    if s.len() == 0 {
        assert(s.to_set() =~= Set::<u32>::empty());
    } else {
        lemma_set_len_at_most(s.drop_last());
        assert(s == s.drop_last().push(s.last()));
        s.drop_last().lemma_push_to_set_commute(s.last());
    }
}

/// Once the merge has stopped it stays where it is.
pub proof fn lemma_merge_stays(a: Seq<u32>, b: Seq<u32>, n: nat, m: nat)
    requires
        !merge_active(a, b, merge_state(a, b, n)),
        n <= m,
    ensures
        merge_state(a, b, m) == merge_state(a, b, n),
    decreases m,
{
    if n < m {
        lemma_merge_stays(a, b, n, (m - 1) as nat);
    }
}

/// The sizes of two duplicate-free sequences, of their common part and of
/// their union.
pub proof fn lemma_sizes(a: Seq<u32>, b: Seq<u32>)
    requires
        strictly_increasing(a),
        strictly_increasing(b),
    ensures
        united(a, b) + common(a, b) == a.len() + b.len(),
        common(a, b) <= a.len(),
        common(a, b) <= b.len(),
        a.len() <= united(a, b),
        b.len() <= united(a, b),
        a.len() <= 0x1_0000_0000,
        b.len() <= 0x1_0000_0000,
{
    lemma_increasing_no_duplicates(a);
    lemma_increasing_no_duplicates(b);
    a.unique_seq_to_set();
    b.unique_seq_to_set();
    vstd::seq_lib::seq_to_set_is_finite(a);
    vstd::seq_lib::seq_to_set_is_finite(b);
    vstd::set_lib::lemma_set_intersect_union_lens(a.to_set(), b.to_set());
    lemma_len_intersect(a.to_set(), b.to_set());
    lemma_len_intersect(b.to_set(), a.to_set());
    assert(b.to_set().intersect(a.to_set()) =~= a.to_set().intersect(b.to_set()));
    lemma_increasing_len_bound(a);
    lemma_increasing_len_bound(b);
}

/// Counts the common elements of two sets by an ordered merge.
pub fn count_common(a: &OrderedSet<u32>, b: &OrderedSet<u32>) -> (hits: u64)
    requires
        a.wf(),
        b.wf(),
    ensures
        hits == common(a@, b@),
{
    let a_len: usize = a.len();
    let b_len: usize = b.len();
    let mut i: usize = 0;
    let mut j: usize = 0;
    let mut hits: u64 = 0;
    let ghost mut steps: nat = 0;
    proof {
        lemma_sizes(a@, b@);
        lemma_merge_inv(a@, b@, 0);
    }
    while i < a_len && j < b_len
        invariant
            a.wf(),
            b.wf(),
            a_len == a@.len(),
            b_len == b@.len(),
            a_len <= 0x1_0000_0000,
            merge_state(a@, b@, steps) == (MergeState { i: i as nat, j: j as nat, hits: hits as nat }),
            merge_inv(a@, b@, merge_state(a@, b@, steps)),
        decreases (a_len - i) + (b_len - j),
    {
        let x: u32 = a.at(i);
        let y: u32 = b.at(j);
        proof {
            lemma_merge_inv(a@, b@, steps + 1);
            lemma_hits_bound(a@, b@, merge_state(a@, b@, steps + 1));
            steps = steps + 1;
        }
        if x == y {
            hits += 1;
            i += 1;
            j += 1;
        } else if x < y {
            i += 1;
        } else {
            j += 1;
        }
    }
    proof {
        lemma_merge_bounds(a@, b@, merge_state(a@, b@, steps));
    }
    hits
}

/// The hits of a merge state are at most the number of consumed elements of
/// either side.
pub proof fn lemma_hits_bound(a: Seq<u32>, b: Seq<u32>, s: MergeState)
    requires
        merge_inv(a, b, s),
    ensures
        s.hits <= s.i,
        s.hits <= s.j,
{
    let sa = a.take(s.i as int).to_set();
    let sb = b.take(s.j as int).to_set();
    lemma_set_len_at_most(a.take(s.i as int));
    lemma_set_len_at_most(b.take(s.j as int));
    lemma_len_intersect(sa, sb);
    lemma_len_intersect(sb, sa);
    assert(sb.intersect(sa) =~= sa.intersect(sb));
}

} // verus!
