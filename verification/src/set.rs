use vstd::prelude::*;
use vstd::std_specs::iter::IteratorSpec;
use crate::error::Error;

verus! {

/// Every element is smaller than every later one.
pub open spec fn strictly_increasing(s: Seq<u32>) -> bool {
    forall|i: int, j: int| 0 <= i < j < s.len() ==> s[i] < s[j]
}

/// No element is larger than a later one.
pub open spec fn ascending(s: Seq<u32>) -> bool {
    forall|i: int, j: int| 0 <= i <= j < s.len() ==> s[i] <= s[j]
}

/// Some element is not smaller than its right neighbour.
pub open spec fn has_descent(s: Seq<u32>) -> bool {
    exists|i: int| 0 <= i < s.len() - 1 && s[i] >= #[trigger] s[i + 1]
}

/// The strictly increasing sequence that holds exactly the members of `s`.
pub open spec fn sorted_members(s: Set<u32>) -> Seq<u32> {
    choose|r: Seq<u32>| strictly_increasing(r) && r.to_set() == s
}

/// A sorted, duplicate-free sequence of features.
#[derive(Debug, Clone, PartialEq, Eq, PartialOrd, Ord)]
pub struct OrderedSet<T> {
    elems: Vec<T>,
}

impl<T> View for OrderedSet<T> {
    type V = Seq<T>;

    closed spec fn view(&self) -> Seq<T> {
        self.elems@
    }
}

impl<T> OrderedSet<T> {
    /// The empty set.
    pub fn new() -> (set: Self)
        ensures
            set@ == Seq::<T>::empty(),
    {
        OrderedSet { elems: Vec::new() }
    }

    /// The element at `index`, counted from the smallest.
    pub fn get(&self, index: usize) -> (elem: Option<&T>)
        ensures
            index < self@.len() ==> elem == Some(&self@[index as int]),
            index >= self@.len() ==> elem is None,
    {
        if index < self.elems.len() {
            Some(&self.elems[index])
        } else {
            None
        }
    }

    /// Walks the elements from the smallest to the largest.
    pub fn iter(&self) -> (it: std::slice::Iter<'_, T>)
        ensures
            IteratorSpec::remaining(&it).unref() == self@,
            IteratorSpec::initial_value_relation(&it, &it),
            IteratorSpec::decrease(&it) is Some,
    {
        let slice = self.elems.as_slice();
        let it = slice.iter();
        proof {
            broadcast use vstd::std_specs::slice::axiom_spec_slice_iter;
            assert(IteratorSpec::remaining(&it) == slice@.as_ref());
            assert(IteratorSpec::remaining(&it).unref() =~= self@);
        }
        it
    }

    /// The number of elements.
    pub fn len(&self) -> (n: usize)
        ensures
            n == self@.len(),
    {
        self.elems.len()
    }

    pub fn is_empty(&self) -> (b: bool)
        ensures
            b == (self@.len() == 0),
    {
        self.elems.is_empty()
    }
}

impl OrderedSet<u32> {
    /// The invariant of the type: the elements strictly increase.
    pub open spec fn wf(&self) -> bool {
        strictly_increasing(self@)
    }

    /// The members, as a mathematical set.
    pub open spec fn members(&self) -> Set<u32> {
        self@.to_set()
    }

    /// Takes a sequence that is already strictly increasing; any other is
    /// refused.
    pub fn from_sorted(sorted: Vec<u32>) -> (res: Result<Self, Error>)
        ensures
            res is Ok <==> strictly_increasing(sorted@),
            res is Err <==> has_descent(sorted@),
            res matches Ok(set) ==> set.wf() && set@ == sorted@,
            res matches Err(e) ==> e == Error::InvalidInput,
    {
        let n: usize = sorted.len();
        let mut k: usize = 1;
        while k < n
            invariant
                1 <= k,
                n == sorted@.len(),
                forall|i: int| 0 <= i < k - 1 && i < n - 1 ==> sorted@[i] < #[trigger] sorted@[i + 1],
            decreases n - k,
        {
            if sorted[k - 1] >= sorted[k] {
                proof {
                    let w: int = k - 1;
                    assert(sorted@[w] >= sorted@[w + 1]);
                    lemma_descent_iff_not_increasing(sorted@);
                }
                return Err(Error::InvalidInput);
            }
            k += 1;
        }
        proof {
            lemma_descent_iff_not_increasing(sorted@);
        }
        Ok(OrderedSet { elems: sorted })
    }

    /// Sorts the input and drops repeated values.
    pub fn from_unsorted(unsorted: Vec<u32>) -> (set: Self)
        ensures
            set.wf(),
            set.members() == unsorted@.to_set(),
            set@.len() == unsorted@.to_set().len(),
            set@ == sorted_members(unsorted@.to_set()),
    {
        let mut elems = unsorted;
        sort_ascending(&mut elems);
        proof {
            lemma_same_multiset_same_set(unsorted@, elems@);
        }
        let n: usize = elems.len();
        let mut out: Vec<u32> = Vec::new();
        let mut k: usize = 0;
        while k < n
            invariant
                k <= n,
                n == elems@.len(),
                ascending(elems@),
                strictly_increasing(out@),
                out@.to_set() == elems@.take(k as int).to_set(),
                k > 0 ==> out@.len() > 0 && out@.last() == elems@[k - 1],
                k == 0 ==> out@.len() == 0,
            decreases n - k,
        {
            let x: u32 = elems[k];
            proof {
                assert(elems@.take(k + 1) == elems@.take(k as int).push(x));
                elems@.take(k as int).lemma_push_to_set_commute(x);
            }
            if k == 0 || elems[k - 1] != x {
                proof {
                    out@.lemma_push_to_set_commute(x);
                    assert forall|i: int, j: int| 0 <= i < j < out@.push(x).len() implies out@.push(
                        x,
                    )[i] < out@.push(x)[j] by {
                        if j == out@.len() {
                            assert(out@[i] <= out@.last());
                        }
                    }
                }
                out.push(x);
            } else {
                proof {
                    assert(out@.contains(x)) by {
                        assert(out@[out@.len() - 1] == x);
                    }
                    assert(out@.to_set().insert(x) == out@.to_set());
                }
            }
            k += 1;
        }
        proof {
            assert(elems@.take(n as int) == elems@);
            lemma_increasing_no_duplicates(out@);
            out@.unique_seq_to_set();
            lemma_increasing_unique(out@, sorted_members(unsorted@.to_set()));
        }
        OrderedSet { elems: out }
    }

    /// The element at `index`, which must exist.
    pub(crate) fn at(&self, index: usize) -> (elem: u32)
        requires
            index < self@.len(),
        ensures
            elem == self@[index as int],
    {
        self.elems[index]
    }
}

/// `sort_unstable` of std on a vector of numbers: afterwards the same
/// numbers, each as often as before, stand in ascending order.
#[verifier::external_body]
pub(crate) fn sort_ascending(v: &mut Vec<u32>)
    ensures
        final(v)@.to_multiset() == old(v)@.to_multiset(),
        ascending(final(v)@),
{
    v.sort_unstable();
}

/// A sequence strictly increases exactly when no element is at least as
/// large as its right neighbour.
pub proof fn lemma_descent_iff_not_increasing(s: Seq<u32>)
    ensures
        has_descent(s) <==> !strictly_increasing(s),
{
    if has_descent(s) {
        let i = choose|i: int| 0 <= i < s.len() - 1 && s[i] >= #[trigger] s[i + 1];
        assert(!(s[i] < s[i + 1]));
    } else {
        assert forall|i: int, j: int| 0 <= i < j < s.len() implies s[i] < s[j] by {
            lemma_neighbours_increase(s, i, j);
        }
    }
}

proof fn lemma_neighbours_increase(s: Seq<u32>, i: int, j: int)
    requires
        !has_descent(s),
        0 <= i < j < s.len(),
    ensures
        s[i] < s[j],
    decreases j - i,
{
    assert(s[j - 1] < s[(j - 1) + 1]);
    if i < j - 1 {
        lemma_neighbours_increase(s, i, j - 1);
    }
}

/// A strictly increasing sequence holds no value twice.
pub proof fn lemma_increasing_no_duplicates(s: Seq<u32>)
    requires
        strictly_increasing(s),
    ensures
        s.no_duplicates(),
{
    assert forall|i: int, j: int| 0 <= i < s.len() && 0 <= j < s.len() && i != j implies s[i]
        != s[j] by {
        if i < j {
            assert(s[i] < s[j]);
        } else {
            assert(s[j] < s[i]);
        }
    }
}

/// Two strictly increasing sequences with the same members are the same
/// sequence, and it is the one that `sorted_members` names.
pub proof fn lemma_increasing_unique(a: Seq<u32>, b: Seq<u32>)
    requires
        strictly_increasing(a),
    ensures
        strictly_increasing(b) && a.to_set() == b.to_set() ==> a == b,
        a == sorted_members(a.to_set()),
{
    if strictly_increasing(b) && a.to_set() == b.to_set() {
        lemma_increasing_equal(a, b);
    }
    let c = sorted_members(a.to_set());
    assert(strictly_increasing(c) && c.to_set() == a.to_set());
    lemma_increasing_equal(a, c);
}

proof fn lemma_increasing_equal(a: Seq<u32>, b: Seq<u32>)
    requires
        strictly_increasing(a),
        strictly_increasing(b),
        a.to_set() == b.to_set(),
    ensures
        a == b,
    decreases a.len(),
{
    lemma_increasing_no_duplicates(a);
    lemma_increasing_no_duplicates(b);
    a.unique_seq_to_set();
    b.unique_seq_to_set();
    if a.len() > 0 {
        let x = a.last();
        let y = b.last();
        assert(a.contains(x));
        assert(b.contains(y));
        assert(a.to_set().contains(y));
        assert(b.to_set().contains(x));
        assert(a.contains(y));
        assert(b.contains(x));
        let i = choose|i: int| 0 <= i < a.len() && a[i] == y;
        let j = choose|j: int| 0 <= j < b.len() && b[j] == x;
        assert(y <= x) by {
            if i < a.len() - 1 {
                assert(a[i] < a[a.len() - 1]);
            }
        }
        assert(x <= y) by {
            if j < b.len() - 1 {
                assert(b[j] < b[b.len() - 1]);
            }
        }
        let a0 = a.drop_last();
        let b0 = b.drop_last();
        assert(a0.to_set() =~= b0.to_set()) by {
            assert forall|v: u32| a0.to_set().contains(v) == b0.to_set().contains(v) by {
                lemma_drop_last_members(a, v);
                lemma_drop_last_members(b, v);
            }
        }
        lemma_increasing_equal(a0, b0);
        assert(a =~= a0.push(x));
        assert(b =~= b0.push(y));
    } else {
        assert(b.len() == 0);
        assert(a =~= b);
    }
}

proof fn lemma_drop_last_members(a: Seq<u32>, v: u32)
    requires
        strictly_increasing(a),
        a.len() > 0,
    ensures
        a.drop_last().to_set().contains(v) <==> (a.to_set().contains(v) && v != a.last()),
{
    let a0 = a.drop_last();
    if a0.contains(v) {
        let i = choose|i: int| 0 <= i < a0.len() && a0[i] == v;
        assert(a[i] == v);
        assert(a[i] < a[a.len() - 1]);
    }
    if a.contains(v) && v != a.last() {
        let i = choose|i: int| 0 <= i < a.len() && a[i] == v;
        assert(a0[i] == v);
    }
}

/// Sequences that hold the same values equally often have the same members.
pub proof fn lemma_same_multiset_same_set(a: Seq<u32>, b: Seq<u32>)
    requires
        a.to_multiset() == b.to_multiset(),
    ensures
        a.to_set() == b.to_set(),
{
    a.to_multiset_ensures();
    b.to_multiset_ensures();
    assert(a.to_set() =~= b.to_set()) by {
        assert forall|v: u32| a.to_set().contains(v) == b.to_set().contains(v) by {
            assert(a.contains(v) <==> a.to_multiset().count(v) > 0);
            assert(b.contains(v) <==> b.to_multiset().count(v) > 0);
        }
    }
}

/// A strictly increasing sequence of 32-bit numbers has at most 2^32 elements.
pub proof fn lemma_increasing_len_bound(s: Seq<u32>)
    requires
        strictly_increasing(s),
    ensures
        s.len() <= 0x1_0000_0000,
{
    if s.len() > 0 {
        lemma_increasing_lower_bound(s, s.len() - 1);
    }
}

proof fn lemma_increasing_lower_bound(s: Seq<u32>, i: int)
    requires
        strictly_increasing(s),
        0 <= i < s.len(),
    ensures
        s[i] >= i,
    decreases i,
{
    if i > 0 {
        lemma_increasing_lower_bound(s, i - 1);
        assert(s[i - 1] < s[i]);
    }
}

/// Every set of 32-bit numbers has its strictly increasing sequence, and
/// `sorted_members` names it.
pub proof fn lemma_sorted_members(s: Set<u32>)
    ensures
        strictly_increasing(sorted_members(s)),
        sorted_members(s).to_set() == s,
{
    let r = lemma_members_below(s, 0x1_0000_0000);
    assert(r.to_set() =~= s) by {
        assert forall|v: u32| r.to_set().contains(v) == s.contains(v) by {
            if r.contains(v) {
                let i = choose|i: int| 0 <= i < r.len() && r[i] == v;
                assert(s.contains(r[i]));
            }
        }
    }
}

/// The members of a set below a bound, in ascending order.
proof fn lemma_members_below(s: Set<u32>, bound: nat) -> (r: Seq<u32>)
    requires
        bound <= 0x1_0000_0000,
    ensures
        strictly_increasing(r),
        forall|i: int| 0 <= i < r.len() ==> s.contains(#[trigger] r[i]) && r[i] < bound,
        forall|v: u32| s.contains(v) && v < bound ==> r.contains(v),
    decreases bound,
{
    if bound == 0 {
        Seq::empty()
    } else {
        let rest = lemma_members_below(s, (bound - 1) as nat);
        let top = (bound - 1) as u32;
        if s.contains(top) {
            let r = rest.push(top);
            assert forall|v: u32| s.contains(v) && v < bound implies r.contains(v) by {
                if v == top {
                    assert(r[rest.len() as int] == v);
                } else {
                    assert(rest.contains(v));
                    let i = choose|i: int| 0 <= i < rest.len() && rest[i] == v;
                    assert(r[i] == v);
                }
            }
            r
        } else {
            rest
        }
    }
}

} // verus!
