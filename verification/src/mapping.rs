use vstd::prelude::*;
use vstd::relations::injective_on;
use vstd::set_lib::{lemma_int_range, lemma_len_subset, lemma_map_size, set_int_range};
use vstd::slice::slice_to_vec;
use crate::error::Error;
use crate::record::{records_within, set_within, Record};
use crate::set::{lemma_increasing_no_duplicates, sorted_members, OrderedSet};

verus! {

/// The positions, below `upto`, of the records that hold `elem`.
pub open spec fn holders(records: Seq<Record<u32>>, upto: int, elem: u32) -> Set<int> {
    Set::new(|r: int| 0 <= r < upto && records[r].set@.contains(elem))
}

/// In how many records `elem` occurs.
pub open spec fn frequency(records: Seq<Record<u32>>, elem: u32) -> nat {
    holders(records, records.len() as int, elem).len()
}

/// `x` comes before `y` in the order of ascending frequency; of two equally
/// frequent elements the smaller comes first.
pub open spec fn precedes(records: Seq<Record<u32>>, x: u32, y: u32) -> bool {
    frequency(records, x) < frequency(records, y) || (frequency(records, x) == frequency(
        records,
        y,
    ) && x < y)
}

/// The elements of the universe that come before `elem`.
pub open spec fn predecessors(records: Seq<Record<u32>>, universe: nat, elem: u32) -> Set<int> {
    Set::new(|x: int| 0 <= x < universe && precedes(records, x as u32, elem))
}

/// The code of `elem`: the number of elements of the universe that come
/// before it.
pub open spec fn rank(records: Seq<Record<u32>>, universe: nat, elem: u32) -> nat {
    predecessors(records, universe, elem).len()
}

/// Some element below the length of the table has the code `c`.
pub open spec fn reaches(table: Seq<u32>, c: int) -> bool {
    exists|e: int| 0 <= e < table.len() && #[trigger] table[e] == c
}

/// The table sends the elements below its length one-to-one onto themselves.
pub open spec fn is_permutation(table: Seq<u32>) -> bool {
    &&& forall|e: int| 0 <= e < table.len() ==> (#[trigger] table[e]) < table.len()
    &&& forall|e: int, f: int|
        0 <= e < table.len() && 0 <= f < table.len() && e != f ==> table[e] != table[f]
    &&& forall|c: int| 0 <= c < table.len() ==> #[trigger] reaches(table, c)
}

/// The values that the table gives to the elements of `set`.
pub open spec fn image(table: Seq<u32>, set: Seq<u32>) -> Set<u32> {
    set.map_values(|e: u32| table[e as int]).to_set()
}

/// The set that the table makes of `set`: its image, in ascending order.
pub open spec fn remap(table: Seq<u32>, set: Seq<u32>) -> Seq<u32> {
    sorted_members(image(table, set))
}

/// The table gives different values to different elements of `set`.
pub open spec fn injective_over(table: Seq<u32>, set: Seq<u32>) -> bool {
    forall|i: int, j: int|
        0 <= i < set.len() && 0 <= j < set.len() && set[i] != set[j] ==> table[set[i] as int]
            != table[set[j] as int]
}

/// The sum of the numbers of a sequence.
pub open spec fn total(s: Seq<u32>) -> int
    decreases s.len(),
{
    if s.len() == 0 {
        0
    } else {
        total(s.drop_last()) + s.last()
    }
}

/// The order of pairs: by the first component, then by the second.
pub open spec fn pair_le(x: (usize, u32), y: (usize, u32)) -> bool {
    x.0 < y.0 || (x.0 == y.0 && x.1 <= y.1)
}

/// A renumbering of the features of a universe, held as a dense table.
pub struct Mapping {
    mapping: Vec<u32>,
}

impl View for Mapping {
    type V = Seq<u32>;

    closed spec fn view(&self) -> Seq<u32> {
        self.mapping@
    }
}

impl Mapping {
    /// Takes the table as it is given.
    pub fn from_slice(mapping: &[u32]) -> (m: Self)
        ensures
            m@ == mapping@,
    {
        Mapping { mapping: slice_to_vec(mapping) }
    }

    /// Numbers the features of the universe by ascending frequency in
    /// `records`: the code of a feature is its rank. Rare features get the
    /// smallest codes.
    pub fn from_records(records: &[Record<u32>], universe: u32) -> (res: Result<Self, Error>)
        requires
            universe > 0 ==> records_within(records@, universe as nat),
        ensures
            res is Err <==> universe == 0,
            res matches Err(e) ==> e == Error::InvalidUniverse,
            res matches Ok(m) ==> {
                &&& m@.len() == universe
                &&& forall|e: int|
                    0 <= e < universe ==> (#[trigger] m@[e]) == rank(
                        records@,
                        universe as nat,
                        e as u32,
                    )
                &&& is_permutation(m@)
                &&& forall|x: int, y: int|
                    0 <= x < universe && 0 <= y < universe && frequency(records@, x as u32)
                        < frequency(records@, y as u32) ==> m@[x] < m@[y]
            },
    {
        if universe == 0 {
            return Err(Error::InvalidUniverse);
        }
        let n: usize = universe as usize;
        let freqs = count_frequencies(records, universe);
        let mut pairs: Vec<(usize, u32)> = Vec::new();
        let mut e: usize = 0;
        while e < n
            invariant
                e <= n,
                n == universe,
                freqs@.len() == n,
                pairs@.len() == e,
                forall|x: int| 0 <= x < e ==> (#[trigger] pairs@[x]) == (freqs@[x], x as u32),
            decreases n - e,
        {
            pairs.push((freqs[e], e as u32));
            e += 1;
        }
        let ghost unsorted = pairs@;
        sort_pairs(&mut pairs);
        proof {
            lemma_sorted_pairs(unsorted, pairs@);
        }
        let mut mapping: Vec<u32> = Vec::new();
        let mut c: usize = 0;
        while c < n
            invariant
                c <= n,
                mapping@.len() == c,
            decreases n - c,
        {
            mapping.push(0);
            c += 1;
        }
        let mut k: usize = 0;
        while k < n
            invariant
                k <= n,
                n == universe,
                mapping@.len() == n,
                pairs@.len() == n,
                pairs@.no_duplicates(),
                forall|i: int| 0 <= i < n ==> (#[trigger] pairs@[i]) == unsorted[pairs@[i].1 as int] && pairs@[i].1 < n,
                unsorted.len() == n,
                forall|x: int| 0 <= x < n ==> (#[trigger] unsorted[x]).1 == x,
                forall|i: int| 0 <= i < k ==> mapping@[(#[trigger] pairs@[i]).1 as int] == i,
            decreases n - k,
        {
            let src: usize = pairs[k].1 as usize;
            proof {
                assert forall|i: int| 0 <= i < k implies (#[trigger] pairs@[i]).1 != src by {
                    if pairs@[i].1 == src {
                        assert(pairs@[i] == unsorted[src as int]);
                        assert(pairs@[k as int] == unsorted[src as int]);
                    }
                }
            }
            mapping.set(src, k as u32);
            k += 1;
        }
        proof {
            lemma_ranks(records@, universe as nat, freqs@, unsorted, pairs@, mapping@);
        }
        Ok(Mapping { mapping })
    }

    /// Sends every element of `set` through the table and orders the
    /// results anew.
    pub fn apply(&self, set: &OrderedSet<u32>) -> (mapped: OrderedSet<u32>)
        requires
            set.wf(),
            set_within(set@, self@.len()),
        ensures
            mapped.wf(),
            mapped.members() == image(self@, set@),
            mapped@ == remap(self@, set@),
            mapped@.len() <= set@.len(),
            injective_over(self@, set@) ==> mapped@.len() == set@.len(),
            is_permutation(self@) ==> mapped@.len() == set@.len() && set_within(
                mapped@,
                self@.len(),
            ),
    {
        let n: usize = set.len();
        let mut values: Vec<u32> = Vec::new();
        let mut k: usize = 0;
        while k < n
            invariant
                k <= n,
                n == set@.len(),
                set_within(set@, self@.len()),
                values@ == set@.take(k as int).map_values(|e: u32| self@[e as int]),
            decreases n - k,
        {
            let e: usize = set.at(k) as usize;
            let v: u32 = self.mapping[e];
            proof {
                let f = |e: u32| self@[e as int];
                assert(set@.take(k + 1) == set@.take(k as int).push(set@[k as int]));
                assert(set@.take(k as int).push(set@[k as int]).map_values(f) == set@.take(
                    k as int,
                ).map_values(f).push(v));
            }
            values.push(v);
            k += 1;
        }
        proof {
            assert(set@.take(n as int) == set@);
            lemma_image_len(self@, set@);
        }
        let mapped = OrderedSet::from_unsorted(values);
        proof {
            lemma_image_within(self@, set@, mapped@);
        }
        mapped
    }

    /// The size of the universe, that is the length of the table, as far as
    /// 32 bits hold it.
    pub fn universe(&self) -> (u: u32)
        ensures
            u == self@.len() as u32,
    {
        #[verifier::truncate]
        (self.mapping.len() as u32)
    }

    /// The table itself.
    pub fn as_slice(&self) -> (table: &[u32])
        ensures
            table@ == self@,
    {
        self.mapping.as_slice()
    }
}

/// Counts for every feature of the universe the records that hold it.
fn count_frequencies(records: &[Record<u32>], universe: u32) -> (freqs: Vec<usize>)
    requires
        records_within(records@, universe as nat),
    ensures
        freqs@.len() == universe,
        forall|e: int| 0 <= e < universe ==> (#[trigger] freqs@[e]) == frequency(records@, e as u32),
{
    let n: usize = universe as usize;
    let mut freqs: Vec<usize> = Vec::new();
    let mut c: usize = 0;
    while c < n
        invariant
            c <= n,
            freqs@.len() == c,
            forall|e: int| 0 <= e < c ==> (#[trigger] freqs@[e]) == 0,
        decreases n - c,
    {
        freqs.push(0);
        c += 1;
    }
    proof {
        assert forall|e: int| 0 <= e < n implies (#[trigger] freqs@[e]) == holders(
            records@,
            0,
            e as u32,
        ).len() by {
            assert(holders(records@, 0, e as u32) =~= Set::<int>::empty());
        }
    }
    let count: usize = records.len();
    let mut r: usize = 0;
    while r < count
        invariant
            r <= count,
            count == records@.len(),
            n == universe,
            records_within(records@, universe as nat),
            freqs@.len() == n,
            forall|e: int|
                0 <= e < n ==> (#[trigger] freqs@[e]) == holders(records@, r as int, e as u32).len(),
        decreases count - r,
    {
        let set = &records[r].set;
        let len: usize = set.len();
        let ghost before = freqs@;
        let mut k: usize = 0;
        while k < len
            invariant
                k <= len,
                len == set@.len(),
                r < count,
                count == records@.len(),
                n == universe,
                set.wf(),
                set_within(set@, universe as nat),
                freqs@.len() == n,
                before.len() == n,
                forall|e: int| 0 <= e < n ==> (#[trigger] before[e]) == holders(records@, r as int, e as u32).len(),
                forall|e: int|
                    0 <= e < n ==> (#[trigger] freqs@[e]) == before[e] + (if set@.take(
                        k as int,
                    ).contains(e as u32) {
                        1int
                    } else {
                        0int
                    }),
            decreases len - k,
        {
            let e: usize = set.at(k) as usize;
            proof {
                lemma_holders_bound(records@, r as int, e as u32);
                lemma_increasing_no_duplicates(set@);
                assert(!set@.take(k as int).contains(e as u32)) by {
                    if set@.take(k as int).contains(e as u32) {
                        let i = choose|i: int| 0 <= i < k && set@.take(k as int)[i] == e as u32;
                        assert(set@[i] == set@[k as int]);
                    }
                }
                assert(set@.take(k + 1) == set@.take(k as int).push(e as u32));
                assert forall|v: u32| #[trigger]
                    set@.take(k + 1).contains(v) <==> (set@.take(k as int).contains(v) || v
                        == e) by {
                    if set@.take(k as int).contains(v) {
                        let i = choose|i: int| 0 <= i < k && set@.take(k as int)[i] == v;
                        assert(set@.take(k + 1)[i] == v);
                    }
                    if v == e {
                        assert(set@.take(k + 1)[k as int] == v);
                    }
                }
            }
            let old: usize = freqs[e];
            freqs.set(e, old + 1);
            k += 1;
        }
        proof {
            assert(set@.take(len as int) == set@);
            assert forall|e: int| 0 <= e < n implies (#[trigger] freqs@[e]) == holders(
                records@,
                r + 1,
                e as u32,
            ).len() by {
                lemma_holders_step(records@, r as int, e as u32);
            }
        }
        r += 1;
    }
    freqs
}

/// `sort_unstable` of std on a vector of pairs of numbers: afterwards the
/// same pairs, each as often as before, stand in ascending order, by the
/// first component and then by the second.
#[verifier::external_body]
fn sort_pairs(v: &mut Vec<(usize, u32)>)
    ensures
        final(v)@.to_multiset() == old(v)@.to_multiset(),
        forall|i: int, j: int| 0 <= i <= j < final(v)@.len() ==> pair_le(final(v)@[i], final(v)@[j]),
{
    v.sort_unstable();
}

proof fn lemma_holders_bound(records: Seq<Record<u32>>, upto: int, elem: u32)
    requires
        0 <= upto,
    ensures
        holders(records, upto, elem).finite(),
        holders(records, upto, elem).len() <= upto,
{
    lemma_int_range(0, upto);
    assert(holders(records, upto, elem).subset_of(set_int_range(0, upto)));
    lemma_len_subset(holders(records, upto, elem), set_int_range(0, upto));
}

proof fn lemma_holders_step(records: Seq<Record<u32>>, upto: int, elem: u32)
    requires
        0 <= upto < records.len(),
    ensures
        holders(records, upto + 1, elem).len() == holders(records, upto, elem).len() + (
        if records[upto].set@.contains(elem) {
            1int
        } else {
            0int
        }),
{
    lemma_holders_bound(records, upto, elem);
    if records[upto].set@.contains(elem) {
        assert(holders(records, upto + 1, elem) =~= holders(records, upto, elem).insert(upto));
    } else {
        assert(holders(records, upto + 1, elem) =~= holders(records, upto, elem));
    }
}

/// What a sorted rearrangement of the pairs `(frequency, element)` of all
/// elements of a universe looks like.
proof fn lemma_sorted_pairs(unsorted: Seq<(usize, u32)>, sorted: Seq<(usize, u32)>)
    requires
        unsorted.len() <= u32::MAX,
        forall|x: int| 0 <= x < unsorted.len() ==> (#[trigger] unsorted[x]).1 == x,
        sorted.to_multiset() == unsorted.to_multiset(),
    ensures
        sorted.len() == unsorted.len(),
        sorted.no_duplicates(),
        forall|i: int|
            0 <= i < sorted.len() ==> (#[trigger] sorted[i]) == unsorted[sorted[i].1 as int]
                && sorted[i].1 < unsorted.len(),
        forall|x: int| 0 <= x < unsorted.len() ==> sorted.contains(#[trigger] unsorted[x]),
{
    sorted.to_multiset_ensures();
    unsorted.to_multiset_ensures();
    assert(unsorted.no_duplicates()) by {
        assert forall|i: int, j: int|
            0 <= i < unsorted.len() && 0 <= j < unsorted.len() && i != j implies unsorted[i]
            != unsorted[j] by {
            assert(unsorted[i].1 == i);
            assert(unsorted[j].1 == j);
        }
    }
    unsorted.lemma_multiset_has_no_duplicates();
    sorted.lemma_multiset_has_no_duplicates_conv();
    assert forall|i: int| 0 <= i < sorted.len() implies (#[trigger] sorted[i])
        == unsorted[sorted[i].1 as int] && sorted[i].1 < unsorted.len() by {
        assert(sorted.contains(sorted[i]));
        assert(sorted.to_multiset().count(sorted[i]) > 0);
        assert(unsorted.contains(sorted[i]));
        let x = choose|x: int| 0 <= x < unsorted.len() && unsorted[x] == sorted[i];
        assert(unsorted[x].1 == x);
    }
    assert forall|x: int| 0 <= x < unsorted.len() implies sorted.contains(
        #[trigger] unsorted[x],
    ) by {
        assert(unsorted.contains(unsorted[x]));
        assert(unsorted.to_multiset().count(unsorted[x]) > 0);
    }
}

/// Where the pair of the element `e` stands among the sorted pairs.
spec fn place(sorted: Seq<(usize, u32)>, unsorted: Seq<(usize, u32)>, e: int) -> int {
    choose|i: int| 0 <= i < sorted.len() && sorted[i] == unsorted[e]
}

/// The table that gives every element its position among the sorted pairs
/// gives it its rank, and is a permutation that respects frequency.
proof fn lemma_ranks(
    records: Seq<Record<u32>>,
    universe: nat,
    freqs: Seq<usize>,
    unsorted: Seq<(usize, u32)>,
    sorted: Seq<(usize, u32)>,
    table: Seq<u32>,
)
    requires
        0 < universe <= u32::MAX,
        freqs.len() == universe,
        unsorted.len() == universe,
        sorted.len() == universe,
        table.len() == universe,
        forall|e: int| 0 <= e < universe ==> (#[trigger] freqs[e]) == frequency(records, e as u32),
        forall|x: int| 0 <= x < universe ==> (#[trigger] unsorted[x]) == (freqs[x], x as u32),
        sorted.no_duplicates(),
        forall|i: int|
            0 <= i < universe ==> (#[trigger] sorted[i]) == unsorted[sorted[i].1 as int]
                && sorted[i].1 < universe,
        forall|x: int| 0 <= x < universe ==> sorted.contains(#[trigger] unsorted[x]),
        forall|i: int, j: int| 0 <= i <= j < universe ==> pair_le(sorted[i], sorted[j]),
        forall|i: int| 0 <= i < universe ==> table[(#[trigger] sorted[i]).1 as int] == i,
    ensures
        forall|e: int| 0 <= e < universe ==> (#[trigger] table[e]) == rank(records, universe, e as u32),
        is_permutation(table),
        forall|x: int, y: int|
            0 <= x < universe && 0 <= y < universe && frequency(records, x as u32) < frequency(
                records,
                y as u32,
            ) ==> table[x] < table[y],
{
    let place = |e: int| place(sorted, unsorted, e);
    assert forall|e: int| 0 <= e < universe implies 0 <= place(e) < universe && sorted[place(e)]
        == #[trigger] unsorted[e] && table[e] == place(e) by {
        assert(sorted.contains(unsorted[e]));
        let i = choose|i: int| 0 <= i < sorted.len() && sorted[i] == unsorted[e];
        assert(sorted[i].1 == e);
    }
    // The order of places is the order of precedence.
    assert forall|x: int, y: int|
        0 <= x < universe && 0 <= y < universe implies (precedes(records, x as u32, y as u32) <==> (
        #[trigger] crate::mapping::place(sorted, unsorted, x)) < (#[trigger] crate::mapping::place(
            sorted,
            unsorted,
            y,
        ))) by {
        let i = place(x);
        let j = place(y);
        assert(sorted[i] == unsorted[x]);
        assert(sorted[j] == unsorted[y]);
        if i <= j {
            assert(pair_le(sorted[i], sorted[j]));
        }
        if j <= i {
            assert(pair_le(sorted[j], sorted[i]));
        }
    }
    assert forall|e: int| 0 <= e < universe implies (#[trigger] table[e]) == rank(
        records,
        universe,
        e as u32,
    ) by {
        let k = place(e);
        let f = |i: int| sorted[i].1 as int;
        let below = set_int_range(0, k);
        let before = predecessors(records, universe, e as u32);
        lemma_int_range(0, k);
        assert(injective_on(f, below)) by {
            assert forall|i: int, j: int|
                below.contains(i) && below.contains(j) && #[trigger] f(i) == #[trigger] f(
                    j,
                ) implies i == j by {
                assert(sorted[i] == unsorted[sorted[i].1 as int]);
                assert(sorted[j] == unsorted[sorted[j].1 as int]);
            }
        }
        assert(below.map(f) =~= before) by {
            assert forall|x: int| below.map(f).contains(x) implies before.contains(x) by {
                let i = choose|i: int| below.contains(i) && f(i) == x;
                assert(sorted[i] == unsorted[x]);
                assert(place(x) == i) by {
                    assert(sorted[place(x)] == unsorted[x]);
                }
            }
            assert forall|x: int| before.contains(x) implies below.map(f).contains(x) by {
                let i = place(x);
                assert(sorted[i] == unsorted[x]);
                assert(below.contains(i));
                assert(f(i) == x);
            }
        }
        lemma_map_size(below, before, f);
    }
    assert forall|e: int, g: int|
        0 <= e < universe && 0 <= g < universe && e != g implies table[e] != table[g] by {
        if place(e) == place(g) {
            assert(sorted[place(e)] == unsorted[e]);
            assert(sorted[place(g)] == unsorted[g]);
        }
    }
    assert forall|c: int| 0 <= c < universe implies #[trigger] reaches(table, c) by {
        let e = sorted[c].1 as int;
        assert(table[e] == c);
    }
    assert forall|e: int| 0 <= e < universe implies (#[trigger] table[e]) < universe by {
        assert(table[e] == place(e));
        assert(sorted[place(e)] == unsorted[e]);
    }
    assert forall|x: int, y: int|
        0 <= x < universe && 0 <= y < universe && frequency(records, x as u32) < frequency(
            records,
            y as u32,
        ) implies table[x] < table[y] by {
        assert(precedes(records, x as u32, y as u32));
        assert(sorted[place(x)] == unsorted[x]);
        assert(sorted[place(y)] == unsorted[y]);
        assert(crate::mapping::place(sorted, unsorted, x) < crate::mapping::place(
            sorted,
            unsorted,
            y,
        ));
    }
}

/// The image of a set under a table has at most as many members as the
/// set, and as many where the table tells its elements apart.
proof fn lemma_image_len(table: Seq<u32>, set: Seq<u32>)
    requires
        crate::set::strictly_increasing(set),
        set_within(set, table.len()),
    ensures
        image(table, set).len() <= set.len(),
        injective_over(table, set) ==> image(table, set).len() == set.len(),
        is_permutation(table) ==> injective_over(table, set),
{
    let f = |e: u32| table[e as int];
    let values = set.map_values(f);
    crate::overlap::lemma_set_len_at_most(values);
    if injective_over(table, set) {
        lemma_increasing_no_duplicates(set);
        assert(values.no_duplicates()) by {
            assert forall|i: int, j: int|
                0 <= i < values.len() && 0 <= j < values.len() && i != j implies values[i]
                != values[j] by {
                assert(set[i] != set[j]);
            }
        }
        values.unique_seq_to_set();
    }
    if is_permutation(table) {
        assert forall|i: int, j: int|
            0 <= i < set.len() && 0 <= j < set.len() && set[i] != set[j] implies table[set[i] as int]
            != table[set[j] as int] by {
            assert(set[i] < table.len());
            assert(set[j] < table.len());
        }
    }
}

proof fn lemma_image_within(table: Seq<u32>, set: Seq<u32>, mapped: Seq<u32>)
    requires
        set_within(set, table.len()),
        mapped.to_set() == image(table, set),
    ensures
        is_permutation(table) ==> set_within(mapped, table.len()),
{
    if is_permutation(table) {
        assert forall|k: int| 0 <= k < mapped.len() implies (#[trigger] mapped[k]) < table.len() by {
            assert(mapped.contains(mapped[k]));
            assert(image(table, set).contains(mapped[k]));
            let values = set.map_values(|e: u32| table[e as int]);
            assert(values.contains(mapped[k]));
            let i = choose|i: int| 0 <= i < values.len() && values[i] == mapped[k];
            assert(values[i] == table[set[i] as int]);
            assert(set[i] < table.len());
        }
    }
}

/// The sum of a sequence is the sum of the sequence without one element,
/// and that element.
pub proof fn lemma_total_remove(s: Seq<u32>, i: int)
    requires
        0 <= i < s.len(),
    ensures
        total(s) == total(s.remove(i)) + s[i],
    decreases s.len(),
{
    if i == s.len() - 1 {
        assert(s.remove(i) == s.drop_last());
    } else {
        lemma_total_remove(s.drop_last(), i);
        assert(s.drop_last().remove(i) == s.remove(i).drop_last());
        assert(s.remove(i).last() == s.last());
    }
}

/// The codes of a permutation add up to the sum of all elements of the
/// universe: twice the sum is `n * (n - 1)` for a universe of `n` elements.
pub proof fn lemma_permutation_sum(table: Seq<u32>)
    requires
        is_permutation(table),
    ensures
        2 * total(table) == table.len() * (table.len() - 1),
    decreases table.len(),
{
    let n = table.len() as int;
    if n > 0 {
        assert(reaches(table, n - 1));
        let top = choose|e: int| 0 <= e < table.len() && #[trigger] table[e] == n - 1;
        let rest = table.remove(top);
        assert forall|e: int| 0 <= e < rest.len() implies (#[trigger] rest[e]) < rest.len() by {
            let source = if e < top {
                e
            } else {
                e + 1
            };
            assert(rest[e] == table[source]);
            assert(table[source] < table.len());
            assert(table[source] != table[top]);
        }
        assert forall|e: int, f: int|
            0 <= e < rest.len() && 0 <= f < rest.len() && e != f implies rest[e] != rest[f] by {
            let se = if e < top {
                e
            } else {
                e + 1
            };
            let sf = if f < top {
                f
            } else {
                f + 1
            };
            assert(rest[e] == table[se]);
            assert(rest[f] == table[sf]);
        }
        assert forall|c: int| 0 <= c < rest.len() implies #[trigger] reaches(rest, c) by {
            assert(reaches(table, c));
            let e = choose|e: int| 0 <= e < table.len() && #[trigger] table[e] == c;
            let target = if e < top {
                e
            } else {
                e - 1
            };
            assert(rest[target] == c);
        }
        lemma_permutation_sum(rest);
        lemma_total_remove(table, top);
        assert(2 * total(table) == n * (n - 1)) by (nonlinear_arith)
            requires
                2 * total(rest) == (n - 1) * (n - 2),
                total(table) == total(rest) + (n - 1),
        ;
    }
}

/// A permutation keeps the sizes of sets, of what two sets have in
/// common and of what they hold together.
pub proof fn lemma_remap_keeps_sizes(table: Seq<u32>, a: Seq<u32>, b: Seq<u32>)
    requires
        is_permutation(table),
        crate::set::strictly_increasing(a),
        crate::set::strictly_increasing(b),
        set_within(a, table.len()),
        set_within(b, table.len()),
    ensures
        crate::set::strictly_increasing(remap(table, a)),
        crate::set::strictly_increasing(remap(table, b)),
        remap(table, a).len() == a.len(),
        remap(table, b).len() == b.len(),
        crate::overlap::common(remap(table, a), remap(table, b)) == crate::overlap::common(a, b),
        crate::overlap::united(remap(table, a), remap(table, b)) == crate::overlap::united(a, b),
{
    let f = |e: u32| table[e as int];
    let sa = a.to_set();
    let sb = b.to_set();
    crate::set::lemma_sorted_members(image(table, a));
    crate::set::lemma_sorted_members(image(table, b));
    a.lemma_to_set_map_commutes(f);
    b.lemma_to_set_map_commutes(f);
    vstd::seq_lib::seq_to_set_is_finite(a);
    vstd::seq_lib::seq_to_set_is_finite(b);
    lemma_increasing_no_duplicates(a);
    lemma_increasing_no_duplicates(b);
    lemma_increasing_no_duplicates(remap(table, a));
    lemma_increasing_no_duplicates(remap(table, b));
    a.unique_seq_to_set();
    b.unique_seq_to_set();
    remap(table, a).unique_seq_to_set();
    remap(table, b).unique_seq_to_set();
    assert(injective_on(f, sa.union(sb))) by {
        assert forall|x: u32, y: u32|
            sa.union(sb).contains(x) && sa.union(sb).contains(y) && #[trigger] f(x)
                == #[trigger] f(y) implies x == y by {
            lemma_member_within(a, b, table.len(), x);
            lemma_member_within(a, b, table.len(), y);
        }
    }
    assert(injective_on(f, sa));
    assert(injective_on(f, sb));
    assert(injective_on(f, sa.intersect(sb)));
    lemma_map_size(sa, sa.map(f), f);
    lemma_map_size(sb, sb.map(f), f);
    assert(sa.intersect(sb).map(f) =~= sa.map(f).intersect(sb.map(f))) by {
        assert forall|v: u32| sa.map(f).intersect(sb.map(f)).contains(v) implies sa.intersect(
            sb,
        ).map(f).contains(v) by {
            let x = choose|x: u32| sa.contains(x) && f(x) == v;
            let y = choose|y: u32| sb.contains(y) && f(y) == v;
            assert(sa.union(sb).contains(x));
            assert(sa.union(sb).contains(y));
            assert(f(x) == f(y));
            assert(sa.intersect(sb).contains(x));
        }
        assert forall|v: u32| sa.intersect(sb).map(f).contains(v) implies sa.map(f).intersect(
            sb.map(f),
        ).contains(v) by {
            let x = choose|x: u32| sa.intersect(sb).contains(x) && f(x) == v;
            assert(sa.contains(x) && sb.contains(x));
        }
    }
    assert(sa.union(sb).map(f) =~= sa.map(f).union(sb.map(f))) by {
        assert forall|v: u32| sa.map(f).union(sb.map(f)).contains(v) implies sa.union(sb).map(
            f,
        ).contains(v) by {
            if sa.map(f).contains(v) {
                let x = choose|x: u32| sa.contains(x) && f(x) == v;
                assert(sa.union(sb).contains(x));
            } else {
                let y = choose|y: u32| sb.contains(y) && f(y) == v;
                assert(sa.union(sb).contains(y));
            }
        }
        assert forall|v: u32| sa.union(sb).map(f).contains(v) implies sa.map(f).union(
            sb.map(f),
        ).contains(v) by {
            let x = choose|x: u32| sa.union(sb).contains(x) && f(x) == v;
            if sa.contains(x) {
                assert(sa.map(f).contains(f(x)));
            } else {
                assert(sb.map(f).contains(f(x)));
            }
        }
    }
    lemma_map_size(sa.intersect(sb), sa.intersect(sb).map(f), f);
    lemma_map_size(sa.union(sb), sa.union(sb).map(f), f);
}

proof fn lemma_member_within(a: Seq<u32>, b: Seq<u32>, bound: nat, x: u32)
    requires
        set_within(a, bound),
        set_within(b, bound),
        a.to_set().union(b.to_set()).contains(x),
    ensures
        x < bound,
{
    if a.contains(x) {
        let i = choose|i: int| 0 <= i < a.len() && a[i] == x;
        assert(a[i] < bound);
    } else {
        assert(b.contains(x));
        let i = choose|i: int| 0 <= i < b.len() && b[i] == x;
        assert(b[i] < bound);
    }
}

} // verus!
