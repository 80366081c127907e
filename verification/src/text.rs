use vstd::prelude::*;
use std::hash::{BuildHasher, Hash, Hasher};
use std::ops::RangeInclusive;
use rand::{RngCore, SeedableRng};
use crate::error::Error;
use crate::record::set_within;
use crate::set::{sorted_members, OrderedSet};

verus! {

/// `RandomState` of `ahash`, a hasher factory: carried, never looked into.
#[verifier::external_type_specification]
#[verifier::external_body]
pub struct ExRandomState(ahash::RandomState);

/// `AHasher` of `ahash`, a running hash: carried, never looked into.
#[verifier::external_type_specification]
#[verifier::external_body]
pub struct ExAHasher(ahash::AHasher);

/// `SplitMix64` of `rand_xoshiro`, a generator: carried, never looked into.
#[verifier::external_type_specification]
#[verifier::external_body]
pub struct ExSplitMix64(rand_xoshiro::SplitMix64);

/// `ThreadRng` of `rand`, the handle to the generator of a thread: carried,
/// never looked into.
#[verifier::external_type_specification]
#[verifier::external_body]
pub struct ExThreadRng(rand::rngs::ThreadRng);

/// `RangeInclusive::start` of std: the lower bound of the range.
pub assume_specification<Idx>[ RangeInclusive::<Idx>::start ](range: &RangeInclusive<Idx>) -> (start:
    &Idx)
    ensures
        *start == range@.start,
;

/// `RangeInclusive::end` of std: the upper bound of the range.
pub assume_specification<Idx>[ RangeInclusive::<Idx>::end ](range: &RangeInclusive<Idx>) -> (end:
    &Idx)
    ensures
        *end == range@.end,
;

/// The state that a SplitMix64 generator holds.
pub uninterp spec fn seeder_state(seeder: rand_xoshiro::SplitMix64) -> u64;

/// The four keys that a hasher factory was made with.
pub uninterp spec fn factory_keys(factory: ahash::RandomState) -> Seq<u64>;

/// The state that a hasher holds, as numbers.
pub uninterp spec fn hasher_state(hasher: ahash::AHasher) -> Seq<u64>;

/// The state of a fresh hasher of a factory with these keys.
pub uninterp spec fn fresh_state(keys: Seq<u64>) -> Seq<u64>;

/// The state of a hasher after it was fed a string in the given state.
pub uninterp spec fn fed_state(state: Seq<u64>, gram: Seq<char>) -> Seq<u64>;

/// The hash that a hasher gives in the given state.
pub uninterp spec fn finished(state: Seq<u64>) -> u64;

/// The state of a SplitMix64 generator after the given one: the golden
/// ratio added, in 64 bits.
pub open spec fn splitmix_advance(state: u64) -> u64 {
    (state + 0x9e3779b97f4a7c15) as u64
}

/// The number that a SplitMix64 generator gives on reaching a state: the
/// state mixed twice by a shift, an exclusive or and a product in 64 bits,
/// and once more by a shift and an exclusive or.
pub open spec fn splitmix_mix(state: u64) -> u64 {
    let once = ((state ^ (state >> 30)) * 0xbf58476d1ce4e5b9) as u64;
    let twice = ((once ^ (once >> 27)) * 0x94d049bb133111eb) as u64;
    twice ^ (twice >> 31)
}

/// Four keys as a sequence.
pub open spec fn four(k0: u64, k1: u64, k2: u64, k3: u64) -> Seq<u64> {
    seq![k0, k1, k2, k3]
}

/// The keys of a seed: the first four numbers of the SplitMix64 generator
/// that starts from it.
pub open spec fn seed_keys(seed: u64) -> Seq<u64> {
    let first = splitmix_advance(seed);
    let second = splitmix_advance(first);
    let third = splitmix_advance(second);
    let fourth = splitmix_advance(third);
    four(splitmix_mix(first), splitmix_mix(second), splitmix_mix(third), splitmix_mix(fourth))
}

/// The state of a hasher that was fed the strings of a window, one after
/// the other, from the given state on.
pub open spec fn fed_all(state: Seq<u64>, window: Seq<Seq<char>>) -> Seq<u64>
    decreases window.len(),
{
    if window.len() == 0 {
        state
    } else {
        fed_state(fed_all(state, window.drop_last()), window.last())
    }
}

/// The hash of a window under four keys: what a fresh hasher of a factory
/// with these keys gives once it was fed the strings of the window.
pub open spec fn window_hash(keys: Seq<u64>, window: Seq<Seq<char>>) -> u64 {
    finished(fed_all(fresh_state(keys), window))
}

/// `thread_rng` of `rand`: a handle to the generator of this thread, which
/// the system seeds.
#[verifier::external_body]
fn thread_generator() -> rand::rngs::ThreadRng {
    rand::thread_rng()
}

/// `next_u64` of `rand` on the generator of this thread: a random number,
/// of which nothing is known beforehand.
#[verifier::external_body]
fn random_number(generator: &mut rand::rngs::ThreadRng) -> u64 {
    generator.next_u64()
}

/// `seed_from_u64` of `rand_xoshiro`: a SplitMix64 generator whose state
/// is `seed`.
#[verifier::external_body]
fn seeder_from(seed: u64) -> (seeder: rand_xoshiro::SplitMix64)
    ensures
        seeder_state(seeder) == seed,
{
    rand_xoshiro::SplitMix64::seed_from_u64(seed)
}

/// `next_u64` of `rand_xoshiro` on a SplitMix64 generator: the state
/// advances, and the number is the mix of the state reached.
#[verifier::external_body]
fn seeder_next(seeder: &mut rand_xoshiro::SplitMix64) -> (number: u64)
    ensures
        seeder_state(*final(seeder)) == splitmix_advance(seeder_state(*old(seeder))),
        number == splitmix_mix(seeder_state(*final(seeder))),
{
    seeder.next_u64()
}

/// `RandomState::with_seeds` of `ahash`: a hasher factory made with four
/// keys.
#[verifier::external_body]
fn hasher_factory(k0: u64, k1: u64, k2: u64, k3: u64) -> (factory: ahash::RandomState)
    ensures
        factory_keys(factory) == four(k0, k1, k2, k3),
{
    ahash::RandomState::with_seeds(k0, k1, k2, k3)
}

/// `build_hasher` of `ahash`: a hasher in the fresh state of the keys of
/// the factory.
#[verifier::external_body]
fn hasher_new(factory: &ahash::RandomState) -> (hasher: ahash::AHasher)
    ensures
        hasher_state(hasher) == fresh_state(factory_keys(*factory)),
{
    factory.build_hasher()
}

/// `Hash::hash` of std for a string, into a hasher of `ahash`: the state
/// of the hasher becomes what the state before and the string make of it.
#[verifier::external_body]
fn hasher_feed(hasher: &mut ahash::AHasher, gram: &str)
    ensures
        hasher_state(*final(hasher)) == fed_state(hasher_state(*old(hasher)), gram@),
{
    gram.hash(hasher);
}

/// `finish` of `ahash`: the 64-bit hash that the state of the hasher
/// gives. States and hashes depend on the build of `ahash`, so they are
/// named and not spelt out.
#[verifier::external_body]
fn hasher_finish(hasher: &ahash::AHasher) -> (hash: u64)
    ensures
        hash == finished(hasher_state(*hasher)),
{
    hasher.finish()
}

/// The feature that a hash stands for in a universe: its lower 32 bits,
/// reduced modulo the size of the universe.
pub open spec fn feature_of(hash: u64, universe: u32) -> u32 {
    ((hash as u32) % universe) as u32
}

/// The features of a sequence of hashes.
pub open spec fn features_of(hashes: Seq<u64>, universe: u32) -> Set<u32> {
    hashes.map_values(|h: u64| feature_of(h, universe)).to_set()
}

/// How many windows of `n` neighbours a sequence of `len` tokens has.
pub open spec fn windows(len: nat, n: nat) -> nat {
    if n == 0 || len < n {
        0
    } else {
        (len - n + 1) as nat
    }
}

/// How many windows of the sizes from `low` up to `high` a sequence of
/// `len` tokens has.
pub open spec fn windows_between(len: nat, low: nat, high: nat) -> nat
    decreases high + 1 - low,
{
    if low > high {
        0
    } else {
        windows(len, low) + windows_between(len, low + 1, high)
    }
}

/// The texts of the tokens.
pub open spec fn texts(tokens: Seq<&str>) -> Seq<Seq<char>> {
    tokens.map_values(|t: &str| t@)
}

/// The hashes of the first `count` windows of `n` neighbours, in the order
/// of their starts.
pub open spec fn hashes_of_size(keys: Seq<u64>, texts: Seq<Seq<char>>, n: nat, count: nat) -> Seq<
    u64,
>
    decreases count,
{
    if count == 0 {
        Seq::empty()
    } else {
        hashes_of_size(keys, texts, n, (count - 1) as nat).push(
            window_hash(keys, texts.subrange(count - 1, count - 1 + n)),
        )
    }
}

/// The hashes of all windows of the sizes from `low` up to `high`: the
/// sizes ascend, and within a size the starts.
pub open spec fn window_hashes(keys: Seq<u64>, texts: Seq<Seq<char>>, low: nat, high: nat) -> Seq<
    u64,
>
    decreases high + 1 - low,
{
    if low > high {
        Seq::empty()
    } else {
        hashes_of_size(keys, texts, low, windows(texts.len(), low)) + window_hashes(
            keys,
            texts,
            low + 1,
            high,
        )
    }
}

/// Hashes the n-grams of a token sequence into features of a bounded
/// universe.
#[derive(Debug)]
pub struct FeatureExtractor {
    ngram_min: usize,
    ngram_max: usize,
    build_hasher: ahash::RandomState,
    universe: u32,
    seed: u64,
}

impl FeatureExtractor {
    /// The size of the universe.
    pub closed spec fn spec_universe(&self) -> u32 {
        self.universe
    }

    /// The seed that fixes the hashes.
    pub closed spec fn spec_seed(&self) -> u64 {
        self.seed
    }

    /// The smallest and the largest size of the n-grams taken.
    pub closed spec fn ngram_bounds(&self) -> (usize, usize) {
        (self.ngram_min, self.ngram_max)
    }

    /// The four keys of the hasher factory.
    pub closed spec fn keys(&self) -> Seq<u64> {
        factory_keys(self.build_hasher)
    }

    /// The invariant of the type: the universe is not empty, the range of
    /// sizes is neither empty nor starts at zero, and the keys are those of
    /// the seed.
    pub closed spec fn wf(&self) -> bool {
        &&& self.universe > 0
        &&& 1 <= self.ngram_min <= self.ngram_max
        &&& factory_keys(self.build_hasher) == seed_keys(self.seed)
    }

    /// An extractor of the n-grams with sizes in `ngram_range`, whose sizes
    /// start at one or above. Without a seed a random one is drawn.
    pub fn new(ngram_range: RangeInclusive<usize>, universe: u32, seed: Option<u64>) -> (res:
        Result<Self, Error>)
        requires
            ngram_range@.start >= 1,
        ensures
            res is Err <==> universe == 0 || ngram_range@.start > ngram_range@.end,
            res matches Err(e) ==> e == if universe == 0 {
                Error::InvalidUniverse
            } else {
                Error::InvalidRange
            },
            res matches Ok(extractor) ==> {
                &&& extractor.wf()
                &&& extractor.spec_universe() == universe
                &&& extractor.ngram_bounds() == (ngram_range@.start, ngram_range@.end)
                &&& seed matches Some(s) ==> extractor.spec_seed() == s
                &&& extractor.keys() == seed_keys(extractor.spec_seed())
            },
    {
        if universe == 0 {
            return Err(Error::InvalidUniverse);
        }
        let ngram_min: usize = *ngram_range.start();
        let ngram_max: usize = *ngram_range.end();
        if ngram_min > ngram_max {
            return Err(Error::InvalidRange);
        }
        let seed: u64 = match seed {
            Some(seed) => seed,
            None => {
                let mut generator = thread_generator();
                random_number(&mut generator)
            },
        };
        let build_hasher = seeded_factory(seed);
        Ok(FeatureExtractor { ngram_min, ngram_max, build_hasher, universe, seed })
    }

    /// The features of a token sequence: one for every window of every size
    /// in the range that the sequence is long enough for, each the hash of
    /// its window under the keys of the seed, reduced into the universe.
    pub fn extract(&self, tokens: &[&str]) -> (features: OrderedSet<u32>)
        requires
            self.wf(),
        ensures
            features.wf(),
            features@ == sorted_members(
                features_of(
                    window_hashes(
                        seed_keys(self.spec_seed()),
                        texts(tokens@),
                        self.ngram_bounds().0 as nat,
                        self.ngram_bounds().1 as nat,
                    ),
                    self.spec_universe(),
                ),
            ),
            set_within(features@, self.spec_universe() as nat),
            features@.len() <= windows_between(
                tokens@.len(),
                self.ngram_bounds().0 as nat,
                self.ngram_bounds().1 as nat,
            ),
            tokens@.len() == 0 ==> features@.len() == 0,
            (features@.len() == 0) == (windows_between(
                tokens@.len(),
                self.ngram_bounds().0 as nat,
                self.ngram_bounds().1 as nat,
            ) == 0),
    {
        let len: usize = tokens.len();
        let stop: usize = if self.ngram_max < len {
            self.ngram_max
        } else {
            len
        };
        let mut hashes: Vec<u64> = Vec::new();
        let mut n: usize = self.ngram_min;
        let mut done: bool = n > stop;
        let ghost low = self.ngram_min as nat;
        let ghost high = self.ngram_max as nat;
        let ghost keys = self.keys();
        let ghost all = texts(tokens@);
        proof {
            if done {
                lemma_hashes_beyond(keys, all, low, high);
            }
            assert(hashes@ + window_hashes(keys, all, low, high) == window_hashes(
                keys,
                all,
                low,
                high,
            ));
        }
        while !done
            invariant
                self.wf(),
                keys == self.keys(),
                all == texts(tokens@),
                len == tokens@.len(),
                low == self.ngram_min,
                high == self.ngram_max,
                stop <= len,
                stop <= high,
                stop == len || stop == high,
                low <= n,
                !done ==> n <= stop,
                hashes@ + (if done {
                    Seq::<u64>::empty()
                } else {
                    window_hashes(keys, all, n as nat, high)
                }) == window_hashes(keys, all, low, high),
            decreases (if done { 0 } else { stop + 1 - n }),
        {
            let ghost before = hashes@;
            let mut start: usize = 0;
            proof {
                assert(before + Seq::<u64>::empty() == before);
            }
            while start <= len - n
                invariant
                    1 <= n <= len,
                    keys == self.keys(),
                    all == texts(tokens@),
                    len == tokens@.len(),
                    start <= len - n + 1,
                    hashes@ == before + hashes_of_size(keys, all, n as nat, start as nat),
                decreases len + 1 - start,
            {
                let hash: u64 = self.hash(tokens, start, n);
                proof {
                    let sofar = hashes_of_size(keys, all, n as nat, start as nat);
                    assert(hashes_of_size(keys, all, n as nat, (start + 1) as nat) == sofar.push(
                        hash,
                    ));
                    assert((before + sofar).push(hash) == before + sofar.push(hash));
                }
                hashes.push(hash);
                start += 1;
            }
            proof {
                let of_size = hashes_of_size(keys, all, n as nat, windows(len as nat, n as nat));
                let rest = window_hashes(keys, all, (n + 1) as nat, high);
                assert(all.len() == len);
                assert(window_hashes(keys, all, n as nat, high) == of_size + rest);
                assert((before + of_size) + rest == before + (of_size + rest));
                if n == stop {
                    lemma_hashes_beyond(keys, all, (n + 1) as nat, high);
                    assert(hashes@ + Seq::<u64>::empty() == hashes@);
                }
            }
            if n == stop {
                done = true;
            } else {
                n += 1;
            }
        }
        let ghost taken = hashes@;
        let features = features_from_hashes(hashes, self.universe);
        proof {
            assert(taken + Seq::<u64>::empty() == taken);
            lemma_hashes_len(keys, all, low, high);
            assert(all.len() == tokens@.len());
        }
        features
    }

    /// The hash of the window of `n` tokens that starts at `start`: a fresh
    /// hasher of the factory is fed the tokens of the window in their order.
    fn hash(&self, tokens: &[&str], start: usize, n: usize) -> (hash: u64)
        requires
            start + n <= tokens@.len(),
        ensures
            hash == window_hash(
                self.keys(),
                texts(tokens@).subrange(start as int, start + n),
            ),
    {
        let len: usize = tokens.len();
        let mut state = hasher_new(&self.build_hasher);
        let mut k: usize = 0;
        let ghost all = texts(tokens@);
        proof {
            assert(all.subrange(start as int, start as int) == Seq::<Seq<char>>::empty());
        }
        while k < n
            invariant
                k <= n,
                len == tokens@.len(),
                start + n <= len,
                all == texts(tokens@),
                hasher_state(state) == fed_all(
                    fresh_state(self.keys()),
                    all.subrange(start as int, start + k),
                ),
            decreases n - k,
        {
            proof {
                let longer = all.subrange(start as int, start + k + 1);
                assert(longer.drop_last() == all.subrange(start as int, start + k));
                assert(longer.last() == all[start + k]);
                assert(all[start + k] == tokens@[start + k]@);
            }
            hasher_feed(&mut state, tokens[start + k]);
            k += 1;
        }
        hasher_finish(&state)
    }

    /// The size of the universe.
    pub fn universe(&self) -> (universe: u32)
        ensures
            universe == self.spec_universe(),
    {
        self.universe
    }

    /// The seed that fixes the hashes.
    pub fn seed(&self) -> (seed: u64)
        ensures
            seed == self.spec_seed(),
    {
        self.seed
    }
}

impl Clone for FeatureExtractor {
    /// An extractor of the same range, universe and seed.
    fn clone(&self) -> (copy: Self)
        ensures
            self.wf() ==> copy.wf(),
            copy.spec_universe() == self.spec_universe(),
            copy.spec_seed() == self.spec_seed(),
            copy.ngram_bounds() == self.ngram_bounds(),
            copy.keys() == seed_keys(self.spec_seed()),
    {
        FeatureExtractor {
            ngram_min: self.ngram_min,
            ngram_max: self.ngram_max,
            build_hasher: seeded_factory(self.seed),
            universe: self.universe,
            seed: self.seed,
        }
    }
}

/// The hasher factory of a seed: its four keys are the first four numbers
/// of the SplitMix64 generator that starts from the seed.
fn seeded_factory(seed: u64) -> (factory: ahash::RandomState)
    ensures
        factory_keys(factory) == seed_keys(seed),
{
    let mut seeder = seeder_from(seed);
    let k0: u64 = seeder_next(&mut seeder);
    let k1: u64 = seeder_next(&mut seeder);
    let k2: u64 = seeder_next(&mut seeder);
    let k3: u64 = seeder_next(&mut seeder);
    hasher_factory(k0, k1, k2, k3)
}

/// Reduces every hash to a feature of the universe and gathers the
/// features in a set.
pub fn features_from_hashes(hashes: Vec<u64>, universe: u32) -> (features: OrderedSet<u32>)
    requires
        universe > 0,
    ensures
        features.wf(),
        features.members() == features_of(hashes@, universe),
        features@ == sorted_members(features_of(hashes@, universe)),
        features@.len() <= hashes@.len(),
        (features@.len() == 0) == (hashes@.len() == 0),
        set_within(features@, universe as nat),
{
    let mut values: Vec<u32> = Vec::new();
    let count: usize = hashes.len();
    let mut k: usize = 0;
    while k < count
        invariant
            k <= count,
            count == hashes@.len(),
            universe > 0,
            values@ == hashes@.take(k as int).map_values(|h: u64| feature_of(h, universe)),
        decreases count - k,
    {
        let hash: u64 = hashes[k];
        let feature: u32 = (#[verifier::truncate]
        (hash as u32)) % universe;
        proof {
            let f = |h: u64| feature_of(h, universe);
            assert(hashes@.take(k + 1) == hashes@.take(k as int).push(hash));
            assert(hashes@.take(k as int).push(hash).map_values(f) == hashes@.take(
                k as int,
            ).map_values(f).push(feature));
        }
        values.push(feature);
        k += 1;
    }
    proof {
        assert(hashes@.take(count as int) == hashes@);
        crate::overlap::lemma_set_len_at_most(values@);
    }
    let features = OrderedSet::from_unsorted(values);
    proof {
        if values@.len() > 0 {
            assert(values@.to_set().contains(values@[0]));
            assert(features@.to_set().contains(values@[0]));
        }
        assert forall|i: int| 0 <= i < features@.len() implies (#[trigger] features@[i])
            < universe by {
            assert(features@.contains(features@[i]));
            assert(values@.to_set().contains(features@[i]));
            let j = choose|j: int| 0 <= j < values@.len() && values@[j] == features@[i];
            assert(values@[j] == feature_of(hashes@[j], universe));
        }
    }
    features
}

/// Sizes above the length of the sequence, or above the largest size,
/// have no hashes.
pub proof fn lemma_hashes_beyond(keys: Seq<u64>, texts: Seq<Seq<char>>, low: nat, high: nat)
    requires
        low > texts.len() || low > high,
    ensures
        window_hashes(keys, texts, low, high) == Seq::<u64>::empty(),
    decreases high + 1 - low,
{
    if low <= high {
        lemma_hashes_beyond(keys, texts, low + 1, high);
        assert(Seq::<u64>::empty() + Seq::<u64>::empty() == Seq::<u64>::empty());
    }
}

/// There is one hash for every window.
pub proof fn lemma_hashes_len(keys: Seq<u64>, texts: Seq<Seq<char>>, low: nat, high: nat)
    ensures
        window_hashes(keys, texts, low, high).len() == windows_between(texts.len(), low, high),
    decreases high + 1 - low,
{
    if low <= high {
        lemma_hashes_len(keys, texts, low + 1, high);
        lemma_hashes_of_size_len(keys, texts, low, windows(texts.len(), low));
    }
}

proof fn lemma_hashes_of_size_len(keys: Seq<u64>, texts: Seq<Seq<char>>, n: nat, count: nat)
    ensures
        hashes_of_size(keys, texts, n, count).len() == count,
    decreases count,
{
    if count > 0 {
        lemma_hashes_of_size_len(keys, texts, n, (count - 1) as nat);
    }
}

} // verus!
