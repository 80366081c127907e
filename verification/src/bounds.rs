use vstd::prelude::*;
use vstd::arithmetic::div_mod::{lemma_fundamental_div_mod, lemma_mod_bound};
use crate::ratio::{wide_product, Ratio};

verus! {

/// The largest length that a cached upper bound can hold.
pub const LENGTH_MAX: u64 = 0xffff_ffff_ffff_ffff;

/// A similarity threshold: a fraction between zero and one.
pub open spec fn unit_ratio(t: Ratio) -> bool {
    0 < t.den && t.num <= t.den
}

/// The similarity threshold of a distance radius: one minus the radius,
/// after the radius is clamped into the unit interval.
pub open spec fn threshold_of(radius: Ratio) -> Ratio {
    if radius.den == 0 || radius.num >= radius.den {
        Ratio { num: 0, den: 1 }
    } else {
        Ratio { num: (radius.den - radius.num) as u64, den: radius.den }
    }
}

/// The quotient `n / d` rounded up, for a positive divisor.
pub open spec fn ceil_div(n: int, d: int) -> int {
    (n + d - 1) / d
}

/// The least size of an intersection that a pair of sets of `total`
/// elements together must reach to be as similar as the threshold asks:
/// `t * total / (1 + t)`, rounded up.
pub open spec fn overlap_threshold(t: Ratio, total: nat) -> nat {
    ceil_div(t.num * total, t.den + t.num) as nat
}

/// The least length of a set that can be as similar to a set of `base_len`
/// elements as the threshold asks: `base_len * t`, rounded up.
pub open spec fn length_lower(t: Ratio, base_len: nat) -> nat {
    ceil_div(base_len * t.num, t.den as int) as nat
}

/// The greatest such length: `base_len / t`, rounded down, and at most what
/// 64 bits hold. A threshold of zero bounds nothing.
pub open spec fn length_upper(t: Ratio, base_len: nat) -> nat {
    if t.num == 0 || (base_len * t.den) / (t.num as int) > LENGTH_MAX {
        LENGTH_MAX as nat
    } else {
        ((base_len * t.den) / (t.num as int)) as nat
    }
}

/// The length filter lets a set of `other_len` elements through.
pub open spec fn length_passes(t: Ratio, base_len: nat, other_len: nat) -> bool {
    length_lower(t, base_len) <= other_len <= length_upper(t, base_len)
}

/// A pair of sets with `hits` common values among `union_len` values in all
/// is at least as similar as the threshold asks: `hits / union_len >= t`.
pub open spec fn similar(t: Ratio, hits: nat, union_len: nat) -> bool {
    hits * t.den >= t.num * union_len
}

/// A number is at least the rounded-up quotient exactly when its product
/// with the divisor is at least the dividend.
pub proof fn lemma_ceil_div(n: int, d: int, x: int)
    requires
        0 <= n,
        0 < d,
    ensures
        0 <= ceil_div(n, d),
        x >= ceil_div(n, d) <==> x * d >= n,
{
    let m = n + d - 1;
    let c = m / d;
    lemma_fundamental_div_mod(m, d);
    lemma_mod_bound(m, d);
    vstd::arithmetic::div_mod::lemma_div_pos_is_pos(m, d);
    if x >= c {
        assert(x * d >= c * d) by (nonlinear_arith)
            requires
                x >= c,
                d > 0,
        ;
        assert(d * c == c * d) by (nonlinear_arith);
    } else {
        assert(x * d <= (c - 1) * d) by (nonlinear_arith)
            requires
                x <= c - 1,
                d > 0,
        ;
        assert((c - 1) * d == d * c - d) by (nonlinear_arith);
    }
}

/// A number is at most the rounded-down quotient exactly when its product
/// with the divisor is at most the dividend.
pub proof fn lemma_floor_div(n: int, d: int, x: int)
    requires
        0 <= n,
        0 < d,
    ensures
        0 <= n / d,
        x <= n / d <==> x * d <= n,
{
    let c = n / d;
    lemma_fundamental_div_mod(n, d);
    lemma_mod_bound(n, d);
    vstd::arithmetic::div_mod::lemma_div_pos_is_pos(n, d);
    if x <= c {
        assert(x * d <= c * d) by (nonlinear_arith)
            requires
                x <= c,
                d > 0,
        ;
        assert(d * c == c * d) by (nonlinear_arith);
    } else {
        assert(x * d >= (c + 1) * d) by (nonlinear_arith)
            requires
                x >= c + 1,
                d > 0,
        ;
        assert((c + 1) * d == d * c + d) by (nonlinear_arith);
    }
}

/// The intersection reaches the overlap threshold exactly when the pair is
/// as similar as the threshold asks.
pub proof fn lemma_overlap_threshold(t: Ratio, hits: nat, union_len: nat)
    requires
        unit_ratio(t),
    ensures
        hits >= overlap_threshold(t, hits + union_len) <==> similar(t, hits, union_len),
        overlap_threshold(t, hits + union_len) <= hits + union_len,
{
    let p = t.num as int;
    let q = t.den as int;
    let total = (hits + union_len) as int;
    assert(p * total >= 0) by (nonlinear_arith)
        requires
            p >= 0,
            total >= 0,
    ;
    lemma_ceil_div(p * total, q + p, hits as int);
    lemma_ceil_div(p * total, q + p, total);
    assert(hits * (q + p) >= p * total <==> hits * q >= p * union_len) by (nonlinear_arith)
        requires
            total == hits + union_len,
    ;
    assert(total * (q + p) >= p * total) by (nonlinear_arith)
        requires
            q > 0,
            p >= 0,
            total >= 0,
    ;
}

/// The length filter lets through exactly the lengths `other_len` with
/// `base_len * t <= other_len` and `other_len * t <= base_len`, as far as
/// lengths fit in 64 bits.
pub proof fn lemma_length_passes(t: Ratio, base_len: nat, other_len: nat)
    requires
        unit_ratio(t),
        other_len <= LENGTH_MAX,
    ensures
        length_passes(t, base_len, other_len) <==> (base_len * t.num <= other_len * t.den
            && other_len * t.num <= base_len * t.den),
        length_lower(t, base_len) <= base_len,
{
    let p = t.num as int;
    let q = t.den as int;
    assert(base_len * p >= 0 && base_len * q >= 0 && base_len * q >= base_len * p)
        by (nonlinear_arith)
        requires
            0 <= p <= q,
            base_len >= 0,
    ;
    lemma_ceil_div(base_len * p, q, other_len as int);
    lemma_ceil_div(base_len * p, q, base_len as int);
    if p > 0 {
        lemma_floor_div(base_len * q, p, other_len as int);
    } else {
        assert(other_len * p == 0) by (nonlinear_arith)
            requires
                p == 0,
        ;
    }
}

/// A pair that is as similar as the threshold asks passes the length filter.
pub proof fn lemma_similar_passes_length(
    t: Ratio,
    base_len: nat,
    other_len: nat,
    hits: nat,
    union_len: nat,
)
    requires
        unit_ratio(t),
        other_len <= LENGTH_MAX,
        similar(t, hits, union_len),
        hits <= base_len <= union_len,
        hits <= other_len <= union_len,
    ensures
        length_passes(t, base_len, other_len),
{
    let p = t.num as int;
    let q = t.den as int;
    lemma_length_passes(t, base_len, other_len);
    assert(base_len * p <= other_len * q && other_len * p <= base_len * q) by (nonlinear_arith)
        requires
            hits * q >= p * union_len,
            0 <= p,
            0 < q,
            hits <= base_len <= union_len,
            hits <= other_len <= union_len,
    ;
}

/// Computes the threshold of a radius.
pub fn threshold(radius: Ratio) -> (t: Ratio)
    ensures
        t == threshold_of(radius),
        unit_ratio(t),
{
    if radius.den == 0 || radius.num >= radius.den {
        Ratio { num: 0, den: 1 }
    } else {
        Ratio { num: radius.den - radius.num, den: radius.den }
    }
}

/// Computes the overlap threshold for a pair whose lengths add up to `total`.
pub fn overlap_threshold_for(t: Ratio, total: u64) -> (needed: u64)
    requires
        unit_ratio(t),
    ensures
        needed == overlap_threshold(t, total as nat),
        needed <= total,
{
    let n: u128 = wide_product(t.num, total);
    let d: u128 = t.den as u128 + t.num as u128;
    proof {
        assert(t.num * total <= 0xffff_ffff_ffff_ffff * 0xffff_ffff_ffff_ffff) by (nonlinear_arith)
            requires
                0 <= t.num <= 0xffff_ffff_ffff_ffff,
                0 <= total <= 0xffff_ffff_ffff_ffff,
        ;
        lemma_ceil_div(n as int, d as int, total as int);
        assert(total * d >= n) by (nonlinear_arith)
            requires
                n == t.num * total,
                d == t.den + t.num,
                t.den > 0,
                t.num >= 0,
                total >= 0,
        ;
    }
    let c: u128 = (n + d - 1) / d;
    c as u64
}

/// Computes both ends of the length filter for a base set of `base_len`
/// elements.
pub fn length_bounds(t: Ratio, base_len: u64) -> (bounds: (u64, u64))
    requires
        unit_ratio(t),
    ensures
        bounds.0 == length_lower(t, base_len as nat),
        bounds.1 == length_upper(t, base_len as nat),
{
    let n: u128 = wide_product(base_len, t.num);
    let d: u128 = t.den as u128;
    proof {
        assert(base_len * t.num <= 0xffff_ffff_ffff_ffff * 0xffff_ffff_ffff_ffff)
            by (nonlinear_arith)
            requires
                0 <= t.num <= 0xffff_ffff_ffff_ffff,
                0 <= base_len <= 0xffff_ffff_ffff_ffff,
        ;
        lemma_ceil_div(n as int, d as int, base_len as int);
        assert(base_len * d >= n) by (nonlinear_arith)
            requires
                n == base_len * t.num,
                d == t.den,
                t.num <= t.den,
                base_len >= 0,
        ;
    }
    let lower: u128 = (n + d - 1) / d;
    if t.num == 0 {
        (lower as u64, LENGTH_MAX)
    } else {
        let m: u128 = wide_product(base_len, t.den);
        let upper: u128 = m / (t.num as u128);
        if upper > LENGTH_MAX as u128 {
            (lower as u64, LENGTH_MAX)
        } else {
            (lower as u64, upper as u64)
        }
    }
}

} // verus!
