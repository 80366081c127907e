use vstd::prelude::*;

verus! {

/// An exact non-negative fraction `num / den`.
///
/// A zero denominator stands for positive infinity, whatever the numerator.
/// Two fractions are equal when they denote the same number, so `1/2` equals
/// `2/4`; the order is the order of the numbers denoted.
#[derive(Clone, Copy, Debug)]
pub struct Ratio {
    pub num: u64,
    pub den: u64,
}

impl Ratio {
    /// Whether the fraction stands for positive infinity.
    pub open spec fn infinite(self) -> bool {
        self.den == 0
    }

    /// `self` denotes a strictly smaller number than `other`.
    pub open spec fn below(self, other: Ratio) -> bool {
        if self.den == 0 {
            false
        } else if other.den == 0 {
            true
        } else {
            (self.num as int) * (other.den as int) < (other.num as int) * (self.den as int)
        }
    }

    /// `self` and `other` denote the same number.
    pub open spec fn same(self, other: Ratio) -> bool {
        if self.den == 0 || other.den == 0 {
            self.den == other.den
        } else {
            (self.num as int) * (other.den as int) == (other.num as int) * (self.den as int)
        }
    }

    /// `self` denotes a number no larger than `other` does.
    pub open spec fn at_most(self, other: Ratio) -> bool {
        self.below(other) || self.same(other)
    }

    /// The fraction `num / den`.
    pub fn new(num: u64, den: u64) -> (r: Ratio)
        ensures
            r.num == num,
            r.den == den,
    {
        Ratio { num, den }
    }

    /// The number zero, as `0/1`.
    pub fn zero() -> (r: Ratio)
        ensures
            r.num == 0,
            r.den == 1,
    {
        Ratio { num: 0, den: 1 }
    }

    /// The number one, as `1/1`.
    pub fn one() -> (r: Ratio)
        ensures
            r.num == 1,
            r.den == 1,
    {
        Ratio { num: 1, den: 1 }
    }

    /// Positive infinity, as `1/0`.
    pub fn infinity() -> (r: Ratio)
        ensures
            r.num == 1,
            r.den == 0,
    {
        Ratio { num: 1, den: 0 }
    }

    pub fn is_infinite(&self) -> (r: bool)
        ensures
            r == self.infinite(),
    {
        self.den == 0
    }

    /// Strict comparison of the numbers denoted.
    pub fn less_than(&self, other: &Ratio) -> (r: bool)
        ensures
            r == self.below(*other),
    {
        if self.den == 0 {
            false
        } else if other.den == 0 {
            true
        } else {
            wide_product(self.num, other.den) < wide_product(other.num, self.den)
        }
    }

    /// Equality of the numbers denoted.
    pub fn equals(&self, other: &Ratio) -> (r: bool)
        ensures
            r == self.same(*other),
    {
        if self.den == 0 || other.den == 0 {
            self.den == other.den
        } else {
            wide_product(self.num, other.den) == wide_product(other.num, self.den)
        }
    }
}

/// The product of two 64-bit numbers, which always fits in 128 bits.
pub fn wide_product(a: u64, b: u64) -> (p: u128)
    ensures
        p == (a as int) * (b as int),
{
    proof {
        assert((a as int) * (b as int) <= 0xffff_ffff_ffff_ffff * 0xffff_ffff_ffff_ffff)
            by (nonlinear_arith)
            requires
                0 <= a <= 0xffff_ffff_ffff_ffff,
                0 <= b <= 0xffff_ffff_ffff_ffff,
        ;
    }
    (a as u128) * (b as u128)
}

impl PartialEq for Ratio {
    fn eq(&self, other: &Ratio) -> (r: bool) {
        self.equals(other)
    }
}

impl vstd::std_specs::cmp::PartialEqSpecImpl for Ratio {
    open spec fn obeys_eq_spec() -> bool {
        true
    }

    open spec fn eq_spec(&self, other: &Ratio) -> bool {
        self.same(*other)
    }
}

/// Of two fractions exactly one of: the first is below, they are equal,
/// the second is below.
pub proof fn lemma_trichotomy(a: Ratio, b: Ratio)
    ensures
        a.below(b) || a.same(b) || b.below(a),
        !(a.below(b) && a.same(b)),
        !(a.below(b) && b.below(a)),
        !(a.same(b) && b.below(a)),
{
}

/// The strict order of fractions is transitive, also through equal fractions.
pub proof fn lemma_order_transitive(a: Ratio, b: Ratio, c: Ratio)
    ensures
        a.below(b) && b.below(c) ==> a.below(c),
        a.below(b) && b.same(c) ==> a.below(c),
        a.same(b) && b.below(c) ==> a.below(c),
        a.same(b) && b.same(c) ==> a.same(c),
        a.at_most(b) && b.at_most(c) ==> a.at_most(c),
{
    if a.den != 0 && b.den != 0 && c.den != 0 {
        let (an, ad) = (a.num as int, a.den as int);
        let (bn, bd) = (b.num as int, b.den as int);
        let (cn, cd) = (c.num as int, c.den as int);
        assert(an * bd < bn * ad && bn * cd < cn * bd ==> an * cd < cn * ad) by (nonlinear_arith)
            requires
                ad > 0,
                bd > 0,
                cd > 0,
                an >= 0,
                bn >= 0,
                cn >= 0,
        ;
        assert(an * bd < bn * ad && bn * cd == cn * bd ==> an * cd < cn * ad) by (nonlinear_arith)
            requires
                ad > 0,
                bd > 0,
                cd > 0,
                an >= 0,
                bn >= 0,
                cn >= 0,
        ;
        assert(an * bd == bn * ad && bn * cd < cn * bd ==> an * cd < cn * ad) by (nonlinear_arith)
            requires
                ad > 0,
                bd > 0,
                cd > 0,
                an >= 0,
                bn >= 0,
                cn >= 0,
        ;
        assert(an * bd == bn * ad && bn * cd == cn * bd ==> an * cd == cn * ad) by (nonlinear_arith)
            requires
                ad > 0,
                bd > 0,
                cd > 0,
                an >= 0,
                bn >= 0,
                cn >= 0,
        ;
    }
}

} // verus!
