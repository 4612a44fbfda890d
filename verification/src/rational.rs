//! Exact rational numbers in lowest terms, built on unbounded naturals.
//!
//! The mathematical value of a `Rational` is its view, a `Ratio`: a sign,
//! a numerator and a positive denominator. Well-formed ratios are
//! canonical (lowest terms, positive denominator, no negative zero), and
//! every operation returns the canonical form `canon` of the exact result.

use vstd::prelude::*;

use malachite::Natural;
use crate::bignat::{
    nat_of, nat_from_u64, nat_clone, nat_add, nat_sub, nat_mul, nat_div_mod, nat_gcd, nat_eq,
    nat_lt,
};
use crate::numtheory::{
    spec_gcd, lemma_gcd_pos, lemma_gcd_divides, lemma_div_exact, lemma_gcd_quotients_coprime,
    lemma_divides_le,
};

verus! {

/// A mathematical rational: sign, numerator magnitude, denominator.
pub struct Ratio {
    pub neg: bool,
    pub num: nat,
    pub den: nat,
}

/// The signed integer with magnitude `m`.
pub open spec fn signed(neg: bool, m: nat) -> int {
    if neg {
        -(m as int)
    } else {
        m as int
    }
}

/// The signed numerator of a ratio.
pub open spec fn ratio_int(r: Ratio) -> int {
    signed(r.neg, r.num)
}

/// Canonical: positive denominator, lowest terms, no negative zero.
pub open spec fn ratio_wf(r: Ratio) -> bool {
    &&& r.den > 0
    &&& spec_gcd(r.num, r.den) == 1
    &&& (r.num == 0 ==> !r.neg)
}

/// Equality of the rationals two ratios denote, by cross-multiplication.
pub open spec fn rat_eq(a: Ratio, b: Ratio) -> bool {
    ratio_int(a) * b.den == ratio_int(b) * a.den
}

pub open spec fn ratio_zero() -> Ratio {
    Ratio { neg: false, num: 0, den: 1 }
}

pub open spec fn ratio_one() -> Ratio {
    Ratio { neg: false, num: 1, den: 1 }
}

/// The canonical form of the rational `n / d`.
pub open spec fn canon(n: int, d: nat) -> Ratio {
    let m = (if n < 0 {
        -n
    } else {
        n
    }) as nat;
    let g = spec_gcd(m, d);
    Ratio { neg: n < 0, num: m / g, den: d / g }
}

/// The exact sum of two ratios, in canonical form.
pub open spec fn spec_add(a: Ratio, b: Ratio) -> Ratio {
    canon(ratio_int(a) * b.den + ratio_int(b) * a.den, a.den * b.den)
}

/// The exact difference of two ratios, in canonical form.
pub open spec fn spec_sub(a: Ratio, b: Ratio) -> Ratio {
    canon(ratio_int(a) * b.den - ratio_int(b) * a.den, a.den * b.den)
}

/// The exact product of two ratios, in canonical form.
pub open spec fn spec_mul(a: Ratio, b: Ratio) -> Ratio {
    canon(ratio_int(a) * ratio_int(b), a.den * b.den)
}

/// The exact quotient of two ratios (`b` non-zero), in canonical form.
pub open spec fn spec_div(a: Ratio, b: Ratio) -> Ratio {
    canon(signed(b.neg, 1) * ratio_int(a) * b.den, a.den * b.num)
}

/// The negation of a canonical ratio.
pub open spec fn ratio_neg(a: Ratio) -> Ratio {
    if a.num == 0 {
        a
    } else {
        Ratio { neg: !a.neg, ..a }
    }
}

/// The absolute value of a canonical ratio.
pub open spec fn ratio_abs(a: Ratio) -> Ratio {
    Ratio { neg: false, ..a }
}

/// `spec_gcd(a, 1) == 1`.
pub proof fn lemma_gcd_one(a: nat)
    ensures
        spec_gcd(a, 1) == 1,
{
    assert(a % 1 == 0) by (nonlinear_arith);
    assert(spec_gcd(a, 1) == spec_gcd(1, 0));
}

/// Canonical forms are well-formed, with the sign and zeroness of `n`.
pub proof fn lemma_canon_wf(n: int, d: nat)
    requires
        d > 0,
    ensures
        ratio_wf(canon(n, d)),
        canon(n, d).neg == (n < 0),
        (canon(n, d).num == 0) == (n == 0),
{
    let m = (if n < 0 {
        -n
    } else {
        n
    }) as nat;
    let g = spec_gcd(m, d);
    lemma_gcd_pos(m, d);
    lemma_gcd_quotients_coprime(m, d);
    lemma_gcd_divides(m, d);
    lemma_div_exact(g, m);
    lemma_div_exact(g, d);
    assert(d / g > 0) by (nonlinear_arith)
        requires
            d == g * (d / g),
            d > 0,
    {
    }
    if m > 0 {
        assert(m / g > 0) by (nonlinear_arith)
            requires
                m == g * (m / g),
                m > 0,
        {
        }
    } else {
        assert(m / g == 0) by (nonlinear_arith)
            requires
                m == g * (m / g),
                m == 0,
                g > 0,
        {
        }
    }
}

/// Cross-multiplication identity: `canon(n, d)` denotes `n / d`.
pub proof fn lemma_canon_cross(n: int, d: nat)
    requires
        d > 0,
    ensures
        ratio_int(canon(n, d)) * d == n * canon(n, d).den,
{
    let m = (if n < 0 {
        -n
    } else {
        n
    }) as nat;
    let g = spec_gcd(m, d);
    lemma_gcd_pos(m, d);
    lemma_gcd_divides(m, d);
    lemma_div_exact(g, m);
    lemma_div_exact(g, d);
    let m1 = m / g;
    let d1 = d / g;
    if n < 0 {
        assert((-(m1 as int)) * d == n * d1) by (nonlinear_arith)
            requires
                m == g * m1,
                d == g * d1,
                n == -(m as int),
        {
        }
    } else {
        assert((m1 as int) * d == n * d1) by (nonlinear_arith)
            requires
                m == g * m1,
                d == g * d1,
                n == m,
        {
        }
    }
}

/// A well-formed ratio is its own canonical form.
pub proof fn lemma_canon_id(r: Ratio)
    requires
        ratio_wf(r),
    ensures
        canon(ratio_int(r), r.den) == r,
{
    let n = ratio_int(r);
    let m = (if n < 0 {
        -n
    } else {
        n
    }) as nat;
    assert(m == r.num);
    assert(r.num / 1 == r.num) by (nonlinear_arith);
    assert(r.den / 1 == r.den) by (nonlinear_arith);
}

/// An exact rational number, always kept in canonical form.
pub struct Rational {
    neg: bool,
    num: Natural,
    den: Natural,
}

impl View for Rational {
    type V = Ratio;

    closed spec fn view(&self) -> Ratio {
        Ratio { neg: self.neg, num: nat_of(self.num), den: nat_of(self.den) }
    }
}

impl Rational {
    /// Canonical form invariant.
    pub open spec fn wf(&self) -> bool {
        ratio_wf(self@)
    }

    /// Normalize a sign and two naturals into canonical form.
    fn normalize(neg: bool, num: Natural, den: Natural) -> (r: Rational)
        requires
            nat_of(den) != 0,
        ensures
            r@ == canon(signed(neg, nat_of(num)), nat_of(den)),
            r.wf(),
    {
        proof {
            lemma_canon_wf(signed(neg, nat_of(num)), nat_of(den));
            lemma_gcd_pos(nat_of(num), nat_of(den));
        }
        let g = nat_gcd(&num, &den);
        let (q_num, _r1) = nat_div_mod(&num, &g);
        let (q_den, _r2) = nat_div_mod(&den, &g);
        let zero = nat_from_u64(0);
        let out_neg = neg && !nat_eq(&q_num, &zero);
        Rational { neg: out_neg, num: q_num, den: q_den }
    }

    pub fn zero() -> (r: Rational)
        ensures
            r@ == ratio_zero(),
            r.wf(),
    {
        proof {
            lemma_gcd_one(0);
        }
        Rational { neg: false, num: nat_from_u64(0), den: nat_from_u64(1) }
    }

    pub fn one() -> (r: Rational)
        ensures
            r@ == ratio_one(),
            r.wf(),
    {
        proof {
            lemma_gcd_one(1);
        }
        Rational { neg: false, num: nat_from_u64(1), den: nat_from_u64(1) }
    }

    pub fn from_u64(x: u64) -> (r: Rational)
        ensures
            r@ == (Ratio { neg: false, num: x as nat, den: 1 }),
            r.wf(),
    {
        proof {
            lemma_gcd_one(x as nat);
        }
        Rational { neg: false, num: nat_from_u64(x), den: nat_from_u64(1) }
    }

    /// The canonical rational `sign * num / den`.
    pub fn from_parts(neg: bool, num: Natural, den: Natural) -> (r: Rational)
        requires
            nat_of(den) != 0,
        ensures
            r@ == canon(signed(neg, nat_of(num)), nat_of(den)),
            r.wf(),
    {
        Self::normalize(neg, num, den)
    }

    /// A copy denoting the same rational.
    pub fn duplicate(&self) -> (r: Rational)
        ensures
            r@ == self@,
    {
        Rational { neg: self.neg, num: nat_clone(&self.num), den: nat_clone(&self.den) }
    }

    /// The numerator magnitude.
    pub fn num_ref(&self) -> (r: &Natural)
        ensures
            nat_of(*r) == self@.num,
    {
        &self.num
    }

    /// The denominator.
    pub fn den_ref(&self) -> (r: &Natural)
        ensures
            nat_of(*r) == self@.den,
    {
        &self.den
    }

    pub fn is_zero(&self) -> (r: bool)
        ensures
            r == (self@.num == 0),
    {
        let zero = nat_from_u64(0);
        nat_eq(&self.num, &zero)
    }

    pub fn is_one(&self) -> (r: bool)
        requires
            self.wf(),
        ensures
            r == (self@ == ratio_one()),
    {
        let one = nat_from_u64(1);
        nat_eq(&self.num, &one) && nat_eq(&self.den, &one) && !self.neg
    }

    pub fn is_neg(&self) -> (r: bool)
        ensures
            r == self@.neg,
    {
        self.neg
    }

    /// Structural equality; on well-formed values this is equality of the
    /// rationals they denote.
    pub fn eq_rat(&self, other: &Rational) -> (r: bool)
        ensures
            r == (self@ == other@),
    {
        let num_eq = nat_eq(&self.num, &other.num);
        let den_eq = nat_eq(&self.den, &other.den);
        let r = self.neg == other.neg && num_eq && den_eq;
        proof {
            if r {
                assert(self@ =~= other@);
            }
        }
        r
    }

    pub fn neg(self) -> (r: Rational)
        requires
            self.wf(),
        ensures
            r@ == ratio_neg(self@),
            r.wf(),
    {
        let zero = nat_from_u64(0);
        if nat_eq(&self.num, &zero) {
            self
        } else {
            Rational { neg: !self.neg, num: self.num, den: self.den }
        }
    }

    pub fn abs(self) -> (r: Rational)
        requires
            self.wf(),
        ensures
            r@ == ratio_abs(self@),
            r.wf(),
    {
        Rational { neg: false, num: self.num, den: self.den }
    }

    pub fn add(&self, other: &Rational) -> (r: Rational)
        requires
            self.wf(),
            other.wf(),
        ensures
            r@ == spec_add(self@, other@),
            r.wf(),
    {
        let x = nat_mul(&self.num, &other.den);
        let y = nat_mul(&other.num, &self.den);
        let den = nat_mul(&self.den, &other.den);
        proof {
            assert(nat_of(den) != 0) by (nonlinear_arith)
                requires
                    nat_of(den) == self@.den * other@.den,
                    self@.den > 0,
                    other@.den > 0,
            {
            }
            lemma_signed_mul(self@.neg, self@.num, other@.den);
            lemma_signed_mul(other@.neg, other@.num, self@.den);
        }
        if self.neg == other.neg {
            let num = nat_add(&x, &y);
            Self::normalize(self.neg, num, den)
        } else if nat_lt(&y, &x) {
            let num = nat_sub(&x, &y);
            Self::normalize(self.neg, num, den)
        } else {
            let num = nat_sub(&y, &x);
            Self::normalize(other.neg, num, den)
        }
    }

    pub fn sub(&self, other: &Rational) -> (r: Rational)
        requires
            self.wf(),
            other.wf(),
        ensures
            r@ == spec_sub(self@, other@),
            r.wf(),
    {
        let x = nat_mul(&self.num, &other.den);
        let y = nat_mul(&other.num, &self.den);
        let den = nat_mul(&self.den, &other.den);
        proof {
            assert(nat_of(den) != 0) by (nonlinear_arith)
                requires
                    nat_of(den) == self@.den * other@.den,
                    self@.den > 0,
                    other@.den > 0,
            {
            }
            lemma_signed_mul(self@.neg, self@.num, other@.den);
            lemma_signed_mul(other@.neg, other@.num, self@.den);
        }
        if self.neg != other.neg {
            let num = nat_add(&x, &y);
            Self::normalize(self.neg, num, den)
        } else if nat_lt(&y, &x) {
            let num = nat_sub(&x, &y);
            Self::normalize(self.neg, num, den)
        } else {
            let num = nat_sub(&y, &x);
            Self::normalize(!other.neg, num, den)
        }
    }

    pub fn mul(&self, other: &Rational) -> (r: Rational)
        requires
            self.wf(),
            other.wf(),
        ensures
            r@ == spec_mul(self@, other@),
            r.wf(),
    {
        let num = nat_mul(&self.num, &other.num);
        let den = nat_mul(&self.den, &other.den);
        proof {
            assert(nat_of(den) != 0) by (nonlinear_arith)
                requires
                    nat_of(den) == self@.den * other@.den,
                    self@.den > 0,
                    other@.den > 0,
            {
            }
            assert(signed(self@.neg != other@.neg, self@.num * other@.num) == ratio_int(self@)
                * ratio_int(other@)) by (nonlinear_arith)
                requires
                    ratio_int(self@) == signed(self@.neg, self@.num),
                    ratio_int(other@) == signed(other@.neg, other@.num),
            {
            }
        }
        Self::normalize(self.neg != other.neg, num, den)
    }

    pub fn div(&self, other: &Rational) -> (r: Rational)
        requires
            self.wf(),
            other.wf(),
            other@.num != 0,
        ensures
            r@ == spec_div(self@, other@),
            r.wf(),
    {
        let num = nat_mul(&self.num, &other.den);
        let den = nat_mul(&self.den, &other.num);
        proof {
            assert(nat_of(den) != 0) by (nonlinear_arith)
                requires
                    nat_of(den) == self@.den * other@.num,
                    self@.den > 0,
                    other@.num > 0,
            {
            }
            assert(signed(self.neg != other.neg, self@.num * other@.den) == signed(
                other@.neg,
                1,
            ) * ratio_int(self@) * other@.den) by (nonlinear_arith)
                requires
                    ratio_int(self@) == signed(self@.neg, self@.num),
            {
            }
        }
        Self::normalize(self.neg != other.neg, num, den)
    }
}

/// Pulling a sign out of a product of magnitudes.
proof fn lemma_signed_mul(neg: bool, a: nat, b: nat)
    ensures
        signed(neg, a * b) == signed(neg, a) * b,
{
    assert(signed(neg, a * b) == signed(neg, a) * b) by (nonlinear_arith);
}

} // verus!
