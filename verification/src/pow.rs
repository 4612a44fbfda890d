//! Rational powers with exact n-th root extraction.
//!
//! For a base `a` and exponent `p/q` in lowest terms, the power is
//! computed by taking the exact `q`-th roots of `a`'s numerator and
//! denominator (by integer bisection) and then raising to the integer
//! `p`. Where no exact root exists, the result is `None` and surfaces as
//! an irrational outcome. Exponent parts beyond `u64` exceed the
//! capacity cap unless the base is `0` or a unit.

use vstd::prelude::*;
use vstd::arithmetic::power::{
    lemma_pow0, lemma_pow1, lemma0_pow, lemma1_pow, lemma_pow_positive, lemma_pow_increases,
};

use malachite::Natural;
use crate::bignat::{
    nat_of, nat_from_u64, nat_to_u64, nat_clone, nat_add, nat_div_mod, nat_eq, nat_lt, nat_odd,
    nat_pow_u64,
};
use crate::rational::{
    Rational, Ratio, ratio_one, ratio_zero, ratio_wf, ratio_int, rat_eq, spec_mul, canon, signed,
    lemma_canon_wf, lemma_canon_cross,
};

verus! {

/// `b` to the power `e`, over naturals.
pub open spec fn pow_n(b: nat, e: nat) -> nat {
    vstd::arithmetic::power::pow(b as int, e) as nat
}

/// Whether `x` is an exact `q`-th power.
pub open spec fn is_pow(x: nat, q: nat) -> bool {
    exists|s: nat| #[trigger] pow_n(s, q) == x
}

/// The exact `q`-th root of `x`, where one exists.
pub open spec fn root_of(x: nat, q: nat) -> nat {
    choose|s: nat| #[trigger] pow_n(s, q) == x
}

/// Integer power of a ratio: `a^p`, reciprocated when `recip` holds.
pub open spec fn ratio_pow_int(a: Ratio, p: nat, recip: bool) -> Ratio {
    let sgn = a.neg && p % 2 == 1;
    if recip {
        canon(signed(sgn, pow_n(a.den, p)), pow_n(a.num, p))
    } else {
        canon(signed(sgn, pow_n(a.num, p)), pow_n(a.den, p))
    }
}

/// The exact rational power `a^b`: `None` when no exact real root
/// exists (irrational result, or an even root of a negative base) or a
/// negative power of zero is asked for.
pub open spec fn spec_pow(a: Ratio, b: Ratio) -> Option<Ratio> {
    if a.num == 0 {
        if b.neg {
            None
        } else if b.num == 0 {
            Some(ratio_one())
        } else {
            Some(ratio_zero())
        }
    } else if b.den == 1 {
        Some(ratio_pow_int(a, b.num, b.neg))
    } else if a.neg && b.den % 2 == 0 {
        None
    } else if !is_pow(a.num, b.den) || !is_pow(a.den, b.den) {
        None
    } else {
        Some(
            ratio_pow_int(
                Ratio { neg: a.neg, num: root_of(a.num, b.den), den: root_of(a.den, b.den) },
                b.num,
                b.neg,
            ),
        )
    }
}

/// Machine capacity: with a base other than `0` and `+-1`, exponent
/// parts beyond `u64` would exceed the power routine's capacity cap.
pub open spec fn pow_in_capacity(a: Ratio, b: Ratio) -> bool {
    ||| a.num == 0
    ||| (a.num == 1 && a.den == 1)
    ||| (b.num <= u64::MAX && b.den <= u64::MAX)
}

/// A power of a natural is a natural.
pub proof fn lemma_pow_n_nonneg(b: nat, e: nat)
    ensures
        vstd::arithmetic::power::pow(b as int, e) >= 0,
        pow_n(b, e) == vstd::arithmetic::power::pow(b as int, e),
        b >= 1 ==> pow_n(b, e) >= 1,
{
    if b >= 1 {
        lemma_pow_positive(b as int, e);
    } else if e == 0 {
        lemma_pow0(b as int);
    } else {
        lemma0_pow(e);
    }
}

/// Raising to a power at least one does not shrink the base.
pub proof fn lemma_pow_le_self(b: nat, e: nat)
    requires
        b >= 1,
        e >= 1,
    ensures
        b <= pow_n(b, e),
{
    lemma_pow_increases(b, 1, e);
    lemma_pow1(b as int);
    lemma_pow_n_nonneg(b, e);
}

/// Powers of naturals grow with the base.
pub proof fn lemma_pow_base_mono(a: nat, b: nat, e: nat)
    requires
        a <= b,
    ensures
        pow_n(a, e) <= pow_n(b, e),
    decreases e,
{
    lemma_pow_n_nonneg(a, e);
    lemma_pow_n_nonneg(b, e);
    if e == 0 {
        lemma_pow0(a as int);
        lemma_pow0(b as int);
    } else {
        lemma_pow_base_mono(a, b, (e - 1) as nat);
        lemma_pow_n_nonneg(a, (e - 1) as nat);
        lemma_pow_n_nonneg(b, (e - 1) as nat);
        reveal(vstd::arithmetic::power::pow);
        assert(a as int * vstd::arithmetic::power::pow(a as int, (e - 1) as nat) <= b as int * vstd::arithmetic::power::pow(
            b as int,
            (e - 1) as nat,
        )) by (nonlinear_arith)
            requires
                a <= b,
                0 <= vstd::arithmetic::power::pow(a as int, (e - 1) as nat),
                vstd::arithmetic::power::pow(a as int, (e - 1) as nat) <= vstd::arithmetic::power::pow(b as int, (e - 1) as nat),
        {
        }
        assert(vstd::arithmetic::power::pow(a as int, e) == a as int
            * vstd::arithmetic::power::pow(a as int, (e - 1) as nat));
        assert(vstd::arithmetic::power::pow(b as int, e) == b as int
            * vstd::arithmetic::power::pow(b as int, (e - 1) as nat));
    }
}

/// Powers of naturals grow strictly with the base.
pub proof fn lemma_pow_base_strict(a: nat, b: nat, e: nat)
    requires
        a < b,
        e >= 1,
    ensures
        pow_n(a, e) < pow_n(b, e),
    decreases e,
{
    lemma_pow_n_nonneg(a, e);
    lemma_pow_n_nonneg(b, e);
    if e == 1 {
        lemma_pow1(a as int);
        lemma_pow1(b as int);
    } else {
        lemma_pow_base_strict(a, b, (e - 1) as nat);
        lemma_pow_n_nonneg(a, (e - 1) as nat);
        lemma_pow_n_nonneg(b, (e - 1) as nat);
        lemma_pow_positive(b as int, (e - 1) as nat);
        reveal(vstd::arithmetic::power::pow);
        assert(a as int * vstd::arithmetic::power::pow(a as int, (e - 1) as nat) < b as int * vstd::arithmetic::power::pow(
            b as int,
            (e - 1) as nat,
        )) by (nonlinear_arith)
            requires
                a < b,
                0 <= vstd::arithmetic::power::pow(a as int, (e - 1) as nat),
                vstd::arithmetic::power::pow(a as int, (e - 1) as nat) < vstd::arithmetic::power::pow(b as int, (e - 1) as nat),
                0 < vstd::arithmetic::power::pow(b as int, (e - 1) as nat),
        {
        }
        assert(vstd::arithmetic::power::pow(a as int, e) == a as int
            * vstd::arithmetic::power::pow(a as int, (e - 1) as nat));
        assert(vstd::arithmetic::power::pow(b as int, e) == b as int
            * vstd::arithmetic::power::pow(b as int, (e - 1) as nat));
    }
}

/// An exact root is unique.
pub proof fn lemma_root_unique(x: nat, q: nat, s: nat)
    requires
        q >= 1,
        pow_n(s, q) == x,
    ensures
        is_pow(x, q),
        root_of(x, q) == s,
{
    assert(is_pow(x, q));
    let s2 = root_of(x, q);
    if s < s2 {
        lemma_pow_base_strict(s, s2, q);
    } else if s2 < s {
        lemma_pow_base_strict(s2, s, q);
    }
}

/// The only natural whose power is one is one itself.
pub proof fn lemma_root_of_one(s: nat, q: nat)
    requires
        q >= 1,
        pow_n(s, q) == 1,
    ensures
        s == 1,
{
    if s == 0 {
        lemma0_pow(q);
    } else if s >= 2 {
        lemma_pow_le_self(s, q);
    }
}

/// `b^e` over naturals; bases other than `0` and `1` take only
/// exponents that fit a machine word (the capacity cap).
pub fn nat_pow(b: &Natural, e: &Natural) -> (r: Natural)
    requires
        nat_of(*b) <= 1 || nat_of(*e) <= u64::MAX,
    ensures
        nat_of(r) == pow_n(nat_of(*b), nat_of(*e)),
{
    let zero = nat_from_u64(0);
    let one = nat_from_u64(1);
    if nat_eq(b, &zero) {
        if nat_eq(e, &zero) {
            proof {
                lemma_pow0(0int);
            }
            nat_from_u64(1)
        } else {
            proof {
                lemma0_pow(nat_of(*e));
            }
            nat_from_u64(0)
        }
    } else if nat_eq(b, &one) {
        proof {
            lemma1_pow(nat_of(*e));
        }
        nat_from_u64(1)
    } else {
        match nat_to_u64(e) {
            Some(ev) => {
                proof {
                    lemma_pow_n_nonneg(nat_of(*b), nat_of(*e));
                }
                nat_pow_u64(b, ev)
            },
            None => {
                proof {
                    assert(false);
                }
                vstd::pervasive::unreached()
            },
        }
    }
}

/// The exact `n`-th root of `x`, by integer bisection, if one exists.
fn nat_root(n: &Natural, x: &Natural) -> (r: Option<Natural>)
    requires
        nat_of(*n) >= 1,
        nat_of(*x) >= 1,
        nat_of(*n) <= u64::MAX || nat_of(*x) == 1,
    ensures
        match r {
            Some(s) => pow_n(nat_of(s), nat_of(*n)) == nat_of(*x),
            None => !is_pow(nat_of(*x), nat_of(*n)),
        },
{
    let ghost nn = nat_of(*n);
    let ghost xx = nat_of(*x);
    let two = nat_from_u64(2);
    let mut lower = nat_from_u64(0);
    let mut upper = nat_clone(x);
    proof {
        lemma0_pow(nn);
        lemma_pow_le_self(xx, nn);
        lemma_pow_n_nonneg(xx, nn);
    }
    loop
        invariant
            nat_of(two) == 2,
            nn == nat_of(*n),
            xx == nat_of(*x),
            nn >= 1,
            xx >= 1,
            pow_n(nat_of(lower), nn) < xx,
            xx <= pow_n(nat_of(upper), nn),
            nat_of(lower) < nat_of(upper),
            nat_of(upper) <= xx,
            nn <= u64::MAX || xx == 1,
        ensures
            nat_of(upper) == nat_of(lower) + 1,
            pow_n(nat_of(lower), nn) < xx,
            xx <= pow_n(nat_of(upper), nn),
        decreases nat_of(upper) - nat_of(lower),
    {
        let sum = nat_add(&lower, &upper);
        let (avg, _m) = nat_div_mod(&sum, &two);
        if nat_eq(&lower, &avg) {
            proof {
                assert(nat_of(upper) == nat_of(lower) + 1) by (nonlinear_arith)
                    requires
                        nat_of(avg) == (nat_of(lower) + nat_of(upper)) / 2,
                        nat_of(avg) == nat_of(lower),
                        nat_of(lower) < nat_of(upper),
                {
                }
            }
            break;
        }
        proof {
            assert(nat_of(lower) < nat_of(avg) && nat_of(avg) < nat_of(upper)) by (nonlinear_arith)
                requires
                    nat_of(avg) == (nat_of(lower) + nat_of(upper)) / 2,
                    nat_of(lower) < nat_of(upper),
                    nat_of(avg) != nat_of(lower),
            {
            }
        }
        let pv = nat_pow(&avg, n);
        if nat_eq(&pv, x) {
            return Some(avg);
        } else if nat_lt(&pv, x) {
            lower = avg;
        } else {
            upper = avg;
        }
    }
    let pl = nat_pow(&lower, n);
    if nat_eq(&pl, x) {
        return Some(lower);
    }
    let pu = nat_pow(&upper, n);
    if nat_eq(&pu, x) {
        return Some(upper);
    }
    proof {
        assert forall|s: nat| #[trigger] pow_n(s, nn) != xx by {
            if s <= nat_of(lower) {
                lemma_pow_base_mono(s, nat_of(lower), nn);
            } else {
                lemma_pow_base_mono(nat_of(upper), s, nn);
            }
        }
    }
    None
}

/// Integer power of a sign and two naturals, reciprocated when `recip`.
fn rat_pow_int(neg: bool, num: &Natural, den: &Natural, p: &Natural, recip: bool) -> (r: Rational)
    requires
        nat_of(*num) >= 1,
        nat_of(*den) >= 1,
        (nat_of(*num) <= 1 && nat_of(*den) <= 1) || nat_of(*p) <= u64::MAX,
    ensures
        r@ == ratio_pow_int(
            (Ratio { neg: neg, num: nat_of(*num), den: nat_of(*den) }),
            nat_of(*p),
            recip,
        ),
        r.wf(),
{
    let sgn = neg && nat_odd(p);
    let pn = nat_pow(num, p);
    let pd = nat_pow(den, p);
    proof {
        lemma_pow_n_nonneg(nat_of(*num), nat_of(*p));
        lemma_pow_n_nonneg(nat_of(*den), nat_of(*p));
    }
    if recip {
        Rational::from_parts(sgn, pd, pn)
    } else {
        Rational::from_parts(sgn, pn, pd)
    }
}

/// The exact rational power `a^b`, `None` where the result would be
/// irrational or no real root exists.
pub fn pow(a: Rational, b: Rational) -> (r: Option<Rational>)
    requires
        a.wf(),
        b.wf(),
        pow_in_capacity(a@, b@),
    ensures
        match r {
            Some(v) => spec_pow(a@, b@) == Some(v@) && v.wf(),
            None => spec_pow(a@, b@) is None,
        },
{
    if a.is_zero() {
        if b.is_neg() {
            None
        } else if b.is_zero() {
            Some(Rational::one())
        } else {
            Some(Rational::zero())
        }
    } else {
        let one = nat_from_u64(1);
        if nat_eq(b.den_ref(), &one) {
            proof {
                assert(a@ =~= (Ratio { neg: a@.neg, num: a@.num, den: a@.den }));
            }
            Some(rat_pow_int(a.is_neg(), a.num_ref(), a.den_ref(), b.num_ref(), b.is_neg()))
        } else if a.is_neg() && !nat_odd(b.den_ref()) {
            None
        } else {
            let num_root = match nat_root(b.den_ref(), a.num_ref()) {
                Some(s) => s,
                None => {
                    return None;
                },
            };
            let den_root = match nat_root(b.den_ref(), a.den_ref()) {
                Some(s) => s,
                None => {
                    return None;
                },
            };
            proof {
                lemma_root_unique(a@.num, b@.den, nat_of(num_root));
                lemma_root_unique(a@.den, b@.den, nat_of(den_root));
                if a@.num == 1 && a@.den == 1 {
                    lemma_root_of_one(nat_of(num_root), b@.den);
                    lemma_root_of_one(nat_of(den_root), b@.den);
                }
                lemma_pow_n_nonneg(nat_of(num_root), b@.den);
                lemma_pow_n_nonneg(nat_of(den_root), b@.den);
                if nat_of(num_root) == 0 {
                    lemma0_pow(b@.den);
                }
                if nat_of(den_root) == 0 {
                    lemma0_pow(b@.den);
                }
            }
            Some(rat_pow_int(a.is_neg(), &num_root, &den_root, b.num_ref(), b.is_neg()))
        }
    }
}

/// Multiplying by `r`, `n` times over (one for `n == 0`).
pub open spec fn repeat_mul(r: Ratio, n: nat) -> Ratio
    decreases n,
{
    if n == 0 {
        ratio_one()
    } else {
        spec_mul(repeat_mul(r, (n - 1) as nat), r)
    }
}

/// The signed numerator of `n`-fold repeated multiplication, cross
/// multiplied: repeated multiplication denotes the `n`-th power of the
/// numerator over the `n`-th power of the denominator.
proof fn lemma_repeat_mul_cross(r: Ratio, n: nat)
    requires
        ratio_wf(r),
    ensures
        ratio_wf(repeat_mul(r, n)),
        ratio_int(repeat_mul(r, n)) * pow_n(r.den, n) == signed(r.neg && n % 2 == 1, pow_n(r.num, n))
            * repeat_mul(r, n).den,
    decreases n,
{
    if n == 0 {
        lemma_pow_n_nonneg(r.den, 0);
        lemma_pow_n_nonneg(r.num, 0);
        assert(vstd::arithmetic::power::pow(r.den as int, 0) == 1) by {
            lemma_pow0(r.den as int);
        }
        assert(vstd::arithmetic::power::pow(r.num as int, 0) == 1) by {
            lemma_pow0(r.num as int);
        }
        crate::rational::lemma_gcd_one(1);
    } else {
        lemma_repeat_mul_cross(r, (n - 1) as nat);
        let m = repeat_mul(r, (n - 1) as nat);
        let q = repeat_mul(r, n);
        let nn = ratio_int(m) * ratio_int(r);
        let dd = (m.den * r.den) as nat;
        assert(dd > 0) by (nonlinear_arith)
            requires
                m.den > 0,
                r.den > 0,
                dd == m.den * r.den,
        {
        }
        lemma_canon_wf(nn, dd);
        lemma_canon_cross(nn, dd);
        // the two power towers, one step down
        let pd1 = pow_n(r.den, (n - 1) as nat);
        let pn1 = pow_n(r.num, (n - 1) as nat);
        lemma_pow_n_nonneg(r.den, (n - 1) as nat);
        lemma_pow_n_nonneg(r.num, (n - 1) as nat);
        lemma_pow_n_nonneg(r.den, n);
        lemma_pow_n_nonneg(r.num, n);
        assert(vstd::arithmetic::power::pow(r.den as int, n) == (r.den as int)
            * vstd::arithmetic::power::pow(r.den as int, (n - 1) as nat) && vstd::arithmetic::power::pow(
            r.num as int,
            n,
        ) == (r.num as int) * vstd::arithmetic::power::pow(r.num as int, (n - 1) as nat)) by {
            reveal(vstd::arithmetic::power::pow);
        }
        assert(pow_n(r.den, n) == pd1 * r.den && pow_n(r.num, n) == pn1 * r.num)
            by (nonlinear_arith)
            requires
                vstd::arithmetic::power::pow(r.den as int, n) == (r.den as int)
                    * vstd::arithmetic::power::pow(r.den as int, (n - 1) as nat),
                vstd::arithmetic::power::pow(r.num as int, n) == (r.num as int)
                    * vstd::arithmetic::power::pow(r.num as int, (n - 1) as nat),
                pow_n(r.den, n) == vstd::arithmetic::power::pow(r.den as int, n),
                pow_n(r.num, n) == vstd::arithmetic::power::pow(r.num as int, n),
                pd1 == vstd::arithmetic::power::pow(r.den as int, (n - 1) as nat),
                pn1 == vstd::arithmetic::power::pow(r.num as int, (n - 1) as nat),
        {
        }
        assert(pd1 > 0) by {
            lemma_pow_positive(r.den as int, (n - 1) as nat);
        }
        assert((n % 2 == 1) == !((n - 1) as nat % 2 == 1)) by (nonlinear_arith)
            requires
                n >= 1,
        {
        }
        // sign of one more factor
        let sg1 = signed(r.neg && (n - 1) as nat % 2 == 1, pn1);
        let sgn = signed(r.neg && n % 2 == 1, pow_n(r.num, n));
        assert(sg1 * ratio_int(r) == sgn) by (nonlinear_arith)
            requires
                sg1 == signed(r.neg && (n - 1) as nat % 2 == 1, pn1),
                sgn == signed(r.neg && n % 2 == 1, pow_n(r.num, n)),
                ratio_int(r) == signed(r.neg, r.num),
                pow_n(r.num, n) == pn1 * r.num,
                (n % 2 == 1) == !((n - 1) as nat % 2 == 1),
        {
        }
        // cross identity of the canonical product, scaled one step down
        assert(ratio_int(q) * pow_n(r.den, n) == sgn * q.den) by (nonlinear_arith)
            requires
                ratio_int(q) * dd == nn * q.den,
                nn == ratio_int(m) * ratio_int(r),
                dd == m.den * r.den,
                ratio_int(m) * pd1 == sg1 * m.den,
                sg1 * ratio_int(r) == sgn,
                pow_n(r.den, n) == pd1 * r.den,
                m.den > 0,
                r.den > 0,
                pd1 > 0,
        {
        }
    }
}

/// Power correctness, integer exponents: for every rational `r` and
/// count `n`, the exact power `r^(n/1)` is defined and denotes the
/// rational `r * r * ... * r` (`n` times).
pub proof fn lemma_pow_repeated(r: Ratio, n: nat)
    requires
        ratio_wf(r),
    ensures
        spec_pow(r, Ratio { neg: false, num: n, den: 1 }) matches Some(p) && ratio_wf(p) && rat_eq(
            p,
            repeat_mul(r, n),
        ),
{
    let b = Ratio { neg: false, num: n, den: 1 };
    lemma_repeat_mul_cross(r, n);
    let rep = repeat_mul(r, n);
    if r.num == 0 {
        if n == 0 {
            crate::rational::lemma_gcd_one(1);
        } else {
            crate::rational::lemma_gcd_one(1);
            // the repeated product of a zero is a zero
            assert(ratio_int(rep) * pow_n(r.den, n) == signed(r.neg && n % 2 == 1, pow_n(0, n))
                * rep.den);
            assert(pow_n(0, n) == 0) by {
                lemma0_pow(n);
            }
            assert(ratio_int(rep) * pow_n(r.den, n) == 0) by (nonlinear_arith)
                requires
                    ratio_int(rep) * pow_n(r.den, n) == signed(r.neg && n % 2 == 1, 0) * rep.den,
            {
            }
            assert(pow_n(r.den, n) > 0) by {
                lemma_pow_positive(r.den as int, n);
                lemma_pow_n_nonneg(r.den, n);
            }
            assert(ratio_int(rep) == 0) by (nonlinear_arith)
                requires
                    ratio_int(rep) * pow_n(r.den, n) == 0,
                    pow_n(r.den, n) > 0,
            {
            }
            assert(rat_eq(ratio_zero(), rep)) by (nonlinear_arith)
                requires
                    ratio_int(rep) == 0,
                    ratio_int(ratio_zero()) == 0,
            {
            }
        }
    } else {
        let p = ratio_pow_int(r, n, false);
        let sgn = signed(r.neg && n % 2 == 1, pow_n(r.num, n));
        lemma_pow_n_nonneg(r.num, n);
        lemma_pow_n_nonneg(r.den, n);
        assert(pow_n(r.den, n) > 0) by {
            lemma_pow_positive(r.den as int, n);
        }
        lemma_canon_wf(sgn, pow_n(r.den, n));
        lemma_canon_cross(sgn, pow_n(r.den, n));
        // p cross-denotes num^n / den^n, and so does the repeated
        // product; denominators are positive, so the two are equal as
        // rationals
        assert(rat_eq(p, rep)) by (nonlinear_arith)
            requires
                ratio_int(p) * pow_n(r.den, n) == sgn * p.den,
                ratio_int(rep) * pow_n(r.den, n) == sgn * rep.den,
                p.den > 0,
                rep.den > 0,
                pow_n(r.den, n) > 0,
                rat_eq(p, rep) == (ratio_int(p) * rep.den == ratio_int(rep) * p.den),
        {
        }
    }
}

/// Root correctness: whenever the exact power `t^(1/n)` is defined
/// with value `s`, multiplying `s` by itself `n` times gives back
/// exactly the rational `t`.
pub proof fn lemma_root_correct(t: Ratio, n: nat)
    requires
        ratio_wf(t),
        ratio_wf(Ratio { neg: false, num: 1, den: n }),
        n >= 1,
        spec_pow(t, Ratio { neg: false, num: 1, den: n }) is Some,
    ensures
        rat_eq(repeat_mul(spec_pow(t, Ratio { neg: false, num: 1, den: n })->Some_0, n), t),
{
    let b = Ratio { neg: false, num: 1, den: n };
    let s = spec_pow(t, b)->Some_0;
    let rep = repeat_mul(s, n);
    if t.num == 0 {
        // the root of zero is zero, and so is its repeated product
        assert(s == ratio_zero());
        crate::rational::lemma_gcd_one(0);
        lemma_repeat_mul_cross(s, n);
        assert(pow_n(0, n) == 0) by {
            lemma0_pow(n);
        }
        assert(pow_n(1, n) == 1) by {
            lemma1_pow(n);
            lemma_pow_n_nonneg(1, n);
        }
        assert(ratio_int(rep) == 0) by (nonlinear_arith)
            requires
                ratio_int(rep) * pow_n(s.den, n) == signed(s.neg && n % 2 == 1, pow_n(s.num, n))
                    * rep.den,
                s == ratio_zero(),
                pow_n(0, n) == 0,
                pow_n(1, n) == 1,
        {
        }
        assert(rat_eq(rep, t)) by (nonlinear_arith)
            requires
                ratio_int(rep) == 0,
                ratio_int(t) == signed(t.neg, t.num),
                t.num == 0,
                !t.neg,
        {
        }
    } else if n == 1 {
        // a first root is the number itself
        assert(pow_n(t.num, 1) == t.num && pow_n(t.den, 1) == t.den) by {
            lemma_pow1(t.num as int);
            lemma_pow1(t.den as int);
            lemma_pow_n_nonneg(t.num, 1);
            lemma_pow_n_nonneg(t.den, 1);
        }
        crate::rational::lemma_canon_id(t);
        assert(s == t);
        lemma_repeat_mul_cross(s, n);
        assert(rat_eq(rep, t)) by (nonlinear_arith)
            requires
                ratio_int(rep) * pow_n(s.den, 1) == signed(s.neg && 1nat % 2 == 1, pow_n(s.num, 1))
                    * rep.den,
                pow_n(s.den, 1) == s.den,
                pow_n(s.num, 1) == s.num,
                signed(s.neg, s.num) == ratio_int(s),
                s == t,
                rat_eq(rep, t) == (ratio_int(rep) * t.den == ratio_int(t) * rep.den),
        {
        }
        assert(pow_n(s.den, 1) == s.den && pow_n(s.num, 1) == s.num) by {
            lemma_pow1(s.den as int);
            lemma_pow1(s.num as int);
            lemma_pow_n_nonneg(s.den, 1);
            lemma_pow_n_nonneg(s.num, 1);
        }
    } else {
        // the root branch: both parts have exact n-th roots
        let rn = root_of(t.num, n);
        let rd = root_of(t.den, n);
        assert(pow_n(rn, n) == t.num && pow_n(rd, n) == t.den) by {
            assert(is_pow(t.num, n) && is_pow(t.den, n));
        }
        assert(rn >= 1 && rd >= 1) by {
            if rn == 0 {
                lemma0_pow(n);
                lemma_pow_n_nonneg(0, n);
            }
            if rd == 0 {
                lemma0_pow(n);
                lemma_pow_n_nonneg(0, n);
            }
        }
        assert(pow_n(rn, 1) == rn && pow_n(rd, 1) == rd) by {
            lemma_pow1(rn as int);
            lemma_pow1(rd as int);
            lemma_pow_n_nonneg(rn, 1);
            lemma_pow_n_nonneg(rd, 1);
        }
        assert(s == canon(signed(t.neg, rn), rd));
        lemma_canon_wf(signed(t.neg, rn), rd);
        lemma_canon_cross(signed(t.neg, rn), rd);
        lemma_repeat_mul_cross(s, n);
        assert(s.neg == t.neg && s.num >= 1);
        // the cross identity of the canonical root, in magnitudes
        assert(s.num * rd == rn * s.den) by (nonlinear_arith)
            requires
                ratio_int(s) * rd == signed(t.neg, rn) * s.den,
                ratio_int(s) == signed(s.neg, s.num),
                s.neg == t.neg,
        {
        }
        // raise the cross identity to the n-th power
        assert(vstd::arithmetic::power::pow((s.num * rd) as int, n) == vstd::arithmetic::power::pow(
            s.num as int,
            n,
        ) * vstd::arithmetic::power::pow(rd as int, n) && vstd::arithmetic::power::pow(
            (rn * s.den) as int,
            n,
        ) == vstd::arithmetic::power::pow(rn as int, n) * vstd::arithmetic::power::pow(
            s.den as int,
            n,
        )) by {
            vstd::arithmetic::power::lemma_pow_distributes(s.num as int, rd as int, n);
            vstd::arithmetic::power::lemma_pow_distributes(rn as int, s.den as int, n);
        }
        lemma_pow_n_nonneg(s.num, n);
        lemma_pow_n_nonneg(s.den, n);
        lemma_pow_n_nonneg(rn, n);
        lemma_pow_n_nonneg(rd, n);
        assert(pow_n(s.num, n) * t.den == t.num * pow_n(s.den, n)) by (nonlinear_arith)
            requires
                s.num * rd == rn * s.den,
                vstd::arithmetic::power::pow((s.num * rd) as int, n)
                    == vstd::arithmetic::power::pow(s.num as int, n)
                    * vstd::arithmetic::power::pow(rd as int, n),
                vstd::arithmetic::power::pow((rn * s.den) as int, n)
                    == vstd::arithmetic::power::pow(rn as int, n) * vstd::arithmetic::power::pow(
                    s.den as int,
                    n,
                ),
                pow_n(s.num, n) == vstd::arithmetic::power::pow(s.num as int, n),
                pow_n(s.den, n) == vstd::arithmetic::power::pow(s.den as int, n),
                pow_n(rn, n) == vstd::arithmetic::power::pow(rn as int, n),
                pow_n(rd, n) == vstd::arithmetic::power::pow(rd as int, n),
                pow_n(rn, n) == t.num,
                pow_n(rd, n) == t.den,
        {
        }
        // even roots of a negative base are refused, so the sign of
        // the repeated product is the sign of t
        assert((s.neg && n % 2 == 1) == t.neg);
        assert(pow_n(s.den, n) >= 1) by {
            lemma_pow_positive(s.den as int, n);
        }
        assert(rat_eq(rep, t)) by (nonlinear_arith)
            requires
                ratio_int(rep) * pow_n(s.den, n) == signed(t.neg, pow_n(s.num, n)) * rep.den,
                pow_n(s.num, n) * t.den == t.num * pow_n(s.den, n),
                ratio_int(t) == signed(t.neg, t.num),
                pow_n(s.den, n) >= 1,
                t.den >= 1,
                rep.den >= 1,
                rat_eq(rep, t) == (ratio_int(rep) * t.den == ratio_int(t) * rep.den),
        {
        }
    }
}

} // verus!
