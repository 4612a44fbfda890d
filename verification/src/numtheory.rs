//! Divisibility and greatest common divisors, used to keep rationals in
//! lowest terms.

use vstd::prelude::*;
use vstd::arithmetic::div_mod::{lemma_fundamental_div_mod, lemma_div_multiples_vanish};

verus! {

/// `d` divides `n`.
pub open spec fn divides(d: nat, n: nat) -> bool {
    exists|k: nat| n == #[trigger] (d * k)
}

/// Euclid's greatest common divisor.
pub open spec fn spec_gcd(a: nat, b: nat) -> nat
    decreases b,
{
    if b == 0 {
        a
    } else {
        spec_gcd(b, a % b)
    }
}

/// The gcd of two numbers, not both zero, is positive.
pub proof fn lemma_gcd_pos(a: nat, b: nat)
    requires
        a > 0 || b > 0,
    ensures
        spec_gcd(a, b) > 0,
    decreases b,
{
    if b > 0 {
        lemma_gcd_pos(b, a % b);
    }
}

/// The gcd of two numbers divides both.
pub proof fn lemma_gcd_divides(a: nat, b: nat)
    ensures
        divides(spec_gcd(a, b), a),
        divides(spec_gcd(a, b), b),
    decreases b,
{
    let g = spec_gcd(a, b);
    if b == 0 {
        assert(a == g * 1);
        assert(b == g * 0);
    } else {
        lemma_gcd_divides(b, a % b);
        let k1 = choose|k: nat| b == #[trigger] (g * k);
        let k2 = choose|k: nat| a % b == #[trigger] (g * k);
        lemma_fundamental_div_mod(a as int, b as int);
        let q = a as int / b as int;
        assert(q >= 0) by {
            vstd::arithmetic::div_mod::lemma_div_pos_is_pos(a as int, b as int);
        }
        assert(a == (g * k1) * q + g * k2);
        assert((g * k1) * q + g * k2 == g * (k1 * q + k2)) by (nonlinear_arith);
        assert(a == g * ((k1 * q + k2) as nat));
    }
}

/// Any common divisor of two numbers divides their gcd.
pub proof fn lemma_divisor_divides_gcd(a: nat, b: nat, c: nat)
    requires
        divides(c, a),
        divides(c, b),
    ensures
        divides(c, spec_gcd(a, b)),
    decreases b,
{
    if b != 0 {
        let k1 = choose|k: nat| a == #[trigger] (c * k);
        let k2 = choose|k: nat| b == #[trigger] (c * k);
        if c == 0 {
            assert(b == 0 * k2);
            assert(false);
        }
        lemma_fundamental_div_mod(a as int, b as int);
        let q = a as int / b as int;
        assert(q >= 0) by {
            vstd::arithmetic::div_mod::lemma_div_pos_is_pos(a as int, b as int);
        }
        let w = k1 - q * k2;
        assert(a % b == c * w) by (nonlinear_arith)
            requires
                a == c * k1,
                b == c * k2,
                a == b * q + a % b,
                w == k1 - q * k2,
        {
        }
        assert(c * w >= 0);
        assert(w >= 0) by (nonlinear_arith)
            requires
                c > 0,
                c * w >= 0,
        {
        }
        assert(a % b == c * (w as nat));
        lemma_divisor_divides_gcd(b, (a % b) as nat, c);
    }
}

/// A divisor of a positive number is positive and no larger than it.
pub proof fn lemma_divides_le(d: nat, n: nat)
    requires
        divides(d, n),
        n > 0,
    ensures
        0 < d <= n,
{
    let k = choose|k: nat| n == #[trigger] (d * k);
    assert(d > 0 && k > 0) by (nonlinear_arith)
        requires
            n == d * k,
            n > 0,
    {
    }
    assert(d * k >= d * 1) by (nonlinear_arith)
        requires
            k >= 1,
    {
    }
}

/// Exact division: a divisor goes into its multiple without remainder.
pub proof fn lemma_div_exact(d: nat, n: nat)
    requires
        divides(d, n),
        d > 0,
    ensures
        n == d * (n / d),
{
    let k = choose|k: nat| n == #[trigger] (d * k);
    lemma_div_multiples_vanish(k as int, d as int);
    assert(n as int / d as int == k);
}

/// Dividing two numbers by their gcd leaves them coprime.
pub proof fn lemma_gcd_quotients_coprime(a: nat, b: nat)
    requires
        b > 0,
    ensures
        spec_gcd(a / spec_gcd(a, b), b / spec_gcd(a, b)) == 1,
{
    let g = spec_gcd(a, b);
    lemma_gcd_pos(a, b);
    lemma_gcd_divides(a, b);
    lemma_div_exact(g, a);
    lemma_div_exact(g, b);
    let a1 = a / g;
    let b1 = b / g;
    assert(b1 > 0) by (nonlinear_arith)
        requires
            b == g * b1,
            b > 0,
    {
    }
    let h = spec_gcd(a1, b1);
    lemma_gcd_pos(a1, b1);
    lemma_gcd_divides(a1, b1);
    let a2 = choose|k: nat| a1 == #[trigger] (h * k);
    let b2 = choose|k: nat| b1 == #[trigger] (h * k);
    assert(a == (g * h) * a2 && b == (g * h) * b2) by (nonlinear_arith)
        requires
            a == g * a1,
            b == g * b1,
            a1 == h * a2,
            b1 == h * b2,
    {
    }
    assert(divides((g * h) as nat, a));
    assert(divides((g * h) as nat, b));
    lemma_divisor_divides_gcd(a, b, (g * h) as nat);
    lemma_divides_le((g * h) as nat, g);
    assert(h == 1) by (nonlinear_arith)
        requires
            g * h <= g,
            g > 0,
            h > 0,
    {
    }
}

} // verus!
