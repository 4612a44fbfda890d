//! Trusted interface to malachite's unbounded `Natural` integers.
//!
//! `nat_of` names the number that a `Natural` holds. Every wrapper below
//! states what the corresponding malachite operation returns in terms of
//! `nat_of` alone.

use vstd::prelude::*;

use malachite::Natural;
use malachite::base::num::arithmetic::traits::{DivMod, Gcd, Parity, Pow};

verus! {

#[verifier::external_type_specification]
#[verifier::external_body]
pub struct ExNatural(Natural);

/// The number that a `Natural` holds.
pub uninterp spec fn nat_of(n: Natural) -> nat;

/// Relies on `Natural: From<u64>`: exact conversion.
#[verifier::external_body]
pub fn nat_from_u64(x: u64) -> (r: Natural)
    ensures
        nat_of(r) == x,
{
    Natural::from(x)
}

/// Relies on `u64: TryFrom<&Natural>`: `Ok` exactly when the value fits.
#[verifier::external_body]
pub fn nat_to_u64(n: &Natural) -> (r: Option<u64>)
    ensures
        match r {
            Some(v) => nat_of(*n) == v,
            None => nat_of(*n) > u64::MAX,
        },
{
    u64::try_from(n).ok()
}

/// Relies on `Natural: Clone`: the copy denotes the same number.
#[verifier::external_body]
pub fn nat_clone(n: &Natural) -> (r: Natural)
    ensures
        nat_of(r) == nat_of(*n),
{
    n.clone()
}

/// Relies on `Add for &Natural`: exact sum.
#[verifier::external_body]
pub fn nat_add(a: &Natural, b: &Natural) -> (r: Natural)
    ensures
        nat_of(r) == nat_of(*a) + nat_of(*b),
{
    a + b
}

/// Relies on `Sub for &Natural`: exact difference; underflow panics,
/// so the smaller operand must be on the right.
#[verifier::external_body]
pub fn nat_sub(a: &Natural, b: &Natural) -> (r: Natural)
    requires
        nat_of(*b) <= nat_of(*a),
    ensures
        nat_of(r) == nat_of(*a) - nat_of(*b),
{
    a - b
}

/// Relies on `Mul for &Natural`: exact product.
#[verifier::external_body]
pub fn nat_mul(a: &Natural, b: &Natural) -> (r: Natural)
    ensures
        nat_of(r) == nat_of(*a) * nat_of(*b),
{
    a * b
}

/// Relies on `DivMod for &Natural`: floor division with remainder.
#[verifier::external_body]
pub fn nat_div_mod(a: &Natural, b: &Natural) -> (r: (Natural, Natural))
    requires
        nat_of(*b) != 0,
    ensures
        nat_of(r.0) == nat_of(*a) / nat_of(*b),
        nat_of(r.1) == nat_of(*a) % nat_of(*b),
{
    a.div_mod(b)
}

/// Relies on `Gcd for &Natural`: the greatest common divisor, which
/// Euclid's recursion computes.
#[verifier::external_body]
pub fn nat_gcd(a: &Natural, b: &Natural) -> (r: Natural)
    ensures
        nat_of(r) == crate::numtheory::spec_gcd(nat_of(*a), nat_of(*b)),
{
    a.gcd(b)
}

/// Relies on `Pow<u64> for &Natural`: the exact power.
#[verifier::external_body]
pub fn nat_pow_u64(b: &Natural, e: u64) -> (r: Natural)
    ensures
        nat_of(r) == vstd::arithmetic::power::pow(nat_of(*b) as int, e as nat),
{
    Pow::pow(b, e)
}

/// Relies on `PartialEq for Natural`: equality of the denoted numbers.
#[verifier::external_body]
pub fn nat_eq(a: &Natural, b: &Natural) -> (r: bool)
    ensures
        r == (nat_of(*a) == nat_of(*b)),
{
    a == b
}

/// Relies on `Ord for Natural`: order of the denoted numbers.
#[verifier::external_body]
pub fn nat_lt(a: &Natural, b: &Natural) -> (r: bool)
    ensures
        r == (nat_of(*a) < nat_of(*b)),
{
    a < b
}

/// Relies on `Parity for &Natural`: whether the number is odd.
#[verifier::external_body]
pub fn nat_odd(n: &Natural) -> (r: bool)
    ensures
        r == (nat_of(*n) % 2 == 1),
{
    n.odd()
}

/// The decimal digit characters of a number, most significant first.
pub open spec fn dec_str(n: nat) -> Seq<char>
    decreases n,
{
    if n < 10 {
        seq![digit_char(n)]
    } else {
        dec_str(n / 10).push(digit_char(n % 10))
    }
}

/// The character for a single decimal digit.
pub open spec fn digit_char(d: nat) -> char {
    if d == 0 {
        '0'
    } else if d == 1 {
        '1'
    } else if d == 2 {
        '2'
    } else if d == 3 {
        '3'
    } else if d == 4 {
        '4'
    } else if d == 5 {
        '5'
    } else if d == 6 {
        '6'
    } else if d == 7 {
        '7'
    } else if d == 8 {
        '8'
    } else {
        '9'
    }
}

/// Relies on `Display for Natural`: the plain decimal representation.
#[verifier::external_body]
pub fn nat_to_string(n: &Natural) -> (r: String)
    ensures
        r@ == dec_str(nat_of(*n)),
{
    n.to_string()
}

} // verus!
