//! Trusted helpers over characters and strings: Unicode character
//! classes and string building, each a fixed function of its argument.

use vstd::prelude::*;
use vstd::std_specs::iter::IteratorSpec;

verus! {

/// Whether `char::is_alphabetic` accepts the character.
pub uninterp spec fn alpha_char(c: char) -> bool;

/// Whether `char::is_alphanumeric` accepts the character.
pub uninterp spec fn alnum_char(c: char) -> bool;

/// Whether `char::is_whitespace` accepts the character.
pub uninterp spec fn wspace_char(c: char) -> bool;

/// Relies on `char::is_alphabetic`: a fixed classification.
#[verifier::external_body]
pub fn is_alpha(c: char) -> (r: bool)
    ensures
        r == alpha_char(c),
{
    c.is_alphabetic()
}

/// Relies on `char::is_alphanumeric`: a fixed classification.
#[verifier::external_body]
pub fn is_alnum(c: char) -> (r: bool)
    ensures
        r == alnum_char(c),
{
    c.is_alphanumeric()
}

/// Relies on `char::is_whitespace`: a fixed classification.
#[verifier::external_body]
pub fn is_wspace(c: char) -> (r: bool)
    ensures
        r == wspace_char(c),
{
    c.is_whitespace()
}

/// Relies on `String::push`: appends one character.
#[verifier::external_body]
pub fn push_char(s: &mut String, c: char)
    ensures
        final(s)@ == old(s)@.push(c),
{
    s.push(c)
}

/// The characters of a string slice, in order.
pub fn str_to_chars(s: &str) -> (r: Vec<char>)
    ensures
        r@ == s@,
{
    broadcast use vstd::string::axiom_spec_iter, vstd::string::next_postcondition;

    let mut it = s.chars();
    let mut v: Vec<char> = Vec::new();
    loop
        invariant
            it.obeys_prophetic_iter_laws(),
            it.decrease() is Some,
            v@ + it.remaining() == s@,
        decreases it.decrease()->0,
    {
        match it.next() {
            Some(c) => {
                v.push(c);
            },
            None => {
                proof {
                    assert(v@ + it.remaining() =~= v@);
                }
                return v;
            },
        }
    }
}

} // verus!
