//! Output formats: fraction, mixed number, and scientific notation,
//! plus the human-readable texts of undefined results.

use vstd::prelude::*;
use vstd::string::StringExecFns;

use malachite::Natural;
use malachite::base::num::conversion::traits::ToSci;
use crate::bignat::{nat_of, nat_from_u64, nat_div_mod, nat_eq, nat_to_string, dec_str};
use crate::compile::{CompilationError, CompErrV};
use crate::parse::ParseError;
use crate::rational::{Rational, Ratio};
use crate::text::push_char;
use crate::value::{Value, ValView, Undefined};

verus! {

/// How values are printed.
#[derive(Clone, Copy, Debug, PartialEq, Eq, Structural)]
pub enum Format {
    Fraction,
    Mixed,
    Scientific,
}

impl Default for Format {
    /// Scientific is the default format.
    fn default() -> (r: Format)
        ensures
            r == Format::Scientific,
    {
        Format::Scientific
    }
}

/// Reported for an unknown format name.
pub struct BadFormat;

/// ASCII upper-case letters fold to lower case.
pub open spec fn lower_ascii(c: char) -> char {
    if 65 <= c as u32 && c as u32 <= 90 {
        ((c as u32 + 32) as u8) as char
    } else {
        c
    }
}

/// Case-insensitive match against a lower-case word.
pub open spec fn matches_word(s: Seq<char>, w: Seq<char>) -> bool {
    s.len() == w.len() && forall|i: int| 0 <= i < s.len() ==> lower_ascii(#[trigger] s[i]) == w[i]
}

fn lower_ascii_exec(c: char) -> (r: char)
    ensures
        r == lower_ascii(c),
{
    let u = c as u32;
    if 65 <= u && u <= 90 {
        ((u + 32) as u8) as char
    } else {
        c
    }
}

#[verifier::loop_isolation(false)]
fn word_matches(s: &Vec<char>, w: &Vec<char>) -> (r: bool)
    ensures
        r == matches_word(s@, w@),
{
    if s.len() != w.len() {
        return false;
    }
    let mut i: usize = 0;
    loop
        invariant
            i <= s@.len(),
            forall|j: int| 0 <= j < i ==> lower_ascii(#[trigger] s@[j]) == w@[j],
        decreases s@.len() - i,
    {
        if i >= s.len() {
            return true;
        }
        if lower_ascii_exec(s[i]) != w[i] {
            return false;
        }
        i = i + 1;
    }
}

/// Parse a format name, ASCII case folded: `fraction`, `mixed` or
/// `scientific`; anything else is refused.
pub fn parse_format(s: &str) -> (r: Result<Format, BadFormat>)
    ensures
        match r {
            Ok(f) => (f == Format::Fraction && matches_word(s@, "fraction"@)) || (f == Format::Mixed
                && matches_word(s@, "mixed"@)) || (f == Format::Scientific && matches_word(
                s@,
                "scientific"@,
            )),
            Err(_) => !matches_word(s@, "fraction"@) && !matches_word(s@, "mixed"@)
                && !matches_word(s@, "scientific"@),
        },
{
    let cs = crate::text::str_to_chars(s);
    let fraction = crate::text::str_to_chars("fraction");
    let mixed = crate::text::str_to_chars("mixed");
    let scientific = crate::text::str_to_chars("scientific");
    if word_matches(&cs, &fraction) {
        Ok(Format::Fraction)
    } else if word_matches(&cs, &mixed) {
        Ok(Format::Mixed)
    } else if word_matches(&cs, &scientific) {
        Ok(Format::Scientific)
    } else {
        Err(BadFormat)
    }
}

/// The text of an undefined result.
pub open spec fn undefined_message(u: Undefined) -> Seq<char> {
    match u {
        Undefined::ZeroOverZero => "Undefined result: zero divided by zero"@,
        Undefined::Infinity => "Undefined result: possibly infinite"@,
        Undefined::Irrational => "Undefined result: possibly irrational"@,
        Undefined::InfiniteLoop => "Undefined result: infinite loop detected"@,
    }
}

/// The human-readable text of an undefined result.
pub fn undefined_text(u: &Undefined) -> (r: String)
    ensures
        r@ == undefined_message(*u),
{
    match u {
        Undefined::ZeroOverZero => <String as StringExecFns>::from_str(
            "Undefined result: zero divided by zero",
        ),
        Undefined::Infinity => <String as StringExecFns>::from_str(
            "Undefined result: possibly infinite",
        ),
        Undefined::Irrational => <String as StringExecFns>::from_str(
            "Undefined result: possibly irrational",
        ),
        Undefined::InfiniteLoop => <String as StringExecFns>::from_str(
            "Undefined result: infinite loop detected",
        ),
    }
}

/// A rational as `p/q`, or plain `p` for whole numbers, with its sign.
pub open spec fn fraction_text(r: Ratio) -> Seq<char> {
    let mag = if r.den == 1 {
        dec_str(r.num)
    } else {
        dec_str(r.num) + seq!['/'] + dec_str(r.den)
    };
    if r.neg {
        seq!['-'] + mag
    } else {
        mag
    }
}

/// Print a rational as a fraction in lowest terms.
pub fn fraction_string(v: &Rational) -> (r: String)
    requires
        v.wf(),
    ensures
        r@ == fraction_text(v@),
{
    let mut out = String::new();
    if v.is_neg() {
        push_char(&mut out, '-');
    }
    let num_s = nat_to_string(v.num_ref());
    let mut out = out.concat(num_s.as_str());
    let one = nat_from_u64(1);
    if !nat_eq(v.den_ref(), &one) {
        push_char(&mut out, '/');
        let den_s = nat_to_string(v.den_ref());
        out = out.concat(den_s.as_str());
        proof {
            assert(out@ =~= fraction_text(v@));
        }
        out
    } else {
        proof {
            assert(out@ =~= fraction_text(v@));
        }
        out
    }
}

/// A rational as its truncated whole part plus or minus the proper
/// fractional remainder; just the remainder when the whole part is
/// zero, and just the whole number when exact.
pub open spec fn mixed_text(r: Ratio) -> Seq<char> {
    let q = r.num / r.den;
    let m = r.num % r.den;
    if q == 0 {
        fraction_text(r)
    } else {
        let whole = if r.neg {
            seq!['-'] + dec_str(q)
        } else {
            dec_str(q)
        };
        if m == 0 {
            whole
        } else {
            let sep = if r.neg {
                " - "@
            } else {
                " + "@
            };
            whole + sep + fraction_text(Ratio { neg: false, num: m, den: r.den })
        }
    }
}

/// Print a rational as a mixed number.
pub fn mixed_string(v: &Rational) -> (r: String)
    requires
        v.wf(),
    ensures
        r@ == mixed_text(v@),
{
    let (q, m) = nat_div_mod(v.num_ref(), v.den_ref());
    let zero = nat_from_u64(0);
    if nat_eq(&q, &zero) {
        return fraction_string(v);
    }
    let mut out = String::new();
    if v.is_neg() {
        push_char(&mut out, '-');
    }
    let q_s = nat_to_string(&q);
    let mut out = out.concat(q_s.as_str());
    if nat_eq(&m, &zero) {
        proof {
            assert(out@ =~= mixed_text(v@));
        }
        return out;
    }
    if v.is_neg() {
        out = out.concat(" - ");
    } else {
        out = out.concat(" + ");
    }
    let m_s = nat_to_string(&m);
    let mut out = out.concat(m_s.as_str());
    push_char(&mut out, '/');
    let den_s = nat_to_string(v.den_ref());
    let out = out.concat(den_s.as_str());
    proof {
        assert(fraction_text(Ratio { neg: false, num: v@.num % v@.den, den: v@.den }) =~= dec_str(
            v@.num % v@.den,
        ) + seq!['/'] + dec_str(v@.den));
        assert(out@ =~= mixed_text(v@));
    }
    out
}

/// The scientific-notation text of a rational; it depends on the sign,
/// numerator and denominator alone.
pub uninterp spec fn sci_text(neg: bool, num: nat, den: nat) -> Seq<char>;

/// Relies on malachite's `Rational::to_sci`: decimal (possibly
/// rounded) scientific notation, a fixed function of the value.
#[verifier::external_body]
fn sci_string(neg: bool, num: &Natural, den: &Natural) -> (r: String)
    requires
        nat_of(*den) != 0,
    ensures
        r@ == sci_text(neg, nat_of(*num), nat_of(*den)),
{
    let q = malachite::Rational::from_sign_and_naturals(!neg, num.clone(), den.clone());
    q.to_sci().to_string()
}

/// The printed form of a value in a format.
pub open spec fn value_text(f: Format, v: ValView) -> Seq<char> {
    match v {
        ValView::Undef(u) => undefined_message(u),
        ValView::Num(r) => match f {
            Format::Fraction => fraction_text(r),
            Format::Mixed => mixed_text(r),
            Format::Scientific => sci_text(r.neg, r.num, r.den),
        },
    }
}

/// Print a value in the chosen format.
pub fn format_value(f: Format, v: &Value) -> (r: String)
    requires
        v.wf(),
    ensures
        r@ == value_text(f, v@),
{
    match v {
        Value::Undefined(u) => undefined_text(u),
        Value::Number(n) => match f {
            Format::Fraction => fraction_string(n),
            Format::Mixed => mixed_string(n),
            Format::Scientific => sci_string(n.is_neg(), n.num_ref(), n.den_ref()),
        },
    }
}

/// The text of a parse failure: the first character past the longest
/// parsable prefix, quoted plainly.
pub open spec fn parse_error_message(e: ParseError) -> Seq<char> {
    match e {
        ParseError::Incomplete(c) => "Unexpected character: '"@ + seq![c] + seq!['\''],
    }
}

/// The human-readable text of a parse failure.
pub fn parse_error_text(e: &ParseError) -> (r: String)
    ensures
        r@ == parse_error_message(*e),
{
    match e {
        ParseError::Incomplete(c) => {
            let mut out = <String as StringExecFns>::from_str("Unexpected character: '");
            push_char(&mut out, *c);
            push_char(&mut out, '\'');
            proof {
                assert(out@ =~= parse_error_message(*e));
            }
            out
        },
    }
}

/// The text of each compilation failure; names are quoted plainly
/// where the message sets them off.
pub open spec fn compile_error_message(e: CompErrV) -> Seq<char> {
    match e {
        CompErrV::ConstantNotFound(n) => "constant not found: "@ + n,
        CompErrV::FunctionNotFound(n) => "function not found: "@ + n,
        CompErrV::ConstantNotFunction(n) => n + " is a constant, not a function"@,
        CompErrV::FunctionNotConstant(n) => n + " is a function, not a constant"@,
        CompErrV::DuplicateDeclaration(n) => "constant or function \""@ + n
            + "\" declared more than once"@,
        CompErrV::BadEquation => "bad equation"@,
        CompErrV::BadParameter => "function parameter must be an identifier"@,
        CompErrV::ParamShadowsGlobal(n) => "parameter \""@ + n
            + "\" shadows a global constant or function"@,
        CompErrV::DuplicateParameter(n) => "parameter \""@ + n + "\" declared more than once"@,
        CompErrV::WrongNArgs(n, got, want) => "function \""@ + n + "\" got "@ + dec_str(got)
            + " argument(s) instead of "@ + dec_str(want),
    }
}

/// A machine word in decimal.
fn usize_string(n: usize) -> (r: String)
    ensures
        r@ == dec_str(n as nat),
{
    let v = nat_from_u64(n as u64);
    nat_to_string(&v)
}

/// The human-readable text of a compilation failure.
pub fn compile_error_text(e: &CompilationError) -> (r: String)
    ensures
        r@ == compile_error_message(e@),
{
    match e {
        CompilationError::ConstantNotFound(n) => {
            let out = <String as StringExecFns>::from_str("constant not found: ").concat(
                n.as_str(),
            );
            proof {
                assert(out@ =~= compile_error_message(e@));
            }
            out
        },
        CompilationError::FunctionNotFound(n) => {
            let out = <String as StringExecFns>::from_str("function not found: ").concat(
                n.as_str(),
            );
            proof {
                assert(out@ =~= compile_error_message(e@));
            }
            out
        },
        CompilationError::ConstantNotFunction(n) => {
            let out = n.clone().concat(" is a constant, not a function");
            proof {
                assert(out@ =~= compile_error_message(e@));
            }
            out
        },
        CompilationError::FunctionNotConstant(n) => {
            let out = n.clone().concat(" is a function, not a constant");
            proof {
                assert(out@ =~= compile_error_message(e@));
            }
            out
        },
        CompilationError::DuplicateDeclaration(n) => {
            let out = <String as StringExecFns>::from_str("constant or function \"").concat(
                n.as_str(),
            ).concat("\" declared more than once");
            proof {
                assert(out@ =~= compile_error_message(e@));
            }
            out
        },
        CompilationError::BadEquation => <String as StringExecFns>::from_str("bad equation"),
        CompilationError::BadParameter => <String as StringExecFns>::from_str(
            "function parameter must be an identifier",
        ),
        CompilationError::ParamShadowsGlobal(n) => {
            let out = <String as StringExecFns>::from_str("parameter \"").concat(
                n.as_str(),
            ).concat("\" shadows a global constant or function");
            proof {
                assert(out@ =~= compile_error_message(e@));
            }
            out
        },
        CompilationError::DuplicateParameter(n) => {
            let out = <String as StringExecFns>::from_str("parameter \"").concat(
                n.as_str(),
            ).concat("\" declared more than once");
            proof {
                assert(out@ =~= compile_error_message(e@));
            }
            out
        },
        CompilationError::WrongNArgs(n, got, want) => {
            let got_s = usize_string(*got);
            let want_s = usize_string(*want);
            let out = <String as StringExecFns>::from_str("function \"").concat(n.as_str()).concat(
                "\" got ",
            ).concat(got_s.as_str()).concat(" argument(s) instead of ").concat(want_s.as_str());
            proof {
                assert(out@ =~= compile_error_message(e@));
            }
            out
        },
    }
}

/// The text that rejects an unknown format name.
pub fn bad_format_text(_e: &BadFormat) -> (r: String)
    ensures
        r@ == "invalid format (it should be \"fraction\", \"mixed\" or \"scientific\")"@,
{
    <String as StringExecFns>::from_str(
        "invalid format (it should be \"fraction\", \"mixed\" or \"scientific\")",
    )
}

} // verus!
