//! Canonical rendering of parsed programs back to source text.
//!
//! Every composite expression is parenthesized, so the rendering is an
//! atom of the grammar and re-parses without precedence surprises.
//! A number literal renders as a decimal whenever its denominator has
//! only twos and fives as factors - which holds for every number the
//! parser itself produces, so rendering a parsed program and parsing
//! the text again gives the same tree back; any other ratio falls back
//! to a parenthesized quotient, which re-parses as a division.

use vstd::prelude::*;
use vstd::string::StringExecFns;

use malachite::Natural;
use crate::bignat::{
    nat_of, nat_from_u64, nat_to_u64, nat_clone, nat_mul, nat_div_mod, nat_eq, nat_to_string,
    dec_str, digit_char,
};
use crate::parse::{Expression, Ast, Statement, StmtView, Code, ast_of, asts_of, ast_wf,
    stmt_ast_wf};
use crate::pow::{pow_n, nat_pow, lemma_pow_n_nonneg};
use crate::rational::{Rational, Ratio};
use crate::text::push_char;

verus! {

broadcast use vstd::std_specs::vec::axiom_vec_index_decreases, vstd::std_specs::vec::axiom_vec_decreases_to_view;

/// Strip factors `p` out of `n`, at most `fuel` of them: the count
/// stripped and what is left. The callers pass a machine-word budget,
/// which no representable number can exhaust.
pub open spec fn strip(n: nat, p: nat, fuel: nat) -> (nat, nat)
    decreases fuel,
{
    if p <= 1 || n == 0 || fuel == 0 {
        (0, n)
    } else if n % p == 0 && n / p < n {
        let (c, r) = strip(n / p, p, (fuel - 1) as nat);
        ((c + 1) as nat, r)
    } else {
        (0, n)
    }
}

/// What `strip` takes apart multiplies back together.
proof fn lemma_strip_product(n: nat, p: nat, fuel: nat)
    requires
        n >= 1,
        p >= 2,
    ensures
        n == pow_n(p, strip(n, p, fuel).0) * strip(n, p, fuel).1,
        strip(n, p, fuel).1 >= 1,
    decreases fuel,
{
    lemma_pow_n_nonneg(p, strip(n, p, fuel).0);
    if fuel > 0 && n % p == 0 && n / p < n {
        vstd::arithmetic::div_mod::lemma_fundamental_div_mod(n as int, p as int);
        assert(n / p >= 1) by (nonlinear_arith)
            requires
                n >= 1,
                p >= 2,
                n == p * (n / p) + n % p,
                n % p == 0,
        {
        }
        lemma_strip_product(n / p, p, (fuel - 1) as nat);
        let (c, r) = strip(n / p, p, (fuel - 1) as nat);
        assert(pow_n(p, (c + 1) as nat) == p * pow_n(p, c)) by {
            reveal(vstd::arithmetic::power::pow);
            lemma_pow_n_nonneg(p, c);
            lemma_pow_n_nonneg(p, (c + 1) as nat);
        }
        assert(n == pow_n(p, (c + 1) as nat) * r) by (nonlinear_arith)
            requires
                n == p * (n / p),
                n / p == pow_n(p, c) * r,
                pow_n(p, (c + 1) as nat) == p * pow_n(p, c),
        {
        }
    } else {
        assert(pow_n(p, 0) == 1) by {
            vstd::arithmetic::power::lemma_pow0(p as int);
            lemma_pow_n_nonneg(p, 0);
        }
        assert(n == 1 * n) by (nonlinear_arith);
    }
}

/// Exactly `k` zero-padded decimal digits of `m`, most significant
/// first.
pub open spec fn frac_digits(m: nat, k: nat) -> Seq<char> {
    Seq::new(k, |j: int| digit_char((m / pow_n(10, (k - 1 - j) as nat)) % 10))
}

/// The canonical text of a number literal's magnitude: plain digits
/// for a whole number, a decimal where the denominator holds only
/// twos and fives, a parenthesized quotient otherwise.
pub open spec fn number_text(r: Ratio) -> Seq<char> {
    let a = strip(r.den, 2, u64::MAX as nat).0;
    let b = strip(strip(r.den, 2, u64::MAX as nat).1, 5, u64::MAX as nat).0;
    let rest = strip(strip(r.den, 2, u64::MAX as nat).1, 5, u64::MAX as nat).1;
    let k = if a >= b {
        a
    } else {
        b
    };
    if rest == 1 {
        if k == 0 {
            dec_str(r.num)
        } else {
            let scaled = r.num * (pow_n(10, k) / r.den);
            dec_str(scaled / pow_n(10, k)) + seq!['.'] + frac_digits(scaled % pow_n(10, k), k)
        }
    } else {
        seq!['('] + dec_str(r.num) + seq!['/'] + dec_str(r.den) + seq![')']
    }
}

/// A denominator of the form `2^a * 5^b` divides `10^k` for
/// `k == max(a, b)`.
proof fn lemma_den_divides_pow10(den: nat, a: nat, b: nat, k: nat)
    requires
        den == pow_n(2, a) * pow_n(5, b),
        k == if a >= b {
            a
        } else {
            b
        },
    ensures
        den >= 1,
        pow_n(10, k) % den == 0,
{
    lemma_pow_n_nonneg(2, a);
    lemma_pow_n_nonneg(5, b);
    lemma_pow_n_nonneg(10, k);
    lemma_pow_n_nonneg(2, k);
    lemma_pow_n_nonneg(5, k);
    lemma_pow_n_nonneg(2, (k - a) as nat);
    lemma_pow_n_nonneg(5, (k - b) as nat);
    assert(den >= 1) by (nonlinear_arith)
        requires
            den == pow_n(2, a) * pow_n(5, b),
            pow_n(2, a) >= 1,
            pow_n(5, b) >= 1,
    {
    }
    vstd::arithmetic::power::lemma_pow_distributes(2int, 5int, k);
    vstd::arithmetic::power::lemma_pow_adds(2int, a, (k - a) as nat);
    vstd::arithmetic::power::lemma_pow_adds(5int, b, (k - b) as nat);
    let cof = (pow_n(2, (k - a) as nat) * pow_n(5, (k - b) as nat)) as nat;
    assert(pow_n(10, k) == den * cof) by (nonlinear_arith)
        requires
            vstd::arithmetic::power::pow(10int, k) == vstd::arithmetic::power::pow(2int, k)
                * vstd::arithmetic::power::pow(5int, k),
            vstd::arithmetic::power::pow(2int, k) == vstd::arithmetic::power::pow(2int, a)
                * vstd::arithmetic::power::pow(2int, (k - a) as nat),
            vstd::arithmetic::power::pow(5int, k) == vstd::arithmetic::power::pow(5int, b)
                * vstd::arithmetic::power::pow(5int, (k - b) as nat),
            pow_n(10, k) == vstd::arithmetic::power::pow(10int, k),
            pow_n(2, a) == vstd::arithmetic::power::pow(2int, a),
            pow_n(5, b) == vstd::arithmetic::power::pow(5int, b),
            pow_n(2, k) == vstd::arithmetic::power::pow(2int, k),
            pow_n(5, k) == vstd::arithmetic::power::pow(5int, k),
            pow_n(2, (k - a) as nat) == vstd::arithmetic::power::pow(2int, (k - a) as nat),
            pow_n(5, (k - b) as nat) == vstd::arithmetic::power::pow(5int, (k - b) as nat),
            cof == pow_n(2, (k - a) as nat) * pow_n(5, (k - b) as nat),
            den == pow_n(2, a) * pow_n(5, b),
            a <= k,
            b <= k,
    {
    }
    crate::numtheory::lemma_div_exact(den, pow_n(10, k));
    vstd::arithmetic::div_mod::lemma_fundamental_div_mod(pow_n(10, k) as int, den as int);
    assert(pow_n(10, k) % den == 0) by (nonlinear_arith)
        requires
            pow_n(10, k) == den * cof,
            den >= 1,
            pow_n(10, k) == den * ((pow_n(10, k) as int / den as int)) + (pow_n(10, k) as int
                % den as int),
            0 <= (pow_n(10, k) as int % den as int) < den,
    {
    }
}

/// One decimal digit as a character.
fn digit_char_exec(d: u64) -> (r: char)
    requires
        d < 10,
    ensures
        r == digit_char(d as nat),
{
    if d == 0 {
        '0'
    } else if d == 1 {
        '1'
    } else if d == 2 {
        '2'
    } else if d == 3 {
        '3'
    } else if d == 4 {
        '4'
    } else if d == 5 {
        '5'
    } else if d == 6 {
        '6'
    } else if d == 7 {
        '7'
    } else if d == 8 {
        '8'
    } else {
        '9'
    }
}

/// Strip factors `p` out of a natural, counting, within the
/// machine-word budget.
#[verifier::loop_isolation(false)]
fn strip_factor(n: &Natural, p: u64) -> (r: (u64, Natural))
    requires
        nat_of(*n) >= 1,
        p >= 2,
    ensures
        r.0 == strip(nat_of(*n), p as nat, u64::MAX as nat).0,
        nat_of(r.1) == strip(nat_of(*n), p as nat, u64::MAX as nat).1,
{
    let pn = nat_from_u64(p);
    let zero = nat_from_u64(0);
    let mut cur = nat_clone(n);
    let mut c: u64 = 0;
    loop
        invariant
            nat_of(cur) >= 1,
            nat_of(pn) == p,
            strip(nat_of(*n), p as nat, u64::MAX as nat).0 == c + strip(
                nat_of(cur),
                p as nat,
                (u64::MAX - c) as nat,
            ).0,
            strip(nat_of(*n), p as nat, u64::MAX as nat).1 == strip(
                nat_of(cur),
                p as nat,
                (u64::MAX - c) as nat,
            ).1,
        decreases nat_of(cur),
    {
        if c == u64::MAX {
            return (c, cur);
        }
        let (q, m) = nat_div_mod(&cur, &pn);
        if nat_eq(&m, &zero) && !nat_eq(&q, &cur) {
            proof {
                vstd::arithmetic::div_mod::lemma_fundamental_div_mod(
                    nat_of(cur) as int,
                    p as int,
                );
                assert(nat_of(q) >= 1) by (nonlinear_arith)
                    requires
                        nat_of(q) == nat_of(cur) / (p as nat),
                        nat_of(cur) % (p as nat) == 0,
                        nat_of(cur) >= 1,
                        p >= 2,
                        nat_of(cur) as int == p * (nat_of(cur) as int / p as int) + nat_of(
                            cur,
                        ) as int % p as int,
                {
                }
            }
            c = c + 1;
            cur = q;
        } else {
            return (c, cur);
        }
    }
}

/// Exactly `k` zero-padded decimal digits of `m`, most significant
/// first.
#[verifier::loop_isolation(false)]
fn render_frac_digits(m: &Natural, k: u64) -> (r: String)
    ensures
        r@ == frac_digits(nat_of(*m), k as nat),
{
    let ten = nat_from_u64(10);
    let mut out = String::new();
    let mut j: u64 = 0;
    loop
        invariant
            j <= k,
            nat_of(ten) == 10,
            out@ =~= frac_digits(nat_of(*m), k as nat).take(j as int),
        decreases k - j,
    {
        if j >= k {
            proof {
                assert(frac_digits(nat_of(*m), k as nat).take(k as int) =~= frac_digits(
                    nat_of(*m),
                    k as nat,
                ));
            }
            return out;
        }
        let e = nat_from_u64(k - 1 - j);
        let p = nat_pow(&ten, &e);
        proof {
            lemma_pow_n_nonneg(10, (k - 1 - j) as nat);
        }
        let (q, _r1) = nat_div_mod(m, &p);
        let (_q2, d) = nat_div_mod(&q, &ten);
        let dv = match nat_to_u64(&d) {
            Some(x) => x,
            None => vstd::pervasive::unreached(),
        };
        push_char(&mut out, digit_char_exec(dv));
        proof {
            assert(frac_digits(nat_of(*m), k as nat).take(j + 1) =~= frac_digits(
                nat_of(*m),
                k as nat,
            ).take(j as int).push(frac_digits(nat_of(*m), k as nat)[j as int]));
        }
        j = j + 1;
    }
}

/// Render a number literal's magnitude, exactly as `number_text`.
pub fn render_number(v: &Rational) -> (r: String)
    requires
        v.wf(),
    ensures
        r@ == number_text(v@),
{
    let (a, r2) = strip_factor(v.den_ref(), 2);
    proof {
        lemma_strip_product(v@.den, 2, u64::MAX as nat);
    }
    let (b, rest) = strip_factor(&r2, 5);
    proof {
        lemma_strip_product(strip(v@.den, 2, u64::MAX as nat).1, 5, u64::MAX as nat);
    }
    let one = nat_from_u64(1);
    let k = if a >= b {
        a
    } else {
        b
    };
    if !nat_eq(&rest, &one) {
        let out = <String as StringExecFns>::from_str("(").concat(
            nat_to_string(v.num_ref()).as_str(),
        ).concat("/").concat(nat_to_string(v.den_ref()).as_str()).concat(")");
        proof {
            reveal_strlit("(");
            reveal_strlit("/");
            reveal_strlit(")");
            assert(out@ =~= number_text(v@));
        }
        return out;
    }
    if k == 0 {
        return nat_to_string(v.num_ref());
    }
    proof {
        assert(v@.den == pow_n(2, a as nat) * pow_n(5, b as nat)) by (nonlinear_arith)
            requires
                v@.den == pow_n(2, a as nat) * strip(v@.den, 2, u64::MAX as nat).1,
                strip(v@.den, 2, u64::MAX as nat).1 == pow_n(5, b as nat) * 1,
        {
        }
        lemma_den_divides_pow10(v@.den, a as nat, b as nat, k as nat);
    }
    let ten = nat_from_u64(10);
    let k_nat = nat_from_u64(k);
    let p10 = nat_pow(&ten, &k_nat);
    proof {
        lemma_pow_n_nonneg(10, k as nat);
    }
    let (t, _rem) = nat_div_mod(&p10, v.den_ref());
    let scaled = nat_mul(v.num_ref(), &t);
    let (int_part, frac_part) = nat_div_mod(&scaled, &p10);
    let mut out = nat_to_string(&int_part);
    push_char(&mut out, '.');
    let frac_s = render_frac_digits(&frac_part, k);
    let out = out.concat(frac_s.as_str());
    proof {
        assert(out@ =~= number_text(v@));
    }
    out
}

/// The canonical rendering of an expression: numbers and names plain,
/// every composite parenthesized, so the text re-parses as one atom.
pub open spec fn s_render(a: Ast) -> Seq<char>
    decreases a, 1int, 0int,
{
    match a {
        Ast::Number(r) => {
            if r.neg {
                seq!['(', '-'] + number_text(r) + seq![')']
            } else {
                number_text(r)
            }
        },
        Ast::Identifier(n) => n,
        Ast::Pos(x) => seq!['(', '+'] + s_render(*x) + seq![')'],
        Ast::Neg(x) => seq!['(', '-'] + s_render(*x) + seq![')'],
        Ast::Add(x, y) => seq!['('] + s_render(*x) + seq!['+'] + s_render(*y) + seq![')'],
        Ast::Sub(x, y) => seq!['('] + s_render(*x) + seq!['-'] + s_render(*y) + seq![')'],
        Ast::Mul(x, y) => seq!['('] + s_render(*x) + seq!['*'] + s_render(*y) + seq![')'],
        Ast::Div(x, y) => seq!['('] + s_render(*x) + seq!['/'] + s_render(*y) + seq![')'],
        Ast::Pow(x, y) => seq!['('] + s_render(*x) + seq!['^'] + s_render(*y) + seq![')'],
        Ast::Call(n, args) => n + seq!['('] + rendered_args(args, args.len()) + seq![')'],
    }
}

/// The first `i` arguments rendered, each but the last followed by a
/// comma.
pub open spec fn rendered_args(args: Seq<Ast>, i: nat) -> Seq<char>
    decreases args, 0int, i,
{
    if i == 0 || i > args.len() {
        Seq::empty()
    } else {
        rendered_args(args, (i - 1) as nat) + s_render(args[i - 1]) + (if i < args.len() {
            seq![',']
        } else {
            Seq::empty()
        })
    }
}

/// The first `i` expressions of a statement rendered, joined by `=`.
pub open spec fn rendered_eq(xs: Seq<Ast>, i: nat) -> Seq<char>
    decreases i,
{
    if i == 0 || i > xs.len() {
        Seq::empty()
    } else {
        rendered_eq(xs, (i - 1) as nat) + s_render(xs[i - 1]) + (if i < xs.len() {
            seq!['=']
        } else {
            Seq::empty()
        })
    }
}

/// One statement rendered: its expressions joined by `=`.
pub open spec fn s_render_stmt(st: StmtView) -> Seq<char> {
    match st {
        StmtView::Evaluate(e) => s_render(e),
        StmtView::Assign(xs) => rendered_eq(xs, xs.len()),
    }
}

/// The first `i` statements rendered, one per line.
pub open spec fn rendered_code(stmts: Seq<StmtView>, i: nat) -> Seq<char>
    decreases i,
{
    if i == 0 || i > stmts.len() {
        Seq::empty()
    } else {
        rendered_code(stmts, (i - 1) as nat) + s_render_stmt(stmts[i - 1]) + (if i < stmts.len() {
            seq!['\n']
        } else {
            Seq::empty()
        })
    }
}

/// Render one expression, exactly as `s_render`.
#[verifier::loop_isolation(false)]
#[verifier::rlimit(50)]
pub fn render_expression(e: &Expression) -> (r: String)
    requires
        ast_wf(ast_of(*e)),
    ensures
        r@ == s_render(ast_of(*e)),
    decreases e,
{
    proof {
        reveal_strlit("(");
        reveal_strlit(")");
        reveal_strlit("(-");
        reveal_strlit("(+");
        reveal_strlit("+");
        reveal_strlit("-");
        reveal_strlit("*");
        reveal_strlit("/");
        reveal_strlit("^");
    }
    match e {
        Expression::Number(v) => {
            let mag = render_number(v);
            if v.is_neg() {
                let out = <String as StringExecFns>::from_str("(-").concat(mag.as_str()).concat(
                    ")",
                );
                proof {
                    assert(out@ =~= s_render(ast_of(*e)));
                }
                out
            } else {
                mag
            }
        },
        Expression::Identifier(n) => n.clone(),
        Expression::Pos(x) => {
            let out = <String as StringExecFns>::from_str("(+").concat(
                render_expression(x).as_str(),
            ).concat(")");
            proof {
                assert(out@ =~= s_render(ast_of(*e)));
            }
            out
        },
        Expression::Neg(x) => {
            let out = <String as StringExecFns>::from_str("(-").concat(
                render_expression(x).as_str(),
            ).concat(")");
            proof {
                assert(out@ =~= s_render(ast_of(*e)));
            }
            out
        },
        Expression::Add(x, y) => {
            let out = <String as StringExecFns>::from_str("(").concat(
                render_expression(x).as_str(),
            ).concat("+").concat(render_expression(y).as_str()).concat(")");
            proof {
                assert(out@ =~= s_render(ast_of(*e)));
            }
            out
        },
        Expression::Sub(x, y) => {
            let out = <String as StringExecFns>::from_str("(").concat(
                render_expression(x).as_str(),
            ).concat("-").concat(render_expression(y).as_str()).concat(")");
            proof {
                assert(out@ =~= s_render(ast_of(*e)));
            }
            out
        },
        Expression::Mul(x, y) => {
            let out = <String as StringExecFns>::from_str("(").concat(
                render_expression(x).as_str(),
            ).concat("*").concat(render_expression(y).as_str()).concat(")");
            proof {
                assert(out@ =~= s_render(ast_of(*e)));
            }
            out
        },
        Expression::Div(x, y) => {
            let out = <String as StringExecFns>::from_str("(").concat(
                render_expression(x).as_str(),
            ).concat("/").concat(render_expression(y).as_str()).concat(")");
            proof {
                assert(out@ =~= s_render(ast_of(*e)));
            }
            out
        },
        Expression::Pow(x, y) => {
            let out = <String as StringExecFns>::from_str("(").concat(
                render_expression(x).as_str(),
            ).concat("^").concat(render_expression(y).as_str()).concat(")");
            proof {
                assert(out@ =~= s_render(ast_of(*e)));
            }
            out
        },
        Expression::Call(n, args) => {
            proof {
                crate::parse::lemma_call_view(*n, *args);
            }
            let ghost sargs = asts_of(args@);
            let mut out = n.clone().concat("(");
            let mut i: usize = 0;
            loop
                invariant
                    i <= args@.len(),
                    out@ =~= ast_of(*e)->Call_0 + seq!['('] + rendered_args(sargs, i as nat),
                decreases args@.len() - i,
            {
                if i >= args.len() {
                    break ;
                }
                proof {
                    assert(decreases_to!(*e => (*e)->Call_1));
                    assert((*e)->Call_1 == *args);
                    assert(decreases_to!(*args => args[i as int]));
                    assert(sargs[i as int] == ast_of(args@[i as int]));
                    assert(ast_of(*e)->Call_1[i as int] == sargs[i as int]);
                    assert(ast_wf(ast_of(*e)->Call_1[i as int]));
                }
                let piece = render_expression(&args[i]);
                out = out.concat(piece.as_str());
                if i + 1 < args.len() {
                    push_char(&mut out, ',');
                }
                i = i + 1;
            }
            let out = out.concat(")");
            proof {
                assert(out@ =~= s_render(ast_of(*e)));
            }
            out
        },
    }
}

/// Render a whole program with canonical spacing, exactly as
/// `rendered_code`: statements one per line, assignments joined by
/// `=`, every composite expression parenthesized.
#[verifier::loop_isolation(false)]
#[verifier::rlimit(50)]
pub fn render_code(code: &Code) -> (r: String)
    requires
        forall|i: int| 0 <= i < code@.len() ==> stmt_ast_wf(#[trigger] code@[i]),
    ensures
        r@ == rendered_code(code@, code@.len()),
{
    let mut out = String::new();
    let mut si: usize = 0;
    loop
        invariant
            si <= code.statements@.len(),
            out@ =~= rendered_code(code@, si as nat),
        decreases code.statements@.len() - si,
    {
        if si >= code.statements.len() {
            return out;
        }
        proof {
            assert(code@[si as int] == code.statements@[si as int]@);
        }
        match &code.statements[si] {
            Statement::Evaluate(e) => {
                proof {
                    assert(stmt_ast_wf(code@[si as int]));
                    assert(ast_wf(code@[si as int]->Evaluate_0));
                }
                let piece = render_expression(e);
                out = out.concat(piece.as_str());
            },
            Statement::Assign(exprs) => {
                proof {
                    assert(stmt_ast_wf(code@[si as int]));
                    assert(code@[si as int]->Assign_0 == asts_of(exprs@));
                }
                let ghost xs = asts_of(exprs@);
                let ghost base = out@;
                let mut ti: usize = 0;
                loop
                    invariant
                        ti <= exprs@.len(),
                        out@ =~= base + rendered_eq(xs, ti as nat),
                    decreases exprs@.len() - ti,
                {
                    if ti >= exprs.len() {
                        break ;
                    }
                    proof {
                        assert(xs[ti as int] == ast_of(exprs@[ti as int]));
                        assert(ast_wf(xs[ti as int]));
                    }
                    let piece = render_expression(&exprs[ti]);
                    out = out.concat(piece.as_str());
                    if ti + 1 < exprs.len() {
                        push_char(&mut out, '=');
                    }
                    ti = ti + 1;
                }
                proof {
                    assert(out@ =~= base + s_render_stmt(code@[si as int]));
                }
            },
        }
        if si + 1 < code.statements.len() {
            push_char(&mut out, '\n');
        }
        si = si + 1;
        proof {
            assert(out@ =~= rendered_code(code@, si as nat));
        }
    }
}

} // verus!
