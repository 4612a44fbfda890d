//! The surface language parser: a recursive-descent parser over
//! characters, producing an abstract syntax tree.
//!
//! The grammar, lowest precedence first: a program is statements
//! separated by newlines; a statement is `=`-separated expressions; an
//! expression is sums of products of signed powers of atoms; an atom is
//! a number, an identifier (optionally called with bracketed
//! arguments), or a bracketed expression. Comments open with two or
//! more `*`s and close with the same count. Inside brackets newlines
//! are whitespace; elsewhere they end a statement.
//!
//! Each executable parser is specified exactly by a spec-level parser
//! of the same shape (`s_number` for `number`, and so on).

use vstd::prelude::*;

use malachite::Natural;
use crate::bignat::{nat_of, nat_from_u64, nat_add, nat_mul};
use crate::pow::{pow_n, nat_pow};
use crate::rational::{Rational, Ratio, canon};
use crate::text::{alpha_char, alnum_char, wspace_char, is_alpha, is_alnum, is_wspace, push_char};

verus! {

broadcast use vstd::std_specs::vec::axiom_vec_index_decreases, vstd::std_specs::vec::axiom_vec_decreases_to_view;

/// A parsed expression.
pub enum Expression {
    Number(Rational),
    Identifier(String),
    Pos(Box<Expression>),
    Neg(Box<Expression>),
    Add(Box<Expression>, Box<Expression>),
    Sub(Box<Expression>, Box<Expression>),
    Mul(Box<Expression>, Box<Expression>),
    Div(Box<Expression>, Box<Expression>),
    Pow(Box<Expression>, Box<Expression>),
    Call(String, Vec<Expression>),
}

/// A statement: either assignments (targets then a right-hand side) or
/// a single expression to evaluate.
pub enum Statement {
    Assign(Vec<Expression>),
    Evaluate(Expression),
}

/// A parsed program.
pub struct Code {
    pub statements: Vec<Statement>,
}

/// The mathematical content of a parsed expression.
#[verifier::ext_equal]
pub enum Ast {
    Number(Ratio),
    Identifier(Seq<char>),
    Pos(Box<Ast>),
    Neg(Box<Ast>),
    Add(Box<Ast>, Box<Ast>),
    Sub(Box<Ast>, Box<Ast>),
    Mul(Box<Ast>, Box<Ast>),
    Div(Box<Ast>, Box<Ast>),
    Pow(Box<Ast>, Box<Ast>),
    Call(Seq<char>, Seq<Ast>),
}

pub enum StmtView {
    Assign(Seq<Ast>),
    Evaluate(Ast),
}

/// Every number literal in the tree is a canonical ratio.
pub open spec fn ast_wf(a: Ast) -> bool
    decreases a,
{
    match a {
        Ast::Number(r) => crate::rational::ratio_wf(r),
        Ast::Identifier(_) => true,
        Ast::Pos(x) => ast_wf(*x),
        Ast::Neg(x) => ast_wf(*x),
        Ast::Add(a1, b1) => ast_wf(*a1) && ast_wf(*b1),
        Ast::Sub(a1, b1) => ast_wf(*a1) && ast_wf(*b1),
        Ast::Mul(a1, b1) => ast_wf(*a1) && ast_wf(*b1),
        Ast::Div(a1, b1) => ast_wf(*a1) && ast_wf(*b1),
        Ast::Pow(a1, b1) => ast_wf(*a1) && ast_wf(*b1),
        Ast::Call(_, args) => forall|i: int| 0 <= i < args.len() ==> ast_wf(#[trigger] args[i]),
    }
}

pub open spec fn stmt_ast_wf(s: StmtView) -> bool {
    match s {
        StmtView::Assign(v) => forall|i: int| 0 <= i < v.len() ==> ast_wf(#[trigger] v[i]),
        StmtView::Evaluate(e) => ast_wf(e),
    }
}

pub open spec fn ast_of(e: Expression) -> Ast
    decreases e,
{
    match e {
        Expression::Number(r) => Ast::Number(r@),
        Expression::Identifier(s) => Ast::Identifier(s@),
        Expression::Pos(b) => Ast::Pos(Box::new(ast_of(*b))),
        Expression::Neg(b) => Ast::Neg(Box::new(ast_of(*b))),
        Expression::Add(a, b) => Ast::Add(Box::new(ast_of(*a)), Box::new(ast_of(*b))),
        Expression::Sub(a, b) => Ast::Sub(Box::new(ast_of(*a)), Box::new(ast_of(*b))),
        Expression::Mul(a, b) => Ast::Mul(Box::new(ast_of(*a)), Box::new(ast_of(*b))),
        Expression::Div(a, b) => Ast::Div(Box::new(ast_of(*a)), Box::new(ast_of(*b))),
        Expression::Pow(a, b) => Ast::Pow(Box::new(ast_of(*a)), Box::new(ast_of(*b))),
        Expression::Call(name, args) => Ast::Call(
            name@,
            Seq::new(
                args@.len(),
                |i: int|
                    if 0 <= i < args@.len() {
                        ast_of(args[i])
                    } else {
                        Ast::Identifier(Seq::empty())
                    },
            ),
        ),
    }
}

impl View for Expression {
    type V = Ast;

    open spec fn view(&self) -> Ast {
        ast_of(*self)
    }
}

pub open spec fn asts_of(v: Seq<Expression>) -> Seq<Ast> {
    Seq::new(v.len(), |i: int| ast_of(v[i]))
}

impl View for Statement {
    type V = StmtView;

    open spec fn view(&self) -> StmtView {
        match self {
            Statement::Assign(v) => StmtView::Assign(asts_of(v@)),
            Statement::Evaluate(e) => StmtView::Evaluate(ast_of(*e)),
        }
    }
}

impl View for Code {
    type V = Seq<StmtView>;

    open spec fn view(&self) -> Seq<StmtView> {
        Seq::new(self.statements@.len(), |i: int| self.statements@[i]@)
    }
}

/// A parse failure: input remained after the longest parsable prefix.
pub enum ParseError {
    Incomplete(char),
}

// ---------------------------------------------------------------
// Lexical layer.
// ---------------------------------------------------------------

pub open spec fn is_digit(c: char) -> bool {
    48 <= c as u32 && c as u32 <= 57
}

pub open spec fn digit_val(c: char) -> nat {
    (c as u32 - 48) as nat
}

/// The first position at or after `pos` that does not hold a digit.
pub open spec fn scan_digits(s: Seq<char>, pos: nat) -> nat
    decreases s.len() - pos,
{
    if pos < s.len() && is_digit(s[pos as int]) {
        scan_digits(s, pos + 1)
    } else {
        pos
    }
}

/// The number denoted by the decimal digits `s[from..to]`.
pub open spec fn digits_val(s: Seq<char>, from: nat, to: nat) -> nat
    decreases to - from,
{
    if from < to {
        digits_val(s, from, (to - 1) as nat) * 10 + digit_val(s[to - 1])
    } else {
        0
    }
}

/// A character that may continue an identifier.
pub open spec fn ident_char(c: char) -> bool {
    alnum_char(c) || c == '_' || c == '\''
}

/// The first position at or after `pos` without an identifier character.
pub open spec fn scan_ident(s: Seq<char>, pos: nat) -> nat
    decreases s.len() - pos,
{
    if pos < s.len() && ident_char(s[pos as int]) {
        scan_ident(s, pos + 1)
    } else {
        pos
    }
}

/// The first position at or after `pos` without a `*`.
pub open spec fn scan_stars(s: Seq<char>, pos: nat) -> nat
    decreases s.len() - pos,
{
    if pos < s.len() && s[pos as int] == '*' {
        scan_stars(s, pos + 1)
    } else {
        pos
    }
}

/// Whether `n` consecutive `*`s stand at `from`.
pub open spec fn stars_at(s: Seq<char>, from: nat, n: nat) -> bool
    decreases n,
{
    if n == 0 {
        true
    } else {
        from < s.len() && s[from as int] == '*' && stars_at(s, from + 1, (n - 1) as nat)
    }
}

/// The first position at or after `from` where `n` `*`s stand.
pub open spec fn find_stars(s: Seq<char>, from: nat, n: nat) -> Option<nat>
    decreases s.len() - from,
{
    if from + n > s.len() {
        None
    } else if stars_at(s, from, n) {
        Some(from)
    } else {
        find_stars(s, from + 1, n)
    }
}

/// A comment: two or more `*`s, closed by the same count. Returns the
/// position after the closing stars.
pub open spec fn s_comment(s: Seq<char>, pos: nat) -> Option<nat> {
    if pos + 2 <= s.len() && s[pos as int] == '*' && s[pos as int + 1] == '*' {
        let n = scan_stars(s, pos) - pos;
        match find_stars(s, (pos + n) as nat, n as nat) {
            Some(i) => Some((i + n) as nat),
            None => None,
        }
    } else {
        None
    }
}

/// Skip whitespace and comments; a newline counts as whitespace only
/// when `nl` holds.
pub open spec fn s_ws0(s: Seq<char>, pos: nat, nl: bool) -> nat
    decreases s.len() - pos,
{
    if pos < s.len() && wspace_char(s[pos as int]) && (nl || s[pos as int] != '\n') {
        s_ws0(s, pos + 1, nl)
    } else {
        match s_comment(s, pos) {
            Some(e) => {
                if pos < e <= s.len() {
                    s_ws0(s, e, nl)
                } else {
                    pos
                }
            },
            None => pos,
        }
    }
}

/// A number: digits with an optional decimal part, as an exact
/// rational in canonical form.
pub open spec fn s_number(s: Seq<char>, pos: nat) -> Option<(nat, Ratio)> {
    let end1 = scan_digits(s, pos);
    if end1 == pos {
        None
    } else {
        let whole = digits_val(s, pos, end1);
        if end1 < s.len() && s[end1 as int] == '.' && scan_digits(s, end1 + 1) > end1 + 1 {
            let end2 = scan_digits(s, end1 + 1);
            let k = (end2 - (end1 + 1)) as nat;
            let frac = digits_val(s, end1 + 1, end2);
            Some((end2, canon((whole * pow_n(10, k) + frac) as int, pow_n(10, k))))
        } else {
            Some((end1, canon(whole as int, 1)))
        }
    }
}

/// An identifier: a letter or `_`, then letters, digits, `_` or `'`.
pub open spec fn s_ident(s: Seq<char>, pos: nat) -> Option<(nat, Seq<char>)> {
    if pos < s.len() && (alpha_char(s[pos as int]) || s[pos as int] == '_') {
        let end = scan_ident(s, pos + 1);
        Some((end, s.subrange(pos as int, end as int)))
    } else {
        None
    }
}

/// The closing bracket matching an opening one.
pub open spec fn close_of(c: char) -> char {
    if c == '(' {
        ')'
    } else if c == '[' {
        ']'
    } else {
        '}'
    }
}

pub open spec fn open_bracket(c: char) -> bool {
    c == '(' || c == '[' || c == '{'
}

// ---------------------------------------------------------------
// Expression layer. The measure is (remaining input, grammar rank).
// ---------------------------------------------------------------

/// An atom: an identifier (optionally a call), a number, or a
/// bracketed expression.
pub open spec fn s_expr1(s: Seq<char>, pos: nat, nl: bool) -> Option<(nat, Ast)>
    decreases s.len() - pos, 1int,
{
    match s_ident(s, pos) {
        Some((p1, name)) => {
            let p2 = s_ws0(s, p1, nl);
            if p2 < s.len() && open_bracket(s[p2 as int]) && p2 + 1 > pos {
                match s_args(s, (p2 + 1) as nat, close_of(s[p2 as int]), nl) {
                    Some((p3, args)) => Some((p3, Ast::Call(name, args))),
                    None => Some((p1, Ast::Identifier(name))),
                }
            } else {
                Some((p1, Ast::Identifier(name)))
            }
        },
        None => match s_number(s, pos) {
            Some((p, r)) => Some((p, Ast::Number(r))),
            None => {
                if pos < s.len() && open_bracket(s[pos as int]) {
                    let p1 = s_ws0(s, pos + 1, true);
                    if p1 > pos && p1 <= s.len() {
                        match s_expr(s, p1, true) {
                            Some((p2, e)) => {
                                let p3 = s_ws0(s, p2, true);
                                if p3 < s.len() && s[p3 as int] == close_of(s[pos as int]) {
                                    Some(((p3 + 1) as nat, e))
                                } else {
                                    None
                                }
                            },
                            None => None,
                        }
                    } else {
                        None
                    }
                } else {
                    None
                }
            },
        },
    }
}

/// Comma-separated arguments after an opening bracket, with an
/// optional trailing comma, closed by `close`.
pub open spec fn s_args(s: Seq<char>, pos: nat, close: char, nl: bool) -> Option<(nat, Seq<Ast>)>
    decreases s.len() - pos, 7int,
{
    let p0 = s_ws0(s, pos, true);
    let first = if p0 >= pos && p0 <= s.len() {
        s_expr(s, p0, true)
    } else {
        None
    };
    match first {
        None => None,
        Some((p1, e1)) => {
            if p1 > pos && p1 <= s.len() {
                let (p2, rest) = s_args_tail(s, p1, nl);
                let pt = s_ws0(s, p2, true);
                let p3: nat = if pt < s.len() && s[pt as int] == ',' {
                    pt + 1
                } else {
                    p2
                };
                let p4 = s_ws0(s, p3, true);
                if p4 < s.len() && s[p4 as int] == close {
                    Some(((p4 + 1) as nat, seq![e1] + rest))
                } else {
                    None
                }
            } else {
                None
            }
        },
    }
}

/// Further `, expression` arguments.
pub open spec fn s_args_tail(s: Seq<char>, pos: nat, nl: bool) -> (nat, Seq<Ast>)
    decreases s.len() - pos, 0int,
{
    let pc = s_ws0(s, pos, nl);
    if pc < s.len() && s[pc as int] == ',' {
        let pe = s_ws0(s, pc + 1, true);
        if pe > pos && pe <= s.len() {
            match s_expr(s, pe, true) {
                Some((p2, e)) => {
                    if p2 > pos && p2 <= s.len() {
                        let (p3, rest) = s_args_tail(s, p2, nl);
                        (p3, seq![e] + rest)
                    } else {
                        (pos, seq![])
                    }
                },
                None => (pos, seq![]),
            }
        } else {
            (pos, seq![])
        }
    } else {
        (pos, seq![])
    }
}

/// A power: an atom, optionally raised to a signed power.
pub open spec fn s_expr2(s: Seq<char>, pos: nat, nl: bool) -> Option<(nat, Ast)>
    decreases s.len() - pos, 2int,
{
    match s_expr1(s, pos, nl) {
        None => None,
        Some((p1, left)) => {
            let pc = s_ws0(s, p1, nl);
            if pc < s.len() && s[pc as int] == '^' {
                let pr = s_ws0(s, pc + 1, nl);
                if pr > pos && pr <= s.len() {
                    match s_expr3(s, pr, nl) {
                        Some((p2, right)) => Some(
                            (p2, Ast::Pow(Box::new(left), Box::new(right))),
                        ),
                        None => Some((p1, left)),
                    }
                } else {
                    Some((p1, left))
                }
            } else {
                Some((p1, left))
            }
        },
    }
}

/// A signed power: unary `+`/`-` signs, then a power.
pub open spec fn s_expr3(s: Seq<char>, pos: nat, nl: bool) -> Option<(nat, Ast)>
    decreases s.len() - pos, 3int,
{
    if pos < s.len() && (s[pos as int] == '+' || s[pos as int] == '-') {
        let p1 = s_ws0(s, pos + 1, nl);
        if p1 > pos && p1 <= s.len() {
            match s_expr3(s, p1, nl) {
                Some((p2, e)) => {
                    if s[pos as int] == '+' {
                        Some((p2, Ast::Pos(Box::new(e))))
                    } else {
                        Some((p2, Ast::Neg(Box::new(e))))
                    }
                },
                None => None,
            }
        } else {
            None
        }
    } else {
        s_expr2(s, pos, nl)
    }
}

/// A product: signed powers combined with `*` and `/`, left to right.
pub open spec fn s_expr4(s: Seq<char>, pos: nat, nl: bool) -> Option<(nat, Ast)>
    decreases s.len() - pos, 4int,
{
    match s_expr3(s, pos, nl) {
        None => None,
        Some((p1, first)) => {
            if p1 >= pos && p1 <= s.len() {
                let (p2, e) = s_expr4_tail(s, p1, nl, first);
                Some((p2, e))
            } else {
                Some((p1, first))
            }
        },
    }
}

pub open spec fn s_expr4_tail(s: Seq<char>, pos: nat, nl: bool, acc: Ast) -> (nat, Ast)
    decreases s.len() - pos, 0int,
{
    let pc = s_ws0(s, pos, nl);
    if pc < s.len() && (s[pc as int] == '*' || s[pc as int] == '/') {
        let pe = s_ws0(s, pc + 1, nl);
        if pe > pos && pe <= s.len() {
            match s_expr3(s, pe, nl) {
                Some((p2, rhs)) => {
                    if p2 > pos && p2 <= s.len() {
                        let next = if s[pc as int] == '*' {
                            Ast::Mul(Box::new(acc), Box::new(rhs))
                        } else {
                            Ast::Div(Box::new(acc), Box::new(rhs))
                        };
                        s_expr4_tail(s, p2, nl, next)
                    } else {
                        (pos, acc)
                    }
                },
                None => (pos, acc),
            }
        } else {
            (pos, acc)
        }
    } else {
        (pos, acc)
    }
}

/// A sum: products combined with `+` and `-`, left to right.
pub open spec fn s_expr5(s: Seq<char>, pos: nat, nl: bool) -> Option<(nat, Ast)>
    decreases s.len() - pos, 5int,
{
    match s_expr4(s, pos, nl) {
        None => None,
        Some((p1, first)) => {
            if p1 >= pos && p1 <= s.len() {
                let (p2, e) = s_expr5_tail(s, p1, nl, first);
                Some((p2, e))
            } else {
                Some((p1, first))
            }
        },
    }
}

pub open spec fn s_expr5_tail(s: Seq<char>, pos: nat, nl: bool, acc: Ast) -> (nat, Ast)
    decreases s.len() - pos, 0int,
{
    let pc = s_ws0(s, pos, nl);
    if pc < s.len() && (s[pc as int] == '+' || s[pc as int] == '-') {
        let pe = s_ws0(s, pc + 1, nl);
        if pe > pos && pe <= s.len() {
            match s_expr4(s, pe, nl) {
                Some((p2, rhs)) => {
                    if p2 > pos && p2 <= s.len() {
                        let next = if s[pc as int] == '+' {
                            Ast::Add(Box::new(acc), Box::new(rhs))
                        } else {
                            Ast::Sub(Box::new(acc), Box::new(rhs))
                        };
                        s_expr5_tail(s, p2, nl, next)
                    } else {
                        (pos, acc)
                    }
                },
                None => (pos, acc),
            }
        } else {
            (pos, acc)
        }
    } else {
        (pos, acc)
    }
}

/// An expression.
pub open spec fn s_expr(s: Seq<char>, pos: nat, nl: bool) -> Option<(nat, Ast)>
    decreases s.len() - pos, 6int,
{
    s_expr5(s, pos, nl)
}

// ---------------------------------------------------------------
// Statement layer.
// ---------------------------------------------------------------

/// A statement: `=`-separated expressions. One expression evaluates;
/// several assign the last to the preceding targets.
pub open spec fn s_statement(s: Seq<char>, pos: nat) -> Option<(nat, StmtView)>
    decreases s.len() - pos, 8int,
{
    let p0 = s_ws0(s, pos, false);
    let first = if p0 >= pos && p0 <= s.len() {
        s_expr(s, p0, false)
    } else {
        None
    };
    match first {
        None => None,
        Some((p1, e1)) => {
            if p1 >= pos && p1 <= s.len() {
                let (p2, rest) = s_eq_tail(s, p1);
                if rest.len() == 0 {
                    Some((p2, StmtView::Evaluate(e1)))
                } else {
                    Some((p2, StmtView::Assign(seq![e1] + rest)))
                }
            } else {
                None
            }
        },
    }
}

/// Further `= expression` parts of a statement.
pub open spec fn s_eq_tail(s: Seq<char>, pos: nat) -> (nat, Seq<Ast>)
    decreases s.len() - pos, 0int,
{
    let pc = s_ws0(s, pos, false);
    if pc < s.len() && s[pc as int] == '=' {
        let pe = s_ws0(s, pc + 1, false);
        if pe > pos && pe <= s.len() {
            match s_expr(s, pe, false) {
                Some((p2, e)) => {
                    if p2 > pos && p2 <= s.len() {
                        let (p3, rest) = s_eq_tail(s, p2);
                        (p3, seq![e] + rest)
                    } else {
                        (pos, seq![])
                    }
                },
                None => (pos, seq![]),
            }
        } else {
            (pos, seq![])
        }
    } else {
        (pos, seq![])
    }
}

/// A program: statements separated by newlines, surrounded by
/// whitespace. Never fails; unparsable input is left unconsumed.
pub open spec fn s_program(s: Seq<char>, pos: nat) -> (nat, Seq<StmtView>)
    decreases s.len() - pos, 9int,
{
    let p0 = s_ws0(s, pos, true);
    let first = if p0 >= pos && p0 <= s.len() {
        s_statement(s, p0)
    } else {
        None
    };
    match first {
        None => {
            let pe = s_ws0(s, pos, true);
            if pe >= pos {
                (pe, seq![])
            } else {
                (pos, seq![])
            }
        },
        Some((p1, st)) => {
            if p1 >= pos && p1 <= s.len() {
                let (p2, rest) = s_prog_tail(s, p1);
                let pe = s_ws0(s, p2, true);
                if pe >= p2 {
                    (pe, seq![st] + rest)
                } else {
                    (p2, seq![st] + rest)
                }
            } else {
                (pos, seq![])
            }
        },
    }
}

/// Further newline-separated statements.
pub open spec fn s_prog_tail(s: Seq<char>, pos: nat) -> (nat, Seq<StmtView>)
    decreases s.len() - pos, 0int,
{
    let pc = s_ws0(s, pos, false);
    if pc < s.len() && s[pc as int] == '\n' {
        let pn = s_ws0(s, pc + 1, true);
        if pn > pos && pn <= s.len() {
            match s_statement(s, pn) {
                Some((p2, st)) => {
                    if p2 > pos && p2 <= s.len() {
                        let (p3, rest) = s_prog_tail(s, p2);
                        (p3, seq![st] + rest)
                    } else {
                        (pos, seq![])
                    }
                },
                None => (pos, seq![]),
            }
        } else {
            (pos, seq![])
        }
    } else {
        (pos, seq![])
    }
}


// ---------------------------------------------------------------
// Executable layer, one function per spec parser.
// ---------------------------------------------------------------

/// Result match-up between an executable parse and its spec: equal
/// outcomes, and any success consumed at least one character.
pub open spec fn matches_expr(
    pos: nat,
    r: Option<(usize, Expression)>,
    s: Option<(nat, Ast)>,
    len: nat,
) -> bool {
    match (r, s) {
        (Some((p, e)), Some((ps, es))) => p == ps && e@ == es && ast_wf(es) && pos < p <= len,
        (None, None) => true,
        _ => false,
    }
}

fn is_digit_exec(c: char) -> (r: bool)
    ensures
        r == is_digit(c),
{
    let u = c as u32;
    48 <= u && u <= 57
}

#[verifier::loop_isolation(false)]
fn scan_digits_exec(input: &Vec<char>, pos: usize) -> (r: usize)
    requires
        pos <= input@.len(),
    ensures
        r == scan_digits(input@, pos as nat),
        pos <= r <= input@.len(),
        forall|i: int| pos <= i < r ==> is_digit(input@[i]),
{
    let mut i = pos;
    loop
        invariant
            pos <= i <= input@.len(),
            scan_digits(input@, pos as nat) == scan_digits(input@, i as nat),
            forall|j: int| pos <= j < i ==> is_digit(input@[j]),
        decreases input@.len() - i,
    {
        if i < input.len() && is_digit_exec(input[i]) {
            i = i + 1;
        } else {
            return i;
        }
    }
}

#[verifier::loop_isolation(false)]
fn scan_ident_exec(input: &Vec<char>, pos: usize) -> (r: usize)
    requires
        pos <= input@.len(),
    ensures
        r == scan_ident(input@, pos as nat),
        pos <= r <= input@.len(),
{
    let mut i = pos;
    loop
        invariant
            pos <= i <= input@.len(),
            scan_ident(input@, pos as nat) == scan_ident(input@, i as nat),
        decreases input@.len() - i,
    {
        if i < input.len() {
            let c = input[i];
            if is_alnum(c) || c == '_' || c == '\'' {
                i = i + 1;
                continue;
            }
        }
        return i;
    }
}

#[verifier::loop_isolation(false)]
fn scan_stars_exec(input: &Vec<char>, pos: usize) -> (r: usize)
    requires
        pos <= input@.len(),
    ensures
        r == scan_stars(input@, pos as nat),
        pos <= r <= input@.len(),
{
    let mut i = pos;
    loop
        invariant
            pos <= i <= input@.len(),
            scan_stars(input@, pos as nat) == scan_stars(input@, i as nat),
        decreases input@.len() - i,
    {
        if i < input.len() && input[i] == '*' {
            i = i + 1;
        } else {
            return i;
        }
    }
}

#[verifier::loop_isolation(false)]
fn stars_at_exec(input: &Vec<char>, from: usize, n: usize) -> (r: bool)
    requires
        from + n <= input@.len(),
    ensures
        r == stars_at(input@, from as nat, n as nat),
{
    let l = input.len();
    let mut k: usize = 0;
    loop
        invariant
            k <= n,
            from + n <= l,
            stars_at(input@, from as nat, n as nat) == stars_at(
                input@,
                (from + k) as nat,
                (n - k) as nat,
            ),
        decreases n - k,
    {
        if k >= n {
            return true;
        }
        if input[from + k] != '*' {
            return false;
        }
        k = k + 1;
    }
}

/// A comment, as `s_comment` describes.
#[verifier::loop_isolation(false)]
pub fn comment(input: &Vec<char>, pos: usize) -> (r: Option<usize>)
    requires
        pos <= input@.len(),
    ensures
        match (r, s_comment(input@, pos as nat)) {
            (Some(a), Some(b)) => a == b && a <= input@.len(),
            (None, None) => true,
            _ => false,
        },
{
    if input.len() >= 2 && pos <= input.len() - 2 && input[pos] == '*' && input[pos + 1] == '*' {
        let stars_end = scan_stars_exec(input, pos);
        let n = stars_end - pos;
        let mut j = pos + n;
        loop
            invariant
                pos + n <= j,
                n <= input@.len(),
                j <= input@.len() + 1,
                find_stars(input@, (pos + n) as nat, n as nat) == find_stars(
                    input@,
                    j as nat,
                    n as nat,
                ),
            decreases input@.len() + 1 - j,
        {
            if n > input.len() || j > input.len() - n {
                return None;
            }
            if stars_at_exec(input, j, n) {
                return Some(j + n);
            }
            j = j + 1;
        }
    } else {
        None
    }
}

/// Whitespace and comments, as `s_ws0` describes.
#[verifier::loop_isolation(false)]
pub fn ws0(input: &Vec<char>, pos: usize, newline: bool) -> (r: usize)
    requires
        pos <= input@.len(),
    ensures
        r == s_ws0(input@, pos as nat, newline),
        pos <= r <= input@.len(),
{
    let mut i = pos;
    loop
        invariant
            pos <= i <= input@.len(),
            s_ws0(input@, pos as nat, newline) == s_ws0(input@, i as nat, newline),
        decreases input@.len() - i,
    {
        if i < input.len() {
            let c = input[i];
            if is_wspace(c) && (newline || c != '\n') {
                i = i + 1;
                continue;
            }
        }
        match comment(input, i) {
            Some(e) => {
                if i < e {
                    i = e;
                } else {
                    return i;
                }
            },
            None => {
                return i;
            },
        }
    }
}

#[verifier::loop_isolation(false)]
fn digits_to_nat(input: &Vec<char>, from: usize, to: usize) -> (r: Natural)
    requires
        from <= to <= input@.len(),
        forall|i: int| from <= i < to ==> is_digit(input@[i]),
    ensures
        nat_of(r) == digits_val(input@, from as nat, to as nat),
{
    let ten = nat_from_u64(10);
    let mut acc = nat_from_u64(0);
    let mut i = from;
    loop
        invariant
            from <= i <= to <= input@.len(),
            forall|j: int| from <= j < to ==> is_digit(input@[j]),
            nat_of(acc) == digits_val(input@, from as nat, i as nat),
            nat_of(ten) == 10,
        decreases to - i,
    {
        if i < to {
            let c = input[i];
            let u = c as u32;
            let d = (u - 48) as u64;
            acc = nat_add(&nat_mul(&acc, &ten), &nat_from_u64(d));
            i = i + 1;
        } else {
            return acc;
        }
    }
}

/// A number, as `s_number` describes.
pub fn number(input: &Vec<char>, pos: usize) -> (r: Option<(usize, Rational)>)
    requires
        pos <= input@.len(),
    ensures
        match (r, s_number(input@, pos as nat)) {
            (Some((p, v)), Some((ps, vs))) => p == ps && v@ == vs && v.wf() && pos < p
                <= input@.len(),
            (None, None) => true,
            _ => false,
        },
{
    let end1 = scan_digits_exec(input, pos);
    if end1 == pos {
        return None;
    }
    let whole = digits_to_nat(input, pos, end1);
    if end1 < input.len() && input[end1] == '.' {
        let end2 = scan_digits_exec(input, end1 + 1);
        if end2 > end1 + 1 {
            let k = end2 - (end1 + 1);
            let ten = nat_from_u64(10);
            let k_nat = nat_from_u64(k as u64);
            let p10 = nat_pow(&ten, &k_nat);
            proof {
                crate::pow::lemma_pow_n_nonneg(10, k as nat);
            }
            let frac = digits_to_nat(input, end1 + 1, end2);
            let combined = nat_add(&nat_mul(&whole, &p10), &frac);
            return Some((end2, Rational::from_parts(false, combined, p10)));
        }
    }
    Some((end1, Rational::from_parts(false, whole, nat_from_u64(1))))
}

/// An identifier, as `s_ident` describes.
#[verifier::loop_isolation(false)]
pub fn identifier(input: &Vec<char>, pos: usize) -> (r: Option<(usize, String)>)
    requires
        pos <= input@.len(),
    ensures
        match (r, s_ident(input@, pos as nat)) {
            (Some((p, s)), Some((ps, ss))) => p == ps && s@ == ss && pos < p <= input@.len(),
            (None, None) => true,
            _ => false,
        },
{
    if pos < input.len() {
        let c0 = input[pos];
        if is_alpha(c0) || c0 == '_' {
            let end = scan_ident_exec(input, pos + 1);
            let mut out = String::new();
            let mut i = pos;
            loop
                invariant
                    pos <= i <= end <= input@.len(),
                    out@ =~= input@.subrange(pos as int, i as int),
                decreases end - i,
            {
                if i < end {
                    let c = input[i];
                    push_char(&mut out, c);
                    proof {
                        assert(input@.subrange(pos as int, i + 1) =~= input@.subrange(
                            pos as int,
                            i as int,
                        ).push(input@[i as int]));
                    }
                    i = i + 1;
                } else {
                    return Some((end, out));
                }
            }
        } else {
            None
        }
    } else {
        None
    }
}

fn close_of_exec(c: char) -> (r: char)
    ensures
        r == close_of(c),
{
    if c == '(' {
        ')'
    } else if c == '[' {
        ']'
    } else {
        '}'
    }
}

/// An atom, as `s_expr1` describes.
pub fn expr1(input: &Vec<char>, pos: usize, newline: bool) -> (r: Option<(usize, Expression)>)
    requires
        pos <= input@.len(),
    ensures
        matches_expr(pos as nat, r, s_expr1(input@, pos as nat, newline), input@.len()),
    decreases input@.len() - pos, 1int,
{
    match identifier(input, pos) {
        Some((p1, name)) => expr1_ident(input, pos, newline, p1, name),
        None => match number(input, pos) {
            Some((p, v)) => Some((p, Expression::Number(v))),
            None => expr1_bracket(input, pos, newline),
        },
    }
}

/// A `Call` node's content is its name and its arguments.
pub proof fn lemma_call_view(name: String, args: Vec<Expression>)
    ensures
        ast_of(Expression::Call(name, args)) == Ast::Call(name@, asts_of(args@)),
{
    let a = ast_of(Expression::Call(name, args));
    let b = Ast::Call(name@, asts_of(args@));
    assert(a is Call && a->Call_0 == name@);
    assert(a->Call_1.len() == args@.len());
    assert forall|i: int| 0 <= i < args@.len() implies a->Call_1[i] == asts_of(args@)[i] by {
        assert(args[i] == args@[i]);
    }
    assert(a->Call_1 =~= asts_of(args@));
    assert(a =~= b);
}

/// The identifier alternative of an atom: a call where bracketed
/// arguments follow, a plain identifier otherwise.
#[verifier::rlimit(100)]
#[verifier::spinoff_prover]
fn expr1_ident(input: &Vec<char>, pos: usize, newline: bool, p1: usize, name: String) -> (r:
    Option<(usize, Expression)>)
    requires
        pos <= input@.len(),
        s_ident(input@, pos as nat) == Some((p1 as nat, name@)),
        pos < p1 <= input@.len(),
    ensures
        matches_expr(pos as nat, r, s_expr1(input@, pos as nat, newline), input@.len()),
    decreases input@.len() - pos, 0int,
{
    let p2 = ws0(input, p1, newline);
    if p2 < input.len() {
        let c = input[p2];
        if (c == '(' || c == '[' || c == '{') && p2 + 1 > pos {
            let close = close_of_exec(c);
            match call_args(input, p2 + 1, close, newline) {
                Some((p3, args)) => {
                    proof {
                        lemma_call_view(name, args);
                    }
                    return Some((p3, Expression::Call(name, args)));
                },
                None => {
                    return Some((p1, Expression::Identifier(name)));
                },
            }
        }
    }
    Some((p1, Expression::Identifier(name)))
}

/// The bracketed alternative of an atom.
#[verifier::rlimit(50)]
fn expr1_bracket(input: &Vec<char>, pos: usize, newline: bool) -> (r: Option<(usize, Expression)>)
    requires
        pos <= input@.len(),
        s_ident(input@, pos as nat) is None,
        s_number(input@, pos as nat) is None,
    ensures
        matches_expr(pos as nat, r, s_expr1(input@, pos as nat, newline), input@.len()),
    decreases input@.len() - pos, 0int,
{
    if pos < input.len() {
        let c = input[pos];
        if c == '(' || c == '[' || c == '{' {
            let p1 = ws0(input, pos + 1, true);
            if p1 > pos && p1 <= input.len() {
                match expr(input, p1, true) {
                    Some((p2, e)) => {
                        let p3 = ws0(input, p2, true);
                        if p3 < input.len() && input[p3] == close_of_exec(c) {
                            Some((p3 + 1, e))
                        } else {
                            None
                        }
                    },
                    None => None,
                }
            } else {
                None
            }
        } else {
            None
        }
    } else {
        None
    }
}

/// Call arguments, as `s_args` describes.
#[verifier::rlimit(50)]
fn call_args(input: &Vec<char>, pos: usize, close: char, newline: bool) -> (r: Option<
    (usize, Vec<Expression>),
>)
    requires
        pos <= input@.len(),
    ensures
        match (r, s_args(input@, pos as nat, close, newline)) {
            (Some((p, v)), Some((ps, vs))) => p == ps && asts_of(v@) == vs && (forall|k: int|
                0 <= k < vs.len() ==> ast_wf(#[trigger] vs[k])) && pos < p <= input@.len(),
            (None, None) => true,
            _ => false,
        },
    decreases input@.len() - pos, 7int,
{
    let p0 = ws0(input, pos, true);
    let first = if p0 >= pos && p0 <= input.len() {
        expr(input, p0, true)
    } else {
        None
    };
    match first {
        None => None,
        Some((p1, e1)) => {
            if p1 > pos && p1 <= input.len() {
                let mut items: Vec<Expression> = Vec::new();
                items.push(e1);
                let mut cur = p1;
                let ghost tail0 = s_args_tail(input@, p1 as nat, newline);
                proof {
                    assert(asts_of(items@.skip(1)) =~= Seq::<Ast>::empty());
                    assert(Seq::<Ast>::empty() + tail0.1 =~= tail0.1);
                }
                loop
                    invariant
                        pos < p1 <= cur <= input@.len(),
                        items@.len() >= 1,
                        items@[0] == e1,
                        forall|k: int| 0 <= k < items@.len() ==> ast_wf(ast_of(#[trigger] items@[k])),
                        tail0 == s_args_tail(input@, p1 as nat, newline),
                        tail0.0 == s_args_tail(input@, cur as nat, newline).0,
                        tail0.1 =~= asts_of(items@.skip(1)) + s_args_tail(
                            input@,
                            cur as nat,
                            newline,
                        ).1,
                    ensures
                        pos < p1 <= cur <= input@.len(),
                        items@.len() >= 1,
                        items@[0] == e1,
                        forall|k: int| 0 <= k < items@.len() ==> ast_wf(ast_of(#[trigger] items@[k])),
                        tail0.0 == cur,
                        tail0.1 =~= asts_of(items@.skip(1)),
                    decreases input@.len() - cur,
                {
                    let ghost items_snap = items@;
                    let pc = ws0(input, cur, newline);
                    if pc < input.len() && input[pc] == ',' {
                        let pe = ws0(input, pc + 1, true);
                        if pe > cur && pe <= input.len() {
                            match expr(input, pe, true) {
                                Some((p2, e)) => {
                                    if p2 > cur && p2 <= input.len() {
                                        proof {
                                            assert(asts_of(items@.push(e).skip(1)) =~= asts_of(
                                                items@.skip(1),
                                            ).push(e@));
                                            assert(asts_of(items@.skip(1)).push(e@) + s_args_tail(
                                                input@,
                                                p2 as nat,
                                                newline,
                                            ).1 =~= asts_of(items@.skip(1)) + (seq![e@]
                                                + s_args_tail(input@, p2 as nat, newline).1));
                                        }
                                        items.push(e);
                                        cur = p2;
                                    } else {
                                        proof {
                                            assert(s_args_tail(input@, cur as nat, newline) == (
                                                cur as nat,
                                                Seq::<Ast>::empty(),
                                            ));
                                            assert(tail0.1 =~= asts_of(items@.skip(1)));
                                        }
                                        break;
                                    }
                                },
                                None => {
                                    proof {
                                        assert(s_args_tail(input@, cur as nat, newline) == (
                                            cur as nat,
                                            Seq::<Ast>::empty(),
                                        ));
                                        assert(tail0.1 =~= asts_of(items@.skip(1)));
                                    }
                                    break;
                                },
                            }
                        } else {
                            proof {
                                assert(s_args_tail(input@, cur as nat, newline) == (
                                    cur as nat,
                                    Seq::<Ast>::empty(),
                                ));
                                assert(tail0.1 =~= asts_of(items@.skip(1)));
                            }
                            break;
                        }
                    } else {
                        proof {
                            assert(s_args_tail(input@, cur as nat, newline) == (
                                cur as nat,
                                Seq::<Ast>::empty(),
                            ));
                            assert(tail0.1 =~= asts_of(items@.skip(1)));
                        }
                        break;
                    }
                }
                let pt = ws0(input, cur, true);
                let p3: usize = if pt < input.len() && input[pt] == ',' {
                    pt + 1
                } else {
                    cur
                };
                let p4 = ws0(input, p3, true);
                if p4 < input.len() && input[p4] == close {
                    proof {
                        assert(asts_of(items@) =~= seq![items@[0]@] + asts_of(items@.skip(1)));
                    }
                    Some((p4 + 1, items))
                } else {
                    None
                }
            } else {
                None
            }
        },
    }
}

/// A power, as `s_expr2` describes.
pub fn expr2(input: &Vec<char>, pos: usize, newline: bool) -> (r: Option<(usize, Expression)>)
    requires
        pos <= input@.len(),
    ensures
        matches_expr(pos as nat, r, s_expr2(input@, pos as nat, newline), input@.len()),
    decreases input@.len() - pos, 2int,
{
    match expr1(input, pos, newline) {
        None => None,
        Some((p1, left)) => {
            let pc = ws0(input, p1, newline);
            if pc < input.len() && input[pc] == '^' {
                let pr = ws0(input, pc + 1, newline);
                if pr > pos && pr <= input.len() {
                    match expr3(input, pr, newline) {
                        Some((p2, right)) => Some(
                            (p2, Expression::Pow(Box::new(left), Box::new(right))),
                        ),
                        None => Some((p1, left)),
                    }
                } else {
                    Some((p1, left))
                }
            } else {
                Some((p1, left))
            }
        },
    }
}

/// A signed power, as `s_expr3` describes.
pub fn expr3(input: &Vec<char>, pos: usize, newline: bool) -> (r: Option<(usize, Expression)>)
    requires
        pos <= input@.len(),
    ensures
        matches_expr(pos as nat, r, s_expr3(input@, pos as nat, newline), input@.len()),
    decreases input@.len() - pos, 3int,
{
    if pos < input.len() && (input[pos] == '+' || input[pos] == '-') {
        let p1 = ws0(input, pos + 1, newline);
        if p1 > pos && p1 <= input.len() {
            match expr3(input, p1, newline) {
                Some((p2, e)) => {
                    if input[pos] == '+' {
                        Some((p2, Expression::Pos(Box::new(e))))
                    } else {
                        Some((p2, Expression::Neg(Box::new(e))))
                    }
                },
                None => None,
            }
        } else {
            None
        }
    } else {
        expr2(input, pos, newline)
    }
}

/// A product, as `s_expr4` describes.
#[verifier::rlimit(50)]
pub fn expr4(input: &Vec<char>, pos: usize, newline: bool) -> (r: Option<(usize, Expression)>)
    requires
        pos <= input@.len(),
    ensures
        matches_expr(pos as nat, r, s_expr4(input@, pos as nat, newline), input@.len()),
    decreases input@.len() - pos, 4int,
{
    match expr3(input, pos, newline) {
        None => None,
        Some((p1, first)) => {
            let mut acc = first;
            let mut cur = p1;
            let ghost t0 = s_expr4_tail(input@, p1 as nat, newline, acc@);
            loop
                invariant
                    pos < p1 <= cur <= input@.len(),
                    ast_wf(acc@),
                    t0 == s_expr4_tail(input@, cur as nat, newline, acc@),
                ensures
                    pos < cur <= input@.len(),
                    ast_wf(acc@),
                    t0 == (cur as nat, acc@),
                decreases input@.len() - cur,
            {
                let pc = ws0(input, cur, newline);
                if pc < input.len() && (input[pc] == '*' || input[pc] == '/') {
                    let pe = ws0(input, pc + 1, newline);
                    if pe > cur && pe <= input.len() {
                        match expr3(input, pe, newline) {
                            Some((p2, rhs)) => {
                                if p2 > cur && p2 <= input.len() {
                                    if input[pc] == '*' {
                                        acc = Expression::Mul(Box::new(acc), Box::new(rhs));
                                    } else {
                                        acc = Expression::Div(Box::new(acc), Box::new(rhs));
                                    }
                                    cur = p2;
                                } else {
                                    break;
                                }
                            },
                            None => {
                                break;
                            },
                        }
                    } else {
                        break;
                    }
                } else {
                    break;
                }
            }
            Some((cur, acc))
        },
    }
}

/// A sum, as `s_expr5` describes.
#[verifier::rlimit(50)]
pub fn expr5(input: &Vec<char>, pos: usize, newline: bool) -> (r: Option<(usize, Expression)>)
    requires
        pos <= input@.len(),
    ensures
        matches_expr(pos as nat, r, s_expr5(input@, pos as nat, newline), input@.len()),
    decreases input@.len() - pos, 5int,
{
    match expr4(input, pos, newline) {
        None => None,
        Some((p1, first)) => {
            let mut acc = first;
            let mut cur = p1;
            let ghost t0 = s_expr5_tail(input@, p1 as nat, newline, acc@);
            loop
                invariant
                    pos < p1 <= cur <= input@.len(),
                    ast_wf(acc@),
                    t0 == s_expr5_tail(input@, cur as nat, newline, acc@),
                ensures
                    pos < cur <= input@.len(),
                    ast_wf(acc@),
                    t0 == (cur as nat, acc@),
                decreases input@.len() - cur,
            {
                let pc = ws0(input, cur, newline);
                if pc < input.len() && (input[pc] == '+' || input[pc] == '-') {
                    let pe = ws0(input, pc + 1, newline);
                    if pe > cur && pe <= input.len() {
                        match expr4(input, pe, newline) {
                            Some((p2, rhs)) => {
                                if p2 > cur && p2 <= input.len() {
                                    if input[pc] == '+' {
                                        acc = Expression::Add(Box::new(acc), Box::new(rhs));
                                    } else {
                                        acc = Expression::Sub(Box::new(acc), Box::new(rhs));
                                    }
                                    cur = p2;
                                } else {
                                    break;
                                }
                            },
                            None => {
                                break;
                            },
                        }
                    } else {
                        break;
                    }
                } else {
                    break;
                }
            }
            Some((cur, acc))
        },
    }
}

/// An expression, as `s_expr` describes.
pub fn expr(input: &Vec<char>, pos: usize, newline: bool) -> (r: Option<(usize, Expression)>)
    requires
        pos <= input@.len(),
    ensures
        matches_expr(pos as nat, r, s_expr(input@, pos as nat, newline), input@.len()),
    decreases input@.len() - pos, 6int,
{
    expr5(input, pos, newline)
}

/// A statement, as `s_statement` describes.
#[verifier::rlimit(50)]
pub fn statement(input: &Vec<char>, pos: usize) -> (r: Option<(usize, Statement)>)
    requires
        pos <= input@.len(),
    ensures
        match (r, s_statement(input@, pos as nat)) {
            (Some((p, st)), Some((ps, ss))) => p == ps && st@ == ss && stmt_ast_wf(ss) && pos <= p
                <= input@.len(),
            (None, None) => true,
            _ => false,
        },
    decreases input@.len() - pos, 8int,
{
    let p0 = ws0(input, pos, false);
    let first = if p0 >= pos && p0 <= input.len() {
        expr(input, p0, false)
    } else {
        None
    };
    match first {
        None => None,
        Some((p1, e1)) => {
            let mut rest: Vec<Expression> = Vec::new();
            let mut cur = p1;
            let ghost t0 = s_eq_tail(input@, p1 as nat);
            proof {
                assert(asts_of(rest@) =~= Seq::<Ast>::empty());
                assert(Seq::<Ast>::empty() + t0.1 =~= t0.1);
            }
            loop
                invariant
                    pos < p1 <= cur <= input@.len(),
                    forall|k: int| 0 <= k < rest@.len() ==> ast_wf(ast_of(#[trigger] rest@[k])),
                    t0 == s_eq_tail(input@, p1 as nat),
                    t0.0 == s_eq_tail(input@, cur as nat).0,
                    t0.1 =~= asts_of(rest@) + s_eq_tail(input@, cur as nat).1,
                ensures
                    pos < cur <= input@.len(),
                    forall|k: int| 0 <= k < rest@.len() ==> ast_wf(ast_of(#[trigger] rest@[k])),
                    t0.0 == cur,
                    t0.1 =~= asts_of(rest@),
                decreases input@.len() - cur,
            {
                let pc = ws0(input, cur, false);
                if pc < input.len() && input[pc] == '=' {
                    let pe = ws0(input, pc + 1, false);
                    if pe > cur && pe <= input.len() {
                        match expr(input, pe, false) {
                            Some((p2, e)) => {
                                if p2 > cur && p2 <= input.len() {
                                    proof {
                                        assert(asts_of(rest@.push(e)) =~= asts_of(rest@).push(e@));
                                        assert(asts_of(rest@).push(e@) + s_eq_tail(
                                            input@,
                                            p2 as nat,
                                        ).1 =~= asts_of(rest@) + (seq![e@] + s_eq_tail(
                                            input@,
                                            p2 as nat,
                                        ).1));
                                    }
                                    rest.push(e);
                                    cur = p2;
                                } else {
                                    proof {
                                        assert(s_eq_tail(input@, cur as nat) == (
                                            cur as nat,
                                            Seq::<Ast>::empty(),
                                        ));
                                        assert(t0.1 =~= asts_of(rest@));
                                    }
                                    break;
                                }
                            },
                            None => {
                                proof {
                                    assert(s_eq_tail(input@, cur as nat) == (
                                        cur as nat,
                                        Seq::<Ast>::empty(),
                                    ));
                                    assert(t0.1 =~= asts_of(rest@));
                                }
                                break;
                            },
                        }
                    } else {
                        proof {
                            assert(s_eq_tail(input@, cur as nat) == (
                                cur as nat,
                                Seq::<Ast>::empty(),
                            ));
                            assert(t0.1 =~= asts_of(rest@));
                        }
                        break;
                    }
                } else {
                    proof {
                        assert(s_eq_tail(input@, cur as nat) == (cur as nat, Seq::<Ast>::empty()));
                        assert(t0.1 =~= asts_of(rest@));
                    }
                    break;
                }
            }
            if rest.len() == 0 {
                proof {
                    assert(t0.1 =~= Seq::<Ast>::empty());
                }
                Some((cur, Statement::Evaluate(e1)))
            } else {
                let mut all: Vec<Expression> = Vec::new();
                all.push(e1);
                let mut rest_m = rest;
                all.append(&mut rest_m);
                proof {
                    assert(asts_of(all@) =~= seq![e1@] + t0.1);
                }
                Some((cur, Statement::Assign(all)))
            }
        },
    }
}

/// The sequence of statement views a statement vector denotes.
pub open spec fn stmts_of(v: Seq<Statement>) -> Seq<StmtView> {
    Seq::new(v.len(), |i: int| v[i]@)
}

/// A program, as `s_program` describes. Never fails; parsing stops at
/// the first unparsable statement.
#[verifier::rlimit(100)]
#[verifier::spinoff_prover]
pub fn program(input: &Vec<char>, pos: usize) -> (r: (usize, Vec<Statement>))
    requires
        pos <= input@.len(),
    ensures
        r.0 == s_program(input@, pos as nat).0,
        stmts_of(r.1@) =~= s_program(input@, pos as nat).1,
        forall|i: int| 0 <= i < r.1@.len() ==> stmt_ast_wf(#[trigger] r.1@[i]@),
        pos <= r.0 <= input@.len(),
    decreases input@.len() - pos, 9int,
{
    let p0 = ws0(input, pos, true);
    let first = if p0 >= pos && p0 <= input.len() {
        statement(input, p0)
    } else {
        None
    };
    match first {
        None => {
            proof {
                assert(stmts_of(Seq::<Statement>::empty()) =~= Seq::<StmtView>::empty());
            }
            (p0, Vec::new())
        },
        Some((p1, st1)) => {
            let mut out: Vec<Statement> = Vec::new();
            out.push(st1);
            let mut cur = p1;
            let ghost t0 = s_prog_tail(input@, p1 as nat);
            proof {
                assert(stmts_of(out@.skip(1)) =~= Seq::<StmtView>::empty());
                assert(Seq::<StmtView>::empty() + t0.1 =~= t0.1);
            }
            loop
                invariant
                    pos <= p1 <= cur <= input@.len(),
                    out@.len() >= 1,
                    out@[0] == st1,
                    forall|k: int| 0 <= k < out@.len() ==> stmt_ast_wf((#[trigger] out@[k])@),
                    t0 == s_prog_tail(input@, p1 as nat),
                    t0.0 == s_prog_tail(input@, cur as nat).0,
                    t0.1 =~= stmts_of(out@.skip(1)) + s_prog_tail(input@, cur as nat).1,
                ensures
                    pos <= cur <= input@.len(),
                    out@.len() >= 1,
                    out@[0] == st1,
                    forall|k: int| 0 <= k < out@.len() ==> stmt_ast_wf((#[trigger] out@[k])@),
                    t0.0 == cur,
                    t0.1 =~= stmts_of(out@.skip(1)),
                decreases input@.len() - cur,
            {
                let pc = ws0(input, cur, false);
                if pc < input.len() && input[pc] == '\n' {
                    let pn = ws0(input, pc + 1, true);
                    if pn > cur && pn <= input.len() {
                        match statement(input, pn) {
                            Some((p2, st)) => {
                                if p2 > cur && p2 <= input.len() {
                                    proof {
                                        assert(stmts_of(out@.push(st).skip(1)) =~= stmts_of(
                                            out@.skip(1),
                                        ).push(st@));
                                        assert(stmts_of(out@.skip(1)).push(st@) + s_prog_tail(
                                            input@,
                                            p2 as nat,
                                        ).1 =~= stmts_of(out@.skip(1)) + (seq![st@] + s_prog_tail(
                                            input@,
                                            p2 as nat,
                                        ).1));
                                    }
                                    out.push(st);
                                    cur = p2;
                                } else {
                                    proof {
                                        assert(s_prog_tail(input@, cur as nat) == (
                                            cur as nat,
                                            Seq::<StmtView>::empty(),
                                        ));
                                        assert(t0.1 =~= stmts_of(out@.skip(1)));
                                    }
                                    break;
                                }
                            },
                            None => {
                                proof {
                                    assert(s_prog_tail(input@, cur as nat) == (
                                        cur as nat,
                                        Seq::<StmtView>::empty(),
                                    ));
                                    assert(t0.1 =~= stmts_of(out@.skip(1)));
                                }
                                break;
                            },
                        }
                    } else {
                        proof {
                            assert(s_prog_tail(input@, cur as nat) == (
                                cur as nat,
                                Seq::<StmtView>::empty(),
                            ));
                            assert(t0.1 =~= stmts_of(out@.skip(1)));
                        }
                        break;
                    }
                } else {
                    proof {
                        assert(s_prog_tail(input@, cur as nat) == (
                            cur as nat,
                            Seq::<StmtView>::empty(),
                        ));
                        assert(t0.1 =~= stmts_of(out@.skip(1)));
                    }
                    break;
                }
            }
            let pe = ws0(input, cur, true);
            proof {
                assert(stmts_of(out@) =~= seq![out@[0]@] + stmts_of(out@.skip(1)));
            }
            (pe, out)
        },
    }
}

/// Parse a whole program; any input beyond the longest parsable prefix
/// is reported as an unexpected character.
pub fn parse(input: &str) -> (r: Result<Code, ParseError>)
    ensures
        ({
            let (p, stmts) = s_program(input@, 0);
            match r {
                Ok(code) => p == input@.len() && code@ == stmts && (forall|i: int|
                    0 <= i < stmts.len() ==> stmt_ast_wf(#[trigger] stmts[i])),
                Err(e) => match e {
                    ParseError::Incomplete(c) => p < input@.len() && c == input@[p as int],
                },
            }
        }),
{
    let chars = crate::text::str_to_chars(input);
    let (p, stmts) = program(&chars, 0);
    if p == chars.len() {
        let code = Code { statements: stmts };
        proof {
            assert(code@ =~= stmts_of(stmts@));
        }
        Ok(code)
    } else {
        Err(ParseError::Incomplete(chars[p]))
    }
}

} // verus!
