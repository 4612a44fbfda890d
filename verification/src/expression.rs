//! Runtime expressions: trees over values, references to shared thunks
//! in the program's store, and calls of named functions.
//!
//! `ArgumentIndex` nodes stand only in a function's body template;
//! substituting a call's argument thunks replaces them, so no live
//! expression holds one.

use vstd::prelude::*;

use crate::value::{Value, ValView, val_wf};

verus! {

broadcast use vstd::std_specs::vec::axiom_vec_index_decreases, vstd::std_specs::vec::axiom_vec_decreases_to_view;

/// A runtime expression. Thunks and functions are referenced by their
/// indices in the program's stores.
pub enum Expression {
    Value(Value),
    Argument(usize),
    Constant(usize),
    Neg(Box<Expression>),
    Add(Box<Expression>, Box<Expression>),
    Sub(Box<Expression>, Box<Expression>),
    Mul(Box<Expression>, Box<Expression>),
    Div(Box<Expression>, Box<Expression>),
    Pow(Box<Expression>, Box<Expression>),
    Call(usize, Vec<Expression>),
    ArgumentIndex(usize),
}

/// The mathematical content of a runtime expression.
#[verifier::ext_equal]
pub enum ExprV {
    Value(ValView),
    Argument(usize),
    Constant(usize),
    Neg(Box<ExprV>),
    Add(Box<ExprV>, Box<ExprV>),
    Sub(Box<ExprV>, Box<ExprV>),
    Mul(Box<ExprV>, Box<ExprV>),
    Div(Box<ExprV>, Box<ExprV>),
    Pow(Box<ExprV>, Box<ExprV>),
    Call(usize, Seq<ExprV>),
    ArgumentIndex(usize),
}

pub open spec fn ev(e: Expression) -> ExprV
    decreases e,
{
    match e {
        Expression::Value(v) => ExprV::Value(v@),
        Expression::Argument(t) => ExprV::Argument(t),
        Expression::Constant(t) => ExprV::Constant(t),
        Expression::Neg(x) => ExprV::Neg(Box::new(ev(*x))),
        Expression::Add(a, b) => ExprV::Add(Box::new(ev(*a)), Box::new(ev(*b))),
        Expression::Sub(a, b) => ExprV::Sub(Box::new(ev(*a)), Box::new(ev(*b))),
        Expression::Mul(a, b) => ExprV::Mul(Box::new(ev(*a)), Box::new(ev(*b))),
        Expression::Div(a, b) => ExprV::Div(Box::new(ev(*a)), Box::new(ev(*b))),
        Expression::Pow(a, b) => ExprV::Pow(Box::new(ev(*a)), Box::new(ev(*b))),
        Expression::Call(f, args) => ExprV::Call(
            f,
            Seq::new(
                args@.len(),
                |i: int|
                    if 0 <= i < args@.len() {
                        ev(args[i])
                    } else {
                        ExprV::ArgumentIndex(0)
                    },
            ),
        ),
        Expression::ArgumentIndex(i) => ExprV::ArgumentIndex(i),
    }
}

impl View for Expression {
    type V = ExprV;

    open spec fn view(&self) -> ExprV {
        ev(*self)
    }
}

pub open spec fn evs(v: Seq<Expression>) -> Seq<ExprV> {
    Seq::new(v.len(), |i: int| ev(v[i]))
}

/// A `Call` node's content is its function and its arguments.
pub proof fn lemma_call_ev(f: usize, args: Vec<Expression>)
    ensures
        ev(Expression::Call(f, args)) == ExprV::Call(f, evs(args@)),
{
    let a = ev(Expression::Call(f, args));
    assert(a is Call && a->Call_0 == f);
    assert(a->Call_1.len() == args@.len());
    assert forall|i: int| 0 <= i < args@.len() implies a->Call_1[i] == evs(args@)[i] by {
        assert(args[i] == args@[i]);
    }
    assert(a->Call_1 =~= evs(args@));
    assert(a =~= ExprV::Call(f, evs(args@)));
}

/// Every value leaf of the expression is well-formed, every thunk
/// reference is within the store, every call names a declared function
/// with the right number of arguments, and no template placeholder
/// remains.
pub open spec fn expr_wf(e: ExprV, n_thunks: nat, arities: Seq<nat>) -> bool
    decreases e,
{
    match e {
        ExprV::Value(v) => val_wf(v),
        ExprV::Argument(t) => t < n_thunks,
        ExprV::Constant(t) => t < n_thunks,
        ExprV::Neg(x) => expr_wf(*x, n_thunks, arities),
        ExprV::Add(a, b) => expr_wf(*a, n_thunks, arities) && expr_wf(*b, n_thunks, arities),
        ExprV::Sub(a, b) => expr_wf(*a, n_thunks, arities) && expr_wf(*b, n_thunks, arities),
        ExprV::Mul(a, b) => expr_wf(*a, n_thunks, arities) && expr_wf(*b, n_thunks, arities),
        ExprV::Div(a, b) => expr_wf(*a, n_thunks, arities) && expr_wf(*b, n_thunks, arities),
        ExprV::Pow(a, b) => expr_wf(*a, n_thunks, arities) && expr_wf(*b, n_thunks, arities),
        ExprV::Call(f, args) => f < arities.len() && args.len() == arities[f as int] && (forall|
            i: int,
        |
            0 <= i < args.len() ==> expr_wf(#[trigger] args[i], n_thunks, arities)),
        ExprV::ArgumentIndex(_) => false,
    }
}

/// A function body template: like `expr_wf`, but placeholders up to
/// the function's parameter count are allowed.
pub open spec fn template_wf(e: ExprV, n_thunks: nat, arities: Seq<nat>, n_params: nat) -> bool
    decreases e,
{
    match e {
        ExprV::ArgumentIndex(i) => i < n_params,
        ExprV::Value(v) => val_wf(v),
        ExprV::Argument(t) => t < n_thunks,
        ExprV::Constant(t) => t < n_thunks,
        ExprV::Neg(x) => template_wf(*x, n_thunks, arities, n_params),
        ExprV::Add(a, b) => template_wf(*a, n_thunks, arities, n_params) && template_wf(
            *b,
            n_thunks,
            arities,
            n_params,
        ),
        ExprV::Sub(a, b) => template_wf(*a, n_thunks, arities, n_params) && template_wf(
            *b,
            n_thunks,
            arities,
            n_params,
        ),
        ExprV::Mul(a, b) => template_wf(*a, n_thunks, arities, n_params) && template_wf(
            *b,
            n_thunks,
            arities,
            n_params,
        ),
        ExprV::Div(a, b) => template_wf(*a, n_thunks, arities, n_params) && template_wf(
            *b,
            n_thunks,
            arities,
            n_params,
        ),
        ExprV::Pow(a, b) => template_wf(*a, n_thunks, arities, n_params) && template_wf(
            *b,
            n_thunks,
            arities,
            n_params,
        ),
        ExprV::Call(f, args) => f < arities.len() && args.len() == arities[f as int] && (forall|
            i: int,
        |
            0 <= i < args.len() ==> template_wf(#[trigger] args[i], n_thunks, arities, n_params)),
    }
}

/// Substituting argument thunks for placeholders.
pub open spec fn subst(e: ExprV, ids: Seq<usize>) -> ExprV
    decreases e,
{
    match e {
        ExprV::ArgumentIndex(i) => {
            if i < ids.len() {
                ExprV::Argument(ids[i as int])
            } else {
                e
            }
        },
        ExprV::Value(_) => e,
        ExprV::Argument(_) => e,
        ExprV::Constant(_) => e,
        ExprV::Neg(x) => ExprV::Neg(Box::new(subst(*x, ids))),
        ExprV::Add(a, b) => ExprV::Add(Box::new(subst(*a, ids)), Box::new(subst(*b, ids))),
        ExprV::Sub(a, b) => ExprV::Sub(Box::new(subst(*a, ids)), Box::new(subst(*b, ids))),
        ExprV::Mul(a, b) => ExprV::Mul(Box::new(subst(*a, ids)), Box::new(subst(*b, ids))),
        ExprV::Div(a, b) => ExprV::Div(Box::new(subst(*a, ids)), Box::new(subst(*b, ids))),
        ExprV::Pow(a, b) => ExprV::Pow(Box::new(subst(*a, ids)), Box::new(subst(*b, ids))),
        ExprV::Call(f, args) => ExprV::Call(
            f,
            Seq::new(
                args.len(),
                |i: int|
                    if 0 <= i < args.len() {
                        subst(args[i], ids)
                    } else {
                        ExprV::ArgumentIndex(0)
                    },
            ),
        ),
    }
}

impl Expression {
    /// Well-formed against a store of `n_thunks` thunks and functions
    /// with the given arities.
    pub open spec fn wf(&self, n_thunks: nat, arities: Seq<nat>) -> bool {
        expr_wf(self@, n_thunks, arities)
    }

    /// A copy denoting the same expression.
    #[verifier::loop_isolation(false)]
    pub fn duplicate(&self) -> (r: Expression)
        ensures
            r@ == self@,
        decreases self,
    {
        match self {
            Expression::Value(v) => Expression::Value(v.duplicate()),
            Expression::Argument(t) => Expression::Argument(*t),
            Expression::Constant(t) => Expression::Constant(*t),
            Expression::Neg(x) => Expression::Neg(Box::new(x.duplicate())),
            Expression::Add(a, b) => Expression::Add(
                Box::new(a.duplicate()),
                Box::new(b.duplicate()),
            ),
            Expression::Sub(a, b) => Expression::Sub(
                Box::new(a.duplicate()),
                Box::new(b.duplicate()),
            ),
            Expression::Mul(a, b) => Expression::Mul(
                Box::new(a.duplicate()),
                Box::new(b.duplicate()),
            ),
            Expression::Div(a, b) => Expression::Div(
                Box::new(a.duplicate()),
                Box::new(b.duplicate()),
            ),
            Expression::Pow(a, b) => Expression::Pow(
                Box::new(a.duplicate()),
                Box::new(b.duplicate()),
            ),
            Expression::Call(f, args) => {
                let mut out: Vec<Expression> = Vec::new();
                let mut i: usize = 0;
                while i < args.len()
                    invariant
                        i <= args.len(),
                        out@.len() == i,
                        forall|j: int| 0 <= j < i ==> ev(out@[j]) == ev(args@[j]),
                    decreases args.len() - i,
                {
                    proof {
                        assert(decreases_to!(*self => (*self)->Call_1));
                        assert((*self)->Call_1 == *args);
                        assert(decreases_to!(*args => args[i as int]));
                    }
                    out.push(args[i].duplicate());
                    i = i + 1;
                }
                let r = Expression::Call(*f, out);
                proof {
                    lemma_call_ev(*f, out);
                    lemma_call_ev(*f, *args);
                    assert(evs(out@) =~= evs(args@));
                    assert(r@ =~= self@);
                }
                r
            },
            Expression::ArgumentIndex(i) => Expression::ArgumentIndex(*i),
        }
    }

    /// Replace each placeholder with its call-time argument thunk.
    pub fn substitute_args(&mut self, ids: &Vec<usize>)
        ensures
            final(self)@ == subst(old(self)@, ids@),
    {
        let out = substitute_expr(self, ids);
        *self = out;
    }

    /// The held value, for an already-reduced expression.
    pub fn value_if_found(&self) -> (r: Option<&Value>)
        ensures
            match r {
                Some(v) => self@ == ExprV::Value(v@),
                None => !(self@ is Value),
            },
    {
        if let Expression::Value(v) = self {
            Some(v)
        } else {
            None
        }
    }

    /// Whether this is the uninitialized-binding sentinel.
    pub fn is_default(&self) -> (r: bool)
        ensures
            r == (self@ == ExprV::ArgumentIndex(usize::MAX)),
    {
        if let Expression::ArgumentIndex(i) = self {
            *i == usize::MAX
        } else {
            false
        }
    }
}

/// `substitute_args`, building a fresh expression.
#[verifier::loop_isolation(false)]
fn substitute_expr(e: &Expression, ids: &Vec<usize>) -> (r: Expression)
    ensures
        r@ == subst(e@, ids@),
    decreases e,
{
    match e {
        Expression::ArgumentIndex(i) => {
            if *i < ids.len() {
                Expression::Argument(ids[*i])
            } else {
                Expression::ArgumentIndex(*i)
            }
        },
        Expression::Value(v) => Expression::Value(v.duplicate()),
        Expression::Argument(t) => Expression::Argument(*t),
        Expression::Constant(t) => Expression::Constant(*t),
        Expression::Neg(x) => Expression::Neg(Box::new(substitute_expr(x, ids))),
        Expression::Add(a, b) => Expression::Add(
            Box::new(substitute_expr(a, ids)),
            Box::new(substitute_expr(b, ids)),
        ),
        Expression::Sub(a, b) => Expression::Sub(
            Box::new(substitute_expr(a, ids)),
            Box::new(substitute_expr(b, ids)),
        ),
        Expression::Mul(a, b) => Expression::Mul(
            Box::new(substitute_expr(a, ids)),
            Box::new(substitute_expr(b, ids)),
        ),
        Expression::Div(a, b) => Expression::Div(
            Box::new(substitute_expr(a, ids)),
            Box::new(substitute_expr(b, ids)),
        ),
        Expression::Pow(a, b) => Expression::Pow(
            Box::new(substitute_expr(a, ids)),
            Box::new(substitute_expr(b, ids)),
        ),
        Expression::Call(f, args) => {
            let mut out: Vec<Expression> = Vec::new();
            let mut i: usize = 0;
            while i < args.len()
                invariant
                    i <= args@.len(),
                    out@.len() == i,
                    forall|j: int| 0 <= j < i ==> ev(out@[j]) == subst(ev(args@[j]), ids@),
                decreases args@.len() - i,
            {
                proof {
                    assert(decreases_to!(*e => (*e)->Call_1));
                    assert((*e)->Call_1 == *args);
                    assert(decreases_to!(*args => args[i as int]));
                }
                out.push(substitute_expr(&args[i], ids));
                i = i + 1;
            }
            let r = Expression::Call(*f, out);
            proof {
                lemma_call_ev(*f, out);
                lemma_call_ev(*f, *args);
                assert(evs(out@) =~= subst(ExprV::Call(*f, evs(args@)), ids@)->Call_1);
                assert(r@ =~= subst(ExprV::Call(*f, evs(args@)), ids@));
            }
            r
        },
    }
}

/// The outcome of reducing one expression: finished, or first reduce
/// the named constant's thunk and retry.
pub enum SimplifyResult {
    Done,
    SimplifyConstant(usize),
}

} // verus!
