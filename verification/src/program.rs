//! The program registry and the lazy evaluator.
//!
//! All thunks (named constants and call-time argument thunks) live in
//! one store, referenced by index; expressions hold indices, so
//! redefining or deleting a name never invalidates an expression
//! compiled earlier. A thunk memoizes its value once computed, and the
//! memo is never overwritten.
//!
//! The evaluator is a driver loop over an explicit focus stack, so its
//! native call-stack use is bounded regardless of expression depth. It
//! checks the cancellation flag between steps and detects reduction
//! cycles by re-entry into a thunk that is already being reduced,
//! which yields the undefined "infinite loop" value.

use vstd::prelude::*;
use vstd::pervasive::VecAdditionalExecFns;

use crate::ctrlc_handler::CtrlCError;
use crate::environment::EvaluationEnvironemnt;
use crate::expression::{Expression, ExprV, ev, expr_wf, template_wf, subst, evs, lemma_call_ev};
use crate::garbage::dispose;
use crate::value::{Value, ValView, Undefined, val_wf, val_neg, val_add, val_sub, val_mul, val_div,
    val_pow, val_is_zero, val_is_one, val_pow_in_capacity};

verus! {

broadcast use vstd::std_specs::vec::axiom_vec_index_decreases, vstd::std_specs::vec::axiom_vec_decreases_to_view;

/// Why an evaluation ended without a value.
pub enum ProgramError {
    /// The cancellation flag was set.
    Cancelled(CtrlCError),
    /// The step budget was exhausted.
    OutOfFuel,
    /// A power's exponent exceeded the machine capacity cap.
    CapacityExceeded,
    /// A reference to a binding that was never initialized, or a
    /// template placeholder outside any function body: a broken
    /// program.
    Unresolved,
}

/// A shared, memoizing cell: an expression and its at-most-once cached
/// value. `busy` marks a thunk whose reduction is in progress.
pub struct Thunk {
    pub expr: Expression,
    pub value: Option<Value>,
    pub busy: bool,
}

/// A named function: parameter count and, once initialized, the body
/// template.
pub struct Function {
    pub n_params: usize,
    pub body: Option<Expression>,
}

/// What a name is bound to.
pub enum Binding {
    Constant(usize),
    Function(usize),
    Removed,
}

pub struct Def {
    pub name: String,
    pub binding: Binding,
}

pub open spec fn arity_seq(funcs: Seq<Function>) -> Seq<nat> {
    Seq::new(funcs.len(), |i: int| funcs[i].n_params as nat)
}

/// The uninitialized-binding sentinel.
pub open spec fn sentinel() -> ExprV {
    ExprV::ArgumentIndex(usize::MAX)
}

/// A stored thunk: its cached value (if any) is well-formed, and its
/// expression is well-formed unless it is a placeholder.
pub open spec fn thunk_wf(t: Thunk, n: nat, ar: Seq<nat>) -> bool {
    &&& match t.value {
        Some(v) => val_wf(v@),
        None => true,
    }
    &&& (expr_wf(t.expr@, n, ar) || t.expr@ is ArgumentIndex)
}

pub open spec fn func_wf(f: Function, n: nat, ar: Seq<nat>) -> bool {
    match f.body {
        Some(b) => template_wf(b@, n, ar, f.n_params as nat),
        None => true,
    }
}

/// The second cache could have grown out of the first: a cached value
/// stays cached, denoting the same value.
pub open spec fn val_opt_matches(a: Option<Value>, b: Option<Value>) -> bool {
    match a {
        Some(x) => b matches Some(y) && y@ == x@,
        None => true,
    }
}

/// Caches only grow, and a cached value is never changed.
pub open spec fn thunks_monotone(a: Seq<Thunk>, b: Seq<Thunk>) -> bool {
    &&& a.len() <= b.len()
    &&& forall|i: int|
        0 <= i < a.len() ==> val_opt_matches(#[trigger] a[i].value, b[i].value)
}

pub proof fn lemma_monotone_trans(a: Seq<Thunk>, b: Seq<Thunk>, c: Seq<Thunk>)
    requires
        thunks_monotone(a, b),
        thunks_monotone(b, c),
    ensures
        thunks_monotone(a, c),
{
    assert forall|i: int| 0 <= i < a.len() implies val_opt_matches(
        #[trigger] a[i].value,
        c[i].value,
    ) by {
        assert(val_opt_matches(a[i].value, b[i].value));
        assert(val_opt_matches(b[i].value, c[i].value));
    }
}

pub proof fn lemma_frame_wf_mono(f: Frame, n1: nat, n2: nat, ar: Seq<nat>)
    requires
        frame_wf(f, n1, ar),
        n1 <= n2,
    ensures
        frame_wf(f, n2, ar),
{
    match f {
        Frame::NegF => {},
        Frame::BinL(_, r) => lemma_expr_wf_mono(r@, n1, n2, ar),
        Frame::BinR(_, l) => lemma_expr_wf_mono(l@, n1, n2, ar),
    }
}

/// Binary operator kinds.
#[derive(Clone, Copy, PartialEq, Eq, Structural)]
pub enum BinOp {
    Add,
    Sub,
    Mul,
    Div,
    Pow,
}

pub open spec fn bin_view(op: BinOp, a: ExprV, b: ExprV) -> ExprV {
    match op {
        BinOp::Add => ExprV::Add(Box::new(a), Box::new(b)),
        BinOp::Sub => ExprV::Sub(Box::new(a), Box::new(b)),
        BinOp::Mul => ExprV::Mul(Box::new(a), Box::new(b)),
        BinOp::Div => ExprV::Div(Box::new(a), Box::new(b)),
        BinOp::Pow => ExprV::Pow(Box::new(a), Box::new(b)),
    }
}

pub open spec fn val_op(op: BinOp, a: ValView, b: ValView) -> ValView {
    match op {
        BinOp::Add => val_add(a, b),
        BinOp::Sub => val_sub(a, b),
        BinOp::Mul => val_mul(a, b),
        BinOp::Div => val_div(a, b),
        BinOp::Pow => val_pow(a, b),
    }
}

/// A suspended context frame: the focus is one operand; the frame
/// holds the operator and the other operand.
pub enum Frame {
    NegF,
    BinL(BinOp, Expression),
    BinR(BinOp, Expression),
}

/// Plugging a focus expression back into a frame.
pub open spec fn frame_plug(f: Frame, x: ExprV) -> ExprV {
    match f {
        Frame::NegF => ExprV::Neg(Box::new(x)),
        Frame::BinL(op, r) => bin_view(op, x, r@),
        Frame::BinR(op, l) => bin_view(op, l@, x),
    }
}

pub open spec fn frame_wf(f: Frame, n: nat, ar: Seq<nat>) -> bool {
    match f {
        Frame::NegF => true,
        Frame::BinL(_, r) => expr_wf(r@, n, ar),
        Frame::BinR(_, l) => expr_wf(l@, n, ar),
    }
}

/// Rebuilding a whole tree from a focus and its context stack.
pub open spec fn rebuild_view(ctx: Seq<Frame>, x: ExprV) -> ExprV
    decreases ctx.len(),
{
    if ctx.len() == 0 {
        x
    } else {
        rebuild_view(ctx.drop_last(), frame_plug(ctx.last(), x))
    }
}

/// The only focus expressions on which a reduction step may fail:
/// a power of two reduced operands beyond the capacity cap, or a call
/// of a function whose body was never installed.
pub open spec fn step_capacity_stop(e: ExprV) -> bool {
    &&& e matches ExprV::Pow(a, b)
    &&& *a matches ExprV::Value(x)
    &&& *b matches ExprV::Value(y)
    &&& !val_pow_in_capacity(x, y)
}

pub open spec fn step_unresolved_stop(e: ExprV, funcs: Seq<Function>) -> bool {
    &&& e matches ExprV::Call(f, _)
    &&& f < funcs.len()
    &&& funcs[f as int].body is None
}

/// One small-step outcome of inspecting a focus expression.
pub enum Step {
    /// The node was rewritten in place.
    Rewritten(Expression),
    /// Descend: push the frame, focus on the subterm.
    Focus(Frame, Expression),
    /// Reduce this thunk first, then retry; the unreduced reference
    /// node is handed back.
    NeedThunk(usize, Expression),
}

/// Well-formedness of the whole store.
pub open spec fn store_wf(thunks: Seq<Thunk>, funcs: Seq<Function>) -> bool {
    &&& forall|i: int|
        0 <= i < thunks.len() ==> thunk_wf(#[trigger] thunks[i], thunks.len(), arity_seq(funcs))
    &&& forall|i: int|
        0 <= i < funcs.len() ==> func_wf(#[trigger] funcs[i], thunks.len(), arity_seq(funcs))
}

/// Well-formedness of an expression survives growing the thunk store.
pub proof fn lemma_expr_wf_mono(e: ExprV, n1: nat, n2: nat, ar: Seq<nat>)
    requires
        expr_wf(e, n1, ar),
        n1 <= n2,
    ensures
        expr_wf(e, n2, ar),
    decreases e,
{
    match e {
        ExprV::Neg(x) => lemma_expr_wf_mono(*x, n1, n2, ar),
        ExprV::Add(a, b) => {
            lemma_expr_wf_mono(*a, n1, n2, ar);
            lemma_expr_wf_mono(*b, n1, n2, ar);
        },
        ExprV::Sub(a, b) => {
            lemma_expr_wf_mono(*a, n1, n2, ar);
            lemma_expr_wf_mono(*b, n1, n2, ar);
        },
        ExprV::Mul(a, b) => {
            lemma_expr_wf_mono(*a, n1, n2, ar);
            lemma_expr_wf_mono(*b, n1, n2, ar);
        },
        ExprV::Div(a, b) => {
            lemma_expr_wf_mono(*a, n1, n2, ar);
            lemma_expr_wf_mono(*b, n1, n2, ar);
        },
        ExprV::Pow(a, b) => {
            lemma_expr_wf_mono(*a, n1, n2, ar);
            lemma_expr_wf_mono(*b, n1, n2, ar);
        },
        ExprV::Call(f, args) => {
            assert forall|i: int| 0 <= i < args.len() implies expr_wf(
                #[trigger] args[i],
                n2,
                ar,
            ) by {
                lemma_expr_wf_mono(args[i], n1, n2, ar);
            }
        },
        _ => {},
    }
}

/// Well-formedness of a template survives growing the thunk store.
pub proof fn lemma_template_wf_mono(e: ExprV, n1: nat, n2: nat, ar: Seq<nat>, k: nat)
    requires
        template_wf(e, n1, ar, k),
        n1 <= n2,
    ensures
        template_wf(e, n2, ar, k),
    decreases e,
{
    match e {
        ExprV::Neg(x) => lemma_template_wf_mono(*x, n1, n2, ar, k),
        ExprV::Add(a, b) => {
            lemma_template_wf_mono(*a, n1, n2, ar, k);
            lemma_template_wf_mono(*b, n1, n2, ar, k);
        },
        ExprV::Sub(a, b) => {
            lemma_template_wf_mono(*a, n1, n2, ar, k);
            lemma_template_wf_mono(*b, n1, n2, ar, k);
        },
        ExprV::Mul(a, b) => {
            lemma_template_wf_mono(*a, n1, n2, ar, k);
            lemma_template_wf_mono(*b, n1, n2, ar, k);
        },
        ExprV::Div(a, b) => {
            lemma_template_wf_mono(*a, n1, n2, ar, k);
            lemma_template_wf_mono(*b, n1, n2, ar, k);
        },
        ExprV::Pow(a, b) => {
            lemma_template_wf_mono(*a, n1, n2, ar, k);
            lemma_template_wf_mono(*b, n1, n2, ar, k);
        },
        ExprV::Call(f, args) => {
            assert forall|i: int| 0 <= i < args.len() implies template_wf(
                #[trigger] args[i],
                n2,
                ar,
                k,
            ) by {
                lemma_template_wf_mono(args[i], n1, n2, ar, k);
            }
        },
        _ => {},
    }
}

/// Substituting in-range thunk indices for all placeholders of a
/// well-formed template gives a well-formed expression.
pub proof fn lemma_subst_wf(e: ExprV, n: nat, ar: Seq<nat>, k: nat, ids: Seq<usize>)
    requires
        template_wf(e, n, ar, k),
        ids.len() == k,
        forall|i: int| 0 <= i < ids.len() ==> #[trigger] ids[i] < n,
    ensures
        expr_wf(subst(e, ids), n, ar),
    decreases e,
{
    match e {
        ExprV::Neg(x) => lemma_subst_wf(*x, n, ar, k, ids),
        ExprV::Add(a, b) => {
            lemma_subst_wf(*a, n, ar, k, ids);
            lemma_subst_wf(*b, n, ar, k, ids);
        },
        ExprV::Sub(a, b) => {
            lemma_subst_wf(*a, n, ar, k, ids);
            lemma_subst_wf(*b, n, ar, k, ids);
        },
        ExprV::Mul(a, b) => {
            lemma_subst_wf(*a, n, ar, k, ids);
            lemma_subst_wf(*b, n, ar, k, ids);
        },
        ExprV::Div(a, b) => {
            lemma_subst_wf(*a, n, ar, k, ids);
            lemma_subst_wf(*b, n, ar, k, ids);
        },
        ExprV::Pow(a, b) => {
            lemma_subst_wf(*a, n, ar, k, ids);
            lemma_subst_wf(*b, n, ar, k, ids);
        },
        ExprV::Call(f, args) => {
            let sargs = subst(e, ids)->Call_1;
            assert forall|i: int| 0 <= i < sargs.len() implies expr_wf(
                #[trigger] sargs[i],
                n,
                ar,
            ) by {
                assert(sargs[i] == subst(args[i], ids));
                lemma_subst_wf(args[i], n, ar, k, ids);
            }
        },
        _ => {},
    }
}

/// Build a binary node.
fn make_node(op: BinOp, a: Expression, b: Expression) -> (r: Expression)
    ensures
        r@ == bin_view(op, a@, b@),
{
    match op {
        BinOp::Add => Expression::Add(Box::new(a), Box::new(b)),
        BinOp::Sub => Expression::Sub(Box::new(a), Box::new(b)),
        BinOp::Mul => Expression::Mul(Box::new(a), Box::new(b)),
        BinOp::Div => Expression::Div(Box::new(a), Box::new(b)),
        BinOp::Pow => Expression::Pow(Box::new(a), Box::new(b)),
    }
}

/// Plug a focus back into one frame.
fn plug(f: Frame, x: Expression) -> (r: Expression)
    ensures
        r@ == frame_plug(f, x@),
{
    match f {
        Frame::NegF => Expression::Neg(Box::new(x)),
        Frame::BinL(op, rr) => make_node(op, x, rr),
        Frame::BinR(op, ll) => make_node(op, ll, x),
    }
}

/// A rebuilt tree of well-formed parts is well-formed.
pub proof fn lemma_rebuild_wf(ctx: Seq<Frame>, x: ExprV, n: nat, ar: Seq<nat>)
    requires
        forall|i: int| 0 <= i < ctx.len() ==> frame_wf(#[trigger] ctx[i], n, ar),
        expr_wf(x, n, ar),
    ensures
        expr_wf(rebuild_view(ctx, x), n, ar),
    decreases ctx.len(),
{
    if ctx.len() > 0 {
        lemma_rebuild_wf(ctx.drop_last(), frame_plug(ctx.last(), x), n, ar);
    }
}

/// Rebuild the whole tree from a focus and its context stack.
#[verifier::loop_isolation(false)]
fn rebuild(ctx: &mut Vec<Frame>, x: Expression) -> (r: Expression)
    ensures
        r@ == rebuild_view(old(ctx)@, x@),
        final(ctx)@.len() == 0,
{
    let ghost c0 = ctx@;
    let ghost x0 = x@;
    let mut cur = x;
    loop
        invariant
            rebuild_view(c0, x0) == rebuild_view(ctx@, cur@),
        decreases ctx@.len(),
    {
        match ctx.pop() {
            None => {
                return cur;
            },
            Some(f) => {
                cur = plug(f, cur);
            },
        }
    }
}

/// The reduction rule for a reference to a thunk: a cached value is
/// used; re-entry into a thunk under reduction is a cycle and becomes
/// the undefined "infinite loop" value; otherwise the thunk must be
/// reduced first.
pub open spec fn ref_step_ok(t: usize, pre: Seq<Thunk>, s: Step) -> bool {
    t < pre.len() && match pre[t as int].value {
        Some(v) => s matches Step::Rewritten(e) && e@ == ExprV::Value(v@),
        None => {
            if pre[t as int].busy {
                s matches Step::Rewritten(e) && e@ == ExprV::Value(
                    ValView::Undef(Undefined::InfiniteLoop),
                )
            } else {
                s matches Step::NeedThunk(t2, leaf) && t2 == t && (leaf@ == ExprV::Argument(t)
                    || leaf@ == ExprV::Constant(t))
            }
        },
    }
}

/// Whether a left value operand absorbs the whole node: an undefined
/// operand of `+ - /`, a zero factor, a base of one.
pub open spec fn absorbs_left(op: BinOp, x: ValView) -> bool {
    match op {
        BinOp::Add => x is Undef,
        BinOp::Sub => x is Undef,
        BinOp::Div => x is Undef,
        BinOp::Mul => val_is_zero(x),
        BinOp::Pow => val_is_one(x),
    }
}

/// Whether a right value operand absorbs the whole node: an undefined
/// operand of `+ - /`, a zero factor, an exponent of zero.
pub open spec fn absorbs_right(op: BinOp, y: ValView) -> bool {
    match op {
        BinOp::Add => y is Undef,
        BinOp::Sub => y is Undef,
        BinOp::Div => y is Undef,
        BinOp::Mul => val_is_zero(y),
        BinOp::Pow => val_is_zero(y),
    }
}

/// What an absorbed node becomes: the absorbing value itself, except
/// that any power with exponent zero is one.
pub open spec fn absorbed_right(op: BinOp, y: ValView) -> ValView {
    match op {
        BinOp::Pow => ValView::Num(crate::rational::ratio_one()),
        _ => y,
    }
}

/// The reduction rule for a binary node, exactly one of:
/// both operands reduced and the operator computed; an absorbing value
/// operand rewriting the node at once (even with the other operand
/// unreduced - a zero factor absorbs an undefined or non-terminating
/// other side); or the focus moving to an unreduced operand, the coin
/// choosing between two.
pub open spec fn bin_step_ok(op: BinOp, a: ExprV, b: ExprV, s: Step) -> bool {
    match (a, b) {
        (ExprV::Value(x), ExprV::Value(y)) => s matches Step::Rewritten(e) && e@ == ExprV::Value(
            val_op(op, x, y),
        ),
        (ExprV::Value(x), _) => {
            if absorbs_left(op, x) {
                s matches Step::Rewritten(e) && e@ == ExprV::Value(x)
            } else {
                s matches Step::Focus(f, e) && f matches Frame::BinR(o, l) && o == op && l@ == a
                    && e@ == b
            }
        },
        (_, ExprV::Value(y)) => {
            if absorbs_right(op, y) {
                s matches Step::Rewritten(e) && e@ == ExprV::Value(absorbed_right(op, y))
            } else {
                s matches Step::Focus(f, e) && f matches Frame::BinL(o, r) && o == op && r@ == b
                    && e@ == a
            }
        },
        _ => {
            ||| (s matches Step::Focus(f, e) && f matches Frame::BinL(o, r) && o == op && r@ == b
                && e@ == a)
            ||| (s matches Step::Focus(f, e) && f matches Frame::BinR(o, l) && o == op && l@ == a
                && e@ == b)
        },
    }
}

/// The whole single-step reduction table.
pub open spec fn step_ok(
    cur: ExprV,
    pre: Seq<Thunk>,
    post: Seq<Thunk>,
    funcs: Seq<Function>,
    s: Step,
) -> bool {
    match cur {
        ExprV::Neg(x) => match *x {
            ExprV::Value(v) => s matches Step::Rewritten(e) && e@ == ExprV::Value(val_neg(v)),
            _ => s matches Step::Focus(f, e) && f is NegF && e@ == *x,
        },
        ExprV::Add(a, b) => bin_step_ok(BinOp::Add, *a, *b, s),
        ExprV::Sub(a, b) => bin_step_ok(BinOp::Sub, *a, *b, s),
        ExprV::Mul(a, b) => bin_step_ok(BinOp::Mul, *a, *b, s),
        ExprV::Div(a, b) => bin_step_ok(BinOp::Div, *a, *b, s),
        ExprV::Pow(a, b) => bin_step_ok(BinOp::Pow, *a, *b, s),
        ExprV::Argument(t) => ref_step_ok(t, pre, s),
        ExprV::Constant(t) => ref_step_ok(t, pre, s),
        ExprV::Call(f, args) => f < funcs.len() && match funcs[f as int].body {
            None => false,
            Some(body) => {
                &&& post.len() == pre.len() + args.len()
                &&& s matches Step::Rewritten(e) && e@ == subst(
                    body@,
                    Seq::new(args.len(), |i: int| (pre.len() + i) as usize),
                )
                &&& forall|i: int|
                    0 <= i < args.len() ==> (#[trigger] post[pre.len() + i].expr@ == args[i]
                        && post[pre.len() + i].value is None && !post[pre.len() + i].busy)
            },
        },
        ExprV::Value(_) => false,
        ExprV::ArgumentIndex(_) => false,
    }
}

/// One reduction step on a binary node.
fn bin_step(env: &mut EvaluationEnvironemnt, op: BinOp, a: Expression, b: Expression) -> (r:
    Result<Step, (ProgramError, Expression)>)
    requires
        old(env).wf(),
        a@ is Value ==> val_wf(a@->Value_0),
        b@ is Value ==> val_wf(b@->Value_0),
    ensures
        final(env).wf(),
        match r {
            Ok(s) => bin_step_ok(op, a@, b@, s) && (match s {
                Step::Rewritten(e) => e@ is Value && val_wf(e@->Value_0),
                Step::Focus(_, _) => true,
                Step::NeedThunk(_, _) => false,
            }),
            Err((e, back)) => e is CapacityExceeded && op is Pow && back@ == bin_view(op, a@, b@)
                && step_capacity_stop(bin_view(op, a@, b@)),
        },
{
    match (a, b) {
        (Expression::Value(x), Expression::Value(y)) => {
            match op {
                BinOp::Add => Ok(Step::Rewritten(Expression::Value(x.add(&y)))),
                BinOp::Sub => Ok(Step::Rewritten(Expression::Value(x.sub(&y)))),
                BinOp::Mul => Ok(Step::Rewritten(Expression::Value(x.mul(&y)))),
                BinOp::Div => Ok(Step::Rewritten(Expression::Value(x.div(&y)))),
                BinOp::Pow => match x.try_pow(&y) {
                    Some(v) => Ok(Step::Rewritten(Expression::Value(v))),
                    None => Err(
                        (
                            ProgramError::CapacityExceeded,
                            make_node(op, Expression::Value(x), Expression::Value(y)),
                        ),
                    ),
                },
            }
        },
        (Expression::Value(x), bb) => {
            let absorb = match op {
                BinOp::Add => x.is_undefined(),
                BinOp::Sub => x.is_undefined(),
                BinOp::Div => x.is_undefined(),
                BinOp::Mul => x.is_zero(),
                BinOp::Pow => x.is_one(),
            };
            if absorb {
                dispose(&mut env.garbage, bb);
                Ok(Step::Rewritten(Expression::Value(x)))
            } else {
                Ok(Step::Focus(Frame::BinR(op, Expression::Value(x)), bb))
            }
        },
        (aa, Expression::Value(y)) => {
            let absorb = match op {
                BinOp::Add => y.is_undefined(),
                BinOp::Sub => y.is_undefined(),
                BinOp::Div => y.is_undefined(),
                BinOp::Mul => y.is_zero(),
                BinOp::Pow => y.is_zero(),
            };
            if absorb {
                dispose(&mut env.garbage, aa);
                match op {
                    BinOp::Pow => Ok(
                        Step::Rewritten(
                            Expression::Value(Value::Number(crate::rational::Rational::one())),
                        ),
                    ),
                    _ => Ok(Step::Rewritten(Expression::Value(y))),
                }
            } else {
                Ok(Step::Focus(Frame::BinL(op, Expression::Value(y)), aa))
            }
        },
        (aa, bb) => {
            if env.gen_bool() {
                Ok(Step::Focus(Frame::BinL(op, bb), aa))
            } else {
                Ok(Step::Focus(Frame::BinR(op, aa), bb))
            }
        },
    }
}

pub open spec fn binding_ok(b: Binding, n_thunks: nat, n_funcs: nat) -> bool {
    match b {
        Binding::Constant(t) => t < n_thunks,
        Binding::Function(f) => f < n_funcs,
        Binding::Removed => true,
    }
}

/// The program: the thunk store, the function store, the name
/// bindings (later entries shadow earlier ones; superseded bindings
/// stay, so expressions compiled against them stay valid), and the
/// queue of expressions to evaluate.
pub struct Program {
    pub thunks: Vec<Thunk>,
    pub funcs: Vec<Function>,
    pub defs: Vec<Def>,
    pub to_evaluate: Vec<Expression>,
}

impl Program {
    pub open spec fn ar(&self) -> Seq<nat> {
        arity_seq(self.funcs@)
    }

    pub open spec fn n(&self) -> nat {
        self.thunks@.len()
    }

    pub open spec fn wf(&self) -> bool {
        &&& store_wf(self.thunks@, self.funcs@)
        &&& forall|i: int|
            0 <= i < self.defs@.len() ==> binding_ok(
                #[trigger] self.defs@[i].binding,
                self.n(),
                self.funcs@.len(),
            )
        &&& forall|i: int|
            0 <= i < self.to_evaluate@.len() ==> expr_wf(
                #[trigger] self.to_evaluate@[i]@,
                self.n(),
                self.ar(),
            )
    }

    /// No thunk is marked as being reduced.
    pub open spec fn clean(&self) -> bool {
        forall|i: int| 0 <= i < self.thunks@.len() ==> !(#[trigger] self.thunks@[i]).busy
    }

    /// Swap a thunk's expression, leaving its cached value and busy
    /// mark in place (the value as a copy denoting the same value).
    fn swap_expr(&mut self, t: usize, e: Expression) -> (r: Expression)
        requires
            t < old(self).thunks@.len(),
        ensures
            r == old(self).thunks@[t as int].expr,
            final(self).thunks@.len() == old(self).thunks@.len(),
            final(self).thunks@[t as int].expr == e,
            final(self).thunks@[t as int].busy == old(self).thunks@[t as int].busy,
            (final(self).thunks@[t as int].value matches Some(v) && old(self).thunks@[t as int].value
                matches Some(w) && v@ == w@) || (final(self).thunks@[t as int].value is None && old(
                self,
            ).thunks@[t as int].value is None),
            forall|i: int|
                0 <= i < final(self).thunks@.len() && i != t ==> final(self).thunks@[i] == old(self).thunks@[i],
            final(self).funcs == old(self).funcs,
            final(self).defs == old(self).defs,
            final(self).to_evaluate == old(self).to_evaluate,
    {
        let busy = self.thunks[t].busy;
        let value = match &self.thunks[t].value {
            None => None,
            Some(v) => Some(v.duplicate()),
        };
        let mut tmp = Thunk { expr: e, value, busy };
        self.thunks.set_and_swap(t, &mut tmp);
        let Thunk { expr: old_expr, value: _old_value, busy: _b } = tmp;
        old_expr
    }

    /// Set a thunk's cached value (write-once) and clear its busy mark.
    fn cache_value(&mut self, t: usize, v: Value)
        requires
            t < old(self).thunks@.len(),
            old(self).thunks@[t as int].value is None,
        ensures
            final(self).thunks@.len() == old(self).thunks@.len(),
            final(self).thunks@[t as int].value matches Some(w) && w@ == v@,
            final(self).thunks@[t as int].expr@ == ExprV::Value(v@),
            !final(self).thunks@[t as int].busy,
            forall|i: int|
                0 <= i < final(self).thunks@.len() && i != t ==> final(self).thunks@[i] == old(self).thunks@[i],
            final(self).funcs == old(self).funcs,
            final(self).defs == old(self).defs,
            final(self).to_evaluate == old(self).to_evaluate,
    {
        let copy = v.duplicate();
        let mut tmp = Thunk { expr: Expression::Value(copy), value: Some(v), busy: false };
        self.thunks.set_and_swap(t, &mut tmp);
    }

    /// One reduction step on a focus expression, following the
    /// reduction table in `step_ok`. The thunk store changes only by a
    /// call's fresh argument thunks.
    pub fn simplify_step(&mut self, env: &mut EvaluationEnvironemnt, cur: Expression) -> (r: Result<
        Step,
        (ProgramError, Expression),
    >)
        requires
            old(self).wf(),
            old(env).wf(),
            expr_wf(cur@, old(self).n(), old(self).ar()),
            !(cur@ is Value),
        ensures
            final(env).wf(),
            final(self).wf(),
            final(self).funcs == old(self).funcs,
            final(self).defs == old(self).defs,
            final(self).to_evaluate == old(self).to_evaluate,
            final(self).thunks@.len() >= old(self).thunks@.len(),
            forall|i: int|
                0 <= i < old(self).thunks@.len() ==> final(self).thunks@[i] == old(self).thunks@[i],
            forall|i: int|
                old(self).thunks@.len() <= i < final(self).thunks@.len() ==> ((#[trigger] final(self).thunks@[i]).value
                    is None && !final(self).thunks@[i].busy),
            match r {
                Ok(s) => step_ok(cur@, old(self).thunks@, final(self).thunks@, final(self).funcs@, s) && match s {
                    Step::Rewritten(e) => expr_wf(e@, final(self).n(), final(self).ar()),
                    Step::Focus(f, e) => frame_wf(f, final(self).n(), final(self).ar()) && expr_wf(
                        e@,
                        final(self).n(),
                        final(self).ar(),
                    ) && final(self).thunks@ == old(self).thunks@,
                    Step::NeedThunk(t, leaf) => t < final(self).thunks@.len() && leaf@ == cur@
                        && final(self).thunks@ == old(self).thunks@,
                },
                Err((e, back)) => back@ == cur@ && (match e {
                    ProgramError::CapacityExceeded => step_capacity_stop(cur@),
                    ProgramError::Unresolved => step_unresolved_stop(cur@, final(self).funcs@),
                    _ => false,
                }),
            },
    {
        match cur {
            Expression::Neg(x) => {
                let inner = *x;
                proof {
                    assert(cur@ == ExprV::Neg(Box::new(inner@)));
                    assert(expr_wf(inner@, old(self).n(), old(self).ar()));
                }
                match inner {
                    Expression::Value(v) => Ok(Step::Rewritten(Expression::Value(v.neg()))),
                    other => Ok(Step::Focus(Frame::NegF, other)),
                }
            },
            Expression::Add(a, b) => {
                proof {
                    assert(cur@ == ExprV::Add(Box::new(ev(*a)), Box::new(ev(*b))));
                    assert(expr_wf(ev(*a), old(self).n(), old(self).ar()));
                    assert(expr_wf(ev(*b), old(self).n(), old(self).ar()));
                }
                bin_step(env, BinOp::Add, *a, *b)
            },
            Expression::Sub(a, b) => {
                proof {
                    assert(cur@ == ExprV::Sub(Box::new(ev(*a)), Box::new(ev(*b))));
                    assert(expr_wf(ev(*a), old(self).n(), old(self).ar()));
                    assert(expr_wf(ev(*b), old(self).n(), old(self).ar()));
                }
                bin_step(env, BinOp::Sub, *a, *b)
            },
            Expression::Mul(a, b) => {
                proof {
                    assert(cur@ == ExprV::Mul(Box::new(ev(*a)), Box::new(ev(*b))));
                    assert(expr_wf(ev(*a), old(self).n(), old(self).ar()));
                    assert(expr_wf(ev(*b), old(self).n(), old(self).ar()));
                }
                bin_step(env, BinOp::Mul, *a, *b)
            },
            Expression::Div(a, b) => {
                proof {
                    assert(cur@ == ExprV::Div(Box::new(ev(*a)), Box::new(ev(*b))));
                    assert(expr_wf(ev(*a), old(self).n(), old(self).ar()));
                    assert(expr_wf(ev(*b), old(self).n(), old(self).ar()));
                }
                bin_step(env, BinOp::Div, *a, *b)
            },
            Expression::Pow(a, b) => {
                proof {
                    assert(cur@ == ExprV::Pow(Box::new(ev(*a)), Box::new(ev(*b))));
                    assert(expr_wf(ev(*a), old(self).n(), old(self).ar()));
                    assert(expr_wf(ev(*b), old(self).n(), old(self).ar()));
                }
                bin_step(env, BinOp::Pow, *a, *b)
            },
            Expression::Argument(t) => {
                proof {
                    assert(cur@ == ExprV::Argument(t));
                }
                self.ref_step(t, Expression::Argument(t))
            },
            Expression::Constant(t) => {
                proof {
                    assert(cur@ == ExprV::Constant(t));
                }
                self.ref_step(t, Expression::Constant(t))
            },
            Expression::Call(f, args) => {
                proof {
                    lemma_call_ev(f, args);
                }
                self.call_step(env, f, args)
            },
            Expression::Value(v) => Err((ProgramError::Unresolved, Expression::Value(v))),
            Expression::ArgumentIndex(i) => Err(
                (ProgramError::Unresolved, Expression::ArgumentIndex(i)),
            ),
        }
    }

    /// The reference rule: cached value, cycle, or reduce-first.
    fn ref_step(&self, t: usize, leaf: Expression) -> (r: Result<Step, (ProgramError, Expression)>)
        requires
            self.wf(),
            t < self.thunks@.len(),
            leaf@ == ExprV::Argument(t) || leaf@ == ExprV::Constant(t),
        ensures
            match r {
                Ok(s) => ref_step_ok(t, self.thunks@, s) && match s {
                    Step::Rewritten(e) => expr_wf(e@, self.n(), self.ar()),
                    Step::Focus(_, _) => false,
                    Step::NeedThunk(t2, l) => t2 < self.thunks@.len() && l@ == leaf@,
                },
                Err(_) => false,
            },
    {
        match &self.thunks[t].value {
            Some(v) => Ok(Step::Rewritten(Expression::Value(v.duplicate()))),
            None => {
                if self.thunks[t].busy {
                    Ok(
                        Step::Rewritten(
                            Expression::Value(Value::Undefined(Undefined::InfiniteLoop)),
                        ),
                    )
                } else {
                    Ok(Step::NeedThunk(t, leaf))
                }
            },
        }
    }

    /// The call rule: wrap each argument in a fresh shared thunk and
    /// substitute them into a copy of the body template.
    #[verifier::loop_isolation(false)]
    fn call_step(&mut self, env: &mut EvaluationEnvironemnt, f: usize, args: Vec<Expression>) -> (r:
        Result<Step, (ProgramError, Expression)>)
        requires
            old(self).wf(),
            old(env).wf(),
            expr_wf(ExprV::Call(f, evs(args@)), old(self).n(), old(self).ar()),
        ensures
            final(self).wf(),
            final(self).funcs == old(self).funcs,
            final(self).defs == old(self).defs,
            final(self).to_evaluate == old(self).to_evaluate,
            final(env).wf(),
            final(env).garbage@.len() >= old(env).garbage@.len(),
            final(self).thunks@.len() >= old(self).thunks@.len(),
            forall|i: int|
                0 <= i < old(self).thunks@.len() ==> final(self).thunks@[i] == old(self).thunks@[i],
            forall|i: int|
                old(self).thunks@.len() <= i < final(self).thunks@.len() ==> ((#[trigger] final(self).thunks@[i]).value
                    is None && !final(self).thunks@[i].busy),
            match r {
                Ok(s) => step_ok(
                    ExprV::Call(f, evs(args@)),
                    old(self).thunks@,
                    final(self).thunks@,
                    final(self).funcs@,
                    s,
                ) && match s {
                    Step::Rewritten(e) => expr_wf(e@, final(self).n(), final(self).ar()),
                    _ => false,
                },
                Err((e, back)) => e is Unresolved && final(self).thunks@ == old(self).thunks@
                    && back@ == ExprV::Call(f, evs(args@)) && step_unresolved_stop(
                    ExprV::Call(f, evs(args@)),
                    final(self).funcs@,
                ),
            },
    {
        proof {
            assert(f < self.funcs@.len());
            assert(func_wf(self.funcs@[f as int], self.n(), self.ar()));
        }
        let has_body = match &self.funcs[f].body {
            Some(_) => true,
            None => false,
        };
        if !has_body {
            proof {
                lemma_call_ev(f, args);
            }
            return Err((ProgramError::Unresolved, Expression::Call(f, args)));
        }
        let body = match &self.funcs[f].body {
            Some(b) => b.duplicate(),
            None => vstd::pervasive::unreached(),
        };
        let ghost base = self.thunks@.len();
        let ghost pre_thunks = self.thunks@;
        let mut ids: Vec<usize> = Vec::new();
        let mut i: usize = 0;
        while i < args.len()
            invariant
                i <= args@.len(),
                ids@.len() == i,
                self.thunks@.len() == base + i,
                forall|j: int| 0 <= j < base ==> self.thunks@[j] == pre_thunks[j],
                forall|j: int| 0 <= j < i ==> ids@[j] == base + j,
                forall|j: int|
                    base <= j < self.thunks@.len() ==> ((#[trigger] self.thunks@[j]).value is None
                        && !self.thunks@[j].busy && self.thunks@[j].expr@ == evs(args@)[j - base]),
                self.funcs == old(self).funcs,
                self.defs == old(self).defs,
                self.to_evaluate == old(self).to_evaluate,
            decreases args@.len() - i,
        {
            proof {
                assert(decreases_to!(args => args[i as int]));
                assert(expr_wf(evs(args@)[i as int], base, self.ar()));
            }
            let id = self.thunks.len();
            ids.push(id);
            self.thunks.push(Thunk { expr: args[i].duplicate(), value: None, busy: false });
            i = i + 1;
        }
        proof {
            assert forall|j: int|
                0 <= j < self.thunks@.len() implies thunk_wf(
                #[trigger] self.thunks@[j],
                self.n(),
                self.ar(),
            ) by {
                if j < base {
                    assert(thunk_wf(pre_thunks[j], base, self.ar()));
                    if expr_wf(pre_thunks[j].expr@, base, self.ar()) {
                        lemma_expr_wf_mono(pre_thunks[j].expr@, base, self.n(), self.ar());
                    }
                } else {
                    lemma_expr_wf_mono(self.thunks@[j].expr@, base, self.n(), self.ar());
                }
            }
            assert forall|j: int|
                0 <= j < self.funcs@.len() implies func_wf(
                #[trigger] self.funcs@[j],
                self.n(),
                self.ar(),
            ) by {
                match self.funcs@[j].body {
                    Some(b) => lemma_template_wf_mono(
                        b@,
                        base,
                        self.n(),
                        self.ar(),
                        self.funcs@[j].n_params as nat,
                    ),
                    None => {},
                }
            }
            assert forall|j: int|
                0 <= j < self.to_evaluate@.len() implies expr_wf(
                #[trigger] self.to_evaluate@[j]@,
                self.n(),
                self.ar(),
            ) by {
                lemma_expr_wf_mono(self.to_evaluate@[j]@, base, self.n(), self.ar());
            }
        }
        let mut body_m = body;
        body_m.substitute_args(&ids);
        proof {
            let k = self.funcs@[f as int].n_params as nat;
            assert(ids@.len() == k);
            assert forall|j: int| 0 <= j < ids@.len() implies #[trigger] ids@[j] < self.n() by {}
            lemma_subst_wf(
                self.funcs@[f as int].body->Some_0@,
                self.n(),
                self.ar(),
                k,
                ids@,
            );
            assert(ids@ =~= Seq::new(evs(args@).len(), |i: int| (pre_thunks.len() + i) as usize));
        }
        dispose(&mut env.garbage, Expression::Call(f, args));
        Ok(Step::Rewritten(body_m))
    }
}

/// Whether a thunk id stands in the reduction chain.
pub open spec fn in_chain(c: Seq<usize>, i: int) -> bool {
    exists|j: int| 0 <= j < c.len() && c[j] == i
}

pub open spec fn chain_distinct(c: Seq<usize>) -> bool {
    forall|j1: int, j2: int| 0 <= j1 < j2 < c.len() ==> #[trigger] c[j1] != #[trigger] c[j2]
}

proof fn lemma_in_chain_push(c: Seq<usize>, t: usize)
    ensures
        forall|i: int| #[trigger] in_chain(c.push(t), i) <==> (in_chain(c, i) || i == t),
{
    assert forall|i: int| #[trigger] in_chain(c.push(t), i) <==> (in_chain(c, i) || i == t) by {
        if in_chain(c.push(t), i) {
            let j = choose|j: int| 0 <= j < c.push(t).len() && c.push(t)[j] == i;
            if j < c.len() {
                assert(c[j] == i);
            }
        }
        if in_chain(c, i) {
            let j = choose|j: int| 0 <= j < c.len() && c[j] == i;
            assert(c.push(t)[j] == i);
        }
        if i == t {
            assert(c.push(t)[c.len() as int] == i);
        }
    }
}

proof fn lemma_in_chain_pop(c: Seq<usize>)
    requires
        c.len() > 0,
        chain_distinct(c),
    ensures
        forall|i: int|
            #[trigger] in_chain(c.drop_last(), i) <==> (in_chain(c, i) && i != c.last()),
{
    let d = c.drop_last();
    assert forall|i: int| #[trigger] in_chain(d, i) <==> (in_chain(c, i) && i != c.last()) by {
        if in_chain(d, i) {
            let j = choose|j: int| 0 <= j < d.len() && d[j] == i;
            assert(c[j] == i);
            assert(c[c.len() - 1] == c.last());
            assert(i != c.last());
        }
        if in_chain(c, i) && i != c.last() {
            let j = choose|j: int| 0 <= j < c.len() && c[j] == i;
            assert(j < c.len() - 1);
            assert(d[j] == i);
        }
    }
}

/// One configuration of the evaluation driver: the focus expression,
/// its context stack, the chain of thunks under reduction (outermost
/// first), the thunk store, and the stashed root tree.
pub struct MachineState {
    pub cur: ExprV,
    pub ctx: Seq<Frame>,
    pub chain: Seq<usize>,
    pub thunks: Seq<Thunk>,
    pub stash: ExprV,
}

/// The second store extends the first: old entries unchanged, new
/// entries uncached and not busy (fresh argument thunks).
pub open spec fn thunks_extend(a: Seq<Thunk>, b: Seq<Thunk>) -> bool {
    &&& a.len() <= b.len()
    &&& forall|i: int| 0 <= i < a.len() ==> b[i] == a[i]
    &&& forall|i: int|
        a.len() <= i < b.len() ==> (#[trigger] b[i]).value is None && !b[i].busy
}

/// The store after caching value `v` into thunk `t`: its memo is set
/// (write-once), its expression is that value, its busy mark cleared.
pub open spec fn cached_at(pre: Seq<Thunk>, post: Seq<Thunk>, t: int, v: ValView) -> bool {
    &&& 0 <= t < pre.len()
    &&& post.len() == pre.len()
    &&& pre[t].value is None
    &&& post[t].value matches Some(w) && w@ == v
    &&& post[t].expr@ == ExprV::Value(v)
    &&& !post[t].busy
    &&& forall|i: int| 0 <= i < pre.len() && i != t ==> post[i] == pre[i]
}

/// The store after checking thunk `t`'s expression out into the focus:
/// a placeholder is left behind; memo and busy mark stay.
pub open spec fn checked_out(pre: Seq<Thunk>, post: Seq<Thunk>, t: int) -> bool {
    &&& 0 <= t < pre.len()
    &&& post.len() == pre.len()
    &&& post[t].expr@ == ExprV::ArgumentIndex(0)
    &&& post[t].busy == pre[t].busy
    &&& (post[t].value is Some <==> pre[t].value is Some)
    &&& val_opt_matches(pre[t].value, post[t].value)
    &&& forall|i: int| 0 <= i < pre.len() && i != t ==> post[i] == pre[i]
}

/// A reduced operand is plugged back into its parent frame.
#[verifier::opaque]
pub open spec fn plug_transition(pre: MachineState, post: MachineState) -> bool {
    &&& pre.cur is Value
    &&& pre.ctx.len() > 0
    &&& post.cur == frame_plug(pre.ctx.last(), pre.cur)
    &&& post.ctx == pre.ctx.drop_last()
    &&& post.chain == pre.chain
    &&& post.thunks == pre.thunks
    &&& post.stash == pre.stash
}

/// The last chain thunk finished: its value is memoized and the
/// stashed root tree is resumed.
#[verifier::opaque]
pub open spec fn cache_resume_root_transition(pre: MachineState, post: MachineState) -> bool {
    &&& pre.cur matches ExprV::Value(v) && cached_at(
        pre.thunks,
        post.thunks,
        pre.chain.last() as int,
        v,
    )
    &&& pre.ctx.len() == 0
    &&& pre.chain.len() == 1
    &&& post.ctx == pre.ctx
    &&& post.chain == pre.chain.drop_last()
    &&& post.cur == pre.stash
    &&& post.stash == ExprV::ArgumentIndex(0)
}

/// An inner chain thunk finished: its value is memoized and the
/// suspended tree of the thunk below it is checked back out.
#[verifier::opaque]
pub open spec fn cache_resume_thunk_transition(pre: MachineState, post: MachineState) -> bool {
    &&& pre.ctx.len() == 0
    &&& pre.chain.len() >= 2
    &&& post.ctx == pre.ctx
    &&& post.chain == pre.chain.drop_last()
    &&& post.stash == pre.stash
    &&& pre.cur matches ExprV::Value(v) && (exists|mid: Seq<Thunk>|
        #[trigger] cached_at(pre.thunks, mid, pre.chain.last() as int, v) && checked_out(
            mid,
            post.thunks,
            post.chain.last() as int,
        ) && post.cur == mid[post.chain.last() as int].expr@)
}

/// One reduction step of the table rewrote the focus in place.
#[verifier::opaque]
pub open spec fn rewrite_transition(
    pre: MachineState,
    post: MachineState,
    funcs: Seq<Function>,
) -> bool {
    &&& !(pre.cur is Value)
    &&& thunks_extend(pre.thunks, post.thunks)
    &&& exists|e2: Expression|
        #[trigger] step_ok(pre.cur, pre.thunks, post.thunks, funcs, Step::Rewritten(e2))
            && post.cur == e2@
    &&& post.ctx == pre.ctx
    &&& post.chain == pre.chain
    &&& post.stash == pre.stash
}

/// One reduction step of the table moved the focus into an operand.
#[verifier::opaque]
pub open spec fn focus_transition(
    pre: MachineState,
    post: MachineState,
    funcs: Seq<Function>,
) -> bool {
    &&& !(pre.cur is Value)
    &&& thunks_extend(pre.thunks, post.thunks)
    &&& exists|f: Frame, e2: Expression|
        #[trigger] step_ok(pre.cur, pre.thunks, post.thunks, funcs, Step::Focus(f, e2))
            && post.ctx == pre.ctx.push(f) && post.cur == e2@
    &&& post.chain == pre.chain
    &&& post.stash == pre.stash
}

/// The focus needs an unreduced thunk: the current tree is rebuilt and
/// suspended (into the stash at the root, else into the chain's top
/// thunk), the requested thunk is marked busy, pushed on the chain,
/// and its expression is checked out as the new focus.
#[verifier::opaque]
pub open spec fn suspend_transition(
    pre: MachineState,
    post: MachineState,
    funcs: Seq<Function>,
) -> bool {
    &&& !(pre.cur is Value)
    &&& exists|t: usize, leaf: Expression|
        {
            &&& #[trigger] step_ok(
                pre.cur,
                pre.thunks,
                pre.thunks,
                funcs,
                Step::NeedThunk(t, leaf),
            )
            &&& post.chain == pre.chain.push(t)
            &&& post.cur == pre.thunks[t as int].expr@
            &&& post.thunks.len() == pre.thunks.len()
            &&& post.thunks[t as int].busy
            &&& post.thunks[t as int].expr@ == ExprV::ArgumentIndex(0)
            &&& post.thunks[t as int].value is None
            &&& if pre.chain.len() == 0 {
                &&& post.stash == rebuild_view(pre.ctx, pre.cur)
                &&& forall|i: int|
                    0 <= i < pre.thunks.len() && i != t ==> post.thunks[i] == pre.thunks[i]
            } else {
                let top = pre.chain.last() as int;
                &&& post.stash == pre.stash
                &&& post.thunks[top].expr@ == rebuild_view(pre.ctx, pre.cur)
                &&& post.thunks[top].busy == pre.thunks[top].busy
                &&& val_opt_matches(pre.thunks[top].value, post.thunks[top].value)
                &&& forall|i: int|
                    0 <= i < pre.thunks.len() && i != t && i != top ==> post.thunks[i]
                        == pre.thunks[i]
            }
        }
    &&& post.ctx.len() == 0
}

/// One step of the evaluation driver.
#[verifier::opaque]
pub open spec fn machine_step(pre: MachineState, post: MachineState, funcs: Seq<Function>) -> bool {
    ||| plug_transition(pre, post)
    ||| cache_resume_root_transition(pre, post)
    ||| cache_resume_thunk_transition(pre, post)
    ||| rewrite_transition(pre, post, funcs)
    ||| focus_transition(pre, post, funcs)
    ||| suspend_transition(pre, post, funcs)
}

/// Adjacent configurations of the run are related by `machine_step`.
#[verifier::opaque]
pub open spec fn trace_ok(tr: Seq<MachineState>, funcs: Seq<Function>) -> bool {
    forall|i: int|
        0 <= i < tr.len() - 1 ==> machine_step(#[trigger] tr[i], tr[i + 1], funcs)
}

/// The driver's starting configuration for an expression.
pub open spec fn init_state(e: ExprV, thunks: Seq<Thunk>) -> MachineState {
    MachineState {
        cur: e,
        ctx: Seq::empty(),
        chain: Seq::empty(),
        thunks,
        stash: ExprV::ArgumentIndex(0),
    }
}

/// A complete run: a step-by-step derivation from the expression over
/// the starting store to the value over the final store.
#[verifier::opaque]
pub open spec fn run_trace(
    tr: Seq<MachineState>,
    e: ExprV,
    pre: Seq<Thunk>,
    post: Seq<Thunk>,
    funcs: Seq<Function>,
    v: ValView,
) -> bool {
    &&& tr.len() >= 1
    &&& tr.first() == init_state(e, pre)
    &&& trace_ok(tr, funcs)
    &&& tr.last().cur == ExprV::Value(v)
    &&& tr.last().ctx.len() == 0
    &&& tr.last().chain.len() == 0
    &&& tr.last().thunks == post
}

/// The value `v` is what evaluating `e` yields: some sequence of steps
/// of the reduction table leads from `e` to `v`.
pub open spec fn eval_reaches(
    e: ExprV,
    pre: Seq<Thunk>,
    post: Seq<Thunk>,
    funcs: Seq<Function>,
    v: ValView,
) -> bool {
    exists|tr: Seq<MachineState>| #[trigger] run_trace(tr, e, pre, post, funcs, v)
}

/// Some full-budget run of valid steps exists: the budget, not the
/// expression, ended the evaluation.
pub open spec fn steps_exhausted(
    e: ExprV,
    pre: Seq<Thunk>,
    funcs: Seq<Function>,
    fuel: u64,
) -> bool {
    exists|tr: Seq<MachineState>|
        #[trigger] trace_ok(tr, funcs) && tr.len() == fuel + 1 && tr.first() == init_state(e, pre)
}

/// Introduction form for `suspend_transition`, with the witness spelt
/// out.
proof fn lemma_suspend_intro(
    pre: MachineState,
    post: MachineState,
    funcs: Seq<Function>,
    t: usize,
    leaf: Expression,
)
    requires
        !(pre.cur is Value),
        step_ok(pre.cur, pre.thunks, pre.thunks, funcs, Step::NeedThunk(t, leaf)),
        post.chain == pre.chain.push(t),
        t < pre.thunks.len(),
        post.cur == pre.thunks[t as int].expr@,
        post.thunks.len() == pre.thunks.len(),
        post.thunks[t as int].busy,
        post.thunks[t as int].expr@ == ExprV::ArgumentIndex(0),
        post.thunks[t as int].value is None,
        pre.chain.len() == 0 ==> post.stash == rebuild_view(pre.ctx, pre.cur) && (forall|i: int|
            0 <= i < pre.thunks.len() && i != t ==> post.thunks[i] == pre.thunks[i]),
        pre.chain.len() > 0 ==> {
            let top = pre.chain.last() as int;
            &&& post.stash == pre.stash
            &&& post.thunks[top].expr@ == rebuild_view(pre.ctx, pre.cur)
            &&& post.thunks[top].busy == pre.thunks[top].busy
            &&& val_opt_matches(pre.thunks[top].value, post.thunks[top].value)
            &&& forall|i: int|
                0 <= i < pre.thunks.len() && i != t && i != top ==> post.thunks[i]
                    == pre.thunks[i]
        },
        post.ctx.len() == 0,
    ensures
        suspend_transition(pre, post, funcs),
{
    reveal(suspend_transition);
}

/// No step applies to a finished configuration.
proof fn lemma_final_config_stuck(s1: MachineState, s2: MachineState, funcs: Seq<Function>)
    requires
        s1.cur is Value,
        s1.ctx.len() == 0,
        s1.chain.len() == 0,
    ensures
        !machine_step(s1, s2, funcs),
{
    reveal(machine_step);
    reveal(plug_transition);
    reveal(cache_resume_root_transition);
    reveal(cache_resume_thunk_transition);
    reveal(rewrite_transition);
    reveal(focus_transition);
    reveal(suspend_transition);
}

/// An expression that is already a value evaluates to exactly that
/// value and leaves the store alone: the only run is the empty one.
pub proof fn lemma_eval_of_value(
    v0: ValView,
    pre: Seq<Thunk>,
    post: Seq<Thunk>,
    funcs: Seq<Function>,
    v: ValView,
)
    requires
        eval_reaches(ExprV::Value(v0), pre, post, funcs, v),
    ensures
        v == v0,
        post == pre,
{
    reveal(run_trace);
    reveal(trace_ok);
    let tr = choose|tr: Seq<MachineState>|
        #[trigger] run_trace(tr, ExprV::Value(v0), pre, post, funcs, v);
    if tr.len() >= 2 {
        assert(machine_step(tr[0], tr[1], funcs));
        assert(tr[0] == init_state(ExprV::Value(v0), pre));
        lemma_final_config_stuck(tr[0], tr[1], funcs);
    }
    assert(tr.last() == tr.first());
}

/// An operator node whose operands are both reduced evaluates to
/// exactly that operator's value: the only applicable step computes
/// it, and the resulting configuration is final.
pub proof fn lemma_eval_of_ready_operator(
    op: BinOp,
    a: ValView,
    b: ValView,
    pre: Seq<Thunk>,
    post: Seq<Thunk>,
    funcs: Seq<Function>,
    v: ValView,
)
    requires
        eval_reaches(
            bin_view(op, ExprV::Value(a), ExprV::Value(b)),
            pre,
            post,
            funcs,
            v,
        ),
    ensures
        v == val_op(op, a, b),
{
    reveal(run_trace);
    reveal(trace_ok);
    reveal(machine_step);
    reveal(plug_transition);
    reveal(cache_resume_root_transition);
    reveal(cache_resume_thunk_transition);
    reveal(rewrite_transition);
    reveal(focus_transition);
    reveal(suspend_transition);
    let e0 = bin_view(op, ExprV::Value(a), ExprV::Value(b));
    let tr = choose|tr: Seq<MachineState>| #[trigger] run_trace(tr, e0, pre, post, funcs, v);
    assert(!(e0 is Value));
    assert(tr.len() >= 2);
    assert(machine_step(tr[0], tr[1], funcs));
    assert(tr[0] == init_state(e0, pre));
    assert(rewrite_transition(tr[0], tr[1], funcs));
    let e2 = choose|e2: Expression|
        #[trigger] step_ok(e0, tr[0].thunks, tr[1].thunks, funcs, Step::Rewritten(e2)) && tr[1].cur
            == e2@;
    assert(tr[1].cur == ExprV::Value(val_op(op, a, b)));
    assert(tr[1].ctx.len() == 0 && tr[1].chain.len() == 0);
    if tr.len() >= 3 {
        assert(machine_step(tr[1], tr[2], funcs));
        lemma_final_config_stuck(tr[1], tr[2], funcs);
    }
    assert(tr.last() == tr[1]);
}

/// A reference to a binding that was never given an expression.
pub open spec fn uninit_reference(st: MachineState) -> bool {
    ||| (st.cur matches ExprV::Argument(t) && t < st.thunks.len() && st.thunks[t as int].expr@
        is ArgumentIndex && st.thunks[t as int].value is None && !st.thunks[t as int].busy)
    ||| (st.cur matches ExprV::Constant(t) && t < st.thunks.len() && st.thunks[t as int].expr@
        is ArgumentIndex && st.thunks[t as int].value is None && !st.thunks[t as int].busy)
}

/// What each error owes: a cancellation is an outside interrupt and
/// owes nothing; running out of budget owes a full-budget run; the
/// capacity and unresolved errors owe a valid run from the input to a
/// configuration that exhibits the failure - an out-of-capacity power
/// in focus, or a call of a bodyless function, or a reference to an
/// uninitialized binding.
pub open spec fn error_delimited(
    e: ExprV,
    pre: Seq<Thunk>,
    funcs: Seq<Function>,
    er: ProgramError,
    fuel: u64,
) -> bool {
    match er {
        ProgramError::Cancelled(_) => true,
        ProgramError::OutOfFuel => steps_exhausted(e, pre, funcs, fuel),
        ProgramError::CapacityExceeded => exists|tr: Seq<MachineState>|
            #[trigger] trace_ok(tr, funcs) && tr.len() >= 1 && tr.first() == init_state(e, pre)
                && step_capacity_stop(tr.last().cur),
        ProgramError::Unresolved => exists|tr: Seq<MachineState>|
            #[trigger] trace_ok(tr, funcs) && tr.len() >= 1 && tr.first() == init_state(e, pre)
                && (step_unresolved_stop(tr.last().cur, funcs) || uninit_reference(tr.last())),
    }
}

/// Appending a proven step keeps a trace valid.


proof fn lemma_trace_push(tr: Seq<MachineState>, st: MachineState, funcs: Seq<Function>)
    requires
        trace_ok(tr, funcs),
        tr.len() >= 1,
        machine_step(tr.last(), st, funcs),
    ensures
        trace_ok(tr.push(st), funcs),
{
    reveal(trace_ok);
    let tr2 = tr.push(st);
    assert forall|i: int| 0 <= i < tr2.len() - 1 implies machine_step(
        #[trigger] tr2[i],
        tr2[i + 1],
        funcs,
    ) by {
        if i < tr.len() - 1 {
            assert(tr2[i] == tr[i]);
            assert(tr2[i + 1] == tr[i + 1]);
            assert(machine_step(tr[i], tr[i + 1], funcs));
        } else {
            assert(tr2[i] == tr.last());
            assert(tr2[i + 1] == st);
        }
    }
}

/// The outputs come one from each queued expression in queue order,
/// each a valid evaluation over the store the one before it left.
pub open spec fn chained_runs(
    stores: Seq<Seq<Thunk>>,
    queue: Seq<Expression>,
    funcs: Seq<Function>,
    outs: Seq<Value>,
) -> bool {
    &&& stores.len() == outs.len() + 1
    &&& outs.len() <= queue.len()
    &&& forall|i: int|
        0 <= i < outs.len() ==> eval_reaches(
            queue[i]@,
            #[trigger] stores[i],
            stores[i + 1],
            funcs,
            outs[i]@,
        )
}

/// The returned values evaluate the queued expressions in order,
/// chained through intermediate stores from the starting one.
pub open spec fn run_results(
    queue: Seq<Expression>,
    pre: Seq<Thunk>,
    funcs: Seq<Function>,
    outs: Seq<Value>,
) -> bool {
    exists|stores: Seq<Seq<Thunk>>|
        #[trigger] chained_runs(stores, queue, funcs, outs) && stores.first() == pre
}

/// A stopped run: the returned values evaluate a proper prefix of the
/// queue in order, and the error is delimited against the element the
/// run stopped on, over the store the prefix left.
pub open spec fn run_stopped(
    queue: Seq<Expression>,
    pre: Seq<Thunk>,
    funcs: Seq<Function>,
    outs: Seq<Value>,
    er: ProgramError,
    fuel: u64,
) -> bool {
    exists|stores: Seq<Seq<Thunk>>|
        #[trigger] chained_runs(stores, queue, funcs, outs) && stores.first() == pre && outs.len()
            < queue.len() && error_delimited(queue[outs.len() as int]@, stores.last(), funcs, er, fuel)
}

/// One more evaluated expression extends a chained run.

proof fn lemma_chained_push(
    stores: Seq<Seq<Thunk>>,
    queue: Seq<Expression>,
    funcs: Seq<Function>,
    outs: Seq<Value>,
    st: Seq<Thunk>,
    v: Value,
)
    requires
        chained_runs(stores, queue, funcs, outs),
        outs.len() < queue.len(),
        eval_reaches(queue[outs.len() as int]@, stores.last(), st, funcs, v@),
    ensures
        chained_runs(stores.push(st), queue, funcs, outs.push(v)),
{
    let stores2 = stores.push(st);
    let outs2 = outs.push(v);
    assert forall|i: int| 0 <= i < outs2.len() implies eval_reaches(
        queue[i]@,
        #[trigger] stores2[i],
        stores2[i + 1],
        funcs,
        outs2[i]@,
    ) by {
        if i < outs.len() {
            assert(stores2[i] == stores[i]);
            assert(stores2[i + 1] == stores[i + 1]);
            assert(outs2[i] == outs[i]);
            assert(eval_reaches(queue[i]@, stores[i], stores[i + 1], funcs, outs[i]@));
        } else {
            assert(stores2[i] == stores.last());
            assert(stores2[i + 1] == st);
            assert(outs2[i] == v);
        }
    }
}

impl Program {
    /// Set a thunk's busy mark, leaving its expression and value (the
    /// value as a copy denoting the same value).
    fn set_busy(&mut self, t: usize, b: bool)
        requires
            t < old(self).thunks@.len(),
        ensures
            final(self).thunks@.len() == old(self).thunks@.len(),
            final(self).thunks@[t as int].expr == old(self).thunks@[t as int].expr,
            final(self).thunks@[t as int].busy == b,
            val_opt_matches(
                old(self).thunks@[t as int].value,
                final(self).thunks@[t as int].value,
            ),
            final(self).thunks@[t as int].value is Some <==> old(self).thunks@[t as int].value
                is Some,
            forall|i: int|
                0 <= i < final(self).thunks@.len() && i != t ==> final(self).thunks@[i] == old(
                    self,
                ).thunks@[i],
            final(self).funcs == old(self).funcs,
            final(self).defs == old(self).defs,
            final(self).to_evaluate == old(self).to_evaluate,
            thunk_wf(old(self).thunks@[t as int], old(self).thunks@.len(), arity_seq(old(self).funcs@))
                ==> thunk_wf(
                final(self).thunks@[t as int],
                final(self).thunks@.len(),
                arity_seq(final(self).funcs@),
            ),
    {
        let e = self.swap_expr(t, Expression::ArgumentIndex(0));
        let value = match &self.thunks[t].value {
            None => None,
            Some(v) => Some(v.duplicate()),
        };
        let mut tmp = Thunk { expr: e, value, busy: b };
        self.thunks.set_and_swap(t, &mut tmp);
    }

    /// Evaluate one expression to a value, within a step budget.
    ///
    /// The driver rewrites a focus in place, one step at a time, over
    /// an explicit context stack: native stack use is bounded
    /// regardless of expression depth. Between steps it drains the
    /// destruction worklist and honours cancellation. A request for an
    /// unreduced constant suspends the current tree in its thunk and
    /// redirects to the constant's; re-entry into a thunk in the chain
    /// becomes the undefined "infinite loop" value. Computed thunk
    /// values are cached exactly once and caches survive even an
    /// evaluation that ends in an error.
    #[verifier::loop_isolation(false)]
    #[verifier::rlimit(100)]
    pub fn evaluate(
        &mut self,
        env: &mut EvaluationEnvironemnt,
        e: Expression,
        fuel: u64,
    ) -> (r: Result<Value, ProgramError>)
        requires
            old(self).wf(),
            old(self).clean(),
            old(env).wf(),
            expr_wf(e@, old(self).n(), old(self).ar()),
        ensures
            final(self).wf(),
            final(self).clean(),
            final(env).wf(),
            final(self).funcs == old(self).funcs,
            final(self).defs == old(self).defs,
            final(self).to_evaluate == old(self).to_evaluate,
            thunks_monotone(old(self).thunks@, final(self).thunks@),
            match r {
                Ok(v) => v.wf() && eval_reaches(
                    e@,
                    old(self).thunks@,
                    final(self).thunks@,
                    old(self).funcs@,
                    v@,
                ),
                Err(er) => error_delimited(e@, old(self).thunks@, old(self).funcs@, er, fuel),
            },
    {
        let mut cur = e;
        let mut ctx: Vec<Frame> = Vec::new();
        let mut chain: Vec<usize> = Vec::new();
        let mut root_stash = Expression::ArgumentIndex(0);
        let mut remaining = fuel;
        let ghost mut tr: Seq<MachineState> = seq![init_state(e@, old(self).thunks@)];
        proof {
            reveal(trace_ok);
        }
        loop
            invariant
                self.wf(),
                env.wf(),
                self.funcs == old(self).funcs,
                self.defs == old(self).defs,
                self.to_evaluate == old(self).to_evaluate,
                thunks_monotone(old(self).thunks@, self.thunks@),
                expr_wf(cur@, self.n(), self.ar()),
                forall|i: int|
                    0 <= i < ctx@.len() ==> frame_wf(#[trigger] ctx@[i], self.n(), self.ar()),
                forall|j: int| 0 <= j < chain@.len() ==> (#[trigger] chain@[j]) < self.n(),
                chain_distinct(chain@),
                forall|i: int|
                    0 <= i < self.thunks@.len() ==> ((#[trigger] self.thunks@[i]).busy
                        <==> in_chain(chain@, i)),
                forall|j: int|
                    0 <= j < chain@.len() ==> (#[trigger] self.thunks@[chain@[j] as int].value)
                        is None,
                forall|j: int|
                    0 <= j < chain@.len() - 1 ==> expr_wf(
                        (#[trigger] self.thunks@[chain@[j] as int]).expr@,
                        self.n(),
                        self.ar(),
                    ),
                chain@.len() > 0 ==> expr_wf(root_stash@, self.n(), self.ar()),
                remaining <= fuel,
                tr.len() == 1 + fuel - remaining,
                tr.first() == init_state(e@, old(self).thunks@),
                trace_ok(tr, old(self).funcs@),
                tr.last() == (MachineState {
                    cur: cur@,
                    ctx: ctx@,
                    chain: chain@,
                    thunks: self.thunks@,
                    stash: root_stash@,
                }),
            decreases remaining,
        {
            let ghost st_pre = tr.last();
            let mut failure: Option<ProgramError> = if remaining == 0 {
                Some(ProgramError::OutOfFuel)
            } else {
                remaining = remaining - 1;
                match env.tick() {
                    Err(c) => Some(ProgramError::Cancelled(c)),
                    Ok(()) => None,
                }
            };
            if failure.is_none() {
                let is_value = cur.value_if_found().is_some();
                if is_value {
                    match ctx.pop() {
                        Some(f) => {
                            cur = plug(f, cur);
                            proof {
                                let st_now = MachineState {
                                    cur: cur@,
                                    ctx: ctx@,
                                    chain: chain@,
                                    thunks: self.thunks@,
                                    stash: root_stash@,
                                };
                                reveal(plug_transition);
                                reveal(machine_step);
                                assert(plug_transition(st_pre, st_now));
                                lemma_trace_push(tr, st_now, old(self).funcs@);
                                tr = tr.push(st_now);
                            }
                        },
                        None => {
                            if chain.len() == 0 {
                                match cur {
                                    Expression::Value(v) => {
                                        proof {
                                            assert forall|i: int|
                                                0 <= i < self.thunks@.len() implies !(
                                            #[trigger] self.thunks@[i]).busy by {
                                                assert(!in_chain(chain@, i));
                                            }
                                            reveal(run_trace);
                                            assert(run_trace(
                                                tr,
                                                e@,
                                                old(self).thunks@,
                                                self.thunks@,
                                                old(self).funcs@,
                                                v@,
                                            ));
                                        }
                                        return Ok(v);
                                    },
                                    _ => {
                                        proof {
                                            assert(false);
                                        }
                                        return Err(ProgramError::Unresolved);
                                    },
                                }
                            } else {
                                let ghost cpre = chain@;
                                let t = chain[chain.len() - 1];
                                proof {
                                    assert(cpre[cpre.len() - 1] == t);
                                    assert(in_chain(cpre, t as int));
                                }
                                let _ = chain.pop();
                                match cur {
                                    Expression::Value(v) => {
                                        let ghost pre = self.thunks@;
                                        self.cache_value(t, v);
                                        proof {
                                            assert(thunks_monotone(pre, self.thunks@));
                                            lemma_monotone_trans(
                                                old(self).thunks@,
                                                pre,
                                                self.thunks@,
                                            );
                                            lemma_in_chain_pop(cpre);
                                            assert(chain@ =~= cpre.drop_last());
                                            assert forall|i: int|
                                                0 <= i < self.thunks@.len() implies ((
                                            #[trigger] self.thunks@[i]).busy <==> in_chain(
                                                chain@,
                                                i,
                                            )) by {
                                                assert(in_chain(cpre.drop_last(), i) <==> (
                                                in_chain(cpre, i) && i != cpre.last()));
                                            }
                                        }
                                        if chain.len() == 0 {
                                            cur = root_stash;
                                            root_stash = Expression::ArgumentIndex(0);
                                            proof {
                                                let st_now = MachineState {
                                                    cur: cur@,
                                                    ctx: ctx@,
                                                    chain: chain@,
                                                    thunks: self.thunks@,
                                                    stash: root_stash@,
                                                };
                                                reveal(cache_resume_root_transition);
                                                reveal(machine_step);
                                                assert(st_pre.chain.last() == t);
                                                assert(cache_resume_root_transition(
                                                    st_pre,
                                                    st_now,
                                                ));
                                                lemma_trace_push(tr, st_now, old(self).funcs@);
                                                tr = tr.push(st_now);
                                            }
                                        } else {
                                            let t2 = chain[chain.len() - 1];
                                            proof {
                                                assert(cpre[chain@.len() - 1] == t2);
                                            }
                                            let ghost pre2 = self.thunks@;
                                            cur = self.swap_expr(t2, Expression::ArgumentIndex(0));
                                            proof {
                                                assert(thunks_monotone(pre2, self.thunks@));
                                                lemma_monotone_trans(
                                                    old(self).thunks@,
                                                    pre2,
                                                    self.thunks@,
                                                );
                                                let st_now = MachineState {
                                                    cur: cur@,
                                                    ctx: ctx@,
                                                    chain: chain@,
                                                    thunks: self.thunks@,
                                                    stash: root_stash@,
                                                };
                                                reveal(cache_resume_thunk_transition);
                                                reveal(machine_step);
                                                assert(st_pre.chain.last() == t);
                                                assert(st_now.chain.last() == t2);
                                                assert(cached_at(
                                                    st_pre.thunks,
                                                    pre2,
                                                    t as int,
                                                    st_pre.cur->Value_0,
                                                ));
                                                assert(checked_out(pre2, st_now.thunks, t2 as int));
                                                assert(st_now.cur == pre2[t2 as int].expr@);
                                                assert(cache_resume_thunk_transition(
                                                    st_pre,
                                                    st_now,
                                                ));
                                                lemma_trace_push(tr, st_now, old(self).funcs@);
                                                tr = tr.push(st_now);
                                            }
                                        }
                                    },
                                    _ => {
                                        proof {
                                            assert(false);
                                        }
                                        return Err(ProgramError::Unresolved);
                                    },
                                }
                            }
                        },
                    }
                } else {
                    let ghost pre = self.thunks@;
                    let ghost curv = cur@;
                    let ghost n_pre = self.thunks@.len();
                    match self.simplify_step(env, cur) {
                        Ok(s) => {
                            proof {
                                assert(thunks_monotone(pre, self.thunks@));
                                lemma_monotone_trans(old(self).thunks@, pre, self.thunks@);
                                assert forall|i: int|
                                    0 <= i < ctx@.len() implies frame_wf(
                                    #[trigger] ctx@[i],
                                    self.n(),
                                    self.ar(),
                                ) by {
                                    lemma_frame_wf_mono(ctx@[i], n_pre, self.n(), self.ar());
                                }
                                if chain@.len() > 0 {
                                    lemma_expr_wf_mono(root_stash@, n_pre, self.n(), self.ar());
                                }
                                assert forall|j: int|
                                    0 <= j < chain@.len() - 1 implies expr_wf(
                                    (#[trigger] self.thunks@[chain@[j] as int]).expr@,
                                    self.n(),
                                    self.ar(),
                                ) by {
                                    assert(self.thunks@[chain@[j] as int] == pre[chain@[j] as int]);
                                    lemma_expr_wf_mono(
                                        pre[chain@[j] as int].expr@,
                                        n_pre,
                                        self.n(),
                                        self.ar(),
                                    );
                                }
                                assert forall|i: int|
                                    0 <= i < self.thunks@.len() implies ((
                                #[trigger] self.thunks@[i]).busy <==> in_chain(chain@, i)) by {
                                    if i >= n_pre {
                                        if in_chain(chain@, i) {
                                            let j = choose|j: int|
                                                0 <= j < chain@.len() && chain@[j] == i;
                                            assert(chain@[j] < n_pre);
                                        }
                                    }
                                }
                            }
                            match s {
                                Step::Rewritten(e2) => {
                                    cur = e2;
                                    proof {
                                        let st_now = MachineState {
                                            cur: cur@,
                                            ctx: ctx@,
                                            chain: chain@,
                                            thunks: self.thunks@,
                                            stash: root_stash@,
                                        };
                                        assert(step_ok(
                                            st_pre.cur,
                                            st_pre.thunks,
                                            st_now.thunks,
                                            old(self).funcs@,
                                            Step::Rewritten(e2),
                                        ));
                                        reveal(rewrite_transition);
                                        reveal(machine_step);
                                        assert(rewrite_transition(
                                            st_pre,
                                            st_now,
                                            old(self).funcs@,
                                        ));
                                        lemma_trace_push(tr, st_now, old(self).funcs@);
                                        tr = tr.push(st_now);
                                    }
                                },
                                Step::Focus(f, e2) => {
                                    ctx.push(f);
                                    cur = e2;
                                    proof {
                                        let st_now = MachineState {
                                            cur: cur@,
                                            ctx: ctx@,
                                            chain: chain@,
                                            thunks: self.thunks@,
                                            stash: root_stash@,
                                        };
                                        assert(step_ok(
                                            st_pre.cur,
                                            st_pre.thunks,
                                            st_now.thunks,
                                            old(self).funcs@,
                                            Step::Focus(f, e2),
                                        ));
                                        reveal(focus_transition);
                                        reveal(machine_step);
                                        assert(focus_transition(st_pre, st_now, old(self).funcs@));
                                        lemma_trace_push(tr, st_now, old(self).funcs@);
                                        tr = tr.push(st_now);
                                    }
                                },
                                Step::NeedThunk(t, leaf) => {
                                    proof {
                                        assert(ref_step_ok(t, pre, s));
                                        assert(!pre[t as int].busy);
                                        assert(!in_chain(chain@, t as int));
                                    }
                                    let ghost ctx0 = ctx@;
                                    let tree = rebuild(&mut ctx, leaf);
                                    proof {
                                        lemma_rebuild_wf(ctx0, leaf@, self.n(), self.ar());
                                    }
                                    if chain.len() == 0 {
                                        root_stash = tree;
                                    } else {
                                        let top = chain[chain.len() - 1];
                                        proof {
                                            assert(chain@[chain@.len() - 1] == top);
                                        }
                                        let ghost pre2 = self.thunks@;
                                        let ph = self.swap_expr(top, tree);
                                        dispose(&mut env.garbage, ph);
                                        proof {
                                            assert(thunks_monotone(pre2, self.thunks@));
                                            lemma_monotone_trans(
                                                old(self).thunks@,
                                                pre2,
                                                self.thunks@,
                                            );
                                        }
                                    }
                                    let ghost pre3 = self.thunks@;
                                    let ghost cpre3 = chain@;
                                    self.set_busy(t, true);
                                    proof {
                                        assert(thunks_monotone(pre3, self.thunks@));
                                        lemma_monotone_trans(old(self).thunks@, pre3, self.thunks@);
                                        lemma_in_chain_push(cpre3, t);
                                    }
                                    chain.push(t);
                                    proof {
                                        assert(chain@ =~= cpre3.push(t));
                                        assert forall|i: int|
                                            0 <= i < self.thunks@.len() implies ((
                                        #[trigger] self.thunks@[i]).busy <==> in_chain(
                                            chain@,
                                            i,
                                        )) by {
                                            assert(in_chain(cpre3.push(t), i) <==> (in_chain(
                                                cpre3,
                                                i,
                                            ) || i == t));
                                        }
                                    }
                                    let ghost pre4 = self.thunks@;
                                    let ce = self.swap_expr(t, Expression::ArgumentIndex(0));
                                    proof {
                                        assert(thunks_monotone(pre4, self.thunks@));
                                        lemma_monotone_trans(old(self).thunks@, pre4, self.thunks@);
                                    }
                                    match ce {
                                        Expression::ArgumentIndex(k) => {
                                            proof {
                                                assert(st_pre.thunks == pre);
                                                assert(ce@ == pre[t as int].expr@);
                                                assert(uninit_reference(st_pre));
                                                assert(trace_ok(tr, old(self).funcs@) && tr.len()
                                                    >= 1 && tr.first() == init_state(
                                                    e@,
                                                    old(self).thunks@,
                                                ) && uninit_reference(tr.last()));
                                            }
                                            cur = Expression::ArgumentIndex(k);
                                            failure = Some(ProgramError::Unresolved);
                                        },
                                        other => {
                                            cur = other;
                                            proof {
                                                let st_now = MachineState {
                                                    cur: cur@,
                                                    ctx: ctx@,
                                                    chain: chain@,
                                                    thunks: self.thunks@,
                                                    stash: root_stash@,
                                                };
                                                if st_pre.chain.len() > 0 {
                                                    let top0 = st_pre.chain.last();
                                                    assert(st_pre.thunks[top0 as int].busy);
                                                    assert(!st_pre.thunks[t as int].busy);
                                                    assert(top0 != t);
                                                }
                                                assert(step_ok(
                                                    st_pre.cur,
                                                    st_pre.thunks,
                                                    st_pre.thunks,
                                                    old(self).funcs@,
                                                    Step::NeedThunk(t, leaf),
                                                ));
                                                assert(st_now.cur == st_pre.thunks[t as int].expr@);
                                                assert(st_now.chain =~= st_pre.chain.push(t));
                                                reveal(machine_step);
                                                lemma_suspend_intro(
                                                    st_pre,
                                                    st_now,
                                                    old(self).funcs@,
                                                    t,
                                                    leaf,
                                                );
                                                lemma_trace_push(tr, st_now, old(self).funcs@);
                                                tr = tr.push(st_now);
                                            }
                                        },
                                    }
                                },
                            }
                        },
                        Err((er, back)) => {
                            proof {
                                assert(thunks_monotone(pre, self.thunks@));
                                lemma_monotone_trans(old(self).thunks@, pre, self.thunks@);
                                lemma_expr_wf_mono(curv, n_pre, self.n(), self.ar());
                                assert(st_pre.cur == curv && st_pre.thunks == pre);
                                if er is CapacityExceeded {
                                    assert(trace_ok(tr, old(self).funcs@) && tr.len() >= 1
                                        && tr.first() == init_state(e@, old(self).thunks@)
                                        && step_capacity_stop(tr.last().cur));
                                }
                                if er is Unresolved {
                                    assert(trace_ok(tr, old(self).funcs@) && tr.len() >= 1
                                        && tr.first() == init_state(e@, old(self).thunks@)
                                        && step_unresolved_stop(tr.last().cur, old(self).funcs@));
                                }
                                assert forall|i: int|
                                    0 <= i < ctx@.len() implies frame_wf(
                                    #[trigger] ctx@[i],
                                    self.n(),
                                    self.ar(),
                                ) by {
                                    lemma_frame_wf_mono(ctx@[i], n_pre, self.n(), self.ar());
                                }
                                if chain@.len() > 0 {
                                    lemma_expr_wf_mono(root_stash@, n_pre, self.n(), self.ar());
                                }
                                assert forall|j: int|
                                    0 <= j < chain@.len() - 1 implies expr_wf(
                                    (#[trigger] self.thunks@[chain@[j] as int]).expr@,
                                    self.n(),
                                    self.ar(),
                                ) by {
                                    assert(self.thunks@[chain@[j] as int] == pre[chain@[j] as int]);
                                    lemma_expr_wf_mono(
                                        pre[chain@[j] as int].expr@,
                                        n_pre,
                                        self.n(),
                                        self.ar(),
                                    );
                                }
                                assert forall|i: int|
                                    0 <= i < self.thunks@.len() implies ((
                                #[trigger] self.thunks@[i]).busy <==> in_chain(chain@, i)) by {
                                    if i >= n_pre {
                                        if in_chain(chain@, i) {
                                            let j = choose|j: int|
                                                0 <= j < chain@.len() && chain@[j] == i;
                                            assert(chain@[j] < n_pre);
                                        }
                                    }
                                }
                            }
                            cur = back;
                            failure = Some(er);
                        },
                    }
                }
            }
            if let Some(er) = failure {
                // unwind: keep every cache, store the partial tree,
                // clear the chain
                let ghost ctx1 = ctx@;
                let ghost curv1 = cur@;
                let tree = rebuild(&mut ctx, cur);
                proof {
                    if expr_wf(curv1, self.n(), self.ar()) {
                        lemma_rebuild_wf(ctx1, curv1, self.n(), self.ar());
                    }
                    assert(expr_wf(tree@, self.n(), self.ar()) || tree@ is ArgumentIndex);
                }
                if chain.len() == 0 {
                    dispose(&mut env.garbage, tree);
                } else {
                    let top = chain[chain.len() - 1];
                    proof {
                        assert(chain@[chain@.len() - 1] == top);
                    }
                    let ghost pre5 = self.thunks@;
                    let ph = self.swap_expr(top, tree);
                    dispose(&mut env.garbage, ph);
                    dispose(&mut env.garbage, root_stash);
                    root_stash = Expression::ArgumentIndex(0);
                    proof {
                        assert(thunks_monotone(pre5, self.thunks@));
                        lemma_monotone_trans(old(self).thunks@, pre5, self.thunks@);
                        assert forall|i: int|
                            0 <= i < self.thunks@.len() implies thunk_wf(
                            #[trigger] self.thunks@[i],
                            self.thunks@.len(),
                            arity_seq(self.funcs@),
                        ) by {
                            if i != top {
                                assert(self.thunks@[i] == pre5[i]);
                            }
                        }
                    }
                }
                loop
                    invariant
                        self.wf(),
                        self.funcs == old(self).funcs,
                        self.defs == old(self).defs,
                        self.to_evaluate == old(self).to_evaluate,
                        thunks_monotone(old(self).thunks@, self.thunks@),
                        forall|j: int| 0 <= j < chain@.len() ==> (#[trigger] chain@[j]) < self.n(),
                        chain_distinct(chain@),
                        forall|i: int|
                            0 <= i < self.thunks@.len() ==> ((#[trigger] self.thunks@[i]).busy
                                <==> in_chain(chain@, i)),
                    decreases chain@.len(),
                {
                    let ghost cpre = chain@;
                    match chain.pop() {
                        None => {
                            break ;
                        },
                        Some(t) => {
                            proof {
                                assert(cpre[cpre.len() - 1] == t);
                            }
                            let ghost pre6 = self.thunks@;
                            self.set_busy(t, false);
                            proof {
                                assert(thunks_monotone(pre6, self.thunks@));
                                lemma_monotone_trans(old(self).thunks@, pre6, self.thunks@);
                                lemma_in_chain_pop(cpre);
                                assert(chain@ =~= cpre.drop_last());
                                assert forall|i: int|
                                    0 <= i < self.thunks@.len() implies ((
                                #[trigger] self.thunks@[i]).busy <==> in_chain(chain@, i)) by {
                                    assert(in_chain(cpre.drop_last(), i) <==> (in_chain(cpre, i)
                                        && i != cpre.last()));
                                }
                            }
                        },
                    }
                }
                proof {
                    assert forall|i: int|
                        0 <= i < self.thunks@.len() implies !(#[trigger] self.thunks@[i]).busy by {
                        assert(!in_chain(chain@, i));
                    }
                    if er is OutOfFuel {
                        assert(trace_ok(tr, old(self).funcs@) && tr.len() == fuel + 1
                            && tr.first() == init_state(e@, old(self).thunks@));
                    }
                }
                return Err(er);
            }
        }
    }
}

/// Reported when deleting a name that is not defined.
pub struct DefinitionDidntExist;

/// What a name resolves to, last definition first; a removed name
/// resolves to nothing.
pub open spec fn lookup(defs: Seq<Def>, name: Seq<char>) -> Option<Binding>
    decreases defs.len(),
{
    if defs.len() == 0 {
        None
    } else if defs.last().name@ == name {
        match defs.last().binding {
            Binding::Removed => None,
            b => Some(b),
        }
    } else {
        lookup(defs.drop_last(), name)
    }
}

/// How one more definition changes every lookup: it shadows its own
/// name and leaves every other name alone.
pub proof fn lemma_lookup_push(defs: Seq<Def>, d: Def, name: Seq<char>)
    ensures
        lookup(defs.push(d), name) == (if d.name@ == name {
            match d.binding {
                Binding::Removed => None::<Binding>,
                b => Some(b),
            }
        } else {
            lookup(defs, name)
        }),
{
    assert(defs.push(d).drop_last() =~= defs);
    assert(defs.push(d).last() == d);
}

/// Arities only ever grow, and expressions stay well-formed.
pub proof fn lemma_expr_wf_ar_mono(e: ExprV, n: nat, ar1: Seq<nat>, ar2: Seq<nat>)
    requires
        expr_wf(e, n, ar1),
        ar1.len() <= ar2.len(),
        forall|i: int| 0 <= i < ar1.len() ==> ar2[i] == ar1[i],
    ensures
        expr_wf(e, n, ar2),
    decreases e,
{
    match e {
        ExprV::Neg(x) => lemma_expr_wf_ar_mono(*x, n, ar1, ar2),
        ExprV::Add(a, b) => {
            lemma_expr_wf_ar_mono(*a, n, ar1, ar2);
            lemma_expr_wf_ar_mono(*b, n, ar1, ar2);
        },
        ExprV::Sub(a, b) => {
            lemma_expr_wf_ar_mono(*a, n, ar1, ar2);
            lemma_expr_wf_ar_mono(*b, n, ar1, ar2);
        },
        ExprV::Mul(a, b) => {
            lemma_expr_wf_ar_mono(*a, n, ar1, ar2);
            lemma_expr_wf_ar_mono(*b, n, ar1, ar2);
        },
        ExprV::Div(a, b) => {
            lemma_expr_wf_ar_mono(*a, n, ar1, ar2);
            lemma_expr_wf_ar_mono(*b, n, ar1, ar2);
        },
        ExprV::Pow(a, b) => {
            lemma_expr_wf_ar_mono(*a, n, ar1, ar2);
            lemma_expr_wf_ar_mono(*b, n, ar1, ar2);
        },
        ExprV::Call(f, args) => {
            assert forall|i: int| 0 <= i < args.len() implies expr_wf(
                #[trigger] args[i],
                n,
                ar2,
            ) by {
                lemma_expr_wf_ar_mono(args[i], n, ar1, ar2);
            }
        },
        _ => {},
    }
}

/// Arities only ever grow, and templates stay well-formed.
pub proof fn lemma_template_wf_ar_mono(e: ExprV, n: nat, ar1: Seq<nat>, ar2: Seq<nat>, k: nat)
    requires
        template_wf(e, n, ar1, k),
        ar1.len() <= ar2.len(),
        forall|i: int| 0 <= i < ar1.len() ==> ar2[i] == ar1[i],
    ensures
        template_wf(e, n, ar2, k),
    decreases e,
{
    match e {
        ExprV::Neg(x) => lemma_template_wf_ar_mono(*x, n, ar1, ar2, k),
        ExprV::Add(a, b) => {
            lemma_template_wf_ar_mono(*a, n, ar1, ar2, k);
            lemma_template_wf_ar_mono(*b, n, ar1, ar2, k);
        },
        ExprV::Sub(a, b) => {
            lemma_template_wf_ar_mono(*a, n, ar1, ar2, k);
            lemma_template_wf_ar_mono(*b, n, ar1, ar2, k);
        },
        ExprV::Mul(a, b) => {
            lemma_template_wf_ar_mono(*a, n, ar1, ar2, k);
            lemma_template_wf_ar_mono(*b, n, ar1, ar2, k);
        },
        ExprV::Div(a, b) => {
            lemma_template_wf_ar_mono(*a, n, ar1, ar2, k);
            lemma_template_wf_ar_mono(*b, n, ar1, ar2, k);
        },
        ExprV::Pow(a, b) => {
            lemma_template_wf_ar_mono(*a, n, ar1, ar2, k);
            lemma_template_wf_ar_mono(*b, n, ar1, ar2, k);
        },
        ExprV::Call(f, args) => {
            assert forall|i: int| 0 <= i < args.len() implies template_wf(
                #[trigger] args[i],
                n,
                ar2,
                k,
            ) by {
                lemma_template_wf_ar_mono(args[i], n, ar1, ar2, k);
            }
        },
        _ => {},
    }
}

impl Program {
    /// An empty program.
    pub fn new() -> (r: Program)
        ensures
            r.wf(),
            r.clean(),
            r.thunks@.len() == 0,
            r.funcs@.len() == 0,
            r.defs@.len() == 0,
            r.to_evaluate@.len() == 0,
    {
        Program { thunks: Vec::new(), funcs: Vec::new(), defs: Vec::new(), to_evaluate: Vec::new() }
    }

    /// The binding a name currently resolves to.
    #[verifier::loop_isolation(false)]
    pub fn get_constant_or_function(&self, name: &String) -> (r: Option<Binding>)
        ensures
            r == lookup(self.defs@, name@),
            self.wf() ==> (r matches Some(b) ==> binding_ok(b, self.n(), self.funcs@.len())),
    {
        let mut i = self.defs.len();
        proof {
            assert(self.defs@.take(self.defs@.len() as int) =~= self.defs@);
        }
        loop
            invariant
                i <= self.defs@.len(),
                lookup(self.defs@, name@) == lookup(self.defs@.take(i as int), name@),
            decreases i,
        {
            if i == 0 {
                proof {
                    assert(self.defs@.take(0) =~= Seq::<Def>::empty());
                }
                return None;
            }
            i = i - 1;
            proof {
                assert(self.defs@.take(i + 1).drop_last() =~= self.defs@.take(i as int));
                assert(self.defs@.take(i + 1).last() == self.defs@[i as int]);
            }
            if self.defs[i].name == *name {
                match self.defs[i].binding {
                    Binding::Constant(t) => {
                        return Some(Binding::Constant(t));
                    },
                    Binding::Function(f) => {
                        return Some(Binding::Function(f));
                    },
                    Binding::Removed => {
                        return None;
                    },
                }
            }
        }
    }

    /// The thunk of the named constant, if the name is a constant.
    pub fn get_constant(&self, name: &String) -> (r: Option<usize>)
        ensures
            match r {
                Some(t) => lookup(self.defs@, name@) == Some(Binding::Constant(t)) && (self.wf()
                    ==> t < self.thunks@.len()),
                None => !(lookup(self.defs@, name@) matches Some(Binding::Constant(_))),
            },
    {
        match self.get_constant_or_function(name) {
            Some(Binding::Constant(t)) => Some(t),
            _ => None,
        }
    }

    /// The id of the named function, if the name is a function.
    pub fn get_function(&self, name: &String) -> (r: Option<usize>)
        ensures
            match r {
                Some(f) => lookup(self.defs@, name@) == Some(Binding::Function(f)) && (self.wf()
                    ==> f < self.funcs@.len()),
                None => !(lookup(self.defs@, name@) matches Some(Binding::Function(_))),
            },
    {
        match self.get_constant_or_function(name) {
            Some(Binding::Function(f)) => Some(f),
            _ => None,
        }
    }

    /// The parameter count of the named function.
    pub fn get_n_params(&self, function: &String) -> (r: Option<usize>)
        requires
            self.wf(),
        ensures
            match r {
                Some(k) => lookup(self.defs@, function@) matches Some(Binding::Function(f))
                    && f < self.funcs@.len() && self.funcs@[f as int].n_params == k,
                None => !(lookup(self.defs@, function@) matches Some(Binding::Function(_))),
            },
    {
        match self.get_function(function) {
            Some(f) => Some(self.funcs[f].n_params),
            None => None,
        }
    }

    /// Declare a constant: a fresh uninitialized thunk bound to the
    /// name; any earlier binding is shadowed but stays in the store.
    pub fn define_constant(&mut self, name: String) -> (t: usize)
        requires
            old(self).wf(),
        ensures
            final(self).wf(),
            t == old(self).thunks@.len(),
            final(self).thunks@ == old(self).thunks@.push(
                final(self).thunks@[t as int],
            ),
            final(self).thunks@[t as int].expr@ == sentinel(),
            final(self).thunks@[t as int].value is None,
            !final(self).thunks@[t as int].busy,
            final(self).funcs == old(self).funcs,
            final(self).to_evaluate == old(self).to_evaluate,
            final(self).defs@ == old(self).defs@.push(final(self).defs@.last()),
            final(self).defs@.last().name@ == name@,
            final(self).defs@.last().binding == Binding::Constant(t),
            lookup(final(self).defs@, name@) == Some(Binding::Constant(t)),
            forall|n2: Seq<char>|
                n2 != name@ ==> #[trigger] lookup(final(self).defs@, n2) == lookup(
                    old(self).defs@,
                    n2,
                ),
            thunks_monotone(old(self).thunks@, final(self).thunks@),
            old(self).clean() ==> final(self).clean(),
    {
        let ghost n0 = self.thunks@.len();
        let t = self.thunks.len();
        self.thunks.push(
            Thunk { expr: Expression::ArgumentIndex(usize::MAX), value: None, busy: false },
        );
        self.defs.push(Def { name, binding: Binding::Constant(t) });
        proof {
            assert forall|i: int|
                0 <= i < self.defs@.len() implies binding_ok(
                #[trigger] self.defs@[i].binding,
                self.thunks@.len(),
                self.funcs@.len(),
            ) by {
                if i < self.defs@.len() - 1 {
                    assert(binding_ok(old(self).defs@[i].binding, n0, self.funcs@.len()));
                }
            }
            self.lemma_grow_thunks(n0);
            lemma_lookup_push(old(self).defs@, self.defs@.last(), name@);
            assert forall|n2: Seq<char>|
                n2 != name@ implies #[trigger] lookup(self.defs@, n2) == lookup(
                old(self).defs@,
                n2,
            ) by {
                lemma_lookup_push(old(self).defs@, self.defs@.last(), n2);
            }
        }
        t
    }

    /// Re-establish store well-formedness after the thunk store grew.
    proof fn lemma_grow_thunks(&self, n0: nat)
        requires
            n0 <= self.thunks@.len(),
            forall|i: int|
                0 <= i < n0 ==> thunk_wf(#[trigger] self.thunks@[i], n0, arity_seq(self.funcs@)),
            forall|i: int|
                n0 <= i < self.thunks@.len() ==> thunk_wf(
                    #[trigger] self.thunks@[i],
                    self.thunks@.len(),
                    arity_seq(self.funcs@),
                ),
            forall|i: int|
                0 <= i < self.funcs@.len() ==> func_wf(
                    #[trigger] self.funcs@[i],
                    n0,
                    arity_seq(self.funcs@),
                ),
            forall|i: int|
                0 <= i < self.to_evaluate@.len() ==> expr_wf(
                    #[trigger] self.to_evaluate@[i]@,
                    n0,
                    arity_seq(self.funcs@),
                ),
            forall|i: int|
                0 <= i < self.defs@.len() ==> binding_ok(
                    #[trigger] self.defs@[i].binding,
                    self.thunks@.len(),
                    self.funcs@.len(),
                ),
        ensures
            self.wf(),
    {
        let n1 = self.thunks@.len();
        let ar = arity_seq(self.funcs@);
        assert forall|i: int| 0 <= i < n1 implies thunk_wf(#[trigger] self.thunks@[i], n1, ar) by {
            if i < n0 {
                if expr_wf(self.thunks@[i].expr@, n0, ar) {
                    lemma_expr_wf_mono(self.thunks@[i].expr@, n0, n1, ar);
                }
            }
        }
        assert forall|i: int|
            0 <= i < self.funcs@.len() implies func_wf(#[trigger] self.funcs@[i], n1, ar) by {
            match self.funcs@[i].body {
                Some(b) => lemma_template_wf_mono(b@, n0, n1, ar, self.funcs@[i].n_params as nat),
                None => {},
            }
        }
        assert forall|i: int|
            0 <= i < self.to_evaluate@.len() implies expr_wf(
            #[trigger] self.to_evaluate@[i]@,
            n1,
            ar,
        ) by {
            lemma_expr_wf_mono(self.to_evaluate@[i]@, n0, n1, ar);
        }
    }

    /// Declare a function of the given arity, uninitialized; any
    /// earlier binding is shadowed but stays in the store.
    pub fn define_function(&mut self, name: String, n_params: usize) -> (f: usize)
        requires
            old(self).wf(),
        ensures
            final(self).wf(),
            f == old(self).funcs@.len(),
            final(self).funcs@ == old(self).funcs@.push(Function { n_params, body: None }),
            final(self).thunks == old(self).thunks,
            final(self).to_evaluate == old(self).to_evaluate,
            final(self).defs@ == old(self).defs@.push(final(self).defs@.last()),
            final(self).defs@.last().name@ == name@,
            final(self).defs@.last().binding == Binding::Function(f),
            lookup(final(self).defs@, name@) == Some(Binding::Function(f)),
            forall|n2: Seq<char>|
                n2 != name@ ==> #[trigger] lookup(final(self).defs@, n2) == lookup(
                    old(self).defs@,
                    n2,
                ),
            thunks_monotone(old(self).thunks@, final(self).thunks@),
            old(self).clean() ==> final(self).clean(),
    {
        let ghost ar0 = arity_seq(self.funcs@);
        let f = self.funcs.len();
        self.funcs.push(Function { n_params, body: None });
        self.defs.push(Def { name, binding: Binding::Function(f) });
        proof {
            let ar1 = arity_seq(self.funcs@);
            let n = self.thunks@.len();
            assert(ar0.len() <= ar1.len() && forall|i: int|
                0 <= i < ar0.len() ==> ar1[i] == ar0[i]);
            assert forall|i: int|
                0 <= i < self.thunks@.len() implies thunk_wf(
                #[trigger] self.thunks@[i],
                n,
                ar1,
            ) by {
                if expr_wf(self.thunks@[i].expr@, n, ar0) {
                    lemma_expr_wf_ar_mono(self.thunks@[i].expr@, n, ar0, ar1);
                }
            }
            assert forall|i: int|
                0 <= i < self.funcs@.len() implies func_wf(#[trigger] self.funcs@[i], n, ar1) by {
                if i < self.funcs@.len() - 1 {
                    assert(func_wf(self.funcs@[i], n, ar0));
                    match self.funcs@[i].body {
                        Some(b) => lemma_template_wf_ar_mono(
                            b@,
                            n,
                            ar0,
                            ar1,
                            self.funcs@[i].n_params as nat,
                        ),
                        None => {},
                    }
                }
            }
            assert forall|i: int|
                0 <= i < self.to_evaluate@.len() implies expr_wf(
                #[trigger] self.to_evaluate@[i]@,
                n,
                ar1,
            ) by {
                lemma_expr_wf_ar_mono(self.to_evaluate@[i]@, n, ar0, ar1);
            }
            lemma_lookup_push(old(self).defs@, self.defs@.last(), name@);
            assert forall|n2: Seq<char>|
                n2 != name@ implies #[trigger] lookup(self.defs@, n2) == lookup(
                old(self).defs@,
                n2,
            ) by {
                lemma_lookup_push(old(self).defs@, self.defs@.last(), n2);
            }
        }
        f
    }

    /// Install a declared constant's defining expression (write-once).
    pub fn init_constant(&mut self, t: usize, e: Expression)
        requires
            old(self).wf(),
            t < old(self).thunks@.len(),
            old(self).thunks@[t as int].expr@ == sentinel(),
            old(self).thunks@[t as int].value is None,
            !old(self).thunks@[t as int].busy,
            expr_wf(e@, old(self).n(), old(self).ar()),
        ensures
            final(self).wf(),
            final(self).thunks@.len() == old(self).thunks@.len(),
            final(self).thunks@[t as int].expr == e,
            final(self).thunks@[t as int].value is None,
            !final(self).thunks@[t as int].busy,
            forall|i: int|
                0 <= i < final(self).thunks@.len() && i != t ==> final(self).thunks@[i] == old(
                    self,
                ).thunks@[i],
            final(self).funcs == old(self).funcs,
            final(self).defs == old(self).defs,
            final(self).to_evaluate == old(self).to_evaluate,
            thunks_monotone(old(self).thunks@, final(self).thunks@),
            old(self).clean() ==> final(self).clean(),
    {
        let _sentinel = self.swap_expr(t, e);
    }

    /// Install a declared function's body template (write-once).
    pub fn init_function(&mut self, f: usize, body: Expression)
        requires
            old(self).wf(),
            f < old(self).funcs@.len(),
            old(self).funcs@[f as int].body is None,
            template_wf(
                body@,
                old(self).n(),
                old(self).ar(),
                old(self).funcs@[f as int].n_params as nat,
            ),
        ensures
            final(self).wf(),
            final(self).funcs@.len() == old(self).funcs@.len(),
            final(self).funcs@[f as int].n_params == old(self).funcs@[f as int].n_params,
            final(self).funcs@[f as int].body matches Some(b) && b == body,
            forall|i: int|
                0 <= i < final(self).funcs@.len() && i != f ==> final(self).funcs@[i] == old(
                    self,
                ).funcs@[i],
            final(self).thunks == old(self).thunks,
            final(self).defs == old(self).defs,
            final(self).to_evaluate == old(self).to_evaluate,
            final(self).ar() == old(self).ar(),
            thunks_monotone(old(self).thunks@, final(self).thunks@),
            old(self).clean() ==> final(self).clean(),
    {
        let np = self.funcs[f].n_params;
        self.funcs.set(f, Function { n_params: np, body: Some(body) });
        proof {
            assert(arity_seq(self.funcs@) =~= arity_seq(old(self).funcs@));
        }
    }

    /// Delete a name: its binding is shadowed by a removal marker; the
    /// stored definition itself stays, for expressions that mention it.
    pub fn undefine(&mut self, name: &String) -> (r: Result<(), DefinitionDidntExist>)
        requires
            old(self).wf(),
        ensures
            final(self).wf(),
            final(self).thunks == old(self).thunks,
            final(self).funcs == old(self).funcs,
            final(self).to_evaluate == old(self).to_evaluate,
            old(self).clean() ==> final(self).clean(),
            match r {
                Ok(()) => lookup(old(self).defs@, name@) is Some && lookup(final(self).defs@, name@)
                    is None && forall|n2: Seq<char>|
                    n2 != name@ ==> #[trigger] lookup(final(self).defs@, n2) == lookup(
                        old(self).defs@,
                        n2,
                    ),
                Err(_) => lookup(old(self).defs@, name@) is None && final(self).defs == old(
                    self,
                ).defs,
            },
    {
        match self.get_constant_or_function(name) {
            None => Err(DefinitionDidntExist),
            Some(_) => {
                self.defs.push(Def { name: name.clone(), binding: Binding::Removed });
                proof {
                    lemma_lookup_push(old(self).defs@, self.defs@.last(), name@);
                    assert forall|n2: Seq<char>|
                        n2 != name@ implies #[trigger] lookup(self.defs@, n2) == lookup(
                        old(self).defs@,
                        n2,
                    ) by {
                        lemma_lookup_push(old(self).defs@, self.defs@.last(), n2);
                    }
                }
                Ok(())
            },
        }
    }

    /// Queue an expression for evaluation.
    pub fn evaluate_later(&mut self, e: Expression)
        requires
            old(self).wf(),
            expr_wf(e@, old(self).n(), old(self).ar()),
        ensures
            final(self).wf(),
            final(self).thunks == old(self).thunks,
            final(self).funcs == old(self).funcs,
            final(self).defs == old(self).defs,
            final(self).to_evaluate@ == old(self).to_evaluate@.push(e),
            old(self).clean() ==> final(self).clean(),
    {
        self.to_evaluate.push(e);
    }

    /// Evaluate every queued expression in order, each within the step
    /// budget, collecting one value per expression in queue order; stop
    /// at the first interruption, keeping the values already produced.
    /// Already-memoized constants keep their values throughout.
    #[verifier::loop_isolation(false)]
    pub fn run(&mut self, env: &mut EvaluationEnvironemnt, fuel: u64) -> (r: (
        Vec<Value>,
        Option<ProgramError>,
    ))
        requires
            old(self).wf(),
            old(self).clean(),
            old(env).wf(),
        ensures
            final(self).wf(),
            final(self).clean(),
            final(env).wf(),
            final(self).funcs == old(self).funcs,
            final(self).defs == old(self).defs,
            final(self).to_evaluate@.len() == 0,
            thunks_monotone(old(self).thunks@, final(self).thunks@),
            forall|i: int| 0 <= i < r.0@.len() ==> (#[trigger] r.0@[i]).wf(),
            r.0@.len() <= old(self).to_evaluate@.len(),
            r.1 is None ==> r.0@.len() == old(self).to_evaluate@.len(),
            run_results(old(self).to_evaluate@, old(self).thunks@, old(self).funcs@, r.0@),
            r.1 matches Some(er) ==> run_stopped(
                old(self).to_evaluate@,
                old(self).thunks@,
                old(self).funcs@,
                r.0@,
                er,
                fuel,
            ),
    {
        let mut out: Vec<Value> = Vec::new();
        let ghost queue0 = self.to_evaluate@;
        let ghost mut stores: Seq<Seq<Thunk>> = seq![old(self).thunks@];
        proof {
            assert(queue0.skip(0) =~= queue0);
        }
        loop
            invariant
                self.wf(),
                self.clean(),
                env.wf(),
                self.funcs == old(self).funcs,
                self.defs == old(self).defs,
                thunks_monotone(old(self).thunks@, self.thunks@),
                forall|i: int| 0 <= i < out@.len() ==> (#[trigger] out@[i]).wf(),
                self.to_evaluate@ == queue0.skip(out@.len() as int),
                out@.len() <= queue0.len(),
                stores.len() == out@.len() + 1,
                stores.first() == old(self).thunks@,
                stores.last() == self.thunks@,
                chained_runs(stores, queue0, old(self).funcs@, out@),
            decreases self.to_evaluate@.len(),
        {
            if self.to_evaluate.len() == 0 {
                return (out, None);
            }
            let e = self.to_evaluate.remove(0);
            proof {
                assert(queue0.skip(out@.len() as int)[0] == queue0[out@.len() as int]);
                assert(queue0.skip(out@.len() as int).remove(0) =~= queue0.skip(
                    out@.len() + 1 as int,
                ));
            }
            let ghost pre = self.thunks@;
            let ghost e0 = e;
            match self.evaluate(env, e, fuel) {
                Ok(v) => {
                    proof {
                        lemma_monotone_trans(old(self).thunks@, pre, self.thunks@);
                        lemma_chained_push(
                            stores,
                            queue0,
                            old(self).funcs@,
                            out@,
                            self.thunks@,
                            v,
                        );
                        stores = stores.push(self.thunks@);
                    }
                    out.push(v);
                },
                Err(er) => {
                    proof {
                        lemma_monotone_trans(old(self).thunks@, pre, self.thunks@);
                        assert(chained_runs(stores, queue0, old(self).funcs@, out@)
                            && stores.first() == old(self).thunks@ && out@.len() < queue0.len()
                            && error_delimited(
                            queue0[out@.len() as int]@,
                            stores.last(),
                            old(self).funcs@,
                            er,
                            fuel,
                        ));
                    }
                    loop
                        invariant
                            self.wf(),
                            self.clean(),
                            env.wf(),
                            self.funcs == old(self).funcs,
                            self.defs == old(self).defs,
                            thunks_monotone(old(self).thunks@, self.thunks@),
                        decreases self.to_evaluate@.len(),
                    {
                        match self.to_evaluate.pop() {
                            None => {
                                break ;
                            },
                            Some(x) => {
                                dispose(&mut env.garbage, x);
                            },
                        }
                    }
                    crate::garbage::collect(&mut env.garbage);
                    return (out, Some(er));
                },
            }
        }
    }
}

impl Program {
    /// Whether a declared constant is still uninitialized.
    pub fn constant_uninit(&self, t: usize) -> (r: bool)
        requires
            t < self.thunks@.len(),
        ensures
            r == (self.thunks@[t as int].expr@ == sentinel() && self.thunks@[t as int].value
                is None && !self.thunks@[t as int].busy),
    {
        let value_none = match &self.thunks[t].value {
            None => true,
            Some(_) => false,
        };
        self.thunks[t].expr.is_default() && value_none && !self.thunks[t].busy
    }

    /// Whether a declared function is still uninitialized.
    pub fn function_uninit(&self, f: usize) -> (r: bool)
        requires
            f < self.funcs@.len(),
        ensures
            r == (self.funcs@[f as int].body is None),
    {
        match &self.funcs[f].body {
            None => true,
            Some(_) => false,
        }
    }
}

/// Multiplication by zero absorbs: a zero factor rewrites the node to
/// zero at once, whatever the other operand is - even unreduced or
/// non-terminating.
pub proof fn lemma_mul_zero_absorbs(x: ValView, other: ExprV, s: Step)
    requires
        val_is_zero(x),
        !(other is Value),
        bin_step_ok(BinOp::Mul, ExprV::Value(x), other, s),
    ensures
        s matches Step::Rewritten(e) && e@ == ExprV::Value(x),
{
}

/// Memoization short-circuits: a reference to a thunk whose value is
/// already cached rewrites to that value at once; the stored
/// expression is never reduced again. With the write-once cache
/// (`cached_at` requires an empty memo) this is the at-most-once
/// reduction of every shared thunk.
pub proof fn lemma_memo_short_circuit(t: usize, pre: Seq<Thunk>, s: Step, v: Value)
    requires
        t < pre.len(),
        pre[t as int].value == Some(v),
        ref_step_ok(t, pre, s),
    ensures
        s matches Step::Rewritten(e) && e@ == ExprV::Value(v@),
{
}

/// Memoization as one law: once any store has cached a thunk's value,
/// every store a later evaluation leaves still holds that value
/// (caches only grow and never change), and a reduction step that
/// references the thunk rewrites to it at once - the stored
/// expression is never reduced again.
pub proof fn lemma_memoization(t: usize, a: Seq<Thunk>, b: Seq<Thunk>, v: Value, s: Step)
    requires
        t < a.len(),
        a[t as int].value == Some(v),
        thunks_monotone(a, b),
        ref_step_ok(t, b, s),
    ensures
        b[t as int].value matches Some(w) && w@ == v@,
        s matches Step::Rewritten(e) && e@ == ExprV::Value(v@),
{
    assert(val_opt_matches(a[t as int].value, b[t as int].value));
}

/// Cycle policy: a reference back into a thunk that is already being
/// reduced rewrites to the undefined "infinite loop" value.
pub proof fn lemma_reentry_is_infinite_loop(t: usize, pre: Seq<Thunk>, s: Step)
    requires
        t < pre.len(),
        pre[t as int].value is None,
        pre[t as int].busy,
        ref_step_ok(t, pre, s),
    ensures
        s matches Step::Rewritten(e) && e@ == ExprV::Value(
            ValView::Undef(Undefined::InfiniteLoop),
        ),
{
}

impl Program {
    /// A snapshot: a deep copy whose definitions are equal and whose
    /// thunks, functions and queue denote the same contents, so a
    /// caller can restore the registry after a failed unit.
    #[verifier::loop_isolation(false)]
    pub fn duplicate(&self) -> (r: Program)
        requires
            self.wf(),
        ensures
            r.wf(),
            self.clean() ==> r.clean(),
            r.defs@ == self.defs@,
            r.funcs@.len() == self.funcs@.len(),
            forall|i: int|
                0 <= i < self.funcs@.len() ==> (#[trigger] r.funcs@[i]).n_params
                    == self.funcs@[i].n_params && (match (r.funcs@[i].body, self.funcs@[i].body) {
                    (Some(b1), Some(b2)) => b1@ == b2@,
                    (None, None) => true,
                    _ => false,
                }),
            r.thunks@.len() == self.thunks@.len(),
            forall|i: int|
                0 <= i < self.thunks@.len() ==> (#[trigger] r.thunks@[i]).expr@
                    == self.thunks@[i].expr@ && r.thunks@[i].busy == self.thunks@[i].busy && (
                match (r.thunks@[i].value, self.thunks@[i].value) {
                    (Some(v1), Some(v2)) => v1@ == v2@,
                    (None, None) => true,
                    _ => false,
                }),
            r.to_evaluate@.len() == self.to_evaluate@.len(),
            forall|i: int|
                0 <= i < self.to_evaluate@.len() ==> (#[trigger] r.to_evaluate@[i])@
                    == self.to_evaluate@[i]@,
    {
        let mut thunks: Vec<Thunk> = Vec::new();
        let mut i: usize = 0;
        while i < self.thunks.len()
            invariant
                i <= self.thunks@.len(),
                thunks@.len() == i,
                forall|j: int|
                    0 <= j < i ==> (#[trigger] thunks@[j]).expr@ == self.thunks@[j].expr@
                        && thunks@[j].busy == self.thunks@[j].busy && (match (
                        thunks@[j].value,
                        self.thunks@[j].value,
                    ) {
                        (Some(v1), Some(v2)) => v1@ == v2@,
                        (None, None) => true,
                        _ => false,
                    }),
            decreases self.thunks@.len() - i,
        {
            let value = match &self.thunks[i].value {
                None => None,
                Some(v) => Some(v.duplicate()),
            };
            thunks.push(
                Thunk { expr: self.thunks[i].expr.duplicate(), value, busy: self.thunks[i].busy },
            );
            i = i + 1;
        }
        let mut funcs: Vec<Function> = Vec::new();
        let mut i: usize = 0;
        while i < self.funcs.len()
            invariant
                i <= self.funcs@.len(),
                funcs@.len() == i,
                forall|j: int|
                    0 <= j < i ==> (#[trigger] funcs@[j]).n_params == self.funcs@[j].n_params && (
                    match (funcs@[j].body, self.funcs@[j].body) {
                        (Some(b1), Some(b2)) => b1@ == b2@,
                        (None, None) => true,
                        _ => false,
                    }),
            decreases self.funcs@.len() - i,
        {
            let body = match &self.funcs[i].body {
                None => None,
                Some(b) => Some(b.duplicate()),
            };
            funcs.push(Function { n_params: self.funcs[i].n_params, body });
            i = i + 1;
        }
        let mut defs: Vec<Def> = Vec::new();
        let mut i: usize = 0;
        while i < self.defs.len()
            invariant
                i <= self.defs@.len(),
                defs@.len() == i,
                forall|j: int| 0 <= j < i ==> #[trigger] defs@[j] == self.defs@[j],
            decreases self.defs@.len() - i,
        {
            let binding = match self.defs[i].binding {
                Binding::Constant(t) => Binding::Constant(t),
                Binding::Function(f) => Binding::Function(f),
                Binding::Removed => Binding::Removed,
            };
            defs.push(Def { name: self.defs[i].name.clone(), binding });
            i = i + 1;
        }
        let mut to_evaluate: Vec<Expression> = Vec::new();
        let mut i: usize = 0;
        while i < self.to_evaluate.len()
            invariant
                i <= self.to_evaluate@.len(),
                to_evaluate@.len() == i,
                forall|j: int|
                    0 <= j < i ==> (#[trigger] to_evaluate@[j])@ == self.to_evaluate@[j]@,
            decreases self.to_evaluate@.len() - i,
        {
            to_evaluate.push(self.to_evaluate[i].duplicate());
            i = i + 1;
        }
        let r = Program { thunks, funcs, defs, to_evaluate };
        proof {
            assert(r.defs@ =~= self.defs@);
            assert(arity_seq(r.funcs@) =~= arity_seq(self.funcs@));
            assert forall|i2: int|
                0 <= i2 < r.thunks@.len() implies thunk_wf(
                #[trigger] r.thunks@[i2],
                r.thunks@.len(),
                arity_seq(r.funcs@),
            ) by {
                assert(thunk_wf(self.thunks@[i2], self.n(), self.ar()));
            }
            assert forall|i2: int|
                0 <= i2 < r.funcs@.len() implies func_wf(
                #[trigger] r.funcs@[i2],
                r.thunks@.len(),
                arity_seq(r.funcs@),
            ) by {
                assert(func_wf(self.funcs@[i2], self.n(), self.ar()));
            }
            assert forall|i2: int|
                0 <= i2 < r.to_evaluate@.len() implies expr_wf(
                (#[trigger] r.to_evaluate@[i2])@,
                r.thunks@.len(),
                arity_seq(r.funcs@),
            ) by {
                assert(expr_wf(self.to_evaluate@[i2]@, self.n(), self.ar()));
            }
        }
        r
    }
}

impl Program {
    /// Dismantle the program through the destruction worklist: every
    /// stored expression - thunk contents, function bodies and queued
    /// expressions - is destroyed iteratively, so discarding even a
    /// program holding deep trees keeps destructor recursion shallow.
    pub fn dismantle(self, env: &mut EvaluationEnvironemnt)
        requires
            old(env).wf(),
        ensures
            final(env).wf(),
            final(env).garbage@.len() == 0,
    {
        let Program { mut thunks, mut funcs, defs: _defs, mut to_evaluate } = self;
        loop
            invariant
                env.wf(),
            decreases thunks@.len(),
        {
            match thunks.pop() {
                None => {
                    break ;
                },
                Some(t) => {
                    dispose(&mut env.garbage, t.expr);
                },
            }
        }
        loop
            invariant
                env.wf(),
            decreases funcs@.len(),
        {
            match funcs.pop() {
                None => {
                    break ;
                },
                Some(f) => {
                    match f.body {
                        Some(b) => {
                            dispose(&mut env.garbage, b);
                        },
                        None => {},
                    }
                },
            }
        }
        loop
            invariant
                env.wf(),
            decreases to_evaluate@.len(),
        {
            match to_evaluate.pop() {
                None => {
                    break ;
                },
                Some(e) => {
                    dispose(&mut env.garbage, e);
                },
            }
        }
        crate::garbage::collect(&mut env.garbage);
    }
}

} // verus!
