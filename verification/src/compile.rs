//! The compiler: lowering parsed statements into runtime expressions
//! against the program's bindings.
//!
//! Two passes over a unit: first every assignment target is declared
//! (so definitions may refer forward), then each right-hand side is
//! lowered and installed. Identifiers resolve to a function parameter,
//! else to a named constant; calls resolve to a named function with a
//! matching argument count.
//!
//! `s_compile` is the exact specification of the lowering: each
//! executable compile returns precisely what it says, error included.

use vstd::prelude::*;

use crate::expression::{Expression as RtExpression, ExprV, ev, evs, template_wf, expr_wf,
    lemma_call_ev};
use crate::parse::{Expression, Ast, Statement, StmtView, Code, ast_of, asts_of, ast_wf, stmt_ast_wf};
use crate::program::{Program, Binding, Def, Function, lookup, sentinel};
use crate::rational::Rational;
use crate::value::{Value, ValView};

verus! {

broadcast use vstd::std_specs::vec::axiom_vec_index_decreases, vstd::std_specs::vec::axiom_vec_decreases_to_view;

/// Why a unit failed to compile.
pub enum CompilationError {
    ConstantNotFound(String),
    FunctionNotFound(String),
    ConstantNotFunction(String),
    FunctionNotConstant(String),
    DuplicateDeclaration(String),
    BadEquation,
    BadParameter,
    ParamShadowsGlobal(String),
    DuplicateParameter(String),
    WrongNArgs(String, usize, usize),
}

/// The mathematical content of a compilation error.
#[verifier::ext_equal]
pub enum CompErrV {
    ConstantNotFound(Seq<char>),
    FunctionNotFound(Seq<char>),
    ConstantNotFunction(Seq<char>),
    FunctionNotConstant(Seq<char>),
    DuplicateDeclaration(Seq<char>),
    BadEquation,
    BadParameter,
    ParamShadowsGlobal(Seq<char>),
    DuplicateParameter(Seq<char>),
    WrongNArgs(Seq<char>, nat, nat),
}

impl View for CompilationError {
    type V = CompErrV;

    open spec fn view(&self) -> CompErrV {
        match self {
            CompilationError::ConstantNotFound(n) => CompErrV::ConstantNotFound(n@),
            CompilationError::FunctionNotFound(n) => CompErrV::FunctionNotFound(n@),
            CompilationError::ConstantNotFunction(n) => CompErrV::ConstantNotFunction(n@),
            CompilationError::FunctionNotConstant(n) => CompErrV::FunctionNotConstant(n@),
            CompilationError::DuplicateDeclaration(n) => CompErrV::DuplicateDeclaration(n@),
            CompilationError::BadEquation => CompErrV::BadEquation,
            CompilationError::BadParameter => CompErrV::BadParameter,
            CompilationError::ParamShadowsGlobal(n) => CompErrV::ParamShadowsGlobal(n@),
            CompilationError::DuplicateParameter(n) => CompErrV::DuplicateParameter(n@),
            CompilationError::WrongNArgs(n, got, want) => CompErrV::WrongNArgs(
                n@,
                *got as nat,
                *want as nat,
            ),
        }
    }
}

/// The views of a parameter name list.
pub open spec fn strs_of(v: Seq<String>) -> Seq<Seq<char>> {
    Seq::new(v.len(), |i: int| v[i]@)
}

/// The index of a name among the parameters, if any (first match).
pub open spec fn param_index(params: Seq<Seq<char>>, name: Seq<char>, i: nat) -> Option<nat>
    decreases params.len() - i,
{
    if i >= params.len() {
        None
    } else if params[i as int] == name {
        Some(i)
    } else {
        param_index(params, name, i + 1)
    }
}

/// The exact lowering of a parsed expression: a parameter becomes a
/// placeholder; a name becomes its constant's thunk; a call becomes a
/// call of its function, argument count checked; `+`/`-` signs, sums,
/// products and powers map to their nodes; errors are exactly as
/// listed, the left operand's first.
pub open spec fn s_compile(
    e: Ast,
    defs: Seq<Def>,
    funcs: Seq<Function>,
    params: Seq<Seq<char>>,
) -> Result<ExprV, CompErrV>
    decreases e, 0int,
{
    match e {
        Ast::Number(r) => Ok(ExprV::Value(ValView::Num(r))),
        Ast::Identifier(name) => {
            match param_index(params, name, 0) {
                Some(i) => Ok(ExprV::ArgumentIndex(i as usize)),
                None => match lookup(defs, name) {
                    Some(Binding::Constant(t)) => Ok(ExprV::Constant(t)),
                    Some(Binding::Function(_)) => Err(CompErrV::FunctionNotConstant(name)),
                    _ => Err(CompErrV::ConstantNotFound(name)),
                },
            }
        },
        Ast::Pos(x) => s_compile(*x, defs, funcs, params),
        Ast::Neg(x) => match s_compile(*x, defs, funcs, params) {
            Ok(c) => Ok(ExprV::Neg(Box::new(c))),
            Err(er) => Err(er),
        },
        Ast::Add(a, b) => match s_compile(*a, defs, funcs, params) {
            Err(er) => Err(er),
            Ok(ca) => match s_compile(*b, defs, funcs, params) {
                Err(er) => Err(er),
                Ok(cb) => Ok(ExprV::Add(Box::new(ca), Box::new(cb))),
            },
        },
        Ast::Sub(a, b) => match s_compile(*a, defs, funcs, params) {
            Err(er) => Err(er),
            Ok(ca) => match s_compile(*b, defs, funcs, params) {
                Err(er) => Err(er),
                Ok(cb) => Ok(ExprV::Sub(Box::new(ca), Box::new(cb))),
            },
        },
        Ast::Mul(a, b) => match s_compile(*a, defs, funcs, params) {
            Err(er) => Err(er),
            Ok(ca) => match s_compile(*b, defs, funcs, params) {
                Err(er) => Err(er),
                Ok(cb) => Ok(ExprV::Mul(Box::new(ca), Box::new(cb))),
            },
        },
        Ast::Div(a, b) => match s_compile(*a, defs, funcs, params) {
            Err(er) => Err(er),
            Ok(ca) => match s_compile(*b, defs, funcs, params) {
                Err(er) => Err(er),
                Ok(cb) => Ok(ExprV::Div(Box::new(ca), Box::new(cb))),
            },
        },
        Ast::Pow(a, b) => match s_compile(*a, defs, funcs, params) {
            Err(er) => Err(er),
            Ok(ca) => match s_compile(*b, defs, funcs, params) {
                Err(er) => Err(er),
                Ok(cb) => Ok(ExprV::Pow(Box::new(ca), Box::new(cb))),
            },
        },
        Ast::Call(name, args) => {
            match lookup(defs, name) {
                Some(Binding::Function(f)) => {
                    match s_compile_args(args, 0, defs, funcs, params) {
                        Ok(cargs) => {
                            if f < funcs.len() && args.len() == funcs[f as int].n_params {
                                Ok(ExprV::Call(f, cargs))
                            } else {
                                Err(
                                    CompErrV::WrongNArgs(
                                        name,
                                        args.len(),
                                        if f < funcs.len() {
                                            funcs[f as int].n_params as nat
                                        } else {
                                            0
                                        },
                                    ),
                                )
                            }
                        },
                        Err(er) => Err(er),
                    }
                },
                Some(Binding::Constant(_)) => Err(CompErrV::ConstantNotFunction(name)),
                _ => Err(CompErrV::FunctionNotFound(name)),
            }
        },
    }
}

/// Lowering of the arguments from index `i` on, left to right, first
/// error first.
pub open spec fn s_compile_args(
    args: Seq<Ast>,
    i: nat,
    defs: Seq<Def>,
    funcs: Seq<Function>,
    params: Seq<Seq<char>>,
) -> Result<Seq<ExprV>, CompErrV>
    decreases args, args.len() - i,
{
    if i >= args.len() {
        Ok(Seq::empty())
    } else {
        match s_compile(args[i as int], defs, funcs, params) {
            Err(er) => Err(er),
            Ok(c) => match s_compile_args(args, i + 1, defs, funcs, params) {
                Err(er) => Err(er),
                Ok(rest) => Ok(seq![c] + rest),
            },
        }
    }
}

/// The name a target defines: an identifier names a constant, a call
/// names a function; anything else is a bad equation.
pub open spec fn target_name(a: Ast) -> Option<Seq<char>> {
    match a {
        Ast::Identifier(n) => Some(n),
        Ast::Call(n, _) => Some(n),
        _ => None,
    }
}

/// Validate a function's parameters in order: each must be a plain
/// identifier, must not shadow a global, and must not repeat an
/// earlier parameter; yields the names gathered so far.
pub open spec fn s_params(params: Seq<Ast>, i: nat, seen: Seq<Seq<char>>, defs: Seq<Def>) -> Result<
    Seq<Seq<char>>,
    CompErrV,
>
    decreases params.len() - i,
{
    if i >= params.len() {
        Ok(seen)
    } else {
        match params[i as int] {
            Ast::Identifier(n) => {
                if lookup(defs, n) is Some {
                    Err(CompErrV::ParamShadowsGlobal(n))
                } else if seen.contains(n) {
                    Err(CompErrV::DuplicateParameter(n))
                } else {
                    s_params(params, i + 1, seen.push(n), defs)
                }
            },
            _ => Err(CompErrV::BadParameter),
        }
    }
}

/// Lowering reads only the arities of the function store, so
/// installing bodies does not change any lowering.
pub proof fn lemma_s_compile_arities(
    e: Ast,
    defs: Seq<Def>,
    funcs1: Seq<Function>,
    funcs2: Seq<Function>,
    params: Seq<Seq<char>>,
)
    requires
        funcs1.len() == funcs2.len(),
        forall|i: int| 0 <= i < funcs1.len() ==> (#[trigger] funcs2[i]).n_params
            == funcs1[i].n_params,
    ensures
        s_compile(e, defs, funcs1, params) == s_compile(e, defs, funcs2, params),
    decreases e, 1int,
{
    match e {
        Ast::Pos(x) => lemma_s_compile_arities(*x, defs, funcs1, funcs2, params),
        Ast::Neg(x) => lemma_s_compile_arities(*x, defs, funcs1, funcs2, params),
        Ast::Add(a, b) => {
            lemma_s_compile_arities(*a, defs, funcs1, funcs2, params);
            lemma_s_compile_arities(*b, defs, funcs1, funcs2, params);
        },
        Ast::Sub(a, b) => {
            lemma_s_compile_arities(*a, defs, funcs1, funcs2, params);
            lemma_s_compile_arities(*b, defs, funcs1, funcs2, params);
        },
        Ast::Mul(a, b) => {
            lemma_s_compile_arities(*a, defs, funcs1, funcs2, params);
            lemma_s_compile_arities(*b, defs, funcs1, funcs2, params);
        },
        Ast::Div(a, b) => {
            lemma_s_compile_arities(*a, defs, funcs1, funcs2, params);
            lemma_s_compile_arities(*b, defs, funcs1, funcs2, params);
        },
        Ast::Pow(a, b) => {
            lemma_s_compile_arities(*a, defs, funcs1, funcs2, params);
            lemma_s_compile_arities(*b, defs, funcs1, funcs2, params);
        },
        Ast::Call(name, args) => {
            lemma_s_compile_args_arities(args, 0, defs, funcs1, funcs2, params);
        },
        _ => {},
    }
}

proof fn lemma_s_compile_args_arities(
    args: Seq<Ast>,
    i: nat,
    defs: Seq<Def>,
    funcs1: Seq<Function>,
    funcs2: Seq<Function>,
    params: Seq<Seq<char>>,
)
    requires
        funcs1.len() == funcs2.len(),
        forall|k: int| 0 <= k < funcs1.len() ==> (#[trigger] funcs2[k]).n_params
            == funcs1[k].n_params,
    ensures
        s_compile_args(args, i, defs, funcs1, params) == s_compile_args(args, i, defs, funcs2, params),
    decreases args, args.len() - i, 0int,
{
    if i < args.len() {
        lemma_s_compile_arities(args[i as int], defs, funcs1, funcs2, params);
        lemma_s_compile_args_arities(args, i + 1, defs, funcs1, funcs2, params);
    }
}

/// A lowering under no parameters never yields a bare placeholder.
proof fn lemma_s_compile_no_placeholder(e: Ast, defs: Seq<Def>, funcs: Seq<Function>)
    requires
        s_compile(e, defs, funcs, Seq::empty()) is Ok,
    ensures
        !(s_compile(e, defs, funcs, Seq::empty())->Ok_0 is ArgumentIndex),
    decreases e,
{
    match e {
        Ast::Pos(x) => lemma_s_compile_no_placeholder(*x, defs, funcs),
        _ => {},
    }
}

/// Check one statement's targets against the names seen so far.
pub open spec fn s_check_targets(targets: Seq<Ast>, ti: nat, seen: Seq<Seq<char>>) -> Result<
    Seq<Seq<char>>,
    CompErrV,
>
    decreases targets.len() - ti,
{
    if ti >= targets.len() {
        Ok(seen)
    } else {
        match target_name(targets[ti as int]) {
            None => Err(CompErrV::BadEquation),
            Some(n) => {
                if seen.contains(n) {
                    Err(CompErrV::DuplicateDeclaration(n))
                } else {
                    s_check_targets(targets, ti + 1, seen.push(n))
                }
            },
        }
    }
}

/// Check every statement's targets: each one a plain name or a call
/// shape, and no name declared twice within the unit.
pub open spec fn s_check_stmts(stmts: Seq<StmtView>, si: nat, seen: Seq<Seq<char>>) -> Result<
    Seq<Seq<char>>,
    CompErrV,
>
    decreases stmts.len() - si,
{
    if si >= stmts.len() {
        Ok(seen)
    } else {
        match stmts[si as int] {
            StmtView::Evaluate(_) => s_check_stmts(stmts, si + 1, seen),
            StmtView::Assign(exprs) => {
                if exprs.len() == 0 {
                    Err(CompErrV::BadEquation)
                } else {
                    match s_check_targets(exprs.take(exprs.len() - 1), 0, seen) {
                        Err(er) => Err(er),
                        Ok(seen2) => s_check_stmts(stmts, si + 1, seen2),
                    }
                }
            },
        }
    }
}

/// Lower one parsed expression. Exactly what `s_compile` says, and any
/// produced expression is a well-formed template over the parameters.
#[verifier::loop_isolation(false)]
#[verifier::rlimit(100)]
pub fn compile_expression(program: &Program, e: &Expression, params: &Vec<String>) -> (r: Result<
    RtExpression,
    CompilationError,
>)
    requires
        program.wf(),
        ast_wf(ast_of(*e)),
    ensures
        match (r, s_compile(ast_of(*e), program.defs@, program.funcs@, strs_of(params@))) {
            (Ok(c), Ok(cs)) => c@ == cs && template_wf(
                c@,
                program.n(),
                program.ar(),
                params@.len(),
            ),
            (Err(a), Err(b)) => a@ == b,
            _ => false,
        },
    decreases e,
{
    match e {
        Expression::Number(n) => Ok(RtExpression::Value(Value::Number(n.duplicate()))),
        Expression::Identifier(name) => {
            let mut i: usize = 0;
            loop
                invariant
                    i <= params@.len(),
                    param_index(strs_of(params@), name@, 0) == param_index(
                        strs_of(params@),
                        name@,
                        i as nat,
                    ),
                decreases params@.len() - i,
            {
                if i >= params.len() {
                    break ;
                }
                proof {
                    assert(strs_of(params@)[i as int] == params@[i as int]@);
                }
                if params[i] == *name {
                    return Ok(RtExpression::ArgumentIndex(i));
                }
                i = i + 1;
            }
            match program.get_constant_or_function(name) {
                Some(Binding::Constant(t)) => Ok(RtExpression::Constant(t)),
                Some(Binding::Function(_)) => Err(
                    CompilationError::FunctionNotConstant(name.clone()),
                ),
                _ => Err(CompilationError::ConstantNotFound(name.clone())),
            }
        },
        Expression::Pos(x) => compile_expression(program, x, params),
        Expression::Neg(x) => match compile_expression(program, x, params) {
            Ok(c) => Ok(RtExpression::Neg(Box::new(c))),
            Err(er) => Err(er),
        },
        Expression::Add(a, b) => match compile_expression(program, a, params) {
            Err(er) => Err(er),
            Ok(ca) => match compile_expression(program, b, params) {
                Err(er) => Err(er),
                Ok(cb) => Ok(RtExpression::Add(Box::new(ca), Box::new(cb))),
            },
        },
        Expression::Sub(a, b) => match compile_expression(program, a, params) {
            Err(er) => Err(er),
            Ok(ca) => match compile_expression(program, b, params) {
                Err(er) => Err(er),
                Ok(cb) => Ok(RtExpression::Sub(Box::new(ca), Box::new(cb))),
            },
        },
        Expression::Mul(a, b) => match compile_expression(program, a, params) {
            Err(er) => Err(er),
            Ok(ca) => match compile_expression(program, b, params) {
                Err(er) => Err(er),
                Ok(cb) => Ok(RtExpression::Mul(Box::new(ca), Box::new(cb))),
            },
        },
        Expression::Div(a, b) => match compile_expression(program, a, params) {
            Err(er) => Err(er),
            Ok(ca) => match compile_expression(program, b, params) {
                Err(er) => Err(er),
                Ok(cb) => Ok(RtExpression::Div(Box::new(ca), Box::new(cb))),
            },
        },
        Expression::Pow(a, b) => match compile_expression(program, a, params) {
            Err(er) => Err(er),
            Ok(ca) => match compile_expression(program, b, params) {
                Err(er) => Err(er),
                Ok(cb) => Ok(RtExpression::Pow(Box::new(ca), Box::new(cb))),
            },
        },
        Expression::Call(name, args) => {
            let ghost astv = ast_of(*e);
            proof {
                crate::parse::lemma_call_view(*name, *args);
            }
            match program.get_constant_or_function(name) {
                Some(Binding::Function(f)) => {
                    let mut out: Vec<RtExpression> = Vec::new();
                    let mut i: usize = 0;
                    let ghost sargs = astv->Call_1;
                    loop
                        invariant
                            i <= args@.len(),
                            out@.len() == i,
                            sargs.len() == args@.len(),
                            forall|j: int| 0 <= j < args@.len() ==> sargs[j] == ast_of(args@[j]),
                            forall|j: int|
                                0 <= j < i ==> s_compile(
                                    sargs[j],
                                    program.defs@,
                                    program.funcs@,
                                    strs_of(params@),
                                ) == Ok::<ExprV, CompErrV>(ev(#[trigger] out@[j])),
                            forall|j: int|
                                0 <= j < i ==> template_wf(
                                    ev(#[trigger] out@[j]),
                                    program.n(),
                                    program.ar(),
                                    params@.len(),
                                ),
                        decreases args@.len() - i,
                    {
                        if i >= args.len() {
                            break ;
                        }
                        proof {
                            assert(decreases_to!(*e => (*e)->Call_1));
                            assert((*e)->Call_1 == *args);
                            assert(decreases_to!(*args => args[i as int]));
                            assert(ast_wf(sargs[i as int]));
                            assert(sargs[i as int] == ast_of(args@[i as int]));
                        }
                        match compile_expression(program, &args[i], params) {
                            Err(er) => {
                                proof {
                                    assert forall|j: int|
                                        0 <= j < i implies (#[trigger] s_compile(
                                        sargs[j],
                                        program.defs@,
                                        program.funcs@,
                                        strs_of(params@),
                                    )) is Ok by {
                                        assert(s_compile(
                                            sargs[j],
                                            program.defs@,
                                            program.funcs@,
                                            strs_of(params@),
                                        ) == Ok::<ExprV, CompErrV>(ev(out@[j])));
                                    }
                                    lemma_compile_args_err(
                                        sargs,
                                        0,
                                        i as nat,
                                        er@,
                                        program.defs@,
                                        program.funcs@,
                                        strs_of(params@),
                                    );
                                }
                                return Err(er);
                            },
                            Ok(c) => {
                                out.push(c);
                                i = i + 1;
                            },
                        }
                    }
                    proof {
                        assert forall|j: int|
                            0 <= j < sargs.len() implies (#[trigger] s_compile(
                            sargs[j],
                            program.defs@,
                            program.funcs@,
                            strs_of(params@),
                        )) == Ok::<ExprV, CompErrV>(evs(out@)[j]) by {
                            assert(s_compile(
                                sargs[j],
                                program.defs@,
                                program.funcs@,
                                strs_of(params@),
                            ) == Ok::<ExprV, CompErrV>(ev(out@[j])));
                            assert(evs(out@)[j] == ev(out@[j]));
                        }
                        lemma_compile_args_ok(
                            sargs,
                            0,
                            evs(out@),
                            program.defs@,
                            program.funcs@,
                            strs_of(params@),
                        );
                    }
                    let np = match program.get_n_params(name) {
                        Some(k) => k,
                        None => vstd::pervasive::unreached(),
                    };
                    if args.len() != np {
                        return Err(
                            CompilationError::WrongNArgs(name.clone(), args.len(), np),
                        );
                    }
                    proof {
                        lemma_call_ev(f, out);
                        assert(ev(RtExpression::Call(f, out)) == ExprV::Call(f, evs(out@)));
                        assert forall|j: int|
                            0 <= j < evs(out@).len() implies template_wf(
                            #[trigger] evs(out@)[j],
                            program.n(),
                            program.ar(),
                            params@.len(),
                        ) by {
                            assert(evs(out@)[j] == ev(out@[j]));
                        }
                        assert(program.ar()[f as int] == program.funcs@[f as int].n_params as nat);
                    }
                    Ok(RtExpression::Call(f, out))
                },
                Some(Binding::Constant(_)) => Err(
                    CompilationError::ConstantNotFunction(name.clone()),
                ),
                _ => Err(CompilationError::FunctionNotFound(name.clone())),
            }
        },
    }
}

/// A failing argument makes the whole argument list fail with the
/// same error.
proof fn lemma_compile_args_err(
    sargs: Seq<Ast>,
    from: nat,
    at: nat,
    er: CompErrV,
    defs: Seq<Def>,
    funcs: Seq<Function>,
    params: Seq<Seq<char>>,
)
    requires
        from <= at < sargs.len(),
        s_compile(sargs[at as int], defs, funcs, params) == Err::<ExprV, CompErrV>(er),
        forall|j: int|
            from <= j < at ==> (#[trigger] s_compile(sargs[j], defs, funcs, params)) is Ok,
    ensures
        s_compile_args(sargs, from, defs, funcs, params) == Err::<Seq<ExprV>, CompErrV>(er),
    decreases at - from,
{
    if from < at {
        assert(s_compile(sargs[from as int], defs, funcs, params) is Ok);
        lemma_compile_args_err(sargs, from + 1, at, er, defs, funcs, params);
        assert(s_compile_args(sargs, from + 1, defs, funcs, params) == Err::<
            Seq<ExprV>,
            CompErrV,
        >(er));
    } else {
        assert(s_compile(sargs[from as int], defs, funcs, params) == Err::<ExprV, CompErrV>(er));
    }
}

/// Successfully lowered arguments make the whole list succeed with
/// exactly those expressions.
proof fn lemma_compile_args_ok(
    sargs: Seq<Ast>,
    from: nat,
    outs: Seq<ExprV>,
    defs: Seq<Def>,
    funcs: Seq<Function>,
    params: Seq<Seq<char>>,
)
    requires
        from <= sargs.len(),
        outs.len() == sargs.len() - from,
        forall|j: int|
            from <= j < sargs.len() ==> (#[trigger] s_compile(sargs[j], defs, funcs, params))
                == Ok::<ExprV, CompErrV>(outs[j - from]),
    ensures
        s_compile_args(sargs, from, defs, funcs, params) == Ok::<Seq<ExprV>, CompErrV>(outs),
    decreases sargs.len() - from,
{
    if from < sargs.len() {
        assert(s_compile(sargs[from as int], defs, funcs, params) == Ok::<ExprV, CompErrV>(
            outs[0],
        ));
        assert forall|j: int|
            from + 1 <= j < sargs.len() implies (#[trigger] s_compile(sargs[j], defs, funcs, params))
            == Ok::<ExprV, CompErrV>(outs.drop_first()[j - (from + 1)]) by {
            assert(outs.drop_first()[j - (from + 1)] == outs[j - from]);
        }
        lemma_compile_args_ok(sargs, from + 1, outs.drop_first(), defs, funcs, params);
        assert(outs =~= seq![outs[0]] + outs.drop_first());
    } else {
        assert(outs =~= Seq::<ExprV>::empty());
    }
}

/// The lowered Evaluate expressions among the first `i` statements,
/// in statement order.
pub open spec fn s_queue_prefix(
    stmts: Seq<StmtView>,
    i: nat,
    defs: Seq<Def>,
    funcs: Seq<Function>,
) -> Seq<ExprV>
    decreases i,
{
    if i == 0 || i > stmts.len() {
        Seq::empty()
    } else {
        s_queue_prefix(stmts, (i - 1) as nat, defs, funcs) + (match stmts[i - 1] {
            StmtView::Evaluate(e) => seq![s_compile(e, defs, funcs, Seq::empty())->Ok_0],
            _ => Seq::empty(),
        })
    }
}

/// The queued lowerings read only arities, so installing bodies does
/// not change them.
proof fn lemma_s_queue_prefix_arities(
    stmts: Seq<StmtView>,
    i: nat,
    defs: Seq<Def>,
    funcs1: Seq<Function>,
    funcs2: Seq<Function>,
)
    requires
        funcs1.len() == funcs2.len(),
        forall|k: int| 0 <= k < funcs1.len() ==> (#[trigger] funcs2[k]).n_params
            == funcs1[k].n_params,
    ensures
        s_queue_prefix(stmts, i, defs, funcs1) == s_queue_prefix(stmts, i, defs, funcs2),
    decreases i,
{
    if 0 < i <= stmts.len() {
        lemma_s_queue_prefix_arities(stmts, (i - 1) as nat, defs, funcs1, funcs2);
        match stmts[i - 1] {
            StmtView::Evaluate(e) => {
                lemma_s_compile_arities(e, defs, funcs1, funcs2, Seq::empty());
            },
            _ => {},
        }
    }
}

/// An assignment target stands installed: its name resolves to its
/// declared binding, which holds exactly the lowered right-hand side.
pub open spec fn target_installed(
    target: Ast,
    value: Ast,
    defs: Seq<Def>,
    funcs: Seq<Function>,
    thunks: Seq<crate::program::Thunk>,
) -> bool {
    match target {
        Ast::Identifier(nm) => {
            &&& lookup(defs, nm) matches Some(Binding::Constant(t))
            &&& t < thunks.len()
            &&& s_compile(value, defs, funcs, Seq::empty()) matches Ok(c)
            &&& thunks[t as int].expr@ == c
            &&& thunks[t as int].value is None
            &&& !thunks[t as int].busy
        },
        Ast::Call(nm, ps) => {
            &&& lookup(defs, nm) matches Some(Binding::Function(f))
            &&& f < funcs.len()
            &&& s_params(ps, 0, Seq::empty(), defs) matches Ok(names)
            &&& funcs[f as int].n_params == ps.len()
            &&& s_compile(value, defs, funcs, names) matches Ok(c)
            &&& funcs[f as int].body matches Some(b)
            &&& b@ == c
        },
        _ => false,
    }
}

/// A statement stands compiled: an Evaluate's expression lowers, and
/// every target of an Assign is installed.
pub open spec fn stmt_installed(
    st: StmtView,
    defs: Seq<Def>,
    funcs: Seq<Function>,
    thunks: Seq<crate::program::Thunk>,
) -> bool {
    match st {
        StmtView::Evaluate(e) => s_compile(e, defs, funcs, Seq::empty()) is Ok,
        StmtView::Assign(xs) => xs.len() >= 1 && (forall|ti: int|
            0 <= ti < xs.len() - 1 ==> target_installed(
                #[trigger] xs[ti],
                xs.last(),
                defs,
                funcs,
                thunks,
            )),
    }
}

/// The error one assignment target surfaces, over the state at the
/// failure.
pub open spec fn target_error(
    target: Ast,
    value: Ast,
    defs: Seq<Def>,
    funcs: Seq<Function>,
    e: CompErrV,
) -> bool {
    match target {
        Ast::Identifier(nm) => e == (match s_compile(value, defs, funcs, Seq::empty()) {
            Err(ce) => ce,
            Ok(_) => match lookup(defs, nm) {
                Some(Binding::Constant(_)) => CompErrV::DuplicateDeclaration(nm),
                _ => CompErrV::ConstantNotFound(nm),
            },
        }),
        Ast::Call(nm, ps) => e == (match s_params(ps, 0, Seq::empty(), defs) {
            Err(pe) => pe,
            Ok(pnames) => match s_compile(value, defs, funcs, pnames) {
                Err(ce) => ce,
                Ok(_) => match lookup(defs, nm) {
                    Some(Binding::Function(f)) => if f < funcs.len() && !(funcs[f as int].body
                        is None) {
                        CompErrV::DuplicateDeclaration(nm)
                    } else if f < funcs.len() {
                        CompErrV::WrongNArgs(nm, ps.len(), funcs[f as int].n_params as nat)
                    } else {
                        CompErrV::FunctionNotFound(nm)
                    },
                    _ => CompErrV::FunctionNotFound(nm),
                },
            },
        }),
        _ => e == CompErrV::BadEquation,
    }
}

/// The error one statement surfaces.
pub open spec fn stmt_error_at(
    st: StmtView,
    defs: Seq<Def>,
    funcs: Seq<Function>,
    e: CompErrV,
) -> bool {
    match st {
        StmtView::Evaluate(x) => s_compile(x, defs, funcs, Seq::empty()) matches Err(e2) && e2
            == e,
        StmtView::Assign(xs) => {
            if xs.len() == 0 {
                e == CompErrV::BadEquation
            } else {
                exists|ti: int|
                    0 <= ti < xs.len() - 1 && target_error(
                        #[trigger] xs[ti],
                        xs.last(),
                        defs,
                        funcs,
                        e,
                    )
            }
        },
    }
}

/// Every assignment target's name has some binding.
pub open spec fn targets_declared(stmts: Seq<StmtView>, defs: Seq<Def>) -> bool {
    forall|si: int, ti: int|
        0 <= si < stmts.len() && stmts[si] is Assign && 0 <= ti < stmts[si]->Assign_0.len() - 1
            && target_name(#[trigger] stmts[si]->Assign_0[ti]) is Some ==> lookup(
            defs,
            target_name(stmts[si]->Assign_0[ti])->Some_0,
        ) is Some
}

/// The unit surfaces this error: either the duplicate-declaration
/// scan's, or some statement's.
pub open spec fn unit_error(
    stmts: Seq<StmtView>,
    defs: Seq<Def>,
    funcs: Seq<Function>,
    e: CompErrV,
) -> bool {
    ||| s_check_stmts(stmts, 0, Seq::empty()) matches Err(e2) && e2 == e
    ||| exists|si: int|
        0 <= si < stmts.len() && stmt_error_at(#[trigger] stmts[si], defs, funcs, e)
}

/// Check that every assignment target is a plain name or a call shape
/// and that no name is declared twice within the unit, exactly as
/// `s_check_stmts` says.
#[verifier::loop_isolation(false)]
pub fn assert_no_duplicate_assignments(code: &Code) -> (r: Result<(), CompilationError>)
    ensures
        match (r, s_check_stmts(code@, 0, Seq::empty())) {
            (Ok(()), Ok(_)) => true,
            (Err(a), Err(b)) => a@ == b,
            _ => false,
        },
{
    let mut seen: Vec<String> = Vec::new();
    let mut si: usize = 0;
    proof {
        assert(strs_of(seen@) =~= Seq::<Seq<char>>::empty());
    }
    loop
        invariant
            si <= code.statements@.len(),
            s_check_stmts(code@, 0, Seq::empty()) == s_check_stmts(
                code@,
                si as nat,
                strs_of(seen@),
            ),
        decreases code.statements@.len() - si,
    {
        if si >= code.statements.len() {
            return Ok(());
        }
        proof {
            assert(code@[si as int] == code.statements@[si as int]@);
        }
        match &code.statements[si] {
            Statement::Evaluate(_) => {
                si = si + 1;
            },
            Statement::Assign(exprs) => {
                let ghost targets = code@[si as int]->Assign_0.take(
                    code@[si as int]->Assign_0.len() - 1,
                );
                if exprs.len() == 0 {
                    return Err(CompilationError::BadEquation);
                }
                let mut ti: usize = 0;
                loop
                    invariant
                        si < code.statements@.len(),
                        code.statements@[si as int] matches Statement::Assign(v) && v == *exprs,
                        code@[si as int] matches StmtView::Assign(vs) && vs == asts_of(exprs@),
                        targets == asts_of(exprs@).take(asts_of(exprs@).len() - 1),
                        exprs@.len() >= 1,
                        ti <= exprs@.len() - 1,
                        s_check_stmts(code@, 0, Seq::empty()) == (match s_check_targets(
                            targets,
                            ti as nat,
                            strs_of(seen@),
                        ) {
                            Err(er) => Err(er),
                            Ok(seen2) => s_check_stmts(code@, (si + 1) as nat, seen2),
                        }),
                    decreases exprs@.len() - ti,
                {
                    if ti >= exprs.len() - 1 {
                        break ;
                    }
                    proof {
                        assert(targets[ti as int] == ast_of(exprs@[ti as int]));
                    }
                    let name: &String = match &exprs[ti] {
                        Expression::Identifier(n) => n,
                        Expression::Call(n, _) => n,
                        _ => {
                            return Err(CompilationError::BadEquation);
                        },
                    };
                    // a name declared twice within the unit is refused
                    let mut k: usize = 0;
                    let mut dup = false;
                    loop
                        invariant
                            k <= seen@.len(),
                            dup ==> k < seen@.len() && strs_of(seen@)[k as int] == name@,
                            !dup ==> forall|j: int| 0 <= j < k ==> strs_of(seen@)[j] != name@,
                        decreases seen@.len() + 1 - k - (if dup { 1int } else { 0int }),
                    {
                        if dup || k >= seen.len() {
                            break ;
                        }
                        proof {
                            assert(strs_of(seen@)[k as int] == seen@[k as int]@);
                        }
                        if seen[k] == *name {
                            dup = true;
                        } else {
                            k = k + 1;
                        }
                    }
                    proof {
                        if dup {
                            assert(strs_of(seen@)[k as int] == name@);
                            assert(strs_of(seen@).contains(name@));
                        } else {
                            if strs_of(seen@).contains(name@) {
                                let j = choose|j: int|
                                    0 <= j < strs_of(seen@).len() && strs_of(seen@)[j] == name@;
                                assert(strs_of(seen@)[j] == name@);
                            }
                        }
                    }
                    if dup {
                        return Err(CompilationError::DuplicateDeclaration(name.clone()));
                    }
                    let name_c = name.clone();
                    proof {
                        assert(strs_of(seen@.push(name_c)) =~= strs_of(seen@).push(name@));
                    }
                    seen.push(name_c);
                    ti = ti + 1;
                }
                si = si + 1;
            },
        }
    }
}

/// Declare every assignment target of the unit, constants and
/// functions alike, before any right-hand side is lowered.
#[verifier::loop_isolation(false)]
fn insert_uninit_globals(code: &Code, program: &mut Program) -> (r: Result<(), CompilationError>)
    requires
        old(program).wf(),
        old(program).clean(),
    ensures
        final(program).wf(),
        final(program).clean(),
        final(program).funcs@.len() >= old(program).funcs@.len(),
        final(program).to_evaluate == old(program).to_evaluate,
        crate::program::thunks_monotone(old(program).thunks@, final(program).thunks@),
        r matches Err(e) ==> e@ == CompErrV::BadEquation && (exists|si: int|
            0 <= si < code@.len() && stmt_error_at(
                #[trigger] code@[si],
                final(program).defs@,
                final(program).funcs@,
                e@,
            )),
        r is Ok ==> targets_declared(code@, final(program).defs@),
    decreases code.statements@.len(),
{
    let mut si: usize = 0;
    loop
        invariant
            si <= code.statements@.len(),
            program.wf(),
            program.clean(),
            program.funcs@.len() >= old(program).funcs@.len(),
            program.to_evaluate == old(program).to_evaluate,
            crate::program::thunks_monotone(old(program).thunks@, program.thunks@),
            forall|sj: int, tj: int|
                0 <= sj < si && code@[sj] is Assign && 0 <= tj < code@[sj]->Assign_0.len() - 1
                    && target_name(#[trigger] code@[sj]->Assign_0[tj]) is Some ==> lookup(
                    program.defs@,
                    target_name(code@[sj]->Assign_0[tj])->Some_0,
                ) is Some,
        decreases code.statements@.len() - si,
    {
        if si >= code.statements.len() {
            return Ok(());
        }
        proof {
            assert(code@[si as int] == code.statements@[si as int]@);
        }
        match &code.statements[si] {
            Statement::Evaluate(_) => {},
            Statement::Assign(exprs) => {
                proof {
                    assert(code@[si as int]->Assign_0 == asts_of(exprs@));
                }
                if exprs.len() == 0 {
                    return Err(CompilationError::BadEquation);
                }
                let mut ti: usize = 0;
                loop
                    invariant
                        ti <= exprs@.len() - 1,
                        exprs@.len() >= 1,
                        si < code.statements@.len(),
                        program.wf(),
                        program.clean(),
                        program.funcs@.len() >= old(program).funcs@.len(),
                        program.to_evaluate == old(program).to_evaluate,
                        code.statements@[si as int] matches Statement::Assign(v) && v == *exprs,
                        code@[si as int]->Assign_0 == asts_of(exprs@),
                        crate::program::thunks_monotone(old(program).thunks@, program.thunks@),
                        forall|sj: int, tj: int|
                            0 <= sj < si && code@[sj] is Assign && 0 <= tj < code@[sj]->Assign_0.len()
                                - 1 && target_name(
                                #[trigger] code@[sj]->Assign_0[tj],
                            ) is Some ==> lookup(
                                program.defs@,
                                target_name(code@[sj]->Assign_0[tj])->Some_0,
                            ) is Some,
                        forall|tj: int|
                            0 <= tj < ti && target_name(
                                #[trigger] asts_of(exprs@)[tj],
                            ) is Some ==> lookup(
                                program.defs@,
                                target_name(asts_of(exprs@)[tj])->Some_0,
                            ) is Some,
                    decreases exprs@.len() - ti,
                {
                    if ti >= exprs.len() - 1 {
                        break ;
                    }
                    let ghost pre = program.thunks@;
                    proof {
                        assert(asts_of(exprs@)[ti as int] == ast_of(exprs@[ti as int]));
                    }
                    let ghost defs_pre = program.defs@;
                    match &exprs[ti] {
                        Expression::Identifier(n) => {
                            let _ = program.define_constant(n.clone());
                        },
                        Expression::Call(n, params) => {
                            let _ = program.define_function(n.clone(), params.len());
                        },
                        _ => {
                            proof {
                                assert(target_error(
                                    asts_of(exprs@)[ti as int],
                                    asts_of(exprs@).last(),
                                    program.defs@,
                                    program.funcs@,
                                    CompErrV::BadEquation,
                                ));
                            }
                            return Err(CompilationError::BadEquation);
                        },
                    }
                    proof {
                        crate::program::lemma_monotone_trans(
                            old(program).thunks@,
                            pre,
                            program.thunks@,
                        );
                        lemma_lookup_some_preserved(defs_pre, program.defs@);
                    }
                    ti = ti + 1;
                }
            },
        }
        si = si + 1;
    }
}

/// A declared constant's thunk that was never initialized.
pub open spec fn uninit_thunk(t: crate::program::Thunk) -> bool {
    t.expr@ == sentinel() && t.value is None && !t.busy
}

/// Exactly what installing one constant does: on success the
/// right-hand side lowers, the name resolves to a declared,
/// still-uninitialized constant, and precisely that thunk now holds
/// the lowered expression; on failure the store is untouched and the
/// error is the lowering's, or names the missing or already-installed
/// binding.
pub open spec fn constant_outcome(
    r: Result<(), CompilationError>,
    value: Ast,
    name: Seq<char>,
    defs: Seq<Def>,
    funcs: Seq<Function>,
    pre: Seq<crate::program::Thunk>,
    post: Seq<crate::program::Thunk>,
) -> bool {
    let compiled = s_compile(value, defs, funcs, Seq::empty());
    match r {
        Ok(()) => {
            &&& compiled is Ok
            &&& lookup(defs, name) matches Some(Binding::Constant(t)) && t < pre.len()
                && uninit_thunk(pre[t as int]) && post.len() == pre.len()
                && post[t as int].expr@ == compiled->Ok_0 && post[t as int].value is None
                && !post[t as int].busy && (forall|i: int|
                0 <= i < pre.len() && i != t ==> post[i] == pre[i])
        },
        Err(e) => {
            &&& post == pre
            &&& e@ == (match compiled {
                Err(ce) => ce,
                Ok(_) => match lookup(defs, name) {
                    Some(Binding::Constant(t)) => CompErrV::DuplicateDeclaration(name),
                    _ => CompErrV::ConstantNotFound(name),
                },
            })
        },
    }
}

/// Lower a right-hand side and install it as a constant's definition.
fn compile_constant(program: &mut Program, constant: &String, value: &Expression) -> (r: Result<
    (),
    CompilationError,
>)
    requires
        old(program).wf(),
        old(program).clean(),
        ast_wf(ast_of(*value)),
    ensures
        final(program).wf(),
        final(program).clean(),
        final(program).funcs == old(program).funcs,
        final(program).defs == old(program).defs,
        final(program).to_evaluate == old(program).to_evaluate,
        crate::program::thunks_monotone(old(program).thunks@, final(program).thunks@),
        constant_outcome(
            r,
            ast_of(*value),
            constant@,
            old(program).defs@,
            old(program).funcs@,
            old(program).thunks@,
            final(program).thunks@,
        ),
{
    let empty_params: Vec<String> = Vec::new();
    proof {
        assert(strs_of(empty_params@) =~= Seq::<Seq<char>>::empty());
    }
    let compiled = match compile_expression(program, value, &empty_params) {
        Ok(c) => c,
        Err(er) => {
            return Err(er);
        },
    };
    proof {
        lemma_template_zero(ev(compiled), program.n(), program.ar());
    }
    match program.get_constant(constant) {
        Some(t) => {
            if program.constant_uninit(t) {
                program.init_constant(t, compiled);
                Ok(())
            } else {
                Err(CompilationError::DuplicateDeclaration(constant.clone()))
            }
        },
        None => Err(CompilationError::ConstantNotFound(constant.clone())),
    }
}

/// A template with no parameters is an ordinary expression.
proof fn lemma_template_zero(e: ExprV, n: nat, ar: Seq<nat>)
    requires
        template_wf(e, n, ar, 0),
    ensures
        expr_wf(e, n, ar),
    decreases e,
{
    match e {
        ExprV::Neg(x) => lemma_template_zero(*x, n, ar),
        ExprV::Add(a, b) => {
            lemma_template_zero(*a, n, ar);
            lemma_template_zero(*b, n, ar);
        },
        ExprV::Sub(a, b) => {
            lemma_template_zero(*a, n, ar);
            lemma_template_zero(*b, n, ar);
        },
        ExprV::Mul(a, b) => {
            lemma_template_zero(*a, n, ar);
            lemma_template_zero(*b, n, ar);
        },
        ExprV::Div(a, b) => {
            lemma_template_zero(*a, n, ar);
            lemma_template_zero(*b, n, ar);
        },
        ExprV::Pow(a, b) => {
            lemma_template_zero(*a, n, ar);
            lemma_template_zero(*b, n, ar);
        },
        ExprV::Call(f, args) => {
            assert forall|i: int| 0 <= i < args.len() implies expr_wf(
                #[trigger] args[i],
                n,
                ar,
            ) by {
                lemma_template_zero(args[i], n, ar);
            }
        },
        _ => {},
    }
}

/// Exactly what installing one function does: on success the
/// parameters validate, the body lowers over them, the name resolves
/// to a declared, still-uninitialized function of that arity, and
/// precisely that entry now holds the lowered template; on failure the
/// function store is untouched and the error is the parameter
/// validation's, the lowering's, or names the missing, already
/// installed, or wrong-arity binding.
pub open spec fn function_outcome(
    r: Result<(), CompilationError>,
    code: Ast,
    pviews: Seq<Ast>,
    name: Seq<char>,
    defs: Seq<Def>,
    pre: Seq<Function>,
    post: Seq<Function>,
) -> bool {
    let ps = s_params(pviews, 0, Seq::empty(), defs);
    match r {
        Ok(()) => {
            &&& ps is Ok
            &&& s_compile(code, defs, pre, ps->Ok_0) is Ok
            &&& lookup(defs, name) matches Some(Binding::Function(f)) && f < pre.len()
                && pre[f as int].body is None && pre[f as int].n_params == pviews.len()
                && post.len() == pre.len() && post[f as int].n_params == pre[f as int].n_params
                && (post[f as int].body matches Some(b) && b@ == s_compile(
                code,
                defs,
                pre,
                ps->Ok_0,
            )->Ok_0) && (forall|i: int| 0 <= i < pre.len() && i != f ==> post[i] == pre[i])
        },
        Err(e) => {
            &&& post == pre
            &&& e@ == (match ps {
                Err(pe) => pe,
                Ok(pnames) => match s_compile(code, defs, pre, pnames) {
                    Err(ce) => ce,
                    Ok(_) => match lookup(defs, name) {
                        Some(Binding::Function(f)) => if f < pre.len() && !(pre[f as int].body
                            is None) {
                            CompErrV::DuplicateDeclaration(name)
                        } else if f < pre.len() {
                            CompErrV::WrongNArgs(name, pviews.len(), pre[f as int].n_params as nat)
                        } else {
                            CompErrV::FunctionNotFound(name)
                        },
                        _ => CompErrV::FunctionNotFound(name),
                    },
                },
            })
        },
    }
}

/// Validate a function's parameters (plain identifiers, not shadowing
/// a global, pairwise distinct), lower the body over them, and install
/// it as the function's template.
#[verifier::loop_isolation(false)]
fn compile_function(
    program: &mut Program,
    function: &String,
    params: &Vec<Expression>,
    code: &Expression,
) -> (r: Result<(), CompilationError>)
    requires
        old(program).wf(),
        old(program).clean(),
        ast_wf(ast_of(*code)),
    ensures
        final(program).wf(),
        final(program).clean(),
        final(program).thunks == old(program).thunks,
        final(program).to_evaluate == old(program).to_evaluate,
        final(program).defs == old(program).defs,
        crate::program::thunks_monotone(old(program).thunks@, final(program).thunks@),
        final(program).ar() == old(program).ar(),
        function_outcome(
            r,
            ast_of(*code),
            asts_of(params@),
            function@,
            old(program).defs@,
            old(program).funcs@,
            final(program).funcs@,
        ),
{
    let ghost pviews = asts_of(params@);
    let mut names: Vec<String> = Vec::new();
    let mut i: usize = 0;
    proof {
        assert(strs_of(names@) =~= Seq::<Seq<char>>::empty());
    }
    loop
        invariant
            i <= params@.len(),
            names@.len() == i,
            program == old(program),
            s_params(pviews, 0, Seq::empty(), old(program).defs@) == s_params(
                pviews,
                i as nat,
                strs_of(names@),
                old(program).defs@,
            ),
        decreases params@.len() - i,
    {
        if i >= params.len() {
            break ;
        }
        proof {
            assert(pviews[i as int] == ast_of(params@[i as int]));
        }
        let name = match &params[i] {
            Expression::Identifier(n) => n.clone(),
            _ => {
                return Err(CompilationError::BadParameter);
            },
        };
        if program.get_constant_or_function(&name).is_some() {
            return Err(CompilationError::ParamShadowsGlobal(name));
        }
        let mut k: usize = 0;
        let mut dup = false;
        loop
            invariant
                k <= names@.len(),
                dup ==> k < names@.len() && strs_of(names@)[k as int] == name@,
                !dup ==> forall|j: int| 0 <= j < k ==> strs_of(names@)[j] != name@,
            decreases names@.len() + 1 - k - (if dup {
                1int
            } else {
                0int
            }),
        {
            if dup || k >= names.len() {
                break ;
            }
            proof {
                assert(strs_of(names@)[k as int] == names@[k as int]@);
            }
            if names[k] == name {
                dup = true;
            } else {
                k = k + 1;
            }
        }
        proof {
            if dup {
                assert(strs_of(names@).contains(name@));
            } else {
                if strs_of(names@).contains(name@) {
                    let j = choose|j: int|
                        0 <= j < strs_of(names@).len() && strs_of(names@)[j] == name@;
                    assert(strs_of(names@)[j] == name@);
                }
            }
        }
        if dup {
            return Err(CompilationError::DuplicateParameter(name.clone()));
        }
        proof {
            assert(strs_of(names@.push(name)) =~= strs_of(names@).push(name@));
        }
        names.push(name);
        i = i + 1;
    }
    let compiled = match compile_expression(program, code, &names) {
        Ok(c) => c,
        Err(er) => {
            return Err(er);
        },
    };
    match program.get_function(function) {
        Some(f) => {
            if program.function_uninit(f) {
                let np = program.funcs[f].n_params;
                if np == names.len() {
                    program.init_function(f, compiled);
                    Ok(())
                } else {
                    Err(CompilationError::WrongNArgs(function.clone(), names.len(), np))
                }
            } else {
                Err(CompilationError::DuplicateDeclaration(function.clone()))
            }
        },
        None => Err(CompilationError::FunctionNotFound(function.clone())),
    }
}

/// Exactly what one assignment target does: a plain name installs a
/// constant, a call shape installs a function, anything else is a bad
/// equation; the other store is untouched either way.
pub open spec fn assignment_outcome(
    r: Result<(), CompilationError>,
    target: Ast,
    value: Ast,
    defs: Seq<Def>,
    funcs_pre: Seq<Function>,
    funcs_post: Seq<Function>,
    thunks_pre: Seq<crate::program::Thunk>,
    thunks_post: Seq<crate::program::Thunk>,
) -> bool {
    match target {
        Ast::Identifier(nm) => funcs_post == funcs_pre && constant_outcome(
            r,
            value,
            nm,
            defs,
            funcs_pre,
            thunks_pre,
            thunks_post,
        ),
        Ast::Call(nm, ps) => thunks_post == thunks_pre && function_outcome(
            r,
            value,
            ps,
            nm,
            defs,
            funcs_pre,
            funcs_post,
        ),
        _ => r matches Err(e) && e@ == CompErrV::BadEquation && thunks_post == thunks_pre
            && funcs_post == funcs_pre,
    }
}

/// Install one right-hand side into one assignment target, exactly as
/// `assignment_outcome` says.
fn compile_assignment(program: &mut Program, assigned: &Expression, value: &Expression) -> (r:
    Result<(), CompilationError>)
    requires
        old(program).wf(),
        old(program).clean(),
        ast_wf(ast_of(*value)),
    ensures
        final(program).wf(),
        final(program).clean(),
        final(program).to_evaluate == old(program).to_evaluate,
        final(program).defs == old(program).defs,
        crate::program::thunks_monotone(old(program).thunks@, final(program).thunks@),
        final(program).ar() == old(program).ar(),
        assignment_outcome(
            r,
            ast_of(*assigned),
            ast_of(*value),
            old(program).defs@,
            old(program).funcs@,
            final(program).funcs@,
            old(program).thunks@,
            final(program).thunks@,
        ),
{
    match assigned {
        Expression::Identifier(constant) => compile_constant(program, constant, value),
        Expression::Call(function, params) => {
            proof {
                crate::parse::lemma_call_view(*function, *params);
            }
            compile_function(program, function, params, value)
        },
        _ => Err(CompilationError::BadEquation),
    }
}

/// One more live definition keeps every resolvable name resolvable.
proof fn lemma_lookup_some_preserved(d1: Seq<Def>, d2: Seq<Def>)
    requires
        d2.len() == d1.len() + 1,
        forall|i: int| 0 <= i < d1.len() ==> d2[i] == d1[i],
        !(d2.last().binding is Removed),
    ensures
        forall|n: Seq<char>| lookup(d1, n) is Some ==> #[trigger] lookup(d2, n) is Some,
{
    assert forall|n: Seq<char>| lookup(d1, n) is Some implies #[trigger] lookup(d2, n)
        is Some by {
        assert(d2.drop_last() =~= d1);
        match d2.last().binding {
            Binding::Removed => {},
            _ => {},
        }
    }
}

/// Installing into a still-uninitialized binding never disturbs an
/// already-installed one.
proof fn lemma_install_preserved(
    target: Ast,
    value: Ast,
    defs: Seq<Def>,
    f1: Seq<Function>,
    f2: Seq<Function>,
    t1: Seq<crate::program::Thunk>,
    t2: Seq<crate::program::Thunk>,
)
    requires
        target_installed(target, value, defs, f1, t1),
        f2.len() == f1.len(),
        forall|k: int| 0 <= k < f1.len() ==> (#[trigger] f2[k]).n_params == f1[k].n_params,
        forall|k: int| 0 <= k < f1.len() && f1[k].body is Some ==> #[trigger] f2[k] == f1[k],
        t2.len() == t1.len(),
        forall|k: int| 0 <= k < t1.len() && !uninit_thunk(#[trigger] t1[k]) ==> t2[k] == t1[k],
    ensures
        target_installed(target, value, defs, f2, t2),
{
    match target {
        Ast::Identifier(nm) => {
            lemma_s_compile_arities(value, defs, f1, f2, Seq::empty());
            let t = lookup(defs, nm)->Some_0->Constant_0;
            lemma_s_compile_no_placeholder(value, defs, f1);
            assert(!uninit_thunk(t1[t as int]));
        },
        Ast::Call(nm, ps) => {
            let names = s_params(ps, 0, Seq::empty(), defs)->Ok_0;
            lemma_s_compile_arities(value, defs, f1, f2, names);
            let f = lookup(defs, nm)->Some_0->Function_0;
            assert(f2[f as int] == f1[f as int]);
        },
        _ => {},
    }
}

/// A compiled statement stays compiled across later installs.
proof fn lemma_stmt_installed_preserved(
    st: StmtView,
    defs: Seq<Def>,
    f1: Seq<Function>,
    f2: Seq<Function>,
    t1: Seq<crate::program::Thunk>,
    t2: Seq<crate::program::Thunk>,
)
    requires
        stmt_installed(st, defs, f1, t1),
        f2.len() == f1.len(),
        forall|k: int| 0 <= k < f1.len() ==> (#[trigger] f2[k]).n_params == f1[k].n_params,
        forall|k: int| 0 <= k < f1.len() && f1[k].body is Some ==> #[trigger] f2[k] == f1[k],
        t2.len() == t1.len(),
        forall|k: int| 0 <= k < t1.len() && !uninit_thunk(#[trigger] t1[k]) ==> t2[k] == t1[k],
    ensures
        stmt_installed(st, defs, f2, t2),
{
    match st {
        StmtView::Evaluate(e) => {
            lemma_s_compile_arities(e, defs, f1, f2, Seq::empty());
        },
        StmtView::Assign(xs) => {
            assert forall|ti: int| 0 <= ti < xs.len() - 1 implies target_installed(
                #[trigger] xs[ti],
                xs.last(),
                defs,
                f2,
                t2,
            ) by {
                lemma_install_preserved(xs[ti], xs.last(), defs, f1, f2, t1, t2);
            }
        },
    }
}

/// The frame that one successful assignment leaves: arities kept,
/// installed bodies kept, initialized thunks kept.
proof fn lemma_assignment_frame(
    r: Result<(), CompilationError>,
    target: Ast,
    value: Ast,
    defs: Seq<Def>,
    f1: Seq<Function>,
    f2: Seq<Function>,
    t1: Seq<crate::program::Thunk>,
    t2: Seq<crate::program::Thunk>,
)
    requires
        r is Ok,
        assignment_outcome(r, target, value, defs, f1, f2, t1, t2),
    ensures
        f2.len() == f1.len(),
        forall|k: int| 0 <= k < f1.len() ==> (#[trigger] f2[k]).n_params == f1[k].n_params,
        forall|k: int| 0 <= k < f1.len() && f1[k].body is Some ==> #[trigger] f2[k] == f1[k],
        t2.len() == t1.len(),
        forall|k: int| 0 <= k < t1.len() && !uninit_thunk(#[trigger] t1[k]) ==> t2[k] == t1[k],
{
}

/// Compile a parsed unit into the program: declare every target, then
/// lower and install every right-hand side, and queue every bare
/// expression for evaluation. A failure aborts the unit; values
/// memoized before the unit stay memoized either way.
#[verifier::loop_isolation(false)]
pub fn compile_into(code: &Code, program: &mut Program) -> (r: Result<(), CompilationError>)
    requires
        old(program).wf(),
        old(program).clean(),
        forall|i: int| 0 <= i < code@.len() ==> stmt_ast_wf(#[trigger] code@[i]),
    ensures
        final(program).wf(),
        final(program).clean(),
        crate::program::thunks_monotone(old(program).thunks@, final(program).thunks@),
        match r {
            Ok(()) => {
                &&& s_check_stmts(code@, 0, Seq::empty()) is Ok
                &&& forall|si: int|
                    0 <= si < code@.len() ==> stmt_installed(
                        #[trigger] code@[si],
                        final(program).defs@,
                        final(program).funcs@,
                        final(program).thunks@,
                    )
                &&& evs(final(program).to_evaluate@) == evs(old(program).to_evaluate@)
                    + s_queue_prefix(
                    code@,
                    code@.len(),
                    final(program).defs@,
                    final(program).funcs@,
                )
            },
            Err(e) => unit_error(code@, final(program).defs@, final(program).funcs@, e@) && (
            s_check_stmts(code@, 0, Seq::empty()) is Ok && e@ != CompErrV::BadEquation
                ==> targets_declared(code@, final(program).defs@)),
        },
{
    if let Err(er) = assert_no_duplicate_assignments(code) {
        return Err(er);
    }
    if let Err(er) = insert_uninit_globals(code, program) {
        return Err(er);
    }
    let ghost qbase = program.to_evaluate@;
    let mut si: usize = 0;
    proof {
        assert(evs(program.to_evaluate@) =~= evs(qbase) + s_queue_prefix(
            code@,
            0,
            program.defs@,
            program.funcs@,
        ));
    }
    loop
        invariant
            si <= code.statements@.len(),
            program.wf(),
            program.clean(),
            targets_declared(code@, program.defs@),
            crate::program::thunks_monotone(old(program).thunks@, program.thunks@),
            forall|sj: int|
                0 <= sj < si ==> stmt_installed(
                    #[trigger] code@[sj],
                    program.defs@,
                    program.funcs@,
                    program.thunks@,
                ),
            evs(program.to_evaluate@) == evs(qbase) + s_queue_prefix(
                code@,
                si as nat,
                program.defs@,
                program.funcs@,
            ),
        decreases code.statements@.len() - si,
    {
        if si >= code.statements.len() {
            return Ok(());
        }
        proof {
            assert(code@[si as int] == code.statements@[si as int]@);
            assert(stmt_ast_wf(code@[si as int]));
        }
        match &code.statements[si] {
            Statement::Assign(exprs) => {
                proof {
                    assert(code@[si as int]->Assign_0 == asts_of(exprs@));
                }
                if exprs.len() == 0 {
                    return Err(CompilationError::BadEquation);
                }
                let value = &exprs[exprs.len() - 1];
                proof {
                    assert(ast_of(exprs@[exprs@.len() - 1]) == asts_of(exprs@)[exprs@.len() - 1]);
                    assert(asts_of(exprs@).last() == asts_of(exprs@)[exprs@.len() - 1]);
                    assert(ast_wf(asts_of(exprs@)[exprs@.len() - 1]));
                }
                let mut ti: usize = 0;
                loop
                    invariant
                        ti <= exprs@.len() - 1,
                        exprs@.len() >= 1,
                        si < code.statements@.len(),
                        code.statements@[si as int] matches Statement::Assign(v) && v == *exprs,
                        code@[si as int]->Assign_0 == asts_of(exprs@),
                        program.wf(),
                        program.clean(),
                        targets_declared(code@, program.defs@),
                        ast_wf(ast_of(exprs@[exprs@.len() - 1])),
                        crate::program::thunks_monotone(old(program).thunks@, program.thunks@),
                        forall|sj: int|
                            0 <= sj < si ==> stmt_installed(
                                #[trigger] code@[sj],
                                program.defs@,
                                program.funcs@,
                                program.thunks@,
                            ),
                        forall|tj: int|
                            0 <= tj < ti ==> target_installed(
                                #[trigger] asts_of(exprs@)[tj],
                                asts_of(exprs@).last(),
                                program.defs@,
                                program.funcs@,
                                program.thunks@,
                            ),
                        evs(program.to_evaluate@) == evs(qbase) + s_queue_prefix(
                            code@,
                            si as nat,
                            program.defs@,
                            program.funcs@,
                        ),
                    decreases exprs@.len() - ti,
                {
                    if ti >= exprs.len() - 1 {
                        break ;
                    }
                    let ghost pre2 = program.thunks@;
                    let ghost funcs2 = program.funcs@;
                    let ghost defs2 = program.defs@;
                    proof {
                        assert(asts_of(exprs@)[ti as int] == ast_of(exprs@[ti as int]));
                    }
                    let cr = compile_assignment(program, &exprs[ti], value);
                    if let Err(er) = cr {
                        proof {
                            assert(target_error(
                                asts_of(exprs@)[ti as int],
                                asts_of(exprs@).last(),
                                program.defs@,
                                program.funcs@,
                                er@,
                            ));
                            assert(stmt_error_at(
                                code@[si as int],
                                program.defs@,
                                program.funcs@,
                                er@,
                            ));
                        }
                        return Err(er);
                    }
                    proof {
                        crate::program::lemma_monotone_trans(
                            old(program).thunks@,
                            pre2,
                            program.thunks@,
                        );
                        lemma_assignment_frame(
                            cr,
                            asts_of(exprs@)[ti as int],
                            asts_of(exprs@).last(),
                            defs2,
                            funcs2,
                            program.funcs@,
                            pre2,
                            program.thunks@,
                        );
                        assert forall|sj: int|
                            0 <= sj < si implies stmt_installed(
                            #[trigger] code@[sj],
                            program.defs@,
                            program.funcs@,
                            program.thunks@,
                        ) by {
                            lemma_stmt_installed_preserved(
                                code@[sj],
                                defs2,
                                funcs2,
                                program.funcs@,
                                pre2,
                                program.thunks@,
                            );
                        }
                        assert forall|tj: int|
                            0 <= tj < ti + 1 implies target_installed(
                            #[trigger] asts_of(exprs@)[tj],
                            asts_of(exprs@).last(),
                            program.defs@,
                            program.funcs@,
                            program.thunks@,
                        ) by {
                            if tj < ti {
                                lemma_install_preserved(
                                    asts_of(exprs@)[tj],
                                    asts_of(exprs@).last(),
                                    defs2,
                                    funcs2,
                                    program.funcs@,
                                    pre2,
                                    program.thunks@,
                                );
                            } else {
                                match asts_of(exprs@)[tj] {
                                    Ast::Call(nm, ps) => {
                                        let names = s_params(
                                            ps,
                                            0,
                                            Seq::empty(),
                                            defs2,
                                        )->Ok_0;
                                        lemma_s_compile_arities(
                                            asts_of(exprs@).last(),
                                            defs2,
                                            funcs2,
                                            program.funcs@,
                                            names,
                                        );
                                    },
                                    _ => {},
                                }
                            }
                        }
                        lemma_s_queue_prefix_arities(
                            code@,
                            si as nat,
                            defs2,
                            funcs2,
                            program.funcs@,
                        );
                    }
                    ti = ti + 1;
                }
                proof {
                    assert(stmt_installed(
                        code@[si as int],
                        program.defs@,
                        program.funcs@,
                        program.thunks@,
                    ));
                    assert(s_queue_prefix(
                        code@,
                        (si + 1) as nat,
                        program.defs@,
                        program.funcs@,
                    ) =~= s_queue_prefix(code@, si as nat, program.defs@, program.funcs@));
                }
            },
            Statement::Evaluate(e) => {
                let empty_params: Vec<String> = Vec::new();
                proof {
                    assert(ast_wf(code@[si as int]->Evaluate_0));
                    assert(strs_of(empty_params@) =~= Seq::<Seq<char>>::empty());
                }
                match compile_expression(program, e, &empty_params) {
                    Ok(c) => {
                        proof {
                            lemma_template_zero(ev(c), program.n(), program.ar());
                        }
                        let ghost qpre = program.to_evaluate@;
                        program.evaluate_later(c);
                        proof {
                            assert(evs(qpre.push(c)) =~= evs(qpre) + seq![ev(c)]);
                            assert(evs(program.to_evaluate@) =~= evs(qbase) + s_queue_prefix(
                                code@,
                                (si + 1) as nat,
                                program.defs@,
                                program.funcs@,
                            ));
                        }
                    },
                    Err(er) => {
                        proof {
                            assert(stmt_error_at(
                                code@[si as int],
                                program.defs@,
                                program.funcs@,
                                er@,
                            ));
                        }
                        return Err(er);
                    },
                }
            },
        }
        si = si + 1;
    }
}

/// Compile a parsed unit into a fresh program: every statement
/// installed or queued exactly as `compile_into` says.
pub fn compile(code: &Code) -> (r: Result<Program, CompilationError>)
    requires
        forall|i: int| 0 <= i < code@.len() ==> stmt_ast_wf(#[trigger] code@[i]),
    ensures
        match r {
            Ok(p) => {
                &&& p.wf()
                &&& p.clean()
                &&& s_check_stmts(code@, 0, Seq::empty()) is Ok
                &&& forall|si: int|
                    0 <= si < code@.len() ==> stmt_installed(
                        #[trigger] code@[si],
                        p.defs@,
                        p.funcs@,
                        p.thunks@,
                    )
                &&& evs(p.to_evaluate@) == s_queue_prefix(code@, code@.len(), p.defs@, p.funcs@)
            },
            Err(e) => exists|p2: Program|
                #[trigger] p2.wf() && unit_error(code@, p2.defs@, p2.funcs@, e@),
        },
{
    let mut program = Program::new();
    match compile_into(code, &mut program) {
        Ok(()) => {
            proof {
                assert(evs(Seq::<RtExpression>::empty()) =~= Seq::<ExprV>::empty());
                assert(evs(program.to_evaluate@) =~= s_queue_prefix(
                    code@,
                    code@.len(),
                    program.defs@,
                    program.funcs@,
                ));
            }
            Ok(program)
        },
        Err(er) => {
            proof {
                assert(program.wf() && unit_error(code@, program.defs@, program.funcs@, er@));
            }
            Err(er)
        },
    }
}

} // verus!
