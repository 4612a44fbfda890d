//! Stack-safe destruction of expressions.
//!
//! Deep expression trees would overflow the native call stack if
//! dropped recursively. Discarded expressions are pushed onto a
//! worklist instead, and `collect` drains it iteratively: each step
//! takes one node and pushes its children, so no destructor recurses.

use vstd::prelude::*;

use crate::expression::Expression;

verus! {

/// The number of nodes in an expression.
pub open spec fn expr_size(e: Expression) -> nat
    decreases e, 0int,
{
    match e {
        Expression::Value(_) => 1,
        Expression::Argument(_) => 1,
        Expression::Constant(_) => 1,
        Expression::Neg(x) => 1 + expr_size(*x),
        Expression::Add(a, b) => 1 + expr_size(*a) + expr_size(*b),
        Expression::Sub(a, b) => 1 + expr_size(*a) + expr_size(*b),
        Expression::Mul(a, b) => 1 + expr_size(*a) + expr_size(*b),
        Expression::Div(a, b) => 1 + expr_size(*a) + expr_size(*b),
        Expression::Pow(a, b) => 1 + expr_size(*a) + expr_size(*b),
        Expression::Call(_, args) => 1 + rsizes(args@, args@.len()),
        Expression::ArgumentIndex(_) => 1,
    }
}

/// The number of nodes in the first `k` expressions of a sequence.
pub open spec fn rsizes(s: Seq<Expression>, k: nat) -> nat
    decreases s, k,
{
    if k == 0 || k > s.len() {
        0
    } else {
        rsizes(s, (k - 1) as nat) + expr_size(s[k - 1])
    }
}

/// The number of nodes on a worklist.
pub open spec fn total_size(s: Seq<Expression>) -> nat {
    rsizes(s, s.len())
}

/// Prefix sums depend only on the prefix.
proof fn lemma_rsizes_agree(s1: Seq<Expression>, s2: Seq<Expression>, k: nat)
    requires
        k <= s1.len(),
        k <= s2.len(),
        forall|i: int| 0 <= i < k ==> s1[i] == s2[i],
    ensures
        rsizes(s1, k) == rsizes(s2, k),
    decreases k,
{
    if k > 0 {
        lemma_rsizes_agree(s1, s2, (k - 1) as nat);
    }
}

/// Removing the last expression removes its size.
proof fn lemma_total_pop(s: Seq<Expression>)
    requires
        s.len() > 0,
    ensures
        total_size(s) == total_size(s.drop_last()) + expr_size(s.last()),
{
    lemma_rsizes_agree(s, s.drop_last(), (s.len() - 1) as nat);
}

/// Appending an expression adds its size.
proof fn lemma_total_push(s: Seq<Expression>, e: Expression)
    ensures
        total_size(s.push(e)) == total_size(s) + expr_size(e),
{
    lemma_rsizes_agree(s.push(e), s, s.len());
}

/// Queue an expression for iterative destruction.
pub fn dispose(worklist: &mut Vec<Expression>, e: Expression)
    ensures
        final(worklist)@ == old(worklist)@.push(e),
{
    worklist.push(e);
}

/// Drain the worklist, destroying every queued expression without
/// recursing into its children.
#[verifier::loop_isolation(false)]
pub fn collect(worklist: &mut Vec<Expression>)
    ensures
        final(worklist)@.len() == 0,
{
    loop
        invariant
            true,
        decreases total_size(worklist@),
    {
        let ghost pre = worklist@;
        match worklist.pop() {
            None => {
                return ;
            },
            Some(e) => {
                proof {
                    lemma_total_pop(pre);
                }
                match e {
                    Expression::Value(_) => {},
                    Expression::Argument(_) => {},
                    Expression::Constant(_) => {},
                    Expression::ArgumentIndex(_) => {},
                    Expression::Neg(x) => {
                        proof {
                            lemma_total_push(worklist@, *x);
                        }
                        worklist.push(*x);
                    },
                    Expression::Add(a, b) => {
                        proof {
                            lemma_total_push(worklist@, *a);
                            lemma_total_push(worklist@.push(*a), *b);
                        }
                        worklist.push(*a);
                        worklist.push(*b);
                    },
                    Expression::Sub(a, b) => {
                        proof {
                            lemma_total_push(worklist@, *a);
                            lemma_total_push(worklist@.push(*a), *b);
                        }
                        worklist.push(*a);
                        worklist.push(*b);
                    },
                    Expression::Mul(a, b) => {
                        proof {
                            lemma_total_push(worklist@, *a);
                            lemma_total_push(worklist@.push(*a), *b);
                        }
                        worklist.push(*a);
                        worklist.push(*b);
                    },
                    Expression::Div(a, b) => {
                        proof {
                            lemma_total_push(worklist@, *a);
                            lemma_total_push(worklist@.push(*a), *b);
                        }
                        worklist.push(*a);
                        worklist.push(*b);
                    },
                    Expression::Pow(a, b) => {
                        proof {
                            lemma_total_push(worklist@, *a);
                            lemma_total_push(worklist@.push(*a), *b);
                        }
                        worklist.push(*a);
                        worklist.push(*b);
                    },
                    Expression::Call(_f, args) => {
                        let mut args_m = args;
                        let ghost base = worklist@;
                        loop
                            invariant
                                total_size(worklist@) + rsizes(args_m@, args_m@.len())
                                    <= total_size(base) + rsizes(args@, args@.len()),
                            decreases args_m@.len(),
                        {
                            let ghost wpre = worklist@;
                            let ghost apre = args_m@;
                            match args_m.pop() {
                                None => {
                                    break ;
                                },
                                Some(arg) => {
                                    proof {
                                        lemma_total_push(wpre, arg);
                                        lemma_rsizes_agree(
                                            apre,
                                            apre.drop_last(),
                                            (apre.len() - 1) as nat,
                                        );
                                    }
                                    worklist.push(arg);
                                },
                            }
                        }
                    },
                }
            },
        }
    }
}

} // verus!
