//! Calculator values: exact rationals together with "undefined" poison
//! values, and the absorbing arithmetic that combines them.
//!
//! Multiplication by a rational zero absorbs even an undefined operand
//! (`0 * E == 0`), and any power with exponent zero is one; otherwise an
//! undefined operand propagates, left operand first.

use vstd::prelude::*;

use crate::rational::{
    Rational, Ratio, ratio_wf, ratio_zero, ratio_one, ratio_neg, ratio_abs, spec_add, spec_sub,
    spec_mul, spec_div,
};
use crate::pow::{spec_pow, pow_in_capacity, pow};
use crate::bignat::nat_to_u64;

verus! {

/// The reason a result is undefined.
#[derive(Clone, Copy, Debug, PartialEq, Eq, Structural)]
pub enum Undefined {
    ZeroOverZero,
    Infinity,
    Irrational,
    InfiniteLoop,
}

/// A calculator value: an exact rational or an undefined outcome.
pub enum Value {
    Number(Rational),
    Undefined(Undefined),
}

/// The mathematical content of a `Value`.
pub enum ValView {
    Num(Ratio),
    Undef(Undefined),
}

impl View for Value {
    type V = ValView;

    open spec fn view(&self) -> ValView {
        match self {
            Value::Number(r) => ValView::Num(r@),
            Value::Undefined(u) => ValView::Undef(*u),
        }
    }
}

pub open spec fn val_wf(v: ValView) -> bool {
    match v {
        ValView::Num(r) => ratio_wf(r),
        ValView::Undef(_) => true,
    }
}

pub open spec fn val_is_zero(v: ValView) -> bool {
    v matches ValView::Num(r) && r.num == 0
}

pub open spec fn val_is_one(v: ValView) -> bool {
    v matches ValView::Num(r) && r == ratio_one()
}

/// Negation preserves an undefined value.
pub open spec fn val_neg(a: ValView) -> ValView {
    match a {
        ValView::Num(r) => ValView::Num(ratio_neg(r)),
        ValView::Undef(u) => ValView::Undef(u),
    }
}

/// Absolute value preserves an undefined value.
pub open spec fn val_abs(a: ValView) -> ValView {
    match a {
        ValView::Num(r) => ValView::Num(ratio_abs(r)),
        ValView::Undef(u) => ValView::Undef(u),
    }
}

/// Addition: exact on rationals, undefined propagates, left first.
pub open spec fn val_add(a: ValView, b: ValView) -> ValView {
    match (a, b) {
        (ValView::Num(x), ValView::Num(y)) => ValView::Num(spec_add(x, y)),
        (ValView::Undef(u), _) => ValView::Undef(u),
        (_, ValView::Undef(u)) => ValView::Undef(u),
    }
}

/// Subtraction: exact on rationals, undefined propagates, left first.
pub open spec fn val_sub(a: ValView, b: ValView) -> ValView {
    match (a, b) {
        (ValView::Num(x), ValView::Num(y)) => ValView::Num(spec_sub(x, y)),
        (ValView::Undef(u), _) => ValView::Undef(u),
        (_, ValView::Undef(u)) => ValView::Undef(u),
    }
}

/// Multiplication: a rational zero absorbs even an undefined operand.
pub open spec fn val_mul(a: ValView, b: ValView) -> ValView {
    match (a, b) {
        (ValView::Num(x), ValView::Num(y)) => ValView::Num(spec_mul(x, y)),
        (ValView::Num(x), ValView::Undef(_)) if x.num == 0 => ValView::Num(ratio_zero()),
        (ValView::Undef(_), ValView::Num(y)) if y.num == 0 => ValView::Num(ratio_zero()),
        (ValView::Undef(u), _) => ValView::Undef(u),
        (_, ValView::Undef(u)) => ValView::Undef(u),
    }
}

/// Division: by zero gives `ZeroOverZero` or `Infinity`; undefined
/// propagates.
pub open spec fn val_div(a: ValView, b: ValView) -> ValView {
    match (a, b) {
        (ValView::Num(x), ValView::Num(y)) => {
            if y.num == 0 {
                if x.num == 0 {
                    ValView::Undef(Undefined::ZeroOverZero)
                } else {
                    ValView::Undef(Undefined::Infinity)
                }
            } else {
                ValView::Num(spec_div(x, y))
            }
        },
        (ValView::Undef(u), _) => ValView::Undef(u),
        (_, ValView::Undef(u)) => ValView::Undef(u),
    }
}

/// Power: `0^0 == 1`, `0^n` is zero or infinity by the sign of `n`,
/// `1^x == 1`, `x^0 == 1` (even undefined `x`); otherwise the exact
/// rational power, irrational where no exact root exists; undefined
/// propagates.
pub open spec fn val_pow(a: ValView, b: ValView) -> ValView {
    if val_is_zero(a) {
        match b {
            ValView::Num(n) => {
                if n.num == 0 {
                    ValView::Num(ratio_one())
                } else if n.neg {
                    ValView::Undef(Undefined::Infinity)
                } else {
                    ValView::Num(ratio_zero())
                }
            },
            ValView::Undef(u) => ValView::Undef(u),
        }
    } else if val_is_one(a) {
        ValView::Num(ratio_one())
    } else if val_is_zero(b) {
        ValView::Num(ratio_one())
    } else {
        match (a, b) {
            (ValView::Num(x), ValView::Num(y)) => {
                match spec_pow(x, y) {
                    Some(p) => ValView::Num(p),
                    None => ValView::Undef(Undefined::Irrational),
                }
            },
            (ValView::Undef(u), _) => ValView::Undef(u),
            (_, ValView::Undef(u)) => ValView::Undef(u),
        }
    }
}

/// Capacity for the power: exponent parts must fit a machine word
/// unless a special case applies.
pub open spec fn val_pow_in_capacity(a: ValView, b: ValView) -> bool {
    match (a, b) {
        (ValView::Num(x), ValView::Num(y)) => pow_in_capacity(x, y),
        _ => true,
    }
}

impl Value {
    /// Well-formed: any held rational is canonical.
    pub open spec fn wf(&self) -> bool {
        val_wf(self@)
    }

    /// A copy denoting the same value.
    pub fn duplicate(&self) -> (r: Value)
        ensures
            r@ == self@,
    {
        match self {
            Value::Number(n) => Value::Number(n.duplicate()),
            Value::Undefined(u) => Value::Undefined(*u),
        }
    }

    /// Structural equality of values.
    pub fn eq_val(&self, other: &Value) -> (r: bool)
        ensures
            r == (self@ == other@),
    {
        match (self, other) {
            (Value::Number(x), Value::Number(y)) => x.eq_rat(y),
            (Value::Undefined(u), Value::Undefined(v)) => u == v,
            _ => false,
        }
    }

    pub fn is_zero(&self) -> (r: bool)
        ensures
            r == val_is_zero(self@),
    {
        match self {
            Value::Number(n) => n.is_zero(),
            Value::Undefined(_) => false,
        }
    }

    pub fn is_one(&self) -> (r: bool)
        requires
            self.wf(),
        ensures
            r == val_is_one(self@),
    {
        match self {
            Value::Number(n) => n.is_one(),
            Value::Undefined(_) => false,
        }
    }

    pub fn is_number(&self) -> (r: bool)
        ensures
            r == (self@ is Num),
    {
        match self {
            Value::Number(_) => true,
            Value::Undefined(_) => false,
        }
    }

    pub fn is_undefined(&self) -> (r: bool)
        ensures
            r == (self@ is Undef),
    {
        match self {
            Value::Number(_) => false,
            Value::Undefined(_) => true,
        }
    }

    pub fn neg(self) -> (r: Value)
        requires
            self.wf(),
        ensures
            r@ == val_neg(self@),
            r.wf(),
    {
        match self {
            Value::Number(n) => Value::Number(n.neg()),
            Value::Undefined(u) => Value::Undefined(u),
        }
    }

    pub fn abs(self) -> (r: Value)
        requires
            self.wf(),
        ensures
            r@ == val_abs(self@),
            r.wf(),
    {
        match self {
            Value::Number(n) => Value::Number(n.abs()),
            Value::Undefined(u) => Value::Undefined(u),
        }
    }

    pub fn add(self, rhs: &Value) -> (r: Value)
        requires
            self.wf(),
            rhs.wf(),
        ensures
            r@ == val_add(self@, rhs@),
            r.wf(),
    {
        match (self, rhs) {
            (Value::Number(n), Value::Number(m)) => Value::Number(n.add(m)),
            (Value::Undefined(u), _) => Value::Undefined(u),
            (_, Value::Undefined(u)) => Value::Undefined(*u),
        }
    }

    pub fn sub(self, rhs: &Value) -> (r: Value)
        requires
            self.wf(),
            rhs.wf(),
        ensures
            r@ == val_sub(self@, rhs@),
            r.wf(),
    {
        match (self, rhs) {
            (Value::Number(n), Value::Number(m)) => Value::Number(n.sub(m)),
            (Value::Undefined(u), _) => Value::Undefined(u),
            (_, Value::Undefined(u)) => Value::Undefined(*u),
        }
    }

    pub fn mul(self, rhs: &Value) -> (r: Value)
        requires
            self.wf(),
            rhs.wf(),
        ensures
            r@ == val_mul(self@, rhs@),
            r.wf(),
    {
        match (self, rhs) {
            (Value::Number(n), Value::Number(m)) => Value::Number(n.mul(m)),
            (Value::Number(z), Value::Undefined(u)) => {
                if z.is_zero() {
                    Value::Number(Rational::zero())
                } else {
                    Value::Undefined(*u)
                }
            },
            (Value::Undefined(u), Value::Number(z)) => {
                if z.is_zero() {
                    Value::Number(Rational::zero())
                } else {
                    Value::Undefined(u)
                }
            },
            (Value::Undefined(u), Value::Undefined(_)) => Value::Undefined(u),
        }
    }

    pub fn div(self, rhs: &Value) -> (r: Value)
        requires
            self.wf(),
            rhs.wf(),
        ensures
            r@ == val_div(self@, rhs@),
            r.wf(),
    {
        match (self, rhs) {
            (Value::Number(n), Value::Number(m)) => {
                if m.is_zero() {
                    if n.is_zero() {
                        Value::Undefined(Undefined::ZeroOverZero)
                    } else {
                        Value::Undefined(Undefined::Infinity)
                    }
                } else {
                    Value::Number(n.div(m))
                }
            },
            (Value::Undefined(u), _) => Value::Undefined(u),
            (_, Value::Undefined(u)) => Value::Undefined(*u),
        }
    }

    /// The power `self^rhs`, within the capacity cap.
    pub fn pow(self, rhs: &Value) -> (r: Value)
        requires
            self.wf(),
            rhs.wf(),
            val_pow_in_capacity(self@, rhs@),
        ensures
            r@ == val_pow(self@, rhs@),
            r.wf(),
    {
        if self.is_zero() {
            match rhs {
                Value::Number(n) => {
                    if n.is_zero() {
                        Value::Number(Rational::one())
                    } else if n.is_neg() {
                        Value::Undefined(Undefined::Infinity)
                    } else {
                        Value::Number(Rational::zero())
                    }
                },
                Value::Undefined(u) => Value::Undefined(*u),
            }
        } else if self.is_one() {
            Value::Number(Rational::one())
        } else if rhs.is_zero() {
            Value::Number(Rational::one())
        } else {
            match (self, rhs) {
                (Value::Number(n), Value::Number(m)) => {
                    match pow(n, m.duplicate()) {
                        Some(p) => Value::Number(p),
                        None => Value::Undefined(Undefined::Irrational),
                    }
                },
                (Value::Undefined(u), _) => Value::Undefined(u),
                (_, Value::Undefined(u)) => Value::Undefined(*u),
            }
        }
    }

    /// The power `self^rhs`, or `None` where the capacity cap would be
    /// exceeded.
    pub fn try_pow(&self, rhs: &Value) -> (r: Option<Value>)
        requires
            self.wf(),
            rhs.wf(),
        ensures
            match r {
                Some(v) => val_pow_in_capacity(self@, rhs@) && v@ == val_pow(self@, rhs@)
                    && v.wf(),
                None => !val_pow_in_capacity(self@, rhs@),
            },
    {
        let in_capacity = match (self, rhs) {
            (Value::Number(x), Value::Number(y)) => {
                x.is_zero() || x.is_one() || x.duplicate().abs().is_one() || (nat_to_u64(
                    y.num_ref(),
                ).is_some() && nat_to_u64(y.den_ref()).is_some())
            },
            _ => true,
        };
        if in_capacity {
            Some(self.duplicate().pow(rhs))
        } else {
            None
        }
    }
}

} // verus!
