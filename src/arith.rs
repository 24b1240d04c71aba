//! Arithmetic on constants: integers of any size, and rationals kept in lowest terms.

use vstd::prelude::*;
use crate::bigint::{
    abs, gcd, int_add, int_div_euclid, int_gcd, int_mul, int_sub, Int,
};
use crate::cst::{Cst, Rat, Value};

verus! {

/// The fraction `n / d` (with `d` positive) divided through by the gcd of its parts.
pub open spec fn reduce(n: int, d: int) -> Rat {
    let g = gcd(abs(n), d as nat) as int;
    Rat { num: n / g, den: d / g }
}

proof fn lemma_gcd_bounds(a: nat, b: nat)
    requires
        b > 0,
    ensures
        0 < gcd(a, b) <= b,
    decreases b,
{
    if a % b != 0 {
        lemma_gcd_bounds(b, a % b);
    } else {
        assert(gcd(b, 0) == b);
    }
}

/// The arithmetic operations that fold over their arguments.
#[derive(Debug, Clone, Copy, PartialEq, Eq, Structural)]
pub enum ArithOp {
    Add,
    Sub,
    Mul,
    Div,
}

/// One arithmetic step on two integers; `None` for a division by zero.
pub open spec fn int_step(op: ArithOp, a: int, b: int) -> Option<Cst> {
    match op {
        ArithOp::Add => Some(Cst::Int(a + b)),
        ArithOp::Sub => Some(Cst::Int(a - b)),
        ArithOp::Mul => Some(Cst::Int(a * b)),
        ArithOp::Div => if b == 0 {
            None
        } else {
            Some(Cst::Int(a / b))
        },
    }
}

/// One arithmetic step on two rationals, in lowest terms; `None` for a division by zero.
pub open spec fn rat_step(op: ArithOp, a: Rat, b: Rat) -> Option<Cst> {
    match op {
        ArithOp::Add => Some(Cst::Rat(reduce(a.num * b.den + b.num * a.den, a.den * b.den))),
        ArithOp::Sub => Some(Cst::Rat(reduce(a.num * b.den - b.num * a.den, a.den * b.den))),
        ArithOp::Mul => Some(Cst::Rat(reduce(a.num * b.num, a.den * b.den))),
        ArithOp::Div => if b.num == 0 {
            None
        } else if b.num < 0 {
            Some(Cst::Rat(reduce(-(a.num * b.den), -(a.den * b.num))))
        } else {
            Some(Cst::Rat(reduce(a.num * b.den, a.den * b.num)))
        },
    }
}

/// Negation of a numeric constant.
pub open spec fn neg_step(c: Cst) -> Cst {
    match c {
        Cst::Int(i) => Cst::Int(-i),
        Cst::Rat(q) => Cst::Rat(Rat { num: -q.num, den: q.den }),
        Cst::Bool(b) => Cst::Bool(b),
    }
}

/// The rational `n / d` in lowest terms.
pub fn mk_rat(n: &Int, d: &Int) -> (r: Value)
    requires
        d.value() > 0,
    ensures
        r@ == Cst::Rat(reduce(n.value(), d.value())),
        r@.wf(),
{
    let g = int_gcd(n, d);
    proof {
        lemma_gcd_bounds(abs(n.value()), d.value() as nat);
        assert(abs(d.value()) == d.value());
    }
    let num = int_div_euclid(n, &g);
    let den = int_div_euclid(d, &g);
    proof {
        let gv = g.value();
        let dv = d.value();
        assert(dv / gv >= 1) by (nonlinear_arith)
            requires
                0 < gv <= dv,
        ;
    }
    Value::Rat(num, den)
}

/// One arithmetic step on two integers; `None` for a division by zero.
pub fn int_arith(op: ArithOp, a: &Int, b: &Int) -> (r: Option<Value>)
    ensures
        match r {
            Some(c) => int_step(op, a.value(), b.value()) == Some(c@),
            None => int_step(op, a.value(), b.value()) is None,
        },
{
    match op {
        ArithOp::Add => Some(Value::Int(int_add(a, b))),
        ArithOp::Sub => Some(Value::Int(int_sub(a, b))),
        ArithOp::Mul => Some(Value::Int(int_mul(a, b))),
        ArithOp::Div => if b.is_zero() {
            None
        } else {
            Some(Value::Int(int_div_euclid(a, b)))
        },
    }
}

/// One arithmetic step on two rationals; `None` for a division by zero.
pub fn rat_arith(op: ArithOp, an: &Int, ad: &Int, bn: &Int, bd: &Int) -> (r: Option<Value>)
    requires
        ad.value() > 0,
        bd.value() > 0,
    ensures
        match r {
            Some(c) => rat_step(
                op,
                Rat { num: an.value(), den: ad.value() },
                Rat { num: bn.value(), den: bd.value() },
            ) == Some(c@) && c@.wf(),
            None => rat_step(
                op,
                Rat { num: an.value(), den: ad.value() },
                Rat { num: bn.value(), den: bd.value() },
            ) is None,
        },
{
    let (n, d) = match op {
        ArithOp::Add => (int_add(&int_mul(an, bd), &int_mul(bn, ad)), int_mul(ad, bd)),
        ArithOp::Sub => (int_sub(&int_mul(an, bd), &int_mul(bn, ad)), int_mul(ad, bd)),
        ArithOp::Mul => (int_mul(an, bn), int_mul(ad, bd)),
        ArithOp::Div => {
            if bn.is_zero() {
                return None;
            }
            if bn.is_negative() {
                (int_mul(an, bd).neg(), int_mul(ad, bn).neg())
            } else {
                (int_mul(an, bd), int_mul(ad, bn))
            }
        },
    };
    proof {
        let (adv, bdv, bnv) = (ad.value(), bd.value(), bn.value());
        assert(adv * bdv > 0) by (nonlinear_arith)
            requires
                adv > 0,
                bdv > 0,
        ;
        assert(bnv < 0 ==> -(adv * bnv) > 0) by (nonlinear_arith)
            requires
                adv > 0,
        ;
        assert(bnv > 0 ==> adv * bnv > 0) by (nonlinear_arith)
            requires
                adv > 0,
        ;
    }
    Some(mk_rat(&n, &d))
}

/// Negation of a numeric constant.
pub fn neg(c: &Value) -> (r: Value)
    ensures
        r@ == neg_step(c@),
        c@.wf() ==> r@.wf(),
        r@.sort() == c@.sort(),
{
    match c {
        Value::Int(i) => Value::Int(i.neg()),
        Value::Rat(n, d) => Value::Rat(n.neg(), d.copy()),
        Value::Bool(b) => Value::Bool(*b),
    }
}

impl Value {
    /// The rational `n / d` in lowest terms.
    pub fn rat(n: i64, d: i64) -> (r: Value)
        requires
            d > 0,
        ensures
            r@ == Cst::Rat(reduce(n as int, d as int)),
            r@.wf(),
    {
        mk_rat(&Int::from_i64(n), &Int::from_i64(d))
    }
}

} // verus!
