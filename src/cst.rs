//! Constant values: booleans, integers and rationals of any size.

use vstd::prelude::*;
use crate::bigint::{int_eq, Int};
use crate::sym::Type;

verus! {

/// A rational number `num / den`, as mathematical integers; well formed when `den` is positive.
pub struct Rat {
    pub num: int,
    pub den: int,
}

impl Rat {
    pub open spec fn wf(self) -> bool {
        self.den > 0
    }
}

/// The mathematical content of a constant value.
pub enum Cst {
    Bool(bool),
    Int(int),
    Rat(Rat),
}

impl Cst {
    /// A constant is well formed when its rational, if any, is.
    pub open spec fn wf(self) -> bool {
        match self {
            Cst::Rat(r) => r.wf(),
            _ => true,
        }
    }

    /// The sort of a constant.
    pub open spec fn sort(self) -> Type {
        match self {
            Cst::Bool(_) => Type::Bool,
            Cst::Int(_) => Type::Int,
            Cst::Rat(_) => Type::Rat,
        }
    }
}

/// A constant value of one of the sorts, with integers of any size.
#[derive(Debug)]
pub enum Value {
    Bool(bool),
    Int(Int),
    /// A rational: numerator and denominator.
    Rat(Int, Int),
}

impl View for Value {
    type V = Cst;

    open spec fn view(&self) -> Cst {
        match self {
            Value::Bool(b) => Cst::Bool(*b),
            Value::Int(i) => Cst::Int(i.value()),
            Value::Rat(n, d) => Cst::Rat(Rat { num: n.value(), den: d.value() }),
        }
    }
}

impl Value {
    /// The sort of a constant.
    pub fn typ(&self) -> (r: Type)
        ensures
            r == self@.sort(),
    {
        match self {
            Value::Bool(_) => Type::Bool,
            Value::Int(_) => Type::Int,
            Value::Rat(_, _) => Type::Rat,
        }
    }

    /// The same constant.
    pub fn copy(&self) -> (r: Value)
        ensures
            r@ == self@,
    {
        match self {
            Value::Bool(b) => Value::Bool(*b),
            Value::Int(i) => Value::Int(i.copy()),
            Value::Rat(n, d) => Value::Rat(n.copy(), d.copy()),
        }
    }

    /// The integer constant `i`.
    pub fn of_i64(i: i64) -> (r: Value)
        ensures
            r@ == Cst::Int(i as int),
    {
        Value::Int(Int::from_i64(i))
    }

    /// Whether two constants are the same value.
    pub fn same(&self, o: &Value) -> (r: bool)
        ensures
            r == (self@ == o@),
    {
        match (self, o) {
            (Value::Bool(a), Value::Bool(b)) => *a == *b,
            (Value::Int(a), Value::Int(b)) => int_eq(a, b),
            (Value::Rat(an, ad), Value::Rat(bn, bd)) => int_eq(an, bn) && int_eq(ad, bd),
            _ => false,
        }
    }
}

impl PartialEq for Value {
    fn eq(&self, o: &Value) -> (r: bool) {
        self.same(o)
    }
}

impl vstd::std_specs::cmp::PartialEqSpecImpl for Value {
    open spec fn obeys_eq_spec() -> bool {
        true
    }

    open spec fn eq_spec(&self, o: &Value) -> bool {
        self@ == o@
    }
}

impl Type {
    /// The value a variable of this sort takes when nothing else gives it one.
    pub open spec fn spec_default(self) -> Cst {
        match self {
            Type::Bool => Cst::Bool(false),
            Type::Int => Cst::Int(0),
            Type::Rat => Cst::Rat(Rat { num: 0, den: 1 }),
        }
    }

    /// The value a variable of this sort takes when nothing else gives it one.
    pub fn default_value(&self) -> (r: Value)
        ensures
            r@ == self.spec_default(),
            r@.wf(),
            r@.sort() == *self,
    {
        match self {
            Type::Bool => Value::Bool(false),
            Type::Int => Value::of_i64(0),
            Type::Rat => Value::Rat(Int::from_i64(0), Int::from_i64(1)),
        }
    }
}

} // verus!
