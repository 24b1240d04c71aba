//! The built-in operators: arity, type checking and evaluation on constants.

use vstd::prelude::*;
use crate::arith::{int_arith, int_step, neg, neg_step, rat_arith, rat_step, ArithOp};
use crate::bigint::{int_eq, int_lt, int_mul};
use crate::cst::{Cst, Value};
use crate::sym::{Sym, Type};
use crate::var::Var;

verus! {

/// Standard operators.
#[derive(Debug, Clone, Copy, PartialEq, Eq, Structural, Hash)]
pub enum Operator {
    Eq,
    Ite,
    Not,
    And,
    Or,
    Impl,
    Xor,
    Distinct,
    Add,
    Sub,
    Mul,
    Div,
    Le,
    Ge,
    Lt,
    Gt,
}

/// Why a signature does not type check.
#[derive(Debug, Clone, Copy, PartialEq, Eq, Structural)]
pub enum TypeError {
    /// The operator does not take that many arguments.
    Arity { op: Operator, got: usize },
    /// The argument at `pos` has a sort the operator does not accept there.
    Arg { op: Operator, pos: usize, found: Type },
    /// The two branches of an if-then-else have different sorts.
    Branches { then_sort: Type, else_sort: Type },
}

impl TypeError {
    /// The positions of the offending arguments, if the error has any.
    pub fn positions(&self) -> (r: Option<Vec<usize>>)
        ensures
            match *self {
                TypeError::Arity { .. } => r is None,
                TypeError::Arg { pos, .. } => r matches Some(v) && v@ == seq![pos],
                TypeError::Branches { .. } => r matches Some(v) && v@ == seq![1usize, 2usize],
            },
    {
        match self {
            TypeError::Arity { .. } => None,
            TypeError::Arg { pos, .. } => {
                let mut v = Vec::new();
                v.push(*pos);
                Some(v)
            },
            TypeError::Branches { .. } => {
                let mut v = Vec::new();
                v.push(1);
                v.push(2);
                Some(v)
            },
        }
    }
}

/// Why an evaluation failed.
#[derive(Debug, Clone, Copy, PartialEq, Eq, Structural)]
pub enum EvalError {
    /// The operator does not take that many arguments.
    Arity { op: Operator, got: usize },
    /// The argument at `pos` has a sort the operator does not accept there.
    Arg { op: Operator, pos: usize, found: Type },
    /// A division by zero.
    DivByZero,
    /// A variable bound by a quantifier, which cannot be evaluated.
    QuantifiedVar(Var),
    /// A quantified term, which cannot be evaluated.
    Quantifier,
    /// An application of a function symbol, which cannot be evaluated.
    Application(Sym),
    /// A free variable with no value and no declared sort.
    MissingVar(Var),
}

/// First index from `i` on where `s` differs from `t`, or the length of `s`.
pub open spec fn first_not(s: Seq<Type>, t: Type, i: int) -> int
    decreases s.len() - i,
{
    if i < 0 || i >= s.len() {
        s.len() as int
    } else if s[i] != t {
        i
    } else {
        first_not(s, t, i + 1)
    }
}

/// First index from `i` on where `s` holds a value that is not a boolean, or the length of `s`.
pub open spec fn first_non_bool(s: Seq<Cst>, i: int) -> int
    decreases s.len() - i,
{
    if i < 0 || i >= s.len() {
        s.len() as int
    } else if s[i].sort() != Type::Bool {
        i
    } else {
        first_non_bool(s, i + 1)
    }
}

/// The boolean a constant holds (false for other sorts).
pub open spec fn as_bool(c: Cst) -> bool {
    c == Cst::Bool(true)
}

/// Conjunction of the first `n` values.
pub open spec fn conj(s: Seq<Cst>, n: int) -> bool
    decreases n,
{
    if n <= 0 {
        true
    } else {
        conj(s, n - 1) && as_bool(s[n - 1])
    }
}

/// Disjunction of the first `n` values.
pub open spec fn disj(s: Seq<Cst>, n: int) -> bool
    decreases n,
{
    if n <= 0 {
        false
    } else {
        disj(s, n - 1) || as_bool(s[n - 1])
    }
}

/// Number of true values among the first `n`.
pub open spec fn trues(s: Seq<Cst>, n: int) -> nat
    decreases n,
{
    if n <= 0 {
        0
    } else {
        trues(s, n - 1) + if as_bool(s[n - 1]) {
            1nat
        } else {
            0nat
        }
    }
}

/// Implication over the first `n` values: no true value is followed by a false one.
pub open spec fn chain_impl(s: Seq<Cst>, n: int) -> bool
    decreases n,
{
    if n <= 0 {
        true
    } else {
        chain_impl(s, n - 1) && !(disj(s, n - 1) && !as_bool(s[n - 1]))
    }
}

/// Whether all values equal the first one.
pub open spec fn all_equal(s: Seq<Cst>) -> bool {
    forall|k: int| 0 <= k < s.len() ==> #[trigger] s[k] == s[0]
}

/// Whether all constants are well-formed.
pub open spec fn all_wf(s: Seq<Cst>) -> bool {
    forall|k: int| 0 <= k < s.len() ==> (#[trigger] s[k]).wf()
}

/// The arithmetic operation behind an arithmetic operator.
pub open spec fn arith_op(op: Operator) -> ArithOp {
    match op {
        Operator::Add => ArithOp::Add,
        Operator::Sub => ArithOp::Sub,
        Operator::Mul => ArithOp::Mul,
        _ => ArithOp::Div,
    }
}

/// Turns the outcome of one arithmetic step into an evaluation result.
pub open spec fn lift(r: Option<Cst>) -> Result<Cst, EvalError> {
    match r {
        Some(c) => Ok(c),
        None => Err(EvalError::DivByZero),
    }
}

/// One step of an arithmetic fold: the accumulator combined with the argument at `pos`.
pub open spec fn arith_step(op: Operator, acc: Cst, arg: Cst, pos: int) -> Result<Cst, EvalError> {
    match (acc, arg) {
        (Cst::Int(a), Cst::Int(b)) => lift(int_step(arith_op(op), a, b)),
        (Cst::Rat(a), Cst::Rat(b)) => lift(rat_step(arith_op(op), a, b)),
        _ => Err(EvalError::Arg { op, pos: pos as usize, found: arg.sort() }),
    }
}

/// Left fold of an arithmetic operator over the first `n` arguments (`n >= 1`).
pub open spec fn arith_fold(op: Operator, s: Seq<Cst>, n: int) -> Result<Cst, EvalError>
    decreases n,
{
    if n <= 1 {
        if s[0].sort().is_numeric() {
            Ok(s[0])
        } else {
            Err(EvalError::Arg { op, pos: 0, found: s[0].sort() })
        }
    } else {
        match arith_fold(op, s, n - 1) {
            Ok(acc) => arith_step(op, acc, s[n - 1], n - 1),
            Err(e) => Err(e),
        }
    }
}

/// Comparison of two numeric constants of one sort.
pub open spec fn compare(op: Operator, a: Cst, b: Cst) -> Result<Cst, EvalError> {
    match (a, b) {
        (Cst::Int(x), Cst::Int(y)) => Ok(Cst::Bool(cmp_int(op, x, y))),
        (Cst::Rat(x), Cst::Rat(y)) => Ok(
            Cst::Bool(cmp_int(op, x.num * y.den, y.num * x.den)),
        ),
        (Cst::Bool(_), _) => Err(EvalError::Arg { op, pos: 0, found: Type::Bool }),
        _ => Err(EvalError::Arg { op, pos: 1, found: b.sort() }),
    }
}

/// The order relation of a comparison operator, on integers.
pub open spec fn cmp_int(op: Operator, x: int, y: int) -> bool {
    match op {
        Operator::Le => x <= y,
        Operator::Ge => x >= y,
        Operator::Lt => x < y,
        _ => x > y,
    }
}

/// Evaluation of a boolean connective, after a full scan of its arguments.
pub open spec fn eval_connective(op: Operator, s: Seq<Cst>) -> Result<Cst, EvalError> {
    let k = first_non_bool(s, 0);
    if k < s.len() {
        Err(EvalError::Arg { op, pos: k as usize, found: s[k].sort() })
    } else {
        Ok(
            Cst::Bool(
                match op {
                    Operator::And => conj(s, s.len() as int),
                    Operator::Or => disj(s, s.len() as int),
                    Operator::Impl => chain_impl(s, s.len() as int),
                    _ => trues(s, s.len() as int) == 1,
                },
            ),
        )
    }
}

impl Operator {
    /// Number of arguments the operator takes, `None` for n-ary operators.
    pub open spec fn spec_arity(self) -> Option<u8> {
        match self {
            Operator::Not => Some(1),
            Operator::Div | Operator::Le | Operator::Ge | Operator::Lt | Operator::Gt => Some(2),
            Operator::Ite => Some(3),
            _ => None,
        }
    }

    /// Number of arguments the operator takes, `None` for n-ary operators.
    pub fn arity(&self) -> (r: Option<u8>)
        ensures
            r == self.spec_arity(),
    {
        match self {
            Operator::Not => Some(1),
            Operator::Div | Operator::Le | Operator::Ge | Operator::Lt | Operator::Gt => Some(2),
            Operator::Ite => Some(3),
            _ => None,
        }
    }

    /// Whether the operator is one of the comparisons.
    pub open spec fn is_comparison(self) -> bool {
        self == Operator::Le || self == Operator::Ge || self == Operator::Lt || self == Operator::Gt
    }

    /// Whether the operator is one of the arithmetic folds.
    pub open spec fn is_arith(self) -> bool {
        self == Operator::Add || self == Operator::Sub || self == Operator::Mul || self == Operator::Div
    }

    /// Whether the operator is one of the boolean connectives that scan all their arguments.
    pub open spec fn is_connective(self) -> bool {
        self == Operator::And || self == Operator::Or || self == Operator::Impl || self == Operator::Xor
    }

    /// The sort an application of the operator has on arguments of sorts `sig`, or why it has none.
    pub open spec fn spec_type_check(self, sig: Seq<Type>) -> Result<Type, TypeError> {
        let len = sig.len();
        match self {
            Operator::Eq | Operator::Distinct => {
                if len == 0 {
                    Ok(Type::Bool)
                } else {
                    let k = first_not(sig, sig[0], 1);
                    if k < len {
                        Err(TypeError::Arg { op: self, pos: k as usize, found: sig[k] })
                    } else {
                        Ok(Type::Bool)
                    }
                }
            },
            Operator::Ite => {
                if len != 3 {
                    Err(TypeError::Arity { op: self, got: len as usize })
                } else if sig[0] != Type::Bool {
                    Err(TypeError::Arg { op: self, pos: 0, found: sig[0] })
                } else if sig[1] != sig[2] {
                    Err(TypeError::Branches { then_sort: sig[1], else_sort: sig[2] })
                } else {
                    Ok(sig[1])
                }
            },
            Operator::Not => {
                if len != 1 {
                    Err(TypeError::Arity { op: self, got: len as usize })
                } else if sig[0] != Type::Bool {
                    Err(TypeError::Arg { op: self, pos: 0, found: sig[0] })
                } else {
                    Ok(Type::Bool)
                }
            },
            Operator::And | Operator::Or | Operator::Impl | Operator::Xor => {
                let k = first_not(sig, Type::Bool, 0);
                if k < len {
                    Err(TypeError::Arg { op: self, pos: k as usize, found: sig[k] })
                } else {
                    Ok(Type::Bool)
                }
            },
            Operator::Add | Operator::Sub | Operator::Mul | Operator::Div => {
                if len == 0 {
                    Err(TypeError::Arity { op: self, got: 0 })
                } else if !sig[0].is_numeric() {
                    Err(TypeError::Arg { op: self, pos: 0, found: sig[0] })
                } else {
                    let k = first_not(sig, sig[0], 1);
                    if k < len {
                        Err(TypeError::Arg { op: self, pos: k as usize, found: sig[k] })
                    } else {
                        Ok(sig[0])
                    }
                }
            },
            Operator::Le | Operator::Ge | Operator::Lt | Operator::Gt => {
                if len != 2 {
                    Err(TypeError::Arity { op: self, got: len as usize })
                } else if !sig[0].is_numeric() {
                    Err(TypeError::Arg { op: self, pos: 0, found: sig[0] })
                } else if sig[1] != sig[0] {
                    Err(TypeError::Arg { op: self, pos: 1, found: sig[1] })
                } else {
                    Ok(Type::Bool)
                }
            },
        }
    }

    /// The value of the operator applied to constants `args`, or why it has none.
    pub open spec fn spec_eval(self, args: Seq<Cst>) -> Result<Cst, EvalError> {
        let len = args.len();
        match self {
            Operator::Eq => Ok(Cst::Bool(all_equal(args))),
            Operator::Distinct => Ok(Cst::Bool(!all_equal(args))),
            Operator::Ite => {
                if len != 3 {
                    Err(EvalError::Arity { op: self, got: len as usize })
                } else if args[0] == Cst::Bool(true) {
                    Ok(args[1])
                } else if args[0] == Cst::Bool(false) {
                    Ok(args[2])
                } else {
                    Err(EvalError::Arg { op: self, pos: 0, found: args[0].sort() })
                }
            },
            Operator::Not => {
                if len != 1 {
                    Err(EvalError::Arity { op: self, got: len as usize })
                } else {
                    match args[0] {
                        Cst::Bool(b) => Ok(Cst::Bool(!b)),
                        _ => Err(EvalError::Arg { op: self, pos: 0, found: args[0].sort() }),
                    }
                }
            },
            Operator::And | Operator::Or | Operator::Impl | Operator::Xor => eval_connective(
                self,
                args,
            ),
            Operator::Add | Operator::Sub | Operator::Mul | Operator::Div => {
                if len == 0 {
                    Err(EvalError::Arity { op: self, got: 0 })
                } else if self == Operator::Sub && len == 1 {
                    if args[0].sort().is_numeric() {
                        Ok(neg_step(args[0]))
                    } else {
                        Err(EvalError::Arg { op: self, pos: 0, found: args[0].sort() })
                    }
                } else {
                    arith_fold(self, args, len as int)
                }
            },
            Operator::Le | Operator::Ge | Operator::Lt | Operator::Gt => {
                if len != 2 {
                    Err(EvalError::Arity { op: self, got: len as usize })
                } else {
                    compare(self, args[0], args[1])
                }
            },
        }
    }
}

fn first_not_exec(sig: &[Type], t: Type, from: usize) -> (r: usize)
    requires
        from <= sig@.len(),
    ensures
        r == first_not(sig@, t, from as int),
{
    let mut i = from;
    while i < sig.len()
        invariant
            from <= i <= sig@.len(),
            first_not(sig@, t, from as int) == first_not(sig@, t, i as int),
        decreases sig@.len() - i,
    {
        if sig[i] != t {
            return i;
        }
        i = i + 1;
    }
    i
}

proof fn lemma_fold_err(op: Operator, s: Seq<Cst>, n: int, m: int)
    requires
        1 <= n <= m,
        arith_fold(op, s, n) is Err,
    ensures
        arith_fold(op, s, m) == arith_fold(op, s, n),
    decreases m - n,
{
    if n < m {
        lemma_fold_err(op, s, n, m - 1);
    }
}

/// The contents of a sequence of constant values.
pub open spec fn views(s: Seq<Value>) -> Seq<Cst> {
    s.map_values(|c: Value| c@)
}

/// The contents of an evaluation result.
pub open spec fn rview(r: Result<Value, EvalError>) -> Result<Cst, EvalError> {
    match r {
        Ok(c) => Ok(c@),
        Err(e) => Err(e),
    }
}

fn lift_exec(r: Option<Value>) -> (v: Result<Value, EvalError>)
    ensures
        rview(v) == lift(match r {
            Some(c) => Some(c@),
            None => None,
        }),
        v matches Ok(c) ==> r matches Some(d) && c@ == d@,
{
    match r {
        Some(c) => Ok(c),
        None => Err(EvalError::DivByZero),
    }
}

fn to_arith_op(op: Operator) -> (r: ArithOp)
    ensures
        r == arith_op(op),
{
    match op {
        Operator::Add => ArithOp::Add,
        Operator::Sub => ArithOp::Sub,
        Operator::Mul => ArithOp::Mul,
        _ => ArithOp::Div,
    }
}

fn arith_step_exec(op: Operator, acc: &Value, arg: &Value, pos: usize) -> (r: Result<Value, EvalError>)
    requires
        acc@.wf(),
        arg@.wf(),
    ensures
        rview(r) == arith_step(op, acc@, arg@, pos as int),
        r matches Ok(c) ==> c@.wf() && c@.sort() == acc@.sort(),
{
    match (acc, arg) {
        (Value::Int(a), Value::Int(b)) => lift_exec(int_arith(to_arith_op(op), a, b)),
        (Value::Rat(an, ad), Value::Rat(bn, bd)) => lift_exec(rat_arith(to_arith_op(op), an, ad, bn, bd)),
        _ => Err(EvalError::Arg { op, pos, found: arg.typ() }),
    }
}

fn cmp_exec(op: Operator, x: &crate::bigint::Int, y: &crate::bigint::Int) -> (r: bool)
    ensures
        r == cmp_int(op, x.value(), y.value()),
{
    match op {
        Operator::Le => !int_lt(y, x),
        Operator::Ge => !int_lt(x, y),
        Operator::Lt => int_lt(x, y),
        _ => int_lt(y, x),
    }
}

fn compare_exec(op: Operator, a: &Value, b: &Value) -> (r: Result<Value, EvalError>)
    ensures
        rview(r) == compare(op, a@, b@),
{
    match (a, b) {
        (Value::Int(x), Value::Int(y)) => Ok(Value::Bool(cmp_exec(op, x, y))),
        (Value::Rat(xn, xd), Value::Rat(yn, yd)) => {
            let l = int_mul(xn, yd);
            let r = int_mul(yn, xd);
            Ok(Value::Bool(cmp_exec(op, &l, &r)))
        },
        (Value::Bool(_), _) => Err(EvalError::Arg { op, pos: 0, found: Type::Bool }),
        _ => Err(EvalError::Arg { op, pos: 1, found: b.typ() }),
    }
}

impl Operator {
    /// The sort of an application of the operator to arguments of sorts `sig`, or why it has none.
    pub fn type_check(&self, sig: &[Type]) -> (r: Result<Type, TypeError>)
        ensures
            r == self.spec_type_check(sig@),
    {
        let len = sig.len();
        match self {
            Operator::Eq | Operator::Distinct => {
                if len == 0 {
                    Ok(Type::Bool)
                } else {
                    let k = first_not_exec(sig, sig[0], 1);
                    if k < len {
                        Err(TypeError::Arg { op: *self, pos: k, found: sig[k] })
                    } else {
                        Ok(Type::Bool)
                    }
                }
            },
            Operator::Ite => {
                if len != 3 {
                    Err(TypeError::Arity { op: *self, got: len })
                } else if sig[0] != Type::Bool {
                    Err(TypeError::Arg { op: *self, pos: 0, found: sig[0] })
                } else if sig[1] != sig[2] {
                    Err(TypeError::Branches { then_sort: sig[1], else_sort: sig[2] })
                } else {
                    Ok(sig[1])
                }
            },
            Operator::Not => {
                if len != 1 {
                    Err(TypeError::Arity { op: *self, got: len })
                } else if sig[0] != Type::Bool {
                    Err(TypeError::Arg { op: *self, pos: 0, found: sig[0] })
                } else {
                    Ok(Type::Bool)
                }
            },
            Operator::And | Operator::Or | Operator::Impl | Operator::Xor => {
                let k = first_not_exec(sig, Type::Bool, 0);
                if k < len {
                    Err(TypeError::Arg { op: *self, pos: k, found: sig[k] })
                } else {
                    Ok(Type::Bool)
                }
            },
            Operator::Add | Operator::Sub | Operator::Mul | Operator::Div => {
                if len == 0 {
                    Err(TypeError::Arity { op: *self, got: 0 })
                } else if sig[0] != Type::Int && sig[0] != Type::Rat {
                    Err(TypeError::Arg { op: *self, pos: 0, found: sig[0] })
                } else {
                    let k = first_not_exec(sig, sig[0], 1);
                    if k < len {
                        Err(TypeError::Arg { op: *self, pos: k, found: sig[k] })
                    } else {
                        Ok(sig[0])
                    }
                }
            },
            Operator::Le | Operator::Ge | Operator::Lt | Operator::Gt => {
                if len != 2 {
                    Err(TypeError::Arity { op: *self, got: len })
                } else if sig[0] != Type::Int && sig[0] != Type::Rat {
                    Err(TypeError::Arg { op: *self, pos: 0, found: sig[0] })
                } else if sig[1] != sig[0] {
                    Err(TypeError::Arg { op: *self, pos: 1, found: sig[1] })
                } else {
                    Ok(Type::Bool)
                }
            },
        }
    }

    /// Evaluates a boolean connective, scanning every argument.
    fn eval_connective_exec(&self, args: &Vec<Value>) -> (r: Result<Value, EvalError>)
        requires
            self.is_connective(),
        ensures
            rview(r) == eval_connective(*self, views(args@)),
    {
        let ghost s = views(args@);
        let mut all = true;
        let mut any = false;
        let mut chain = true;
        let mut count: usize = 0;
        let mut i: usize = 0;
        while i < args.len()
            invariant
                s == views(args@),
                i <= s.len() == args@.len(),
                first_non_bool(s, 0) == first_non_bool(s, i as int),
                all == conj(s, i as int),
                any == disj(s, i as int),
                chain == chain_impl(s, i as int),
                count == trues(s, i as int),
                count <= i,
            decreases s.len() - i,
        {
            match &args[i] {
                Value::Bool(b) => {
                    let b = *b;
                    chain = chain && !(any && !b);
                    all = all && b;
                    any = any || b;
                    if b {
                        count = count + 1;
                    }
                },
                _ => {
                    return Err(EvalError::Arg { op: *self, pos: i, found: args[i].typ() });
                },
            }
            i = i + 1;
        }
        let res = match self {
            Operator::And => all,
            Operator::Or => any,
            Operator::Impl => chain,
            _ => count == 1,
        };
        Ok(Value::Bool(res))
    }

    /// Left fold of an arithmetic operator over at least one argument.
    fn eval_arith_fold(&self, args: &Vec<Value>) -> (r: Result<Value, EvalError>)
        requires
            self.is_arith(),
            args@.len() >= 1,
            all_wf(views(args@)),
        ensures
            rview(r) == arith_fold(*self, views(args@), args@.len() as int),
            r matches Ok(c) ==> c@.wf() && c@.sort() == args@[0]@.sort(),
    {
        let ghost s = views(args@);
        let t = args[0].typ();
        if t != Type::Int && t != Type::Rat {
            proof {
                lemma_fold_err(*self, s, 1, s.len() as int);
            }
            return Err(EvalError::Arg { op: *self, pos: 0, found: t });
        }
        let mut acc = args[0].copy();
        let mut i: usize = 1;
        while i < args.len()
            invariant
                s == views(args@),
                1 <= i <= s.len() == args@.len(),
                all_wf(s),
                arith_fold(*self, s, i as int) == Ok::<Cst, EvalError>(acc@),
                acc@.wf(),
                acc@.sort() == s[0].sort(),
            decreases s.len() - i,
        {
            assert(s[i as int] == args@[i as int]@);
            match arith_step_exec(*self, &acc, &args[i], i) {
                Ok(c) => {
                    acc = c;
                },
                Err(e) => {
                    proof {
                        lemma_fold_err(*self, s, i + 1, s.len() as int);
                    }
                    return Err(e);
                },
            }
            i = i + 1;
        }
        Ok(acc)
    }

    /// The value of the operator applied to the constants `args`, or why it has none.
    pub fn eval(&self, args: &Vec<Value>) -> (r: Result<Value, EvalError>)
        requires
            all_wf(views(args@)),
        ensures
            rview(r) == self.spec_eval(views(args@)),
            r matches Ok(c) ==> c@.wf(),
    {
        let ghost s = views(args@);
        let len = args.len();
        match self {
            Operator::Eq | Operator::Distinct => {
                let mut i: usize = 0;
                let mut same = true;
                while i < len
                    invariant
                        s == views(args@),
                        i <= len == args@.len() == s.len(),
                        same <==> forall|k: int| 0 <= k < i ==> #[trigger] s[k] == s[0],
                    decreases len - i,
                {
                    assert(s[i as int] == args@[i as int]@ && s[0] == args@[0]@);
                    if !args[i].same(&args[0]) {
                        same = false;
                    }
                    i = i + 1;
                }
                if *self == Operator::Eq {
                    Ok(Value::Bool(same))
                } else {
                    Ok(Value::Bool(!same))
                }
            },
            Operator::Ite => {
                if len != 3 {
                    Err(EvalError::Arity { op: *self, got: len })
                } else {
                    match &args[0] {
                        Value::Bool(true) => Ok(args[1].copy()),
                        Value::Bool(false) => Ok(args[2].copy()),
                        _ => Err(EvalError::Arg { op: *self, pos: 0, found: args[0].typ() }),
                    }
                }
            },
            Operator::Not => {
                if len != 1 {
                    Err(EvalError::Arity { op: *self, got: len })
                } else {
                    match &args[0] {
                        Value::Bool(b) => Ok(Value::Bool(!*b)),
                        _ => Err(EvalError::Arg { op: *self, pos: 0, found: args[0].typ() }),
                    }
                }
            },
            Operator::And | Operator::Or | Operator::Impl | Operator::Xor => {
                self.eval_connective_exec(args)
            },
            Operator::Add | Operator::Sub | Operator::Mul | Operator::Div => {
                if len == 0 {
                    Err(EvalError::Arity { op: *self, got: 0 })
                } else if *self == Operator::Sub && len == 1 {
                    let t = args[0].typ();
                    if t == Type::Int || t == Type::Rat {
                        Ok(neg(&args[0]))
                    } else {
                        Err(EvalError::Arg { op: *self, pos: 0, found: t })
                    }
                } else {
                    self.eval_arith_fold(args)
                }
            },
            Operator::Le | Operator::Ge | Operator::Lt | Operator::Gt => {
                if len != 2 {
                    Err(EvalError::Arity { op: *self, got: len })
                } else {
                    compare_exec(*self, &args[0], &args[1])
                }
            },
        }
    }
}

/// The sorts of a sequence of constants.
pub open spec fn sorts(args: Seq<Cst>) -> Seq<Type> {
    args.map_values(|c: Cst| c.sort())
}

/// An error that arithmetic, not typing, causes: a division by zero.
pub open spec fn arith_failure(e: EvalError) -> bool {
    e is DivByZero
}

proof fn lemma_first_sorts(args: Seq<Cst>, i: int)
    requires
        0 <= i,
    ensures
        first_not(sorts(args), Type::Bool, i) == first_non_bool(args, i),
    decreases args.len() - i,
{
    if i < args.len() {
        lemma_first_sorts(args, i + 1);
    }
}

proof fn lemma_first_not_all(s: Seq<Type>, t: Type, i: int, k: int)
    requires
        0 <= i <= k < s.len(),
        first_not(s, t, i) >= s.len(),
    ensures
        s[k] == t,
    decreases k - i,
{
    if i < k {
        lemma_first_not_all(s, t, i + 1, k);
    }
}

/// Whether a constant is zero.
pub open spec fn is_zero(c: Cst) -> bool {
    c == Cst::Int(0) || (c matches Cst::Rat(q) && q.num == 0)
}

/// Whether a divisor (an argument after the first) is zero.
pub open spec fn zero_divisor(args: Seq<Cst>) -> bool {
    exists|i: int| 1 <= i < args.len() && #[trigger] is_zero(args[i])
}

proof fn lemma_fold_typed(op: Operator, args: Seq<Cst>, n: int)
    requires
        op.is_arith(),
        1 <= n <= args.len(),
        args[0].sort().is_numeric(),
        forall|k: int| 0 <= k < args.len() ==> (#[trigger] args[k]).sort() == args[0].sort(),
        op == Operator::Div ==> !zero_divisor(args),
    ensures
        arith_fold(op, args, n) matches Ok(c) && c.sort() == args[0].sort(),
    decreases n,
{
    if n > 1 {
        lemma_fold_typed(op, args, n - 1);
        assert(args[n - 1].sort() == args[0].sort());
        assert(!is_zero(args[n - 1]) || op != Operator::Div);
    }
}

proof fn lemma_fold_typed_or_div(op: Operator, args: Seq<Cst>, n: int)
    requires
        op.is_arith(),
        1 <= n <= args.len(),
        args[0].sort().is_numeric(),
        forall|k: int| 0 <= k < args.len() ==> (#[trigger] args[k]).sort() == args[0].sort(),
    ensures
        match arith_fold(op, args, n) {
            Ok(c) => c.sort() == args[0].sort(),
            Err(e) => arith_failure(e),
        },
    decreases n,
{
    if n > 1 {
        lemma_fold_typed_or_div(op, args, n - 1);
        assert(args[n - 1].sort() == args[0].sort());
    }
}

/// On constants whose sorts type check, an operator evaluates to a constant of the sort
/// the type check gives, or fails by dividing by zero.
pub proof fn lemma_eval_typed_or_div(op: Operator, args: Seq<Cst>)
    requires
        op.spec_type_check(sorts(args)) is Ok,
    ensures
        match op.spec_eval(args) {
            Ok(c) => c.sort() == op.spec_type_check(sorts(args))->Ok_0,
            Err(e) => arith_failure(e),
        },
{
    let sig = sorts(args);
    assert(sig.len() == args.len());
    assert(forall|k: int| 0 <= k < args.len() ==> #[trigger] sig[k] == args[k].sort());
    if op.is_connective() {
        lemma_first_sorts(args, 0);
    } else if op.is_arith() {
        if args.len() >= 2 {
            assert forall|k: int| 0 <= k < args.len() implies (#[trigger] args[k]).sort() == args[0].sort() by {
                if k >= 1 {
                    lemma_first_not_all(sig, sig[0], 1, k);
                }
            }
            lemma_fold_typed_or_div(op, args, args.len() as int);
        }
    }
}

/// Type checking and evaluation agree: on constants whose sorts type check, an operator
/// evaluates without error to a constant of the sort the type check gives, unless it is
/// a division with a zero divisor.
pub proof fn lemma_eval_well_typed(op: Operator, args: Seq<Cst>)
    requires
        op.spec_type_check(sorts(args)) is Ok,
        !(op == Operator::Div && zero_divisor(args)),
    ensures
        op.spec_eval(args) matches Ok(c) && c.sort() == op.spec_type_check(sorts(args))->Ok_0,
{
    let sig = sorts(args);
    assert(sig.len() == args.len());
    assert(forall|k: int| 0 <= k < args.len() ==> #[trigger] sig[k] == args[k].sort());
    if op.is_connective() {
        lemma_first_sorts(args, 0);
    } else if op.is_arith() {
        if args.len() >= 2 {
            assert forall|k: int| 0 <= k < args.len() implies (#[trigger] args[k]).sort() == args[0].sort() by {
                if k >= 1 {
                    lemma_first_not_all(sig, sig[0], 1, k);
                }
            }
            lemma_fold_typed(op, args, args.len() as int);
        }
    }
}

proof fn lemma_first_non_bool_at(args: Seq<Cst>, i: int, k: int)
    requires
        0 <= i <= k < args.len(),
        args[k].sort() != Type::Bool,
        forall|j: int| i <= j < k ==> (#[trigger] args[j]).sort() == Type::Bool,
    ensures
        first_non_bool(args, i) == k,
    decreases k - i,
{
    if i < k {
        lemma_first_non_bool_at(args, i + 1, k);
    }
}

/// The boolean connectives scan all their arguments: whatever the booleans before it,
/// even one that already decides the result, the first argument that is not a boolean
/// makes the evaluation fail with a type error at its position.
pub proof fn lemma_connective_scans_all(op: Operator, args: Seq<Cst>, k: int)
    requires
        op.is_connective(),
        0 <= k < args.len(),
        args[k].sort() != Type::Bool,
        forall|j: int| 0 <= j < k ==> (#[trigger] args[j]).sort() == Type::Bool,
    ensures
        op.spec_eval(args) == Err::<Cst, EvalError>(EvalError::Arg { op, pos: k as usize, found: args[k].sort() }),
{
    lemma_first_non_bool_at(args, 0, k);
}

} // verus!
