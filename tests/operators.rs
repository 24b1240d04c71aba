use kino::cst::Value;
use kino::operator::{EvalError, Operator, TypeError};
use kino::sym::Type;

fn b(x: bool) -> Value {
    Value::Bool(x)
}

fn i(x: i64) -> Value {
    Value::of_i64(x)
}

fn q(n: i64, d: i64) -> Value {
    Value::rat(n, d)
}

#[test]
fn arity_of_operators() {
    assert_eq!(Operator::Not.arity(), Some(1));
    assert_eq!(Operator::Div.arity(), Some(2));
    assert_eq!(Operator::Ite.arity(), Some(3));
    assert_eq!(Operator::And.arity(), None);
}

#[test]
fn type_check_equality_reports_first_mismatch() {
    let r = Operator::Eq.type_check(&[Type::Int, Type::Int, Type::Bool, Type::Rat]);
    assert_eq!(r, Err(TypeError::Arg { op: Operator::Eq, pos: 2, found: Type::Bool }));
    assert_eq!(Operator::Eq.type_check(&[Type::Int, Type::Int]), Ok(Type::Bool));
    assert_eq!(Operator::Distinct.type_check(&[]), Ok(Type::Bool));
}

#[test]
fn type_check_ite() {
    assert_eq!(Operator::Ite.type_check(&[Type::Bool, Type::Int, Type::Int]), Ok(Type::Int));
    assert_eq!(
        Operator::Ite.type_check(&[Type::Bool, Type::Int]),
        Err(TypeError::Arity { op: Operator::Ite, got: 2 })
    );
    assert_eq!(
        Operator::Ite.type_check(&[Type::Int, Type::Int, Type::Int]),
        Err(TypeError::Arg { op: Operator::Ite, pos: 0, found: Type::Int })
    );
    let r = Operator::Ite.type_check(&[Type::Bool, Type::Int, Type::Rat]);
    assert_eq!(r, Err(TypeError::Branches { then_sort: Type::Int, else_sort: Type::Rat }));
    assert_eq!(r.unwrap_err().positions(), Some(vec![1, 2]));
}

#[test]
fn type_check_arithmetic_and_comparisons() {
    assert_eq!(Operator::Add.type_check(&[Type::Rat, Type::Rat]), Ok(Type::Rat));
    assert_eq!(Operator::Sub.type_check(&[]), Err(TypeError::Arity { op: Operator::Sub, got: 0 }));
    assert_eq!(
        Operator::Mul.type_check(&[Type::Bool]),
        Err(TypeError::Arg { op: Operator::Mul, pos: 0, found: Type::Bool })
    );
    assert_eq!(
        Operator::Add.type_check(&[Type::Int, Type::Int, Type::Rat]),
        Err(TypeError::Arg { op: Operator::Add, pos: 2, found: Type::Rat })
    );
    assert_eq!(Operator::Le.type_check(&[Type::Int, Type::Int]), Ok(Type::Bool));
    assert_eq!(
        Operator::Lt.type_check(&[Type::Int, Type::Rat]),
        Err(TypeError::Arg { op: Operator::Lt, pos: 1, found: Type::Rat })
    );
    assert_eq!(
        Operator::Gt.type_check(&[Type::Int, Type::Int, Type::Int]),
        Err(TypeError::Arity { op: Operator::Gt, got: 3 })
    );
    assert_eq!(Operator::Not.type_check(&[Type::Bool]), Ok(Type::Bool));
    assert_eq!(
        Operator::And.type_check(&[Type::Bool, Type::Int]),
        Err(TypeError::Arg { op: Operator::And, pos: 1, found: Type::Int })
    );
}

#[test]
fn connectives_scan_every_argument() {
    // `false` already decides the conjunction, yet the non-boolean is reported.
    let r = Operator::And.eval(&vec![b(true), b(false), i(3)]);
    assert_eq!(r, Err(EvalError::Arg { op: Operator::And, pos: 2, found: Type::Int }));
    let r = Operator::Or.eval(&vec![b(true), i(1), b(false)]);
    assert_eq!(r, Err(EvalError::Arg { op: Operator::Or, pos: 1, found: Type::Int }));
    let r = Operator::Impl.eval(&vec![b(false), b(true), q(1, 2)]);
    assert_eq!(r, Err(EvalError::Arg { op: Operator::Impl, pos: 2, found: Type::Rat }));
}

#[test]
fn connective_values() {
    assert_eq!(Operator::And.eval(&vec![b(true), b(true)]), Ok(b(true)));
    assert_eq!(Operator::And.eval(&vec![b(true), b(false)]), Ok(b(false)));
    assert_eq!(Operator::Or.eval(&vec![b(false), b(false)]), Ok(b(false)));
    assert_eq!(Operator::Or.eval(&vec![b(false), b(true)]), Ok(b(true)));
    assert_eq!(Operator::Impl.eval(&vec![b(true), b(false)]), Ok(b(false)));
    assert_eq!(Operator::Impl.eval(&vec![b(false), b(false)]), Ok(b(true)));
    assert_eq!(Operator::Xor.eval(&vec![b(true), b(false), b(false)]), Ok(b(true)));
    assert_eq!(Operator::Xor.eval(&vec![b(true), b(true)]), Ok(b(false)));
    assert_eq!(Operator::Not.eval(&vec![b(true)]), Ok(b(false)));
    assert_eq!(
        Operator::Not.eval(&vec![b(true), b(true)]),
        Err(EvalError::Arity { op: Operator::Not, got: 2 })
    );
}

#[test]
fn equality_and_distinct() {
    assert_eq!(Operator::Eq.eval(&vec![i(1), i(1), i(1)]), Ok(b(true)));
    assert_eq!(Operator::Eq.eval(&vec![i(1), i(2)]), Ok(b(false)));
    assert_eq!(Operator::Distinct.eval(&vec![i(1), i(2)]), Ok(b(true)));
    assert_eq!(Operator::Distinct.eval(&vec![i(1), i(1)]), Ok(b(false)));
}

#[test]
fn ite_picks_a_branch() {
    assert_eq!(Operator::Ite.eval(&vec![b(true), i(1), i(2)]), Ok(i(1)));
    assert_eq!(Operator::Ite.eval(&vec![b(false), i(1), i(2)]), Ok(i(2)));
    assert_eq!(
        Operator::Ite.eval(&vec![i(0), i(1), i(2)]),
        Err(EvalError::Arg { op: Operator::Ite, pos: 0, found: Type::Int })
    );
}

#[test]
fn integer_arithmetic() {
    assert_eq!(Operator::Add.eval(&vec![i(1), i(2), i(3)]), Ok(i(6)));
    assert_eq!(Operator::Sub.eval(&vec![i(10), i(3), i(2)]), Ok(i(5)));
    assert_eq!(Operator::Sub.eval(&vec![i(5)]), Ok(i(-5)));
    assert_eq!(Operator::Mul.eval(&vec![i(2), i(-3)]), Ok(i(-6)));
    assert_eq!(Operator::Div.eval(&vec![i(7), i(2)]), Ok(i(3)));
    assert_eq!(Operator::Div.eval(&vec![i(-7), i(2)]), Ok(i(-4)));
    assert_eq!(Operator::Div.eval(&vec![i(7), i(-2)]), Ok(i(-3)));
    assert_eq!(Operator::Div.eval(&vec![i(7), i(0)]), Err(EvalError::DivByZero));
    let big = Operator::Add.eval(&vec![i(i64::MAX), i(1)]).unwrap();
    assert_eq!(Operator::Sub.eval(&vec![big, i(1)]), Ok(i(i64::MAX)));
    let sq = Operator::Mul.eval(&vec![i(i64::MAX), i(i64::MAX)]).unwrap();
    let back = Operator::Div.eval(&vec![sq, i(i64::MAX)]);
    assert_eq!(back, Ok(i(i64::MAX)));
    assert_eq!(Operator::Sub.eval(&vec![i(i64::MIN)]).unwrap().typ(), Type::Int);
    assert_eq!(Operator::Add.eval(&vec![]), Err(EvalError::Arity { op: Operator::Add, got: 0 }));
    assert_eq!(
        Operator::Add.eval(&vec![i(1), q(1, 2)]),
        Err(EvalError::Arg { op: Operator::Add, pos: 1, found: Type::Rat })
    );
    assert_eq!(
        Operator::Add.eval(&vec![b(true)]),
        Err(EvalError::Arg { op: Operator::Add, pos: 0, found: Type::Bool })
    );
}

#[test]
fn rational_arithmetic() {
    assert_eq!(Operator::Add.eval(&vec![q(1, 2), q(1, 3)]), Ok(q(5, 6)));
    assert_eq!(Operator::Add.eval(&vec![q(1, 2), q(1, 2)]), Ok(q(1, 1)));
    assert_eq!(Operator::Sub.eval(&vec![q(1, 2), q(3, 4)]), Ok(q(-1, 4)));
    assert_eq!(Operator::Mul.eval(&vec![q(2, 3), q(3, 4)]), Ok(q(1, 2)));
    assert_eq!(Operator::Div.eval(&vec![q(1, 2), q(-1, 4)]), Ok(q(-2, 1)));
    assert_eq!(Operator::Div.eval(&vec![q(1, 2), q(0, 1)]), Err(EvalError::DivByZero));
    assert_eq!(Operator::Sub.eval(&vec![q(1, 2)]), Ok(q(-1, 2)));
}

#[test]
fn comparisons() {
    assert_eq!(Operator::Le.eval(&vec![i(1), i(2)]), Ok(b(true)));
    assert_eq!(Operator::Ge.eval(&vec![i(1), i(2)]), Ok(b(false)));
    assert_eq!(Operator::Lt.eval(&vec![q(1, 3), q(1, 2)]), Ok(b(true)));
    assert_eq!(Operator::Gt.eval(&vec![q(1, 3), q(1, 2)]), Ok(b(false)));
    assert_eq!(
        Operator::Le.eval(&vec![i(1), q(1, 2)]),
        Err(EvalError::Arg { op: Operator::Le, pos: 1, found: Type::Rat })
    );
    assert_eq!(
        Operator::Le.eval(&vec![b(true), i(1)]),
        Err(EvalError::Arg { op: Operator::Le, pos: 0, found: Type::Bool })
    );
    assert_eq!(Operator::Lt.eval(&vec![i(1)]), Err(EvalError::Arity { op: Operator::Lt, got: 1 }));
}

#[test]
fn well_typed_constants_evaluate_to_their_sort() {
    let args = vec![i(4), i(5)];
    let sig: Vec<Type> = args.iter().map(|c| c.typ()).collect();
    let t = Operator::Mul.type_check(&sig).unwrap();
    let v = Operator::Mul.eval(&args).unwrap();
    assert_eq!(v.typ(), t);
    let args = vec![i(4), i(5)];
    let sig: Vec<Type> = args.iter().map(|c| c.typ()).collect();
    assert_eq!(Operator::Le.type_check(&sig), Ok(Type::Bool));
    assert_eq!(Operator::Le.eval(&args).unwrap().typ(), Type::Bool);
}

#[test]
fn rationals_are_kept_in_lowest_terms() {
    assert_eq!(q(2, 4), q(1, 2));
    assert_eq!(q(-6, 3), q(-2, 1));
    assert_ne!(q(1, 2), q(1, 3));
    assert_eq!(Operator::Eq.eval(&vec![q(3, 9), q(1, 3)]), Ok(b(true)));
}
