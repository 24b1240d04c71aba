use kino::cst::Value;
use kino::eval::eval;
use kino::fold::mentions_state;
use kino::operator::{EvalError, Operator};
use kino::sym::{Sym, Type};
use kino::term::{RealTerm, STerm, Term, TermStore};
use kino::var::{State, Var};
use kino::zip::{bump, debump};

fn x_curr() -> Var {
    Var::SVar(Sym::mk(1), State::Curr)
}

fn x_next() -> Var {
    Var::SVar(Sym::mk(1), State::Next)
}

#[test]
fn same_shape_same_handle() {
    let mut s = TermStore::new();
    let x1 = s.var(x_curr());
    let x2 = s.var(x_curr());
    assert_eq!(x1, x2);
    let one = s.cst(Value::of_i64(1));
    let a = s.op(Operator::Add, vec![x1, one]);
    let len = s.len();
    let one_again = s.cst(Value::of_i64(1));
    let b = s.op(Operator::Add, vec![x2, one_again]);
    assert_eq!(a, b);
    assert_eq!(s.len(), len);
}

#[test]
fn different_shapes_different_handles() {
    let mut s = TermStore::new();
    let x = s.var(x_curr());
    let one = s.cst(Value::of_i64(1));
    let two = s.cst(Value::of_i64(2));
    let a = s.op(Operator::Add, vec![x, one]);
    let b = s.op(Operator::Add, vec![x, two]);
    let c = s.op(Operator::Add, vec![one, x]);
    let d = s.op(Operator::Mul, vec![x, one]);
    assert_ne!(a, b);
    assert_ne!(a, c);
    assert_ne!(a, d);
    assert_ne!(x, s.var(x_next()));
}

#[test]
fn empty_binders_collapse() {
    let mut s = TermStore::new();
    let t = s.cst(Value::Bool(true));
    assert_eq!(s.forall_b(vec![], t), t);
    assert_eq!(s.exists_b(vec![], t), t);
    assert_eq!(s.let_b(vec![], t), t);
    let q = s.forall_b(vec![(Sym::mk(3), Type::Int)], t);
    assert_ne!(q, t);
    assert!(s.get(t).is_true());
    assert!(!s.get(t).is_false());
}

#[test]
fn bump_then_debump_gives_the_term_back() {
    let mut s = TermStore::new();
    let x = s.var(x_curr());
    let y = s.var(Var::Var(Sym::mk(2)));
    let one = s.cst(Value::of_i64(1));
    let sum = s.op(Operator::Add, vec![x, one]);
    let t = s.op(Operator::Lt, vec![sum, y]);
    let b = bump(&mut s, t).unwrap();
    assert_ne!(b, t);
    let xn = s.var(x_next());
    let sum_n = s.op(Operator::Add, vec![xn, one]);
    let expected = s.op(Operator::Lt, vec![sum_n, y]);
    assert_eq!(b, expected);
    let back = debump(&mut s, b).unwrap();
    assert_eq!(back, t);
}

#[test]
fn bump_rejects_next_state_variables() {
    let mut s = TermStore::new();
    let xn = s.var(x_next());
    let one = s.cst(Value::of_i64(1));
    let t = s.op(Operator::Add, vec![xn, one]);
    assert_eq!(bump(&mut s, t), Err(x_next()));
    let x = s.var(x_curr());
    assert_eq!(debump(&mut s, x), Err(x_curr()));
}

#[test]
fn bump_goes_through_binders() {
    let mut s = TermStore::new();
    let x = s.var(x_curr());
    let z = s.var(Var::Var(Sym::mk(9)));
    let body = s.op(Operator::Add, vec![x, z]);
    let t = s.let_b(vec![(Sym::mk(9), x)], body);
    let b = bump(&mut s, t).unwrap();
    let bound = match s.get(b) {
        RealTerm::Let(binds, _) => binds[0].1,
        _ => panic!("not a let"),
    };
    let xn = s.var(x_next());
    assert_eq!(bound, xn);
    assert_eq!(debump(&mut s, b), Ok(t));
}

#[test]
fn evaluates_against_a_model() {
    let mut s = TermStore::new();
    let x = s.var(x_curr());
    let one = s.cst(Value::of_i64(1));
    let t = s.op(Operator::Add, vec![x, one]);
    let model = vec![(x_curr(), Value::of_i64(41))];
    assert_eq!(eval(&s, t, &model, &vec![]), Ok(Value::of_i64(42)));
}

#[test]
fn let_bindings_are_in_scope_of_the_body() {
    let mut s = TermStore::new();
    let v = Var::Var(Sym::mk(5));
    let vt = s.var(v);
    let two = s.cst(Value::of_i64(2));
    let three = s.cst(Value::of_i64(3));
    let body = s.op(Operator::Mul, vec![vt, three]);
    let t = s.let_b(vec![(Sym::mk(5), two)], body);
    assert_eq!(eval(&s, t, &vec![], &vec![]), Ok(Value::of_i64(6)));
}

#[test]
fn free_variables_default_to_their_sort() {
    let mut s = TermStore::new();
    let v = s.var(Var::Var(Sym::mk(7)));
    let decls = vec![(Sym::mk(7), Type::Int)];
    assert_eq!(eval(&s, v, &vec![], &decls), Ok(Value::of_i64(0)));
    assert_eq!(eval(&s, v, &vec![], &vec![]), Err(EvalError::MissingVar(Var::Var(Sym::mk(7)))));
}

#[test]
fn quantified_variables_cannot_be_evaluated() {
    let mut s = TermStore::new();
    let q = Var::Var(Sym::mk(4));
    let qt = s.var(q);
    let zero = s.cst(Value::of_i64(0));
    let body = s.op(Operator::Ge, vec![qt, zero]);
    let t = s.forall_b(vec![(Sym::mk(4), Type::Int)], body);
    assert_eq!(eval(&s, t, &vec![], &vec![]), Err(EvalError::QuantifiedVar(q)));
    let tt = s.cst(Value::Bool(true));
    let t2 = s.exists_b(vec![(Sym::mk(4), Type::Int)], tt);
    assert_eq!(eval(&s, t2, &vec![], &vec![]), Err(EvalError::Quantifier));
}

#[test]
fn applications_cannot_be_evaluated() {
    let mut s = TermStore::new();
    let one = s.cst(Value::of_i64(1));
    let t = s.app(Sym::mk(11), vec![one]);
    assert_eq!(eval(&s, t, &vec![], &vec![]), Err(EvalError::Application(Sym::mk(11))));
}

#[test]
fn evaluation_reports_non_boolean_argument() {
    let mut s = TermStore::new();
    let tt = s.cst(Value::Bool(true));
    let ff = s.cst(Value::Bool(false));
    let three = s.cst(Value::of_i64(3));
    let t = s.op(Operator::And, vec![tt, ff, three]);
    let r = eval(&s, t, &vec![], &vec![]);
    assert_eq!(r, Err(EvalError::Arg { op: Operator::And, pos: 2, found: Type::Int }));
}

#[test]
fn well_typed_constant_term_has_its_sort() {
    let mut s = TermStore::new();
    let a = s.cst(Value::of_i64(6));
    let b = s.cst(Value::of_i64(7));
    let m = s.op(Operator::Mul, vec![a, b]);
    let c = s.cst(Value::of_i64(40));
    let t = s.op(Operator::Gt, vec![m, c]);
    let v = eval(&s, t, &vec![], &vec![]).unwrap();
    assert_eq!(v, Value::Bool(true));
    assert_eq!(Operator::Gt.type_check(&[Type::Int, Type::Int]), Ok(v.typ()));
}

#[test]
fn stateful_terms() {
    let mut s = TermStore::new();
    let x: Term = s.var(x_curr());
    let xn = s.var(x_next());
    let one = STerm::One(x, xn);
    assert_eq!(one.state(), Some(x));
    assert_eq!(one.next(), xn);
    let two = STerm::Two(xn);
    assert_eq!(two.state(), None);
    assert_eq!(two.next(), xn);
}

#[test]
fn folds_find_state_variables() {
    let mut s = TermStore::new();
    let x = s.var(x_curr());
    let y = s.var(Var::Var(Sym::mk(2)));
    let one = s.cst(Value::of_i64(1));
    let sum = s.op(Operator::Add, vec![x, one]);
    let t = s.op(Operator::Lt, vec![sum, y]);
    assert!(mentions_state(&s, t, State::Curr));
    assert!(!mentions_state(&s, t, State::Next));
    let b = bump(&mut s, t).unwrap();
    assert!(mentions_state(&s, b, State::Next));
    assert!(!mentions_state(&s, b, State::Curr));
    assert!(!mentions_state(&s, y, State::Curr));
}
