use kino::bmc::one_false;
use kino::cst::Value;
use kino::eval::{eval, model_at};
use kino::offset::{Offset, Offset2};
use kino::operator::Operator;
use kino::sym::{Sym, Type};
use kino::system::{Args, Callable, Fun, Prop, Sig, Sys, Uf};
use kino::term::{RealTerm, TermStore};
use kino::var::{State, Var};

#[test]
fn signatures_and_parameters() {
    let sig = Sig::mk(vec![Type::Int, Type::Bool]);
    assert_eq!(sig.types(), &[Type::Int, Type::Bool]);
    let args = Args::mk(vec![(Sym::mk(1), Type::Int)]);
    assert_eq!(args.len(), 1);
    assert_eq!(args.args(), &[(Sym::mk(1), Type::Int)]);
}

#[test]
fn functions_are_equal_by_identifier() {
    let f = Uf::mk(Sym::mk(3), Sig::mk(vec![Type::Int]), Type::Bool);
    assert_eq!(*f.sym(), Sym::mk(3));
    assert_eq!(f.sig(), &[Type::Int]);
    assert_eq!(*f.typ(), Type::Bool);
    let g = Uf::mk(Sym::mk(3), Sig::mk(vec![]), Type::Int);
    assert!(f == g);
    let h = Uf::mk(Sym::mk(4), Sig::mk(vec![Type::Int]), Type::Bool);
    assert!(f != h);
    assert_eq!(*Callable::Dec(h).sym(), Sym::mk(4));
}

#[test]
fn systems_and_properties() {
    let mut s = TermStore::new();
    let x = s.var(Var::SVar(Sym::mk(1), State::Curr));
    let zero = s.cst(Value::of_i64(0));
    let init = s.op(Operator::Eq, vec![x, zero]);
    let body = s.op(Operator::Ge, vec![x, zero]);
    let fun = Fun::mk(Sym::mk(8), Args::mk(vec![]), Type::Bool, body, vec![]);
    assert_eq!(*fun.body(), body);
    assert_eq!(*Callable::Def(fun).sym(), Sym::mk(8));
    let sys = Sys::mk(Sym::mk(9), Args::mk(vec![(Sym::mk(1), Type::Int)]), vec![], init, init, vec![], vec![]);
    assert_eq!(*sys.init(), init);
    assert_eq!(sys.state().len(), 1);
    let p = Prop::mk(Sym::mk(10), sys, body, vec![]);
    assert_eq!(*p.sym(), Sym::mk(10));
    assert_eq!(*p.sys().sym(), Sym::mk(9));
    assert_eq!(*p.body(), body);
}

#[test]
fn valuation_at_offsets() {
    let x = Var::SVar(Sym::mk(1), State::Curr);
    let y = Var::Var(Sym::mk(2));
    let entries = vec![
        (x, Some(Offset::of_int(3)), Value::of_i64(30)),
        (x, Some(Offset::of_int(4)), Value::of_i64(40)),
        (x, Some(Offset::of_int(5)), Value::of_i64(50)),
        (y, None, Value::of_i64(7)),
    ];
    let k = Offset2::init().nxt().nxt().nxt();
    let m = model_at(&entries, &k);
    assert_eq!(
        m,
        vec![(x, Value::of_i64(30)), (Var::SVar(Sym::mk(1), State::Next), Value::of_i64(40)), (y, Value::of_i64(7))]
    );
    let mut s = TermStore::new();
    let xc = s.var(x);
    let xn = s.var(Var::SVar(Sym::mk(1), State::Next));
    let t = s.op(Operator::Sub, vec![xn, xc]);
    assert_eq!(eval(&s, t, &m, &vec![]), Ok(Value::of_i64(10)));
}

#[test]
fn some_property_is_false() {
    let mut s = TermStore::new();
    let a = s.var(Var::Var(Sym::mk(1)));
    let b = s.var(Var::Var(Sym::mk(2)));
    let f = one_false(&mut s, &vec![a, b]);
    let nots = match s.get(f) {
        RealTerm::Op(Operator::Or, args) => args.clone(),
        _ => panic!("not a disjunction"),
    };
    assert_eq!(nots.len(), 2);
    let na = s.op(Operator::Not, vec![a]);
    assert_eq!(nots[0], na);
    let model = vec![(Var::Var(Sym::mk(1)), Value::Bool(true)), (Var::Var(Sym::mk(2)), Value::Bool(false))];
    assert_eq!(eval(&s, f, &model, &vec![]), Ok(Value::Bool(true)));
}
