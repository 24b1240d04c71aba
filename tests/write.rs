use kino::cst::Value;
use kino::offset::Offset2;
use kino::operator::Operator;
use kino::sym::{Sym, Type};
use kino::term::TermStore;
use kino::var::{State, Var};
use kino::write::{op_name, write_term, write_vmt};
use kino::zip::bump;

fn names() -> Vec<Vec<u8>> {
    vec![b"q".to_vec(), b"x".to_vec(), b"y".to_vec(), b"a".to_vec(), b"b".to_vec()]
}

fn text(v: Vec<u8>) -> String {
    String::from_utf8(v).unwrap()
}

#[test]
fn writes_state_variables_at_their_offset() {
    let mut s = TermStore::new();
    let x = s.var(Var::SVar(Sym::mk(1), State::Curr));
    let y = s.var(Var::Var(Sym::mk(2)));
    let one = s.cst(Value::of_i64(1));
    let sum = s.op(Operator::Add, vec![x, one]);
    let t = s.op(Operator::Lt, vec![sum, y]);
    let k = Offset2::init().nxt();
    assert_eq!(text(write_term(&s, t, &names(), &k)), "(< (+ |@1x| 1) |y|)");
    let b = bump(&mut s, t).unwrap();
    assert_eq!(text(write_term(&s, b, &names(), &k)), "(< (+ |@2x| 1) |y|)");
}

#[test]
fn writes_constants() {
    let mut s = TermStore::new();
    let k = Offset2::init();
    let n = s.cst(Value::of_i64(-5));
    assert_eq!(text(write_term(&s, n, &names(), &k)), "(- 5)");
    let q = s.cst(Value::rat(1, 2));
    assert_eq!(text(write_term(&s, q, &names(), &k)), "(/ 1 2)");
    let t = s.cst(Value::Bool(true));
    assert_eq!(text(write_term(&s, t, &names(), &k)), "true");
    let z = s.cst(Value::of_i64(120));
    assert_eq!(text(write_term(&s, z, &names(), &k)), "120");
}

#[test]
fn writes_binders() {
    let mut s = TermStore::new();
    let k = Offset2::init();
    let a = s.var(Var::Var(Sym::mk(3)));
    let b = s.var(Var::Var(Sym::mk(4)));
    let one = s.cst(Value::of_i64(1));
    let two = s.cst(Value::of_i64(2));
    let body = s.op(Operator::Add, vec![a, b]);
    let t = s.let_b(vec![(Sym::mk(3), one), (Sym::mk(4), two)], body);
    assert_eq!(text(write_term(&s, t, &names(), &k)), "(let ((|a| 1) (|b| 2)) (+ |a| |b|))");
    let qv = s.var(Var::Var(Sym::mk(0)));
    let zero = s.cst(Value::of_i64(0));
    let ge = s.op(Operator::Ge, vec![qv, zero]);
    let f = s.forall_b(vec![(Sym::mk(0), Type::Int)], ge);
    assert_eq!(text(write_term(&s, f, &names(), &k)), "(forall ((|q| Int)) (>= |q| 0))");
}

#[test]
fn unnamed_symbols_are_written_by_id() {
    let mut s = TermStore::new();
    let k = Offset2::init();
    let one = s.cst(Value::of_i64(1));
    let t = s.app(Sym::mk(17), vec![one]);
    assert_eq!(text(write_term(&s, t, &names(), &k)), "(|17| 1)");
}

#[test]
fn operator_names() {
    assert_eq!(op_name(Operator::Impl), b"=>".to_vec());
    assert_eq!(op_name(Operator::Distinct), b"distinct".to_vec());
    assert_eq!(op_name(Operator::Le), b"<=".to_vec());
}

#[test]
fn writes_state_variables_as_state_or_next() {
    let mut s = TermStore::new();
    let x = s.var(Var::SVar(Sym::mk(1), State::Curr));
    let xn = s.var(Var::SVar(Sym::mk(1), State::Next));
    let one = s.cst(Value::of_i64(1));
    let sum = s.op(Operator::Add, vec![x, one]);
    let t = s.op(Operator::Eq, vec![xn, sum]);
    assert_eq!(text(write_vmt(&s, t, &names())), "(= (next |x|) (+ (state |x|) 1))");
    assert_eq!(text(write_term(&s, t, &names(), &Offset2::init())), "(= |@1x| (+ |@0x| 1))");
}

#[test]
fn integers_have_no_width_bound() {
    let mut s = TermStore::new();
    let k = Offset2::init();
    let big = Operator::Mul.eval(&vec![Value::of_i64(i64::MAX), Value::of_i64(4)]).unwrap();
    let t = s.cst(big);
    assert_eq!(text(write_term(&s, t, &names(), &k)), "36893488147419103228");
    let m = s.cst(Value::of_i64(i64::MIN));
    let n = s.op(Operator::Sub, vec![m]);
    assert_eq!(kino::eval::eval(&s, n, &vec![], &vec![]).map(|v| {
        let c = s2(v);
        c
    }), Ok("9223372036854775808".to_string()));
}

fn s2(v: Value) -> String {
    let mut st = TermStore::new();
    let t = st.cst(v);
    text(write_term(&st, t, &names(), &Offset2::init()))
}
