//! Writing terms in the SMT-LIB 2 syntax, where state variables are tagged with the
//! offset they stand at.

use vstd::prelude::*;
use crate::bigint::{abs, digits, int_decimal, Int};
use crate::cst::{Cst, Value};
use crate::offset::Offset2;
use crate::operator::Operator;
use crate::sym::{Sym, Type};
use crate::term::{
    children, head, kids, lemma_tree_unfold, shape_ok, shapes_wf, tree_at, Head, RealTerm,
    Shape, Term, TermStore, Tree,
};
use crate::var::{State, Var};
use crate::zip::{csize, tsize};

verus! {

/// An integer: its digits, or `(- digits)` when negative.
pub open spec fn int_text(i: int) -> Seq<u8> {
    if i < 0 {
        seq![40u8, 45u8, 32u8] + digits((-i) as nat) + seq![41u8]
    } else {
        digits(i as nat)
    }
}

/// The name of a symbol: its entry in `names`, or its id in decimal when it has none.
pub open spec fn name_text(names: Seq<Seq<u8>>, s: Sym) -> Seq<u8> {
    if s.id < names.len() {
        names[s.id as int]
    } else {
        digits(s.id as nat)
    }
}

/// A symbol between bars.
pub open spec fn quoted(names: Seq<Seq<u8>>, s: Sym) -> Seq<u8> {
    seq![124u8] + name_text(names, s) + seq![124u8]
}

/// How state variables are written: at given offsets, or in the state/next form.
#[derive(Debug, Clone, Copy, PartialEq, Eq, Structural)]
pub enum Stamp {
    /// `(state |x|)` and `(next |x|)`.
    Vmt,
    /// `|@<offset>x|`, with the offsets of the current and the next state.
    At(u16, u16),
}

/// A variable; a state variable carries its state, or the offset of its state.
pub open spec fn var_text(names: Seq<Seq<u8>>, v: Var, st: Stamp) -> Seq<u8> {
    match (v, st) {
        (Var::Var(s), _) => quoted(names, s),
        (Var::SVar(s, state), Stamp::At(curr, next)) => seq![124u8, 64u8] + digits(
            if state == State::Curr {
                curr as nat
            } else {
                next as nat
            },
        ) + name_text(names, s) + seq![124u8],
        (Var::SVar(s, State::Curr), Stamp::Vmt) => seq![40u8, 115u8, 116u8, 97u8, 116u8, 101u8, 32u8]
            + quoted(names, s) + seq![41u8],
        (Var::SVar(s, State::Next), Stamp::Vmt) => seq![40u8, 110u8, 101u8, 120u8, 116u8, 32u8] + quoted(
            names,
            s,
        ) + seq![41u8],
    }
}

/// A constant.
pub open spec fn cst_text(c: Cst) -> Seq<u8> {
    match c {
        Cst::Bool(true) => seq![116u8, 114u8, 117u8, 101u8],
        Cst::Bool(false) => seq![102u8, 97u8, 108u8, 115u8, 101u8],
        Cst::Int(i) => int_text(i),
        Cst::Rat(q) => seq![40u8, 47u8, 32u8] + int_text(q.num) + seq![32u8] + int_text(q.den) + seq![
            41u8,
        ],
    }
}

/// The name of an operator.
pub open spec fn op_text(o: Operator) -> Seq<u8> {
    match o {
        Operator::Eq => seq![61u8],
        Operator::Ite => seq![105u8, 116u8, 101u8],
        Operator::Not => seq![110u8, 111u8, 116u8],
        Operator::And => seq![97u8, 110u8, 100u8],
        Operator::Or => seq![111u8, 114u8],
        Operator::Impl => seq![61u8, 62u8],
        Operator::Xor => seq![120u8, 111u8, 114u8],
        Operator::Distinct => seq![100u8, 105u8, 115u8, 116u8, 105u8, 110u8, 99u8, 116u8],
        Operator::Add => seq![43u8],
        Operator::Sub => seq![45u8],
        Operator::Mul => seq![42u8],
        Operator::Div => seq![47u8],
        Operator::Le => seq![60u8, 61u8],
        Operator::Ge => seq![62u8, 61u8],
        Operator::Lt => seq![60u8],
        Operator::Gt => seq![62u8],
    }
}

/// The name of a sort.
pub open spec fn sort_text(t: Type) -> Seq<u8> {
    match t {
        Type::Bool => seq![66u8, 111u8, 111u8, 108u8],
        Type::Int => seq![73u8, 110u8, 116u8],
        Type::Rat => seq![82u8, 101u8, 97u8, 108u8],
    }
}

/// The first `n` sorted symbols of a quantifier, `(|s| Sort)`, separated by spaces.
pub open spec fn binders_text(names: Seq<Seq<u8>>, b: Seq<(Sym, Type)>, n: int) -> Seq<u8>
    decreases n,
{
    if n <= 0 {
        Seq::empty()
    } else {
        binders_text(names, b, n - 1) + (if n > 1 {
            seq![32u8]
        } else {
            Seq::empty()
        }) + seq![40u8] + quoted(names, b[n - 1].0) + seq![32u8] + sort_text(b[n - 1].1) + seq![41u8]
    }
}

/// What a node writes before its sub-term `i`.
pub open spec fn sep(names: Seq<Seq<u8>>, h: Head, i: int) -> Seq<u8> {
    match h {
        Head::Op(o) => if i == 0 {
            seq![40u8] + op_text(o) + seq![32u8]
        } else {
            seq![32u8]
        },
        Head::App(f) => if i == 0 {
            seq![40u8] + quoted(names, f) + seq![32u8]
        } else {
            seq![32u8]
        },
        Head::Forall(b) => seq![40u8, 102u8, 111u8, 114u8, 97u8, 108u8, 108u8, 32u8, 40u8] + binders_text(
            names,
            b,
            b.len() as int,
        ) + seq![41u8, 32u8],
        Head::Exists(b) => seq![40u8, 101u8, 120u8, 105u8, 115u8, 116u8, 115u8, 32u8, 40u8] + binders_text(
            names,
            b,
            b.len() as int,
        ) + seq![41u8, 32u8],
        Head::Let(syms) => if i == 0 {
            seq![40u8, 108u8, 101u8, 116u8, 32u8, 40u8, 40u8] + quoted(names, syms[0]) + seq![32u8]
        } else if i < syms.len() {
            seq![41u8, 32u8, 40u8] + quoted(names, syms[i]) + seq![32u8]
        } else {
            seq![41u8, 41u8, 32u8]
        },
        _ => Seq::empty(),
    }
}

/// What a node with no sub-term writes.
pub open spec fn leaf_text(names: Seq<Seq<u8>>, h: Head, st: Stamp) -> Seq<u8> {
    match h {
        Head::V(v) => var_text(names, v, st),
        Head::C(c) => cst_text(c),
        _ => Seq::empty(),
    }
}

/// The text of a tree, with state variables written as `st` says.
pub open spec fn smt2(names: Seq<Seq<u8>>, t: Tree, st: Stamp) -> Seq<u8>
    decreases t, 0int,
{
    let Tree::Node(h, c) = t;
    if c.len() == 0 {
        leaf_text(names, h, st)
    } else {
        written(names, h, c, c.len() as int, st) + seq![41u8]
    }
}

/// What a node with head `h` writes up to the end of its sub-term `m - 1`.
pub open spec fn written(names: Seq<Seq<u8>>, h: Head, c: Seq<Tree>, m: int, st: Stamp) -> Seq<u8>
    decreases c, m,
{
    if m <= 0 || m > c.len() {
        Seq::empty()
    } else {
        written(names, h, c, m - 1, st) + sep(names, h, m - 1) + smt2(names, c[m - 1], st)
    }
}

/// The names of a table of symbol names.
pub open spec fn nview(names: Seq<Vec<u8>>) -> Seq<Seq<u8>> {
    names.map_values(|v: Vec<u8>| v@)
}

fn push_bytes(out: &mut Vec<u8>, s: &Vec<u8>)
    ensures
        final(out)@ == old(out)@ + s@,
{
    let mut i: usize = 0;
    while i < s.len()
        invariant
            i <= s@.len(),
            out@ == old(out)@ + s@.take(i as int),
        decreases s@.len() - i,
    {
        out.push(s[i]);
        assert(s@.take(i as int + 1) =~= s@.take(i as int).push(s@[i as int]));
        i = i + 1;
    }
    assert(s@.take(s@.len() as int) =~= s@);
}

fn push_seq(out: &mut Vec<u8>, s: Vec<u8>)
    ensures
        final(out)@ == old(out)@ + s@,
{
    push_bytes(out, &s);
}

fn push_digits(out: &mut Vec<u8>, n: u64)
    ensures
        final(out)@ == old(out)@ + digits(n as nat),
{
    let mut vals: Vec<u64> = Vec::new();
    let mut m = n;
    vals.push(m);
    while m >= 10
        invariant
            vals@.len() >= 1,
            vals@[0] == n,
            m == vals@.last(),
            forall|j: int| 0 <= j < vals@.len() - 1 ==> #[trigger] vals@[j + 1] == vals@[j] / 10 && vals@[j] >= 10,
        decreases m,
    {
        m = m / 10;
        vals.push(m);
    }
    let mut i: usize = vals.len() - 1;
    out.push((48 + vals[i]) as u8);
    while i > 0
        invariant
            0 <= i < vals@.len(),
            vals@[0] == n,
            forall|j: int| 0 <= j < vals@.len() - 1 ==> #[trigger] vals@[j + 1] == vals@[j] / 10 && vals@[j] >= 10,
            out@ == old(out)@ + digits(vals@[i as int] as nat),
        decreases i,
    {
        let v = vals[i - 1];
        assert(vals@[(i - 1) + 1] == vals@[i - 1] / 10);
        out.push((48 + v % 10) as u8);
        i = i - 1;
    }
}

fn push_int(out: &mut Vec<u8>, i: &Int)
    ensures
        final(out)@ == old(out)@ + int_text(i.value()),
{
    let d = int_decimal(i);
    if i.is_negative() {
        push_seq(out, vec![40u8, 45u8, 32u8]);
        push_bytes(out, &d);
        out.push(41u8);
        proof {
            assert(abs(i.value()) == (-i.value()) as nat);
        }
    } else {
        push_bytes(out, &d);
        proof {
            assert(abs(i.value()) == i.value() as nat);
        }
    }
}

fn push_name(out: &mut Vec<u8>, names: &Vec<Vec<u8>>, s: Sym)
    ensures
        final(out)@ == old(out)@ + name_text(nview(names@), s),
{
    if (s.id as u128) < (names.len() as u128) {
        push_bytes(out, &names[s.id as usize]);
    } else {
        push_digits(out, s.id);
    }
}

fn push_quoted(out: &mut Vec<u8>, names: &Vec<Vec<u8>>, s: Sym)
    ensures
        final(out)@ == old(out)@ + quoted(nview(names@), s),
{
    out.push(124u8);
    push_name(out, names, s);
    out.push(124u8);
}

fn push_var(out: &mut Vec<u8>, names: &Vec<Vec<u8>>, v: Var, st: Stamp)
    ensures
        final(out)@ == old(out)@ + var_text(nview(names@), v, st),
{
    match (v, st) {
        (Var::Var(s), _) => push_quoted(out, names, s),
        (Var::SVar(s, state), Stamp::At(curr, next)) => {
            out.push(124u8);
            out.push(64u8);
            match state {
                State::Curr => push_digits(out, curr as u64),
                State::Next => push_digits(out, next as u64),
            }
            push_name(out, names, s);
            out.push(124u8);
        },
        (Var::SVar(s, State::Curr), Stamp::Vmt) => {
            push_seq(out, vec![40u8, 115u8, 116u8, 97u8, 116u8, 101u8, 32u8]);
            push_quoted(out, names, s);
            out.push(41u8);
        },
        (Var::SVar(s, State::Next), Stamp::Vmt) => {
            push_seq(out, vec![40u8, 110u8, 101u8, 120u8, 116u8, 32u8]);
            push_quoted(out, names, s);
            out.push(41u8);
        },
    }
}

fn push_cst(out: &mut Vec<u8>, c: &Value)
    ensures
        final(out)@ == old(out)@ + cst_text(c@),
{
    match c {
        Value::Bool(true) => push_seq(out, vec![116u8, 114u8, 117u8, 101u8]),
        Value::Bool(false) => push_seq(out, vec![102u8, 97u8, 108u8, 115u8, 101u8]),
        Value::Int(i) => push_int(out, i),
        Value::Rat(n, d) => {
            push_seq(out, vec![40u8, 47u8, 32u8]);
            push_int(out, n);
            out.push(32u8);
            push_int(out, d);
            out.push(41u8);
        },
    }
}

/// The SMT-LIB name of an operator.
pub fn op_name(o: Operator) -> (r: Vec<u8>)
    ensures
        r@ == op_text(o),
{
    match o {
        Operator::Eq => vec![61u8],
        Operator::Ite => vec![105u8, 116u8, 101u8],
        Operator::Not => vec![110u8, 111u8, 116u8],
        Operator::And => vec![97u8, 110u8, 100u8],
        Operator::Or => vec![111u8, 114u8],
        Operator::Impl => vec![61u8, 62u8],
        Operator::Xor => vec![120u8, 111u8, 114u8],
        Operator::Distinct => vec![100u8, 105u8, 115u8, 116u8, 105u8, 110u8, 99u8, 116u8],
        Operator::Add => vec![43u8],
        Operator::Sub => vec![45u8],
        Operator::Mul => vec![42u8],
        Operator::Div => vec![47u8],
        Operator::Le => vec![60u8, 61u8],
        Operator::Ge => vec![62u8, 61u8],
        Operator::Lt => vec![60u8],
        Operator::Gt => vec![62u8],
    }
}

fn sort_name(t: Type) -> (r: Vec<u8>)
    ensures
        r@ == sort_text(t),
{
    match t {
        Type::Bool => vec![66u8, 111u8, 111u8, 108u8],
        Type::Int => vec![73u8, 110u8, 116u8],
        Type::Rat => vec![82u8, 101u8, 97u8, 108u8],
    }
}

fn push_binders(out: &mut Vec<u8>, names: &Vec<Vec<u8>>, b: &Vec<(Sym, Type)>)
    ensures
        final(out)@ == old(out)@ + binders_text(nview(names@), b@, b@.len() as int),
{
    let mut i: usize = 0;
    while i < b.len()
        invariant
            i <= b@.len(),
            out@ == old(out)@ + binders_text(nview(names@), b@, i as int),
        decreases b@.len() - i,
    {
        if i > 0 {
            out.push(32u8);
        }
        out.push(40u8);
        push_quoted(out, names, b[i].0);
        out.push(32u8);
        push_seq(out, sort_name(b[i].1));
        out.push(41u8);
        proof {
            let nv = nview(names@);
            let k = i as int + 1;
            assert(binders_text(nv, b@, k) == binders_text(nv, b@, k - 1) + (if k > 1 {
                seq![32u8]
            } else {
                Seq::<u8>::empty()
            }) + seq![40u8] + quoted(nv, b@[k - 1].0) + seq![32u8] + sort_text(b@[k - 1].1) + seq![41u8]);
            assert(out@ =~= old(out)@ + binders_text(nv, b@, k));
        }
        i = i + 1;
    }
}

fn push_sep(out: &mut Vec<u8>, names: &Vec<Vec<u8>>, node: &RealTerm, i: usize)
    requires
        node@ matches Shape::Let(b, _) ==> 0 < b.len() && i <= b.len(),
    ensures
        final(out)@ == old(out)@ + sep(nview(names@), head(node@), i as int),
{
    match node {
        RealTerm::Op(o, _) => {
            if i == 0 {
                out.push(40u8);
                push_seq(out, op_name(*o));
                out.push(32u8);
            } else {
                out.push(32u8);
            }
        },
        RealTerm::App(f, _) => {
            if i == 0 {
                out.push(40u8);
                push_quoted(out, names, *f);
                out.push(32u8);
            } else {
                out.push(32u8);
            }
        },
        RealTerm::Forall(b, _) => {
            push_seq(out, vec![40u8, 102u8, 111u8, 114u8, 97u8, 108u8, 108u8, 32u8, 40u8]);
            push_binders(out, names, b);
            push_seq(out, vec![41u8, 32u8]);
        },
        RealTerm::Exists(b, _) => {
            push_seq(out, vec![40u8, 101u8, 120u8, 105u8, 115u8, 116u8, 115u8, 32u8, 40u8]);
            push_binders(out, names, b);
            push_seq(out, vec![41u8, 32u8]);
        },
        RealTerm::Let(b, _) => {
            if i == 0 {
                push_seq(out, vec![40u8, 108u8, 101u8, 116u8, 32u8, 40u8, 40u8]);
                push_quoted(out, names, b[0].0);
                out.push(32u8);
            } else if i < b.len() {
                push_seq(out, vec![41u8, 32u8, 40u8]);
                push_quoted(out, names, b[i].0);
                out.push(32u8);
            } else {
                push_seq(out, vec![41u8, 41u8, 32u8]);
            }
        },
        _ => {
            assert(sep(nview(names@), head(node@), i as int) =~= Seq::<u8>::empty());
            assert(out@ =~= old(out)@ + Seq::<u8>::empty());
        },
    }
}

/// A step of the path from the root: a node, how many of its sub-terms are written,
/// and its text so far.
struct WFrame {
    node: Term,
    count: usize,
    text: Vec<u8>,
}

spec fn wframe_ok(orig: Seq<Shape>, nv: Seq<Seq<u8>>, st: Stamp, fr: WFrame) -> bool {
    let i = fr.node.id as int;
    &&& i < orig.len()
    &&& fr.count < kids(orig[i]).len()
    &&& fr.text@ == written(nv, head(orig[i]), children(tree_at(orig, i)), fr.count as int, st) + sep(
        nv,
        head(orig[i]),
        fr.count as int,
    )
}

spec fn wfocus(orig: Seq<Shape>, root: Term, path: Seq<WFrame>) -> Term {
    if path.len() == 0 {
        root
    } else {
        kids(orig[path.last().node.id as int])[path.last().count as int]
    }
}

spec fn wpot(orig: Seq<Shape>, fr: WFrame) -> nat {
    1 + 2 * csize(children(tree_at(orig, fr.node.id as int)), fr.count + 1 as int)
}

spec fn wppot(orig: Seq<Shape>, path: Seq<WFrame>) -> nat
    decreases path.len(),
{
    if path.len() == 0 {
        0
    } else {
        wppot(orig, path.drop_last()) + wpot(orig, path.last())
    }
}

spec fn wwalk_ok(orig: Seq<Shape>, nv: Seq<Seq<u8>>, st: Stamp, root: Term, path: Seq<WFrame>) -> bool {
    &&& shapes_wf(orig)
    &&& root.id < orig.len()
    &&& path.len() > 0 ==> path[0].node == root
    &&& forall|p: int| 0 <= p < path.len() ==> wframe_ok(orig, nv, st, #[trigger] path[p])
    &&& forall|p: int|
        0 <= p < path.len() - 1 ==> (#[trigger] path[p + 1]).node == kids(orig[path[p].node.id as int])[path[p].count as int]
    &&& wfocus(orig, root, path).id < orig.len()
}

proof fn lemma_wdescend(
    orig: Seq<Shape>,
    nv: Seq<Seq<u8>>,
    st: Stamp,
    root: Term,
    path: Seq<WFrame>,
    fr: WFrame,
)
    requires
        wwalk_ok(orig, nv, st, root, path),
        fr.node == wfocus(orig, root, path),
        fr.count == 0,
        fr.text@ == sep(nv, head(orig[fr.node.id as int]), 0),
        kids(orig[fr.node.id as int]).len() > 0,
    ensures
        wwalk_ok(orig, nv, st, root, path.push(fr)),
        wfocus(orig, root, path.push(fr)) == kids(orig[fr.node.id as int])[0],
        2 * tsize(tree_at(orig, fr.node.id as int)) + wppot(orig, path) == 1 + 2 * tsize(
            tree_at(orig, kids(orig[fr.node.id as int])[0].id as int),
        ) + wppot(orig, path.push(fr)),
{
    let np = path.push(fr);
    let i = fr.node.id as int;
    assert(np.drop_last() =~= path);
    lemma_tree_unfold(orig, i);
    let c = children(tree_at(orig, i));
    assert(csize(c, 0) == tsize(c[0]) + csize(c, 1));
    assert(written(nv, head(orig[i]), c, 0, st) =~= Seq::<u8>::empty());
    assert(wframe_ok(orig, nv, st, fr));
    assert forall|p: int| 0 <= p < np.len() implies wframe_ok(orig, nv, st, #[trigger] np[p]) by {
        if p < path.len() {
            assert(np[p] == path[p]);
        }
    }
    assert forall|p: int| 0 <= p < np.len() - 1 implies (#[trigger] np[p + 1]).node == kids(
        orig[np[p].node.id as int],
    )[np[p].count as int] by {
        assert(np[p] == path[p]);
        if p + 1 < path.len() {
            assert(np[p + 1] == path[p + 1]);
        }
    }
    assert(path.len() > 0 ==> np[0] == path[0]);
}

/// The frames of a path without its last one are still a valid path.
proof fn lemma_wrest(
    orig: Seq<Shape>,
    nv: Seq<Seq<u8>>,
    st: Stamp,
    root: Term,
    path: Seq<WFrame>,
)
    requires
        wwalk_ok(orig, nv, st, root, path),
        path.len() > 0,
    ensures
        ({
            let rest = path.drop_last();
            &&& path == rest.push(path.last())
            &&& rest.len() > 0 ==> rest[0] == path[0]
            &&& forall|p: int| 0 <= p < rest.len() ==> #[trigger] rest[p] == path[p]
            &&& forall|p: int| 0 <= p < rest.len() ==> wframe_ok(orig, nv, st, #[trigger] rest[p])
            &&& forall|p: int|
                0 <= p < rest.len() - 1 ==> (#[trigger] rest[p + 1]).node == kids(orig[rest[p].node.id as int])[rest[p].count as int]
            &&& wfocus(orig, root, rest) == path.last().node
            &&& wfocus(orig, root, rest).id < orig.len()
            &&& wppot(orig, path) == wppot(orig, rest) + wpot(orig, path.last())
        }),
{
    let rest = path.drop_last();
    let n = rest.len() as int;
    assert(path == rest.push(path.last()));
    assert(path[n] == path.last());
    assert(wframe_ok(orig, nv, st, path[n]));
    assert forall|p: int| 0 <= p < rest.len() implies wframe_ok(orig, nv, st, #[trigger] rest[p]) by {
        assert(rest[p] == path[p]);
    }
    assert forall|p: int| 0 <= p < rest.len() - 1 implies (#[trigger] rest[p + 1]).node == kids(
        orig[rest[p].node.id as int],
    )[rest[p].count as int] by {
        assert(rest[p] == path[p]);
        assert(rest[p + 1] == path[p + 1]);
    }
    if n > 0 {
        let q = n - 1;
        assert(path[q + 1].node == kids(orig[path[q].node.id as int])[path[q].count as int]);
        assert(rest[q] == path[q]);
    }
}

/// After a sub-term that is not the last one, the frame goes on with the next sub-term.
proof fn lemma_wnext(
    orig: Seq<Shape>,
    nv: Seq<Seq<u8>>,
    st: Stamp,
    root: Term,
    path: Seq<WFrame>,
    res: Seq<u8>,
    fr: WFrame,
)
    requires
        wwalk_ok(orig, nv, st, root, path),
        path.len() > 0,
        res == smt2(nv, tree_at(orig, wfocus(orig, root, path).id as int), st),
        fr.node == path.last().node,
        fr.count == path.last().count + 1,
        fr.count < kids(orig[fr.node.id as int]).len(),
        fr.text@ == path.last().text@ + res + sep(nv, head(orig[fr.node.id as int]), fr.count as int),
    ensures
        wwalk_ok(orig, nv, st, root, path.drop_last().push(fr)),
        wfocus(orig, root, path.drop_last().push(fr)) == kids(orig[fr.node.id as int])[fr.count as int],
        1 + wppot(orig, path) == 1 + 2 * tsize(tree_at(orig, kids(orig[fr.node.id as int])[fr.count as int].id as int))
            + wppot(orig, path.drop_last().push(fr)),
{
    lemma_wrest(orig, nv, st, root, path);
    let rest = path.drop_last();
    let last = path.last();
    let n = rest.len() as int;
    let i = fr.node.id as int;
    let ks = kids(orig[i]);
    let d = last.count as int;
    assert(wframe_ok(orig, nv, st, path[n]));
    lemma_tree_unfold(orig, i);
    let c = children(tree_at(orig, i));
    let h = head(orig[i]);
    assert(written(nv, h, c, d + 1, st) == written(nv, h, c, d, st) + sep(nv, h, d) + smt2(
        nv,
        c[d],
        st,
    ));
    assert(fr.text@ =~= written(nv, h, c, d + 1, st) + sep(nv, h, d + 1));
    assert(csize(c, d + 1) == tsize(c[d + 1]) + csize(c, d + 2));
    let np = rest.push(fr);
    assert(np.drop_last() =~= rest);
    assert(wframe_ok(orig, nv, st, fr));
    assert forall|p: int| 0 <= p < np.len() implies wframe_ok(orig, nv, st, #[trigger] np[p]) by {
        if p < n {
            assert(np[p] == rest[p]);
        }
    }
    assert forall|p: int| 0 <= p < np.len() - 1 implies (#[trigger] np[p + 1]).node == kids(
        orig[np[p].node.id as int],
    )[np[p].count as int] by {
        assert(np[p] == path[p]);
        if p + 1 < n {
            assert(np[p + 1] == path[p + 1]);
        }
    }
    assert(n > 0 ==> np[0] == path[0]);
    assert(n == 0 ==> np[0].node == path[0].node);
    assert(c[d + 1] == tree_at(orig, ks[d + 1].id as int));
}

/// After the last sub-term, the frame's text is the text of its node.
proof fn lemma_wdone(
    orig: Seq<Shape>,
    nv: Seq<Seq<u8>>,
    st: Stamp,
    root: Term,
    path: Seq<WFrame>,
    res: Seq<u8>,
    text: Seq<u8>,
)
    requires
        wwalk_ok(orig, nv, st, root, path),
        path.len() > 0,
        res == smt2(nv, tree_at(orig, wfocus(orig, root, path).id as int), st),
        path.last().count + 1 == kids(orig[path.last().node.id as int]).len(),
        text == path.last().text@ + res + seq![41u8],
    ensures
        wwalk_ok(orig, nv, st, root, path.drop_last()),
        wfocus(orig, root, path.drop_last()) == path.last().node,
        text == smt2(nv, tree_at(orig, path.last().node.id as int), st),
        1 + wppot(orig, path) == 2 + wppot(orig, path.drop_last()),
{
    lemma_wrest(orig, nv, st, root, path);
    let rest = path.drop_last();
    let last = path.last();
    let n = rest.len() as int;
    let i = last.node.id as int;
    let d = last.count as int;
    assert(wframe_ok(orig, nv, st, path[n]));
    lemma_tree_unfold(orig, i);
    let c = children(tree_at(orig, i));
    let h = head(orig[i]);
    assert(written(nv, h, c, d + 1, st) == written(nv, h, c, d, st) + sep(nv, h, d) + smt2(
        nv,
        c[d],
        st,
    ));
    assert(text =~= written(nv, h, c, d + 1, st) + seq![41u8]);
    assert(csize(c, d + 1) == 0);
}

fn write_with(store: &TermStore, term: Term, names: &Vec<Vec<u8>>, st: Stamp) -> (r: Vec<u8>)
    requires
        store.wf(),
        store.valid(term),
    ensures
        r@ == smt2(nview(names@), store.tree(term), st),
{
    let ghost orig = store.shapes();
    let ghost nv = nview(names@);
    let mut path: Vec<WFrame> = Vec::new();
    let mut cur = term;
    let mut res: Vec<u8> = Vec::new();
    let mut down = true;
    loop
        invariant
            orig == store.shapes(),
            store.wf(),
            nv == nview(names@),
            wwalk_ok(orig, nv, st, term, path@),
            down ==> cur == wfocus(orig, term, path@),
            !down ==> res@ == smt2(nv, tree_at(orig, wfocus(orig, term, path@).id as int), st),
        decreases (if down {
            2 * tsize(tree_at(orig, cur.id as int))
        } else {
            1
        }) + wppot(orig, path@),
    {
        if down {
            let nk = store.num_kids(cur);
            proof {
                lemma_tree_unfold(orig, cur.id as int);
                assert(shape_ok(orig[cur.id as int], cur.id as int));
            }
            if nk > 0 {
                let first = store.kid(cur, 0);
                let mut text: Vec<u8> = Vec::new();
                push_sep(&mut text, names, store.get(cur), 0);
                let fr = WFrame { node: cur, count: 0, text };
                proof {
                    assert(fr.text@ =~= sep(nv, head(orig[cur.id as int]), 0));
                    lemma_wdescend(orig, nv, st, term, path@, fr);
                }
                path.push(fr);
                cur = first;
            } else {
                let mut out: Vec<u8> = Vec::new();
                match store.get(cur) {
                    RealTerm::V(v) => push_var(&mut out, names, *v, st),
                    RealTerm::C(c) => push_cst(&mut out, c),
                    _ => {},
                }
                proof {
                    assert(out@ =~= leaf_text(nv, head(orig[cur.id as int]), st));
                }
                res = out;
                down = false;
            }
        } else {
            let ghost old_p = path@;
            match path.pop() {
                None => {
                    return res;
                },
                Some(fr) => {
                    proof {
                        assert(fr == old_p.last());
                        assert(path@ == old_p.drop_last());
                    }
                    proof {
                        assert(wframe_ok(orig, nv, st, old_p[old_p.len() - 1]));
                        assert(shape_ok(orig[fr.node.id as int], fr.node.id as int));
                    }
                    let nk = store.num_kids(fr.node);
                    proof {
                        assert(old_p[old_p.len() - 1] == fr);
                    }
                    let mut fr = fr;
                    push_bytes(&mut fr.text, &res);
                    fr.count = fr.count + 1;
                    if fr.count < nk {
                        push_sep(&mut fr.text, names, store.get(fr.node), fr.count);
                        proof {
                            lemma_wnext(orig, nv, st, term, old_p, res@, fr);
                        }
                        cur = store.kid(fr.node, fr.count);
                        path.push(fr);
                        down = true;
                    } else {
                        fr.text.push(41u8);
                        proof {
                            assert(fr.text@ =~= old_p.last().text@ + res@ + seq![41u8]);
                            lemma_wdone(orig, nv, st, term, old_p, res@, fr.text@);
                        }
                        res = fr.text;
                    }
                }
            }
        }
    }
}

/// The SMT-LIB text of a term at the offsets `k`, written without recursion: a state
/// variable is written `|@<offset><name>|`, with the offset of its state. Symbols take
/// their names from `names` (by id), or their id when they have none there.
pub fn write_term(store: &TermStore, term: Term, names: &Vec<Vec<u8>>, k: &Offset2) -> (r: Vec<u8>)
    requires
        store.wf(),
        store.valid(term),
        k.wf(),
    ensures
        r@ == smt2(nview(names@), store.tree(term), Stamp::At(k.depth() as u16, (k.depth() + 1) as u16)),
{
    let st = Stamp::At(k.curr().to_int(), k.next().to_int());
    write_with(store, term, names, st)
}

/// The text of a term for a transition system, written without recursion: a state
/// variable is written `(state |<name>|)` or `(next |<name>|)`.
pub fn write_vmt(store: &TermStore, term: Term, names: &Vec<Vec<u8>>) -> (r: Vec<u8>)
    requires
        store.wf(),
        store.valid(term),
    ensures
        r@ == smt2(nview(names@), store.tree(term), Stamp::Vmt),
{
    write_with(store, term, names, Stamp::Vmt)
}

} // verus!
