//! Evaluation of terms against a valuation, bottom-up and without recursion.

use vstd::prelude::*;
use crate::cst::{Cst, Value};
use crate::operator::{all_wf, arith_failure, lemma_eval_typed_or_div, rview, sorts, views, EvalError};
use crate::sym::{Sym, Type};
use crate::term::{
    children, head, kids, lemma_tree_unfold, shapes_wf, tree_at, Head, RealTerm, Shape, Term,
    TermStore, Tree,
};
use crate::offset::{Offset, Offset2};
use crate::var::{State, Var};
use crate::zip::{csize, shift_var, tsize};

verus! {

/// What a variable may take its value from: the valuation, the declared sorts, and the
/// let-bound and quantified symbols in scope (innermost last).
pub struct Env {
    pub model: Seq<(Var, Cst)>,
    pub decls: Seq<(Sym, Type)>,
    pub lets: Seq<(Sym, Cst)>,
    pub quants: Seq<(Sym, Type)>,
}

/// The value of the first entry of the valuation for `v`, from index `i` on.
pub open spec fn model_get(m: Seq<(Var, Cst)>, v: Var, i: int) -> Option<Cst>
    decreases m.len() - i,
{
    if i < 0 || i >= m.len() {
        None
    } else if m[i].0 == v {
        Some(m[i].1)
    } else {
        model_get(m, v, i + 1)
    }
}

/// The sort of the first declaration of `s`, from index `i` on.
pub open spec fn decl_get(d: Seq<(Sym, Type)>, s: Sym, i: int) -> Option<Type>
    decreases d.len() - i,
{
    if i < 0 || i >= d.len() {
        None
    } else if d[i].0 == s {
        Some(d[i].1)
    } else {
        decl_get(d, s, i + 1)
    }
}

/// The value of the innermost let-binding of `s` among the first `n` bindings.
pub open spec fn let_get(l: Seq<(Sym, Cst)>, s: Sym, n: int) -> Option<Cst>
    decreases n,
{
    if n <= 0 {
        None
    } else if l[n - 1].0 == s {
        Some(l[n - 1].1)
    } else {
        let_get(l, s, n - 1)
    }
}

/// Whether `s` is bound by a quantifier in scope.
pub open spec fn quantified(q: Seq<(Sym, Type)>, s: Sym) -> bool {
    exists|k: int| 0 <= k < q.len() && (#[trigger] q[k]).0 == s
}

/// The value of a variable: from the valuation, else from a let-binding, else an error
/// for a quantified variable, else the default value of its declared sort.
pub open spec fn lookup(env: Env, v: Var) -> Result<Cst, EvalError> {
    match model_get(env.model, v, 0) {
        Some(c) => Ok(c),
        None => match let_get(env.lets, v.spec_sym(), env.lets.len() as int) {
            Some(c) => Ok(c),
            None => if quantified(env.quants, v.spec_sym()) {
                Err(EvalError::QuantifiedVar(v))
            } else {
                match decl_get(env.decls, v.spec_sym(), 0) {
                    Some(t) => Ok(t.spec_default()),
                    None => Err(EvalError::MissingVar(v)),
                }
            },
        },
    }
}

/// The bindings of a let whose symbols are `syms` and values `vals`.
pub open spec fn zip_binds(syms: Seq<Sym>, vals: Seq<Cst>) -> Seq<(Sym, Cst)> {
    Seq::new(syms.len(), |i: int| (syms[i], vals[i]))
}

/// The value of a tree, or the first error met evaluating it bottom-up, left to right.
pub open spec fn eval_tree(t: Tree, env: Env) -> Result<Cst, EvalError>
    decreases t, 0int,
{
    let Tree::Node(h, c) = t;
    match h {
        Head::V(v) => lookup(env, v),
        Head::C(k) => Ok(k),
        Head::Op(o) => match eval_kids(c, env, c.len() as int) {
            Ok(vs) => o.spec_eval(vs),
            Err(e) => Err(e),
        },
        Head::App(f) => match eval_kids(c, env, c.len() as int) {
            Ok(_) => Err(EvalError::Application(f)),
            Err(e) => Err(e),
        },
        Head::Forall(b) => if c.len() == 0 {
            Err(EvalError::Quantifier)
        } else {
            match eval_tree(c[0], Env { quants: env.quants + b, ..env }) {
                Ok(_) => Err(EvalError::Quantifier),
                Err(e) => Err(e),
            }
        },
        Head::Exists(b) => if c.len() == 0 {
            Err(EvalError::Quantifier)
        } else {
            match eval_tree(c[0], Env { quants: env.quants + b, ..env }) {
                Ok(_) => Err(EvalError::Quantifier),
                Err(e) => Err(e),
            }
        },
        Head::Let(syms) => if c.len() == 0 {
            // A let-binding always has a body; this case is never reached.
            Err(EvalError::Quantifier)
        } else {
            match eval_kids(c, env, c.len() - 1) {
                Ok(vs) => eval_tree(
                    c[c.len() - 1],
                    Env { lets: env.lets + zip_binds(syms, vs), ..env },
                ),
                Err(e) => Err(e),
            }
        },
    }
}

/// The values of the first `n` trees of `c`, or the first error among them.
pub open spec fn eval_kids(c: Seq<Tree>, env: Env, n: int) -> Result<Seq<Cst>, EvalError>
    decreases c, n,
{
    if n <= 0 || n > c.len() {
        Ok(Seq::empty())
    } else {
        match eval_kids(c, env, n - 1) {
            Ok(vs) => match eval_tree(c[n - 1], env) {
                Ok(x) => Ok(vs.push(x)),
                Err(e) => Err(e),
            },
            Err(e) => Err(e),
        }
    }
}

/// The values of the first `k` trees, when each evaluates to the matching value of `done`.
proof fn lemma_kids_ok(c: Seq<Tree>, env: Env, done: Seq<Cst>, k: int)
    requires
        0 <= k <= done.len(),
        k <= c.len(),
        forall|i: int| 0 <= i < k ==> eval_tree(#[trigger] c[i], env) == Ok::<Cst, EvalError>(done[i]),
    ensures
        eval_kids(c, env, k) == Ok::<Seq<Cst>, EvalError>(done.take(k)),
    decreases k,
{
    if k > 0 {
        lemma_kids_ok(c, env, done, k - 1);
        assert(eval_tree(c[k - 1], env) == Ok::<Cst, EvalError>(done[k - 1]));
        assert(done.take(k - 1).push(done[k - 1]) =~= done.take(k));
    } else {
        assert(done.take(0) =~= Seq::<Cst>::empty());
    }
}

/// An error in a tree is the error of every longer run of its siblings.
proof fn lemma_kids_err(c: Seq<Tree>, env: Env, m: int, n: int)
    requires
        0 <= m < n <= c.len(),
        eval_kids(c, env, m) is Ok,
        eval_tree(c[m], env) is Err,
    ensures
        eval_kids(c, env, n) == Err::<Seq<Cst>, EvalError>(eval_tree(c[m], env)->Err_0),
    decreases n,
{
    if n > m + 1 {
        lemma_kids_err(c, env, m, n - 1);
    }
}

/// The contents of a valuation.
pub open spec fn mview(m: Seq<(Var, Value)>) -> Seq<(Var, Cst)> {
    m.map_values(|p: (Var, Value)| (p.0, p.1@))
}

/// The contents of let-bindings.
pub open spec fn lview(l: Seq<(Sym, Value)>) -> Seq<(Sym, Cst)> {
    l.map_values(|p: (Sym, Value)| (p.0, p.1@))
}

/// The contents of an optional constant.
pub open spec fn oview(r: Option<Value>) -> Option<Cst> {
    match r {
        Some(c) => Some(c@),
        None => None,
    }
}

fn model_lookup(m: &Vec<(Var, Value)>, v: Var) -> (r: Option<Value>)
    ensures
        oview(r) == model_get(mview(m@), v, 0),
{
    let mut i: usize = 0;
    while i < m.len()
        invariant
            i <= m@.len(),
            model_get(mview(m@), v, 0) == model_get(mview(m@), v, i as int),
        decreases m@.len() - i,
    {
        if m[i].0 == v {
            return Some(m[i].1.copy());
        }
        i = i + 1;
    }
    None
}

fn decl_lookup(d: &Vec<(Sym, Type)>, s: Sym) -> (r: Option<Type>)
    ensures
        r == decl_get(d@, s, 0),
{
    let mut i: usize = 0;
    while i < d.len()
        invariant
            i <= d@.len(),
            decl_get(d@, s, 0) == decl_get(d@, s, i as int),
        decreases d@.len() - i,
    {
        if d[i].0 == s {
            return Some(d[i].1);
        }
        i = i + 1;
    }
    None
}

fn let_lookup(l: &Vec<(Sym, Value)>, s: Sym) -> (r: Option<Value>)
    ensures
        oview(r) == let_get(lview(l@), s, l@.len() as int),
{
    let mut i: usize = l.len();
    while i > 0
        invariant
            i <= l@.len(),
            let_get(lview(l@), s, l@.len() as int) == let_get(lview(l@), s, i as int),
        decreases i,
    {
        if l[i - 1].0 == s {
            return Some(l[i - 1].1.copy());
        }
        i = i - 1;
    }
    None
}

fn quant_lookup(q: &Vec<(Sym, Type)>, s: Sym) -> (r: bool)
    ensures
        r == quantified(q@, s),
{
    let mut i: usize = 0;
    while i < q.len()
        invariant
            i <= q@.len(),
            forall|k: int| 0 <= k < i ==> (#[trigger] q@[k]).0 != s,
        decreases q@.len() - i,
    {
        if q[i].0 == s {
            return true;
        }
        i = i + 1;
    }
    false
}

/// Whether all values of a valuation are well formed.
pub open spec fn model_wf(m: Seq<(Var, Cst)>) -> bool {
    forall|k: int| 0 <= k < m.len() ==> (#[trigger] m[k]).1.wf()
}

proof fn lemma_model_get_wf(m: Seq<(Var, Cst)>, v: Var, i: int)
    requires
        model_wf(m),
    ensures
        model_get(m, v, i) matches Some(c) ==> c.wf(),
    decreases m.len() - i,
{
    if 0 <= i < m.len() && m[i].0 != v {
        lemma_model_get_wf(m, v, i + 1);
    }
}

proof fn lemma_let_get_wf(l: Seq<(Sym, Cst)>, s: Sym, n: int)
    requires
        model_wf_lets(l),
        n <= l.len(),
    ensures
        let_get(l, s, n) matches Some(c) ==> c.wf(),
    decreases n,
{
    if n > 0 && l[n - 1].0 != s {
        lemma_let_get_wf(l, s, n - 1);
    }
}

/// Whether all let-bound values are well formed.
pub open spec fn model_wf_lets(l: Seq<(Sym, Cst)>) -> bool {
    forall|k: int| 0 <= k < l.len() ==> (#[trigger] l[k]).1.wf()
}

fn lookup_exec(
    model: &Vec<(Var, Value)>,
    decls: &Vec<(Sym, Type)>,
    lets: &Vec<(Sym, Value)>,
    quants: &Vec<(Sym, Type)>,
    v: Var,
) -> (r: Result<Value, EvalError>)
    requires
        model_wf(mview(model@)),
        model_wf_lets(lview(lets@)),
    ensures
        rview(r) == lookup(Env { model: mview(model@), decls: decls@, lets: lview(lets@), quants: quants@ }, v),
        r matches Ok(c) ==> c@.wf(),
{
    proof {
        lemma_model_get_wf(mview(model@), v, 0);
        lemma_let_get_wf(lview(lets@), v.spec_sym(), lets@.len() as int);
    }
    match model_lookup(model, v) {
        Some(c) => Ok(c),
        None => match let_lookup(lets, v.sym()) {
            Some(c) => Ok(c),
            None => if quant_lookup(quants, v.sym()) {
                Err(EvalError::QuantifiedVar(v))
            } else {
                match decl_lookup(decls, v.sym()) {
                    Some(t) => Ok(t.default_value()),
                    None => Err(EvalError::MissingVar(v)),
                }
            },
        },
    }
}

/// A step of the path from the root: a node, the values of its first sub-terms, and
/// the number of let-bindings in scope above it.
struct EFrame {
    node: Term,
    done: Vec<Value>,
    lets_len: usize,
}

/// The let-bindings a frame puts in scope for its current sub-term.
spec fn own_lets(orig: Seq<Shape>, fr: EFrame) -> Seq<(Sym, Cst)> {
    match head(orig[fr.node.id as int]) {
        Head::Let(syms) => if views(fr.done@).len() == syms.len() {
            zip_binds(syms, views(fr.done@))
        } else {
            Seq::empty()
        },
        _ => Seq::empty(),
    }
}

/// The quantified symbols a frame puts in scope for its current sub-term.
spec fn own_quants(orig: Seq<Shape>, fr: EFrame) -> Seq<(Sym, Type)> {
    match head(orig[fr.node.id as int]) {
        Head::Forall(b) => b,
        Head::Exists(b) => b,
        _ => Seq::empty(),
    }
}

spec fn lets_of(orig: Seq<Shape>, path: Seq<EFrame>) -> Seq<(Sym, Cst)>
    decreases path.len(),
{
    if path.len() == 0 {
        Seq::empty()
    } else {
        lets_of(orig, path.drop_last()) + own_lets(orig, path.last())
    }
}

spec fn quants_of(orig: Seq<Shape>, path: Seq<EFrame>) -> Seq<(Sym, Type)>
    decreases path.len(),
{
    if path.len() == 0 {
        Seq::empty()
    } else {
        quants_of(orig, path.drop_last()) + own_quants(orig, path.last())
    }
}

/// The environment below a path.
spec fn env_at(orig: Seq<Shape>, model: Seq<(Var, Cst)>, decls: Seq<(Sym, Type)>, path: Seq<EFrame>) -> Env {
    Env { model, decls, lets: lets_of(orig, path), quants: quants_of(orig, path) }
}

spec fn efocus(orig: Seq<Shape>, root: Term, path: Seq<EFrame>) -> Term {
    if path.len() == 0 {
        root
    } else {
        kids(orig[path.last().node.id as int])[views(path.last().done@).len() as int]
    }
}

spec fn epot(orig: Seq<Shape>, fr: EFrame) -> nat {
    1 + 2 * csize(children(tree_at(orig, fr.node.id as int)), views(fr.done@).len() + 1 as int)
}

spec fn eppot(orig: Seq<Shape>, path: Seq<EFrame>) -> nat
    decreases path.len(),
{
    if path.len() == 0 {
        0
    } else {
        eppot(orig, path.drop_last()) + epot(orig, path.last())
    }
}

/// An error of `t` in `env` is the error of the whole evaluation.
spec fn err_reaches(orig: Seq<Shape>, t: Term, env: Env, root: Term, base: Env) -> bool {
    eval_tree(tree_at(orig, t.id as int), env) is Err ==> eval_tree(tree_at(orig, root.id as int), base)
        == eval_tree(tree_at(orig, t.id as int), env)
}

spec fn eframe_ok(
    orig: Seq<Shape>,
    model: Seq<(Var, Cst)>,
    decls: Seq<(Sym, Type)>,
    root: Term,
    path: Seq<EFrame>,
    p: int,
) -> bool {
    let fr = path[p];
    let ks = kids(orig[fr.node.id as int]);
    let c = children(tree_at(orig, fr.node.id as int));
    let env = env_at(orig, model, decls, path.take(p));
    &&& fr.node.id < orig.len()
    &&& views(fr.done@).len() < ks.len()
    &&& fr.lets_len == lets_of(orig, path.take(p)).len()
    &&& forall|m: int|
        0 <= m < views(fr.done@).len() ==> eval_tree(c[m], env) == Ok::<Cst, EvalError>(
            #[trigger] views(fr.done@)[m],
        ) && views(fr.done@)[m].wf()
    &&& err_reaches(orig, fr.node, env, root, env_at(orig, model, decls, Seq::empty()))
}

spec fn ewalk_ok(
    orig: Seq<Shape>,
    model: Seq<(Var, Cst)>,
    decls: Seq<(Sym, Type)>,
    root: Term,
    path: Seq<EFrame>,
) -> bool {
    &&& shapes_wf(orig)
    &&& root.id < orig.len()
    &&& path.len() > 0 ==> path[0].node == root
    &&& forall|p: int| 0 <= p < path.len() ==> #[trigger] eframe_ok(orig, model, decls, root, path, p)
    &&& forall|p: int|
        0 <= p < path.len() - 1 ==> (#[trigger] path[p + 1]).node == kids(orig[path[p].node.id as int])[views(path[p].done@).len() as int]
    &&& efocus(orig, root, path).id < orig.len()
    &&& err_reaches(
        orig,
        efocus(orig, root, path),
        env_at(orig, model, decls, path),
        root,
        env_at(orig, model, decls, Seq::empty()),
    )
}

proof fn lemma_path_push(orig: Seq<Shape>, path: Seq<EFrame>, fr: EFrame)
    ensures
        path.push(fr).drop_last() == path,
        path.push(fr).take(path.len() as int) == path,
        forall|p: int| 0 <= p <= path.len() ==> #[trigger] path.push(fr).take(p) == path.take(p),
        lets_of(orig, path.push(fr)) == lets_of(orig, path) + own_lets(orig, fr),
        quants_of(orig, path.push(fr)) == quants_of(orig, path) + own_quants(orig, fr),
        eppot(orig, path.push(fr)) == eppot(orig, path) + epot(orig, fr),
{
    assert(path.push(fr).drop_last() =~= path);
    assert(path.push(fr).take(path.len() as int) =~= path);
    assert forall|p: int| 0 <= p <= path.len() implies #[trigger] path.push(fr).take(p) == path.take(p) by {
        assert(path.push(fr).take(p) =~= path.take(p));
    }
}

proof fn lemma_edescend(
    orig: Seq<Shape>,
    model: Seq<(Var, Cst)>,
    decls: Seq<(Sym, Type)>,
    root: Term,
    path: Seq<EFrame>,
    fr: EFrame,
)
    requires
        ewalk_ok(orig, model, decls, root, path),
        fr.node == efocus(orig, root, path),
        views(fr.done@).len() == 0,
        fr.lets_len == lets_of(orig, path).len(),
        kids(orig[fr.node.id as int]).len() > 0,
    ensures
        ewalk_ok(orig, model, decls, root, path.push(fr)),
        efocus(orig, root, path.push(fr)) == kids(orig[fr.node.id as int])[0],
        lets_of(orig, path.push(fr)) == lets_of(orig, path),
        quants_of(orig, path.push(fr)) == quants_of(orig, path) + own_quants(orig, fr),
        2 * tsize(tree_at(orig, fr.node.id as int)) + eppot(orig, path) == 1 + 2 * tsize(
            tree_at(orig, kids(orig[fr.node.id as int])[0].id as int),
        ) + eppot(orig, path.push(fr)),
{
    let np = path.push(fr);
    let n = path.len() as int;
    let i = fr.node.id as int;
    let base = env_at(orig, model, decls, Seq::empty());
    lemma_path_push(orig, path, fr);
    lemma_tree_unfold(orig, i);
    assert(shapes_wf(orig));
    let c = children(tree_at(orig, i));
    assert(csize(c, 0) == tsize(c[0]) + csize(c, 1));
    assert(own_lets(orig, fr) =~= Seq::<(Sym, Cst)>::empty()) by {
        assert(crate::term::shape_ok(orig[i], i));
    }
    assert(lets_of(orig, np) =~= lets_of(orig, path));
    assert forall|p: int| 0 <= p < np.len() implies #[trigger] eframe_ok(orig, model, decls, root, np, p) by {
        if p < n {
            assert(np[p] == path[p]);
            assert(np.take(p) == path.take(p));
            assert(eframe_ok(orig, model, decls, root, path, p));
        } else {
            assert(np[p] == fr);
            assert(np.take(p) == path);
        }
    }
    assert forall|p: int| 0 <= p < np.len() - 1 implies (#[trigger] np[p + 1]).node == kids(
        orig[np[p].node.id as int],
    )[views(np[p].done@).len() as int] by {
        assert(np[p] == path[p]);
        if p + 1 < n {
            assert(np[p + 1] == path[p + 1]);
        }
    }
    assert(n > 0 ==> np[0] == path[0]);
    let e = env_at(orig, model, decls, path);
    let e2 = env_at(orig, model, decls, np);
    let k0 = tree_at(orig, kids(orig[i])[0].id as int);
    assert(c[0] == k0);
    if eval_tree(k0, e2) is Err {
        match head(orig[i]) {
            Head::Forall(b) => {
                assert(e2 == Env { quants: e.quants + b, ..e });
            },
            Head::Exists(b) => {
                assert(e2 == Env { quants: e.quants + b, ..e });
            },
            Head::Let(syms) => {
                assert(own_quants(orig, fr) =~= Seq::<(Sym, Type)>::empty());
                assert(e2 == e);
                assert(crate::term::shape_ok(orig[i], i));
                lemma_kids_err(c, e, 0, c.len() - 1);
            },
            _ => {
                assert(own_quants(orig, fr) =~= Seq::<(Sym, Type)>::empty());
                assert(e2 == e);
                lemma_kids_err(c, e, 0, c.len() as int);
            },
        }
        assert(eval_tree(tree_at(orig, i), e) == eval_tree(k0, e2));
    }
}

proof fn lemma_epop(
    orig: Seq<Shape>,
    model: Seq<(Var, Cst)>,
    decls: Seq<(Sym, Type)>,
    root: Term,
    path: Seq<EFrame>,
    res: Cst,
    fr: EFrame,
)
    requires
        ewalk_ok(orig, model, decls, root, path),
        path.len() > 0,
        eval_tree(tree_at(orig, efocus(orig, root, path).id as int), env_at(orig, model, decls, path))
            == Ok::<Cst, EvalError>(res),
        res.wf(),
        fr.node == path.last().node,
        views(fr.done@) == views(path.last().done@).push(res),
        fr.lets_len == path.last().lets_len,
    ensures
        ({
            let rest = path.drop_last();
            let i = fr.node.id as int;
            let ks = kids(orig[i]);
            let c = children(tree_at(orig, i));
            let e = env_at(orig, model, decls, rest);
            let base = env_at(orig, model, decls, Seq::empty());
            &&& i < orig.len()
            &&& views(fr.done@).len() <= ks.len()
            &&& fr.lets_len == lets_of(orig, rest).len()
            &&& all_wf(views(fr.done@))
            &&& lets_of(orig, path) == lets_of(orig, rest) + own_lets(orig, path.last())
            &&& quants_of(orig, path) == quants_of(orig, rest) + own_quants(orig, path.last())
            &&& views(fr.done@).len() < ks.len() ==> {
                &&& ewalk_ok(orig, model, decls, root, rest.push(fr))
                &&& efocus(orig, root, rest.push(fr)) == ks[views(fr.done@).len() as int]
                &&& lets_of(orig, rest.push(fr)) == lets_of(orig, path) + own_lets(orig, fr)
                &&& quants_of(orig, rest.push(fr)) == quants_of(orig, path)
                &&& 1 + eppot(orig, path) == 1 + 2 * tsize(tree_at(orig, ks[views(fr.done@).len() as int].id as int))
                    + eppot(orig, rest.push(fr))
            }
            &&& views(fr.done@).len() == ks.len() ==> {
                &&& 1 + eppot(orig, path) == 2 + eppot(orig, rest)
                &&& efocus(orig, root, rest) == fr.node
                &&& (rest.len() > 0 ==> rest[0].node == root)
                &&& (forall|p: int| 0 <= p < rest.len() ==> #[trigger] eframe_ok(orig, model, decls, root, rest, p))
                &&& (forall|p: int| 0 <= p < rest.len() - 1 ==> (#[trigger] rest[p + 1]).node == kids(
                    orig[rest[p].node.id as int],
                )[views(rest[p].done@).len() as int])
                &&& err_reaches(orig, fr.node, e, root, base)
                &&& match head(orig[i]) {
                    Head::Op(o) => eval_tree(tree_at(orig, i), e) == o.spec_eval(views(fr.done@)),
                    Head::App(f) => eval_tree(tree_at(orig, i), e) == Err::<Cst, EvalError>(EvalError::Application(f)),
                    Head::Forall(_) => eval_tree(tree_at(orig, i), e) == Err::<Cst, EvalError>(EvalError::Quantifier),
                    Head::Exists(_) => eval_tree(tree_at(orig, i), e) == Err::<Cst, EvalError>(EvalError::Quantifier),
                    Head::Let(_) => eval_tree(tree_at(orig, i), e) == Ok::<Cst, EvalError>(res),
                    _ => false,
                }
            }
        }),
{
    let rest = path.drop_last();
    let n = rest.len() as int;
    let last = path.last();
    let i = fr.node.id as int;
    let ks = kids(orig[i]);
    let d = views(last.done@).len() as int;
    let e = env_at(orig, model, decls, rest);
    let ef = env_at(orig, model, decls, path);
    let base = env_at(orig, model, decls, Seq::empty());
    assert(path == rest.push(last));
    lemma_path_push(orig, rest, last);
    assert(path[n] == last);
    assert(eframe_ok(orig, model, decls, root, path, n));
    assert(path.take(n) == rest);
    lemma_tree_unfold(orig, i);
    assert(crate::term::shape_ok(orig[i], i));
    let c = children(tree_at(orig, i));
    assert forall|m: int| 0 <= m < d implies eval_tree(c[m], e) == Ok::<Cst, EvalError>(
        #[trigger] views(fr.done@)[m],
    ) && views(fr.done@)[m].wf() by {
        assert(views(fr.done@)[m] == views(last.done@)[m]);
    }
    assert(all_wf(views(fr.done@))) by {
        assert forall|k: int| 0 <= k < views(fr.done@).len() implies (#[trigger] views(fr.done@)[k]).wf() by {
            if k < d {
                assert(views(fr.done@)[k] == views(last.done@)[k]);
            }
        }
    }
    assert forall|p: int| 0 <= p < n implies #[trigger] eframe_ok(orig, model, decls, root, rest, p) by {
        assert(rest[p] == path[p]);
        assert(rest.take(p) =~= path.take(p));
        assert(eframe_ok(orig, model, decls, root, path, p));
    }
    assert forall|p: int| 0 <= p < n - 1 implies (#[trigger] rest[p + 1]).node == kids(
        orig[rest[p].node.id as int],
    )[views(rest[p].done@).len() as int] by {
        assert(rest[p] == path[p]);
        assert(rest[p + 1] == path[p + 1]);
    }
    if n > 0 {
        let q = n - 1;
        assert(path[q + 1].node == kids(orig[path[q].node.id as int])[views(path[q].done@).len() as int]);
        assert(rest[q] == path[q]);
    }
    assert(n > 0 ==> rest[0] == path[0]);
    if views(fr.done@).len() < ks.len() {
        let np = rest.push(fr);
        lemma_path_push(orig, rest, fr);
        assert(csize(c, d + 1) == tsize(c[d + 1]) + csize(c, d + 2));
        // The last frame has more than one sub-term: it is no quantifier, and its
        // current sub-term is no let body.
        assert(own_lets(orig, last) =~= Seq::<(Sym, Cst)>::empty());
        assert(own_quants(orig, last) =~= Seq::<(Sym, Type)>::empty());
        assert(ef == e) by {
            assert(lets_of(orig, path) =~= lets_of(orig, rest));
            assert(quants_of(orig, path) =~= quants_of(orig, rest));
        }
        assert(own_quants(orig, fr) == own_quants(orig, last));
        assert(eval_tree(c[d], e) == Ok::<Cst, EvalError>(res));
        assert(lets_of(orig, path) =~= lets_of(orig, rest));
        assert forall|p: int| 0 <= p < np.len() implies #[trigger] eframe_ok(orig, model, decls, root, np, p) by {
            if p < n {
                assert(np[p] == rest[p]);
                assert(np.take(p) == rest.take(p));
                assert(eframe_ok(orig, model, decls, root, rest, p));
            } else {
                assert(np[p] == fr);
                assert(np.take(p) == rest);
                assert forall|m: int| 0 <= m < views(fr.done@).len() implies eval_tree(c[m], e) == Ok::<Cst, EvalError>(
                    #[trigger] views(fr.done@)[m],
                ) && views(fr.done@)[m].wf() by {
                    if m < d {
                        assert(views(fr.done@)[m] == views(last.done@)[m]);
                    }
                }
            }
        }
        assert forall|p: int| 0 <= p < np.len() - 1 implies (#[trigger] np[p + 1]).node == kids(
            orig[np[p].node.id as int],
        )[views(np[p].done@).len() as int] by {
            assert(np[p] == path[p]);
            if p + 1 < n {
                assert(np[p + 1] == path[p + 1]);
            }
        }
        assert(n > 0 ==> np[0] == path[0]);
        assert(n == 0 ==> np[0].node == path[0].node);
        let e2 = env_at(orig, model, decls, np);
        let kt = c[d + 1];
        assert(kt == tree_at(orig, ks[d + 1].id as int));
        lemma_kids_ok(c, e, views(fr.done@), d + 1);
        assert(views(fr.done@).take(d + 1) =~= views(fr.done@));
        if eval_tree(kt, e2) is Err {
            match head(orig[i]) {
                Head::Let(syms) => {
                    if d + 1 == syms.len() {
                        assert(e2 == Env { lets: e.lets + zip_binds(syms, views(fr.done@)), ..e });
                    } else {
                        assert(own_lets(orig, fr) =~= Seq::<(Sym, Cst)>::empty());
                        assert(e2 == e);
                        lemma_kids_err(c, e, d + 1, c.len() - 1);
                    }
                },
                _ => {
                    assert(own_lets(orig, fr) =~= Seq::<(Sym, Cst)>::empty());
                    assert(e2 == e);
                    lemma_kids_err(c, e, d + 1, c.len() as int);
                },
            }
            assert(eval_tree(tree_at(orig, i), e) == eval_tree(kt, e2));
        }
    } else {
        assert(csize(c, d + 1) == 0);
        match head(orig[i]) {
            Head::Let(syms) => {
                assert(ef == Env { lets: e.lets + zip_binds(syms, views(last.done@)), ..e });
                lemma_kids_ok(c, e, views(last.done@), d);
                assert(views(last.done@).take(d) =~= views(last.done@));
            },
            Head::Forall(b) => {
                assert(ef == Env { quants: e.quants + b, ..e });
            },
            Head::Exists(b) => {
                assert(ef == Env { quants: e.quants + b, ..e });
            },
            _ => {
                assert(own_lets(orig, last) =~= Seq::<(Sym, Cst)>::empty());
                assert(own_quants(orig, last) =~= Seq::<(Sym, Type)>::empty());
                assert(lets_of(orig, path) =~= lets_of(orig, rest));
                assert(quants_of(orig, path) =~= quants_of(orig, rest));
                assert(ef == e);
                assert(eval_tree(c[d], e) == Ok::<Cst, EvalError>(res));
                lemma_kids_ok(c, e, views(fr.done@), d + 1);
                assert(views(fr.done@).take(d + 1) =~= views(fr.done@));
            },
        }
    }
}

/// The environment of a whole evaluation: the valuation and the declarations, with
/// nothing bound.
pub open spec fn base_env(model: Seq<(Var, Cst)>, decls: Seq<(Sym, Type)>) -> Env {
    Env { model, decls, lets: Seq::empty(), quants: Seq::empty() }
}

/// Evaluates a term, bottom-up and left to right, without recursion. A variable takes
/// its value from `model` (the first entry for it), else from the innermost let-binding
/// of its symbol; a variable bound by a quantifier cannot be evaluated; a free variable
/// missing from `model` takes the default value of the sort `decls` declares for it.
/// Quantifiers and applications of function symbols cannot be evaluated.
pub fn eval(
    store: &TermStore,
    term: Term,
    model: &Vec<(Var, Value)>,
    decls: &Vec<(Sym, Type)>,
) -> (r: Result<Value, EvalError>)
    requires
        store.wf(),
        store.valid(term),
        model_wf(mview(model@)),
    ensures
        rview(r) == eval_tree(store.tree(term), base_env(mview(model@), decls@)),
        r matches Ok(c) ==> c@.wf(),
{
    let ghost orig = store.shapes();
    let mut path: Vec<EFrame> = Vec::new();
    let mut lets: Vec<(Sym, Value)> = Vec::new();
    let mut quants: Vec<(Sym, Type)> = Vec::new();
    let mut cur = term;
    let mut res = Value::Bool(false);
    let mut down = true;
    proof {
        assert(env_at(orig, mview(model@), decls@, Seq::empty()) == base_env(mview(model@), decls@));
        assert(lview(lets@) =~= lets_of(orig, path@));
        assert(quants@ =~= quants_of(orig, path@));
    }
    loop
        invariant
            orig == store.shapes(),
            store.wf(),
            model_wf(mview(model@)),
            env_at(orig, mview(model@), decls@, Seq::empty()) == base_env(mview(model@), decls@),
            ewalk_ok(orig, mview(model@), decls@, term, path@),
            lview(lets@) == lets_of(orig, path@),
            quants@ == quants_of(orig, path@),
            model_wf_lets(lview(lets@)),
            down ==> cur == efocus(orig, term, path@),
            !down ==> eval_tree(
                tree_at(orig, efocus(orig, term, path@).id as int),
                env_at(orig, mview(model@), decls@, path@),
            ) == Ok::<Cst, EvalError>(res@) && res@.wf(),
        decreases (if down {
            2 * tsize(tree_at(orig, cur.id as int))
        } else {
            1
        }) + eppot(orig, path@),
    {
        if down {
            let nk = store.num_kids(cur);
            if nk > 0 {
                let first = store.kid(cur, 0);
                let fr = EFrame { node: cur, done: Vec::new(), lets_len: lets.len() };
                proof {
                    lemma_edescend(orig, mview(model@), decls@, term, path@, fr);
                }
                let ghost q0 = quants@;
                match store.get(cur) {
                    RealTerm::Forall(b, _) | RealTerm::Exists(b, _) => {
                        let mut i: usize = 0;
                        while i < b.len()
                            invariant
                                i <= b@.len(),
                                quants@ == q0 + b@.take(i as int),
                            decreases b@.len() - i,
                        {
                            quants.push(b[i]);
                            assert(b@.take(i as int + 1) =~= b@.take(i as int).push(b@[i as int]));
                            i = i + 1;
                        }
                        assert(b@.take(b@.len() as int) =~= b@);
                    },
                    _ => {
                        assert(quants@ =~= q0 + Seq::<(Sym, Type)>::empty());
                    },
                }
                path.push(fr);
                cur = first;
            } else {
                proof {
                    lemma_tree_unfold(orig, cur.id as int);
                    assert(crate::term::shape_ok(orig[cur.id as int], cur.id as int));
                }
                match store.get(cur) {
                    RealTerm::V(v) => {
                        match lookup_exec(model, decls, &lets, &quants, *v) {
                            Ok(c) => {
                                res = c;
                            },
                            Err(e) => {
                                return Err(e);
                            },
                        }
                    },
                    RealTerm::C(c) => {
                        res = c.copy();
                    },
                    _ => {
                        // Nodes without sub-terms are variables and constants.
                        return Err(EvalError::Quantifier);
                    },
                }
                down = false;
            }
        } else {
            let ghost old_p = path@;
            match path.pop() {
                None => {
                    return Ok(res);
                },
                Some(fr) => {
                    proof {
                        assert(fr == old_p.last());
                        assert(path@ == old_p.drop_last());
                    }
                    let mut fr = fr;
                    fr.done.push(res.copy());
                    proof {
                        assert(views(fr.done@) =~= views(old_p.last().done@).push(res@));
                        lemma_epop(orig, mview(model@), decls@, term, old_p, res@, fr);
                        assert(crate::term::shape_ok(orig[fr.node.id as int], fr.node.id as int));
                    }
                    let nk = store.num_kids(fr.node);
                    if fr.done.len() < nk {
                        let ghost l0 = lview(lets@);
                        match store.get(fr.node) {
                            RealTerm::Let(b, _) => {
                                if fr.done.len() == b.len() {
                                    let mut i: usize = 0;
                                    while i < b.len()
                                        invariant
                                            i <= b@.len() == fr.done@.len(),
                                            all_wf(views(fr.done@)),
                                            model_wf_lets(l0),
                                            model_wf_lets(lview(lets@)),
                                            lview(lets@) == l0 + Seq::new(
                                                i as nat,
                                                |k: int| (b@[k].0, fr.done@[k]@),
                                            ),
                                        decreases b@.len() - i,
                                    {
                                        let ghost before = lets@;
                                        assert(views(fr.done@)[i as int] == fr.done@[i as int]@);
                                        lets.push((b[i].0, fr.done[i].copy()));
                                        assert(lview(lets@) =~= lview(before).push((b@[i as int].0, fr.done@[i as int]@)));
                                        assert(Seq::new(i as nat + 1, |k: int| (b@[k].0, fr.done@[k]@)) =~= Seq::new(
                                            i as nat,
                                            |k: int| (b@[k].0, fr.done@[k]@),
                                        ).push((b@[i as int].0, fr.done@[i as int]@)));
                                        i = i + 1;
                                    }
                                    proof {
                                        let syms = b@.map_values(|p: (Sym, Term)| p.0);
                                        assert(own_lets(orig, fr) == zip_binds(syms, views(fr.done@)));
                                        assert(zip_binds(syms, views(fr.done@)) =~= Seq::new(
                                            b@.len(),
                                            |k: int| (b@[k].0, fr.done@[k]@),
                                        ));
                                    }
                                } else {
                                    assert(own_lets(orig, fr) =~= Seq::<(Sym, Cst)>::empty());
                                    assert(lview(lets@) =~= l0 + Seq::<(Sym, Cst)>::empty());
                                }
                            },
                            _ => {
                                assert(own_lets(orig, fr) =~= Seq::<(Sym, Cst)>::empty());
                                assert(lview(lets@) =~= l0 + Seq::<(Sym, Cst)>::empty());
                            },
                        }
                        cur = store.kid(fr.node, fr.done.len());
                        path.push(fr);
                        down = true;
                    } else {
                        let ghost last = old_p.last();
                        match store.get(fr.node) {
                            RealTerm::Op(o, _) => {
                                match o.eval(&fr.done) {
                                    Ok(c) => {
                                        res = c;
                                    },
                                    Err(e) => {
                                        return Err(e);
                                    },
                                }
                                proof {
                                    assert(own_lets(orig, last) =~= Seq::<(Sym, Cst)>::empty());
                                    assert(own_quants(orig, last) =~= Seq::<(Sym, Type)>::empty());
                                    assert(lview(lets@) =~= lets_of(orig, path@));
                                    assert(quants@ =~= quants_of(orig, path@));
                                }
                            },
                            RealTerm::App(f, _) => {
                                return Err(EvalError::Application(*f));
                            },
                            RealTerm::Forall(_, _) | RealTerm::Exists(_, _) => {
                                return Err(EvalError::Quantifier);
                            },
                            RealTerm::Let(_, _) => {
                                let ghost before = lets@;
                                lets.truncate(fr.lets_len);
                                proof {
                                    assert(lview(lets@) =~= lview(before).subrange(0, fr.lets_len as int));
                                    assert(own_quants(orig, last) =~= Seq::<(Sym, Type)>::empty());
                                    assert(lview(lets@) =~= lets_of(orig, path@));
                                    assert(quants@ =~= quants_of(orig, path@));
                                }
                            },
                            _ => {
                                // Variables and constants have no sub-terms, so no frame.
                                return Err(EvalError::Quantifier);
                            },
                        }
                    }
                }
            }
        }
    }
}

/// The sort of a tree made of operator applications over constants, when it type checks;
/// `None` for an ill-typed tree or one with other nodes.
pub open spec fn const_sort(t: Tree) -> Option<Type>
    decreases t, 0int,
{
    let Tree::Node(h, c) = t;
    match h {
        Head::C(k) => Some(k.sort()),
        Head::Op(o) => match const_sorts(c, c.len() as int) {
            Some(ss) => match o.spec_type_check(ss) {
                Ok(ty) => Some(ty),
                Err(_) => None,
            },
            None => None,
        },
        _ => None,
    }
}

/// The sorts of the first `n` trees of `c`, when all of them have one.
pub open spec fn const_sorts(c: Seq<Tree>, n: int) -> Option<Seq<Type>>
    decreases c, n,
{
    if n <= 0 || n > c.len() {
        Some(Seq::empty())
    } else {
        match const_sorts(c, n - 1) {
            Some(ss) => match const_sort(c[n - 1]) {
                Some(t) => Some(ss.push(t)),
                None => None,
            },
            None => None,
        }
    }
}

/// Type checking and evaluation agree on terms: a tree of operator applications over
/// constants that type checks evaluates to a constant of its sort, unless it divides by
/// zero somewhere.
pub proof fn lemma_const_tree_eval(t: Tree, env: Env)
    requires
        const_sort(t) is Some,
        !(eval_tree(t, env) matches Err(e) && arith_failure(e)),
    ensures
        eval_tree(t, env) matches Ok(c) && Some(c.sort()) == const_sort(t),
    decreases t, 0int,
{
    let Tree::Node(h, c) = t;
    match h {
        Head::Op(o) => {
            lemma_const_kids_eval(c, env, c.len() as int);
            let vs = eval_kids(c, env, c.len() as int)->Ok_0;
            lemma_eval_typed_or_div(o, vs);
        },
        _ => {},
    }
}

/// The trees of a sequence with sorts evaluate to constants of those sorts, or to an
/// arithmetic failure.
pub proof fn lemma_const_kids_eval(c: Seq<Tree>, env: Env, n: int)
    requires
        0 <= n <= c.len(),
        const_sorts(c, n) is Some,
    ensures
        match eval_kids(c, env, n) {
            Ok(vs) => sorts(vs) == const_sorts(c, n)->Some_0,
            Err(e) => arith_failure(e),
        },
    decreases c, n,
{
    if n > 0 {
        lemma_const_kids_eval(c, env, n - 1);
        if eval_kids(c, env, n - 1) is Ok {
            let vs = eval_kids(c, env, n - 1)->Ok_0;
            if !(eval_tree(c[n - 1], env) matches Err(e) && arith_failure(e)) {
                lemma_const_tree_eval(c[n - 1], env);
                let x = eval_tree(c[n - 1], env)->Ok_0;
                assert(sorts(vs.push(x)) =~= sorts(vs).push(x.sort()));
            }
        }
    } else {
        assert(sorts(Seq::<Cst>::empty()) =~= Seq::<Type>::empty());
    }
}

/// The entry of a valuation given by a solver entry at offset `o` (or at no offset), for
/// evaluation at the offsets `(curr, next)`: entries at `curr` and at no offset keep their
/// variable, entries at `next` have it promoted to the next state, and others are dropped.
pub open spec fn entry_at(v: Var, o: Option<Offset>, c: Cst, curr: nat, next: nat) -> Option<(Var, Cst)> {
    match o {
        None => Some((v, c)),
        Some(off) => if off.value() == curr {
            Some((v, c))
        } else if off.value() == next {
            match shift_var(v, State::Curr, State::Next) {
                Some(w) => Some((w, c)),
                None => None,
            }
        } else {
            None
        },
    }
}

/// The valuation given by the first `n` solver entries, for evaluation at `(curr, next)`.
pub open spec fn model_at_spec(entries: Seq<(Var, Option<Offset>, Cst)>, curr: nat, next: nat, n: int) -> Seq<(Var, Cst)>
    decreases n,
{
    if n <= 0 {
        Seq::empty()
    } else {
        let prev = model_at_spec(entries, curr, next, n - 1);
        let e = entries[n - 1];
        match entry_at(e.0, e.1, e.2, curr, next) {
            Some(p) => prev.push(p),
            None => prev,
        }
    }
}

/// The contents of solver entries.
pub open spec fn eview(e: Seq<(Var, Option<Offset>, Value)>) -> Seq<(Var, Option<Offset>, Cst)> {
    e.map_values(|x: (Var, Option<Offset>, Value)| (x.0, x.1, x.2@))
}

/// The valuation for evaluating a term at the offsets `k` from solver entries tagged
/// with offsets.
pub fn model_at(entries: &Vec<(Var, Option<Offset>, Value)>, k: &Offset2) -> (r: Vec<(Var, Value)>)
    requires
        k.wf(),
    ensures
        mview(r@) == model_at_spec(eview(entries@), k.depth(), k.depth() + 1, entries@.len() as int),
{
    let curr = k.curr();
    let next = k.next();
    let mut r: Vec<(Var, Value)> = Vec::new();
    let mut i: usize = 0;
    while i < entries.len()
        invariant
            i <= entries@.len(),
            curr.value() == k.depth(),
            next.value() == k.depth() + 1,
            mview(r@) == model_at_spec(eview(entries@), k.depth(), k.depth() + 1, i as int),
        decreases entries@.len() - i,
    {
        let v = entries[i].0;
        let o = entries[i].1;
        let c = entries[i].2.copy();
        let ghost before = r@;
        match o {
            None => r.push((v, c)),
            Some(off) => {
                if off.to_int() == curr.to_int() {
                    r.push((v, c));
                } else if off.to_int() == next.to_int() {
                    match v {
                        Var::Var(_) => r.push((v, c)),
                        Var::SVar(s, State::Curr) => r.push((Var::SVar(s, State::Next), c)),
                        Var::SVar(_, State::Next) => {},
                    }
                }
            },
        }
        proof {
            assert(eview(entries@)[i as int] == (v, o, c@));
            if r@.len() > before.len() {
                assert(mview(r@) =~= mview(before).push((r@.last().0, r@.last().1@)));
            } else {
                assert(r@ == before);
            }
        }
        i = i + 1;
    }
    r
}

} // verus!
