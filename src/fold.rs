//! A generic bottom-up, left-to-right fold over terms, without recursion.

use vstd::prelude::*;
use crate::term::{
    children, head, kids, lemma_tree_unfold, shape_ok, shapes_wf, tree_at, Head, RealTerm, Shape,
    Term, TermStore, Tree,
};
use crate::var::{State, Var};
use crate::zip::{csize, tsize};

verus! {

/// A computation of one value per node from the values of its sub-terms.
pub trait Folder {
    /// The value computed for a node.
    type Out;

    /// The value of a node with head `h` whose sub-terms have the values `kids`.
    spec fn spec_step(&self, h: Head, kids: Seq<Self::Out>) -> Self::Out;

    /// The value of `node`, whose sub-terms have the values `kids`.
    fn step(&self, node: &RealTerm, kids: Vec<Self::Out>) -> (r: Self::Out)
        ensures
            r == self.spec_step(head(node@), kids@),
    ;
}

/// The value of a tree: the step of its root applied to the values of its sub-trees.
pub open spec fn fold_tree<F: Folder>(f: &F, t: Tree) -> F::Out
    decreases t, 0int,
{
    let Tree::Node(h, c) = t;
    f.spec_step(h, fold_kids(f, c, c.len() as int))
}

/// The values of the first `n` trees of `c`.
pub open spec fn fold_kids<F: Folder>(f: &F, c: Seq<Tree>, n: int) -> Seq<F::Out>
    decreases c, n,
{
    if n <= 0 || n > c.len() {
        Seq::empty()
    } else {
        fold_kids(f, c, n - 1).push(fold_tree(f, c[n - 1]))
    }
}

proof fn lemma_fold_kids<F: Folder>(f: &F, c: Seq<Tree>, done: Seq<F::Out>, n: int)
    requires
        0 <= n <= c.len(),
        n <= done.len(),
        forall|m: int| 0 <= m < done.len() && m < c.len() ==> #[trigger] done[m] == fold_tree(f, c[m]),
    ensures
        fold_kids(f, c, n) == done.take(n),
    decreases n,
{
    if n > 0 {
        lemma_fold_kids(f, c, done, n - 1);
        assert(done.take(n - 1).push(done[n - 1]) =~= done.take(n));
    } else {
        assert(done.take(0) =~= Seq::<F::Out>::empty());
    }
}

/// A step of the path from the root: a node and the values of its first sub-terms.
struct FFrame<O> {
    node: Term,
    done: Vec<O>,
}

spec fn ffocus<O>(orig: Seq<Shape>, root: Term, path: Seq<FFrame<O>>) -> Term {
    if path.len() == 0 {
        root
    } else {
        kids(orig[path.last().node.id as int])[path.last().done@.len() as int]
    }
}

spec fn fpot<O>(orig: Seq<Shape>, fr: FFrame<O>) -> nat {
    1 + 2 * csize(children(tree_at(orig, fr.node.id as int)), fr.done@.len() + 1 as int)
}

spec fn fppot<O>(orig: Seq<Shape>, path: Seq<FFrame<O>>) -> nat
    decreases path.len(),
{
    if path.len() == 0 {
        0
    } else {
        fppot(orig, path.drop_last()) + fpot(orig, path.last())
    }
}

spec fn fframe_ok<F: Folder>(f: &F, orig: Seq<Shape>, fr: FFrame<F::Out>) -> bool {
    let i = fr.node.id as int;
    &&& i < orig.len()
    &&& fr.done@.len() < kids(orig[i]).len()
    &&& forall|m: int|
        0 <= m < fr.done@.len() ==> #[trigger] fr.done@[m] == fold_tree(f, children(tree_at(orig, i))[m])
}

spec fn fwalk_ok<F: Folder>(f: &F, orig: Seq<Shape>, root: Term, path: Seq<FFrame<F::Out>>) -> bool {
    &&& shapes_wf(orig)
    &&& root.id < orig.len()
    &&& path.len() > 0 ==> path[0].node == root
    &&& forall|p: int| 0 <= p < path.len() ==> fframe_ok(f, orig, #[trigger] path[p])
    &&& forall|p: int|
        0 <= p < path.len() - 1 ==> (#[trigger] path[p + 1]).node == kids(orig[path[p].node.id as int])[path[p].done@.len() as int]
    &&& ffocus(orig, root, path).id < orig.len()
}

proof fn lemma_fdescend<F: Folder>(f: &F, orig: Seq<Shape>, root: Term, path: Seq<FFrame<F::Out>>, fr: FFrame<F::Out>)
    requires
        fwalk_ok(f, orig, root, path),
        fr.node == ffocus(orig, root, path),
        fr.done@.len() == 0,
        kids(orig[fr.node.id as int]).len() > 0,
    ensures
        fwalk_ok(f, orig, root, path.push(fr)),
        ffocus(orig, root, path.push(fr)) == kids(orig[fr.node.id as int])[0],
        2 * tsize(tree_at(orig, fr.node.id as int)) + fppot(orig, path) == 1 + 2 * tsize(
            tree_at(orig, kids(orig[fr.node.id as int])[0].id as int),
        ) + fppot(orig, path.push(fr)),
{
    let np = path.push(fr);
    let i = fr.node.id as int;
    assert(np.drop_last() =~= path);
    lemma_tree_unfold(orig, i);
    let c = children(tree_at(orig, i));
    assert(csize(c, 0) == tsize(c[0]) + csize(c, 1));
    assert(fframe_ok(f, orig, fr));
    assert forall|p: int| 0 <= p < np.len() implies fframe_ok(f, orig, #[trigger] np[p]) by {
        if p < path.len() {
            assert(np[p] == path[p]);
        }
    }
    assert forall|p: int| 0 <= p < np.len() - 1 implies (#[trigger] np[p + 1]).node == kids(
        orig[np[p].node.id as int],
    )[np[p].done@.len() as int] by {
        assert(np[p] == path[p]);
        if p + 1 < path.len() {
            assert(np[p + 1] == path[p + 1]);
        }
    }
    assert(path.len() > 0 ==> np[0] == path[0]);
}

proof fn lemma_frest<F: Folder>(f: &F, orig: Seq<Shape>, root: Term, path: Seq<FFrame<F::Out>>)
    requires
        fwalk_ok(f, orig, root, path),
        path.len() > 0,
    ensures
        ({
            let rest = path.drop_last();
            &&& rest.len() > 0 ==> rest[0] == path[0]
            &&& forall|p: int| 0 <= p < rest.len() ==> #[trigger] rest[p] == path[p]
            &&& forall|p: int| 0 <= p < rest.len() ==> fframe_ok(f, orig, #[trigger] rest[p])
            &&& forall|p: int|
                0 <= p < rest.len() - 1 ==> (#[trigger] rest[p + 1]).node == kids(orig[rest[p].node.id as int])[rest[p].done@.len() as int]
            &&& ffocus(orig, root, rest) == path.last().node
            &&& fframe_ok(f, orig, path.last())
            &&& fppot(orig, path) == fppot(orig, rest) + fpot(orig, path.last())
        }),
{
    let rest = path.drop_last();
    let n = rest.len() as int;
    assert(path[n] == path.last());
    assert forall|p: int| 0 <= p < rest.len() implies fframe_ok(f, orig, #[trigger] rest[p]) by {
        assert(rest[p] == path[p]);
    }
    assert forall|p: int| 0 <= p < rest.len() - 1 implies (#[trigger] rest[p + 1]).node == kids(
        orig[rest[p].node.id as int],
    )[rest[p].done@.len() as int] by {
        assert(rest[p] == path[p]);
        assert(rest[p + 1] == path[p + 1]);
    }
    if n > 0 {
        let q = n - 1;
        assert(path[q + 1].node == kids(orig[path[q].node.id as int])[path[q].done@.len() as int]);
        assert(rest[q] == path[q]);
    }
}

proof fn lemma_fnext<F: Folder>(
    f: &F,
    orig: Seq<Shape>,
    root: Term,
    path: Seq<FFrame<F::Out>>,
    res: F::Out,
    fr: FFrame<F::Out>,
)
    requires
        fwalk_ok(f, orig, root, path),
        path.len() > 0,
        res == fold_tree(f, tree_at(orig, ffocus(orig, root, path).id as int)),
        fr.node == path.last().node,
        fr.done@ == path.last().done@.push(res),
    ensures
        fr.done@.len() <= kids(orig[fr.node.id as int]).len(),
        forall|m: int|
            0 <= m < fr.done@.len() ==> #[trigger] fr.done@[m] == fold_tree(
                f,
                children(tree_at(orig, fr.node.id as int))[m],
            ),
        fr.done@.len() < kids(orig[fr.node.id as int]).len() ==> {
            &&& fwalk_ok(f, orig, root, path.drop_last().push(fr))
            &&& ffocus(orig, root, path.drop_last().push(fr)) == kids(orig[fr.node.id as int])[fr.done@.len() as int]
            &&& 1 + fppot(orig, path) == 1 + 2 * tsize(
                tree_at(orig, kids(orig[fr.node.id as int])[fr.done@.len() as int].id as int),
            ) + fppot(orig, path.drop_last().push(fr))
        },
        fr.done@.len() == kids(orig[fr.node.id as int]).len() ==> 1 + fppot(orig, path) == 2 + fppot(
            orig,
            path.drop_last(),
        ),
{
    lemma_frest(f, orig, root, path);
    let rest = path.drop_last();
    let last = path.last();
    let n = rest.len() as int;
    let i = fr.node.id as int;
    let ks = kids(orig[i]);
    let d = last.done@.len() as int;
    lemma_tree_unfold(orig, i);
    let c = children(tree_at(orig, i));
    assert forall|m: int| 0 <= m < fr.done@.len() implies #[trigger] fr.done@[m] == fold_tree(f, c[m]) by {
        if m < d {
            assert(fr.done@[m] == last.done@[m]);
        }
    }
    if fr.done@.len() < ks.len() {
        assert(csize(c, d + 1) == tsize(c[d + 1]) + csize(c, d + 2));
        let np = rest.push(fr);
        assert(np.drop_last() =~= rest);
        assert(fframe_ok(f, orig, fr));
        assert forall|p: int| 0 <= p < np.len() implies fframe_ok(f, orig, #[trigger] np[p]) by {
            if p < n {
                assert(np[p] == rest[p]);
            }
        }
        assert forall|p: int| 0 <= p < np.len() - 1 implies (#[trigger] np[p + 1]).node == kids(
            orig[np[p].node.id as int],
        )[np[p].done@.len() as int] by {
            assert(np[p] == path[p]);
            if p + 1 < n {
                assert(np[p + 1] == path[p + 1]);
            }
        }
        assert(n > 0 ==> np[0] == path[0]);
        assert(n == 0 ==> np[0].node == path[0].node);
        assert(c[d + 1] == tree_at(orig, ks[d + 1].id as int));
    } else {
        assert(csize(c, d + 1) == 0);
    }
}

proof fn lemma_fdone<F: Folder>(f: &F, orig: Seq<Shape>, i: int, done: Seq<F::Out>)
    requires
        shapes_wf(orig),
        0 <= i < orig.len(),
        done.len() == kids(orig[i]).len(),
        forall|m: int| 0 <= m < done.len() ==> #[trigger] done[m] == fold_tree(f, children(tree_at(orig, i))[m]),
    ensures
        f.spec_step(head(orig[i]), done) == fold_tree(f, tree_at(orig, i)),
{
    lemma_tree_unfold(orig, i);
    let t = tree_at(orig, i);
    let Tree::Node(h, c) = t;
    lemma_fold_kids(f, c, done, c.len() as int);
    assert(done.take(c.len() as int) =~= done);
}

/// Folds `f` over a term, bottom-up and left to right, without recursion. A sub-term is
/// folded once for each path that reaches it from the root.
pub fn fold<F: Folder>(store: &TermStore, term: Term, f: &F) -> (r: F::Out)
    requires
        store.wf(),
        store.valid(term),
    ensures
        r == fold_tree(f, store.tree(term)),
{
    let ghost orig = store.shapes();
    let mut path: Vec<FFrame<F::Out>> = Vec::new();
    let mut cur = term;
    let mut res: Option<F::Out> = None;
    loop
        invariant
            orig == store.shapes(),
            store.wf(),
            fwalk_ok(f, orig, term, path@),
            res is None ==> cur == ffocus(orig, term, path@),
            res matches Some(v) ==> v == fold_tree(f, tree_at(orig, ffocus(orig, term, path@).id as int)),
        decreases (if res is None {
            2 * tsize(tree_at(orig, cur.id as int))
        } else {
            1
        }) + fppot(orig, path@),
    {
        match res {
            None => {
                let nk = store.num_kids(cur);
                if nk > 0 {
                    let first = store.kid(cur, 0);
                    let fr = FFrame { node: cur, done: Vec::new() };
                    proof {
                        lemma_fdescend(f, orig, term, path@, fr);
                    }
                    path.push(fr);
                    cur = first;
                } else {
                    proof {
                        lemma_fdone(f, orig, cur.id as int, Seq::<F::Out>::empty());
                    }
                    let v = f.step(store.get(cur), Vec::new());
                    res = Some(v);
                }
            },
            Some(v) => {
                let ghost old_p = path@;
                match path.pop() {
                    None => {
                        return v;
                    },
                    Some(fr) => {
                        proof {
                            assert(fr == old_p.last());
                            assert(path@ == old_p.drop_last());
                        }
                        let mut fr = fr;
                        fr.done.push(v);
                        proof {
                            lemma_fnext(f, orig, term, old_p, v, fr);
                            lemma_frest(f, orig, term, old_p);
                        }
                        let nk = store.num_kids(fr.node);
                        if fr.done.len() < nk {
                            cur = store.kid(fr.node, fr.done.len());
                            path.push(fr);
                            res = None;
                        } else {
                            proof {
                                lemma_fdone(f, orig, fr.node.id as int, fr.done@);
                            }
                            let node = fr.node;
                            let w = f.step(store.get(node), fr.done);
                            res = Some(w);
                        }
                    },
                }
            },
        }
    }
}

/// Whether a state variable of state `st` occurs in a tree.
pub open spec fn mentions(t: Tree, st: State) -> bool
    decreases t, 0int,
{
    let Tree::Node(h, c) = t;
    (h matches Head::V(Var::SVar(_, s)) && s == st) || mentions_from(c, st, 0)
}

/// Whether a state variable of state `st` occurs in one of the trees of `c` from `i` on.
pub open spec fn mentions_from(c: Seq<Tree>, st: State, i: int) -> bool
    decreases c, c.len() - i,
{
    if 0 <= i < c.len() {
        mentions(c[i], st) || mentions_from(c, st, i + 1)
    } else {
        false
    }
}

/// Whether one of the first `n` values is true.
pub open spec fn any_upto(s: Seq<bool>, n: int) -> bool
    decreases n,
{
    if n <= 0 {
        false
    } else {
        any_upto(s, n - 1) || s[n - 1]
    }
}

/// The fold that tells whether a term mentions a state variable of state `st`.
pub struct Mentions {
    pub st: State,
}

impl Folder for Mentions {
    type Out = bool;

    open spec fn spec_step(&self, h: Head, kids: Seq<bool>) -> bool {
        (h matches Head::V(Var::SVar(_, s)) && s == self.st) || any_upto(kids, kids.len() as int)
    }

    fn step(&self, node: &RealTerm, kids: Vec<bool>) -> (r: bool) {
        let mut any = false;
        let mut i: usize = 0;
        while i < kids.len()
            invariant
                i <= kids@.len(),
                any == any_upto(kids@, i as int),
            decreases kids@.len() - i,
        {
            any = any || kids[i];
            i = i + 1;
        }
        match node {
            RealTerm::V(Var::SVar(_, s)) => any || *s == self.st,
            _ => any,
        }
    }
}

proof fn lemma_any_from(c: Seq<Tree>, st: State, vals: Seq<bool>, n: int)
    requires
        0 <= n <= c.len() == vals.len(),
        forall|k: int| 0 <= k < c.len() ==> #[trigger] vals[k] == mentions(c[k], st),
    ensures
        (any_upto(vals, n) || mentions_from(c, st, n)) == mentions_from(c, st, 0),
        any_upto(vals, n) ==> mentions_from(c, st, 0),
    decreases n,
{
    if n > 0 {
        lemma_any_from(c, st, vals, n - 1);
        lemma_from_suffix(c, st, n - 1);
    }
}

proof fn lemma_from_suffix(c: Seq<Tree>, st: State, i: int)
    requires
        0 <= i < c.len(),
    ensures
        mentions_from(c, st, i) == (mentions(c[i], st) || mentions_from(c, st, i + 1)),
{
}

/// The fold of `Mentions` is `mentions`.
pub proof fn lemma_mentions(t: Tree, st: State)
    ensures
        fold_tree(&Mentions { st }, t) == mentions(t, st),
    decreases t,
{
    let f = Mentions { st };
    let Tree::Node(h, c) = t;
    let vals = fold_kids(&f, c, c.len() as int);
    assert forall|k: int| 0 <= k < c.len() implies #[trigger] vals[k] == mentions(c[k], st) by {
        lemma_kids_at(&f, c, c.len() as int, k);
        lemma_mentions(c[k], st);
    }
    lemma_fold_kids_len(&f, c, c.len() as int);
    lemma_any_from(c, st, vals, c.len() as int);
    assert(!mentions_from(c, st, c.len() as int));
}

proof fn lemma_fold_kids_len<F: Folder>(f: &F, c: Seq<Tree>, n: int)
    requires
        0 <= n <= c.len(),
    ensures
        fold_kids(f, c, n).len() == n,
    decreases n,
{
    if n > 0 {
        lemma_fold_kids_len(f, c, n - 1);
    }
}

proof fn lemma_kids_at<F: Folder>(f: &F, c: Seq<Tree>, n: int, k: int)
    requires
        0 <= k < n <= c.len(),
    ensures
        fold_kids(f, c, n)[k] == fold_tree(f, c[k]),
    decreases n,
{
    lemma_fold_kids_len(f, c, n - 1);
    if k < n - 1 {
        lemma_kids_at(f, c, n - 1, k);
    }
}

/// Whether a term mentions a state variable of state `st`.
pub fn mentions_state(store: &TermStore, term: Term, st: State) -> (r: bool)
    requires
        store.wf(),
        store.valid(term),
    ensures
        r == mentions(store.tree(term), st),
{
    let f = Mentions { st };
    let r = fold(store, term, &f);
    proof {
        lemma_mentions(store.tree(term), st);
    }
    r
}

} // verus!
