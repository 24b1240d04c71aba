//! Iterative traversals of terms: rewriting the variables of a term, bottom-up,
//! with an explicit path instead of native recursion.

use vstd::prelude::*;
use crate::term::{
    children, extends, kids, lemma_canonical, lemma_extends_tree, lemma_tree_unfold,
    lemma_with_kids, shapes_wf, thead, tree_at, with_kids, Head, RealTerm, Shape, Term, TermStore,
    Tree,
};
use crate::var::{State, Var};

verus! {

/// Size of a tree: its number of nodes.
pub open spec fn tsize(t: Tree) -> nat
    decreases t, 0int,
{
    let Tree::Node(_, c) = t;
    1 + csize(c, 0)
}

/// Total size of the trees of `c` from index `i` on.
pub open spec fn csize(c: Seq<Tree>, i: int) -> nat
    decreases c, c.len() - i,
{
    if 0 <= i < c.len() {
        tsize(c[i]) + csize(c, i + 1)
    } else {
        0
    }
}

/// The variable a variable of state `from` becomes in state `to`; plain variables stay,
/// and a state variable of the other state has no image.
pub open spec fn shift_var(v: Var, from: State, to: State) -> Option<Var> {
    match v {
        Var::Var(_) => Some(v),
        Var::SVar(s, st) => if st == from {
            Some(Var::SVar(s, to))
        } else {
            None
        },
    }
}

/// Every variable of the tree can be shifted out of state `from`.
pub open spec fn shift_ok(t: Tree, from: State) -> bool
    decreases t,
{
    let Tree::Node(h, c) = t;
    &&& (h matches Head::V(v) ==> shift_var(v, from, from) is Some)
    &&& forall|k: int| 0 <= k < c.len() ==> shift_ok(#[trigger] c[k], from)
}

/// Whether the variable `v` occurs in the tree.
pub open spec fn occurs(t: Tree, v: Var) -> bool
    decreases t, 0int,
{
    let Tree::Node(h, c) = t;
    h == Head::V(v) || occurs_from(c, v, 0)
}

/// Whether the variable `v` occurs in one of the trees of `c` from index `i` on.
pub open spec fn occurs_from(c: Seq<Tree>, v: Var, i: int) -> bool
    decreases c, c.len() - i,
{
    if 0 <= i < c.len() {
        occurs(c[i], v) || occurs_from(c, v, i + 1)
    } else {
        false
    }
}

proof fn lemma_occurs_from(c: Seq<Tree>, v: Var, i: int, k: int)
    requires
        0 <= i <= k < c.len(),
        occurs(c[k], v),
    ensures
        occurs_from(c, v, i),
    decreases k - i,
{
    if i < k {
        lemma_occurs_from(c, v, i + 1, k);
    }
}

/// The tree with every variable shifted from state `from` to state `to`.
pub open spec fn shift_tree(t: Tree, from: State, to: State) -> Tree
    decreases t,
{
    let Tree::Node(h, c) = t;
    let h2 = match h {
        Head::V(v) => match shift_var(v, from, to) {
            Some(w) => Head::V(w),
            None => h,
        },
        _ => h,
    };
    Tree::Node(
        h2,
        Seq::new(
            c.len(),
            |k: int|
                if 0 <= k < c.len() {
                    shift_tree(c[k], from, to)
                } else {
                    t
                },
        ),
    )
}

/// A step of the path from the root to the current position: a node, and the results
/// for its first sub-terms.
struct Frame {
    node: Term,
    done: Vec<Term>,
}

/// Remaining work of a frame, counted in nodes (twice) of its sub-terms not yet entered.
spec fn fpot(orig: Seq<Shape>, fr: Frame) -> nat {
    1 + 2 * csize(children(tree_at(orig, fr.node.id as int)), fr.done@.len() + 1 as int)
}

/// Remaining work of a path.
spec fn ppot(orig: Seq<Shape>, path: Seq<Frame>) -> nat
    decreases path.len(),
{
    if path.len() == 0 {
        0
    } else {
        ppot(orig, path.drop_last()) + fpot(orig, path.last())
    }
}

/// The sub-term the path leads to.
spec fn focus(orig: Seq<Shape>, root: Term, path: Seq<Frame>) -> Term {
    if path.len() == 0 {
        root
    } else {
        kids(orig[path.last().node.id as int])[path.last().done@.len() as int]
    }
}

/// A frame is a node of `orig` whose first sub-terms have been rewritten into `cur`.
spec fn frame_ok(orig: Seq<Shape>, cur: Seq<Shape>, fr: Frame, from: State, to: State) -> bool {
    let ks = kids(orig[fr.node.id as int]);
    &&& fr.node.id < orig.len()
    &&& fr.done@.len() < ks.len()
    &&& forall|m: int|
        0 <= m < fr.done@.len() ==> {
            &&& (#[trigger] fr.done@[m]).id < cur.len()
            &&& tree_at(cur, fr.done@[m].id as int) == shift_tree(tree_at(orig, ks[m].id as int), from, to)
            &&& shift_ok(tree_at(orig, ks[m].id as int), from)
        }
}

/// The path is a chain of frames from the root, each one's current sub-term being the next one's node.
spec fn path_ok(orig: Seq<Shape>, cur: Seq<Shape>, root: Term, path: Seq<Frame>, from: State, to: State) -> bool {
    &&& path.len() > 0 ==> path[0].node == root
    &&& forall|p: int| 0 <= p < path.len() ==> frame_ok(orig, cur, #[trigger] path[p], from, to)
    &&& forall|p: int|
        0 <= p < path.len() - 1 ==> (#[trigger] path[p + 1]).node == kids(orig[path[p].node.id as int])[path[p].done@.len() as int]
    &&& shift_ok(tree_at(orig, root.id as int), from) ==> forall|p: int|
        0 <= p < path.len() ==> shift_ok(tree_at(orig, (#[trigger] path[p]).node.id as int), from)
}

proof fn lemma_ppot_push(orig: Seq<Shape>, path: Seq<Frame>, fr: Frame)
    ensures
        ppot(orig, path.push(fr)) == ppot(orig, path) + fpot(orig, fr),
{
    assert(path.push(fr).drop_last() =~= path);
}

/// The loop state of a traversal is consistent.
spec fn walk_ok(
    orig: Seq<Shape>,
    cur: Seq<Shape>,
    root: Term,
    path: Seq<Frame>,
    from: State,
    to: State,
) -> bool {
    &&& shapes_wf(orig)
    &&& shapes_wf(cur)
    &&& extends(cur, orig)
    &&& root.id < orig.len()
    &&& path_ok(orig, cur, root, path, from, to)
    &&& focus(orig, root, path).id < orig.len()
    &&& shift_ok(tree_at(orig, root.id as int), from) ==> shift_ok(
        tree_at(orig, focus(orig, root, path).id as int),
        from,
    )
}

/// Entering a node with sub-terms pushes a frame for it and goes on with its first sub-term.
proof fn lemma_descend(
    orig: Seq<Shape>,
    cur: Seq<Shape>,
    root: Term,
    path: Seq<Frame>,
    fr: Frame,
    from: State,
    to: State,
)
    requires
        walk_ok(orig, cur, root, path, from, to),
        fr.node == focus(orig, root, path),
        fr.done@.len() == 0,
        kids(orig[fr.node.id as int]).len() > 0,
    ensures
        walk_ok(orig, cur, root, path.push(fr), from, to),
        focus(orig, root, path.push(fr)) == kids(orig[fr.node.id as int])[0],
        2 * tsize(tree_at(orig, fr.node.id as int)) + ppot(orig, path) == 1 + 2 * tsize(
            tree_at(orig, kids(orig[fr.node.id as int])[0].id as int),
        ) + ppot(orig, path.push(fr)),
{
    let np = path.push(fr);
    let i = fr.node.id as int;
    lemma_tree_unfold(orig, i);
    let c = children(tree_at(orig, i));
    assert(csize(c, 0) == tsize(c[0]) + csize(c, 1));
    lemma_ppot_push(orig, path, fr);
    assert(forall|p: int| 0 <= p < path.len() ==> #[trigger] np[p] == path[p]);
    assert(frame_ok(orig, cur, fr, from, to));
    assert forall|p: int| 0 <= p < np.len() implies frame_ok(orig, cur, #[trigger] np[p], from, to) by {
        if p < path.len() {
            assert(np[p] == path[p]);
        }
    }
    assert forall|p: int| 0 <= p < np.len() - 1 implies (#[trigger] np[p + 1]).node == kids(
        orig[np[p].node.id as int],
    )[np[p].done@.len() as int] by {
        if p + 1 < path.len() {
            assert(np[p + 1] == path[p + 1]);
        }
    }
    if shift_ok(tree_at(orig, root.id as int), from) {
        assert forall|p: int| 0 <= p < np.len() implies shift_ok(
            tree_at(orig, (#[trigger] np[p]).node.id as int),
            from,
        ) by {
            if p < path.len() {
                assert(np[p] == path[p]);
            }
        }
        assert(shift_ok(c[0], from));
    }
    assert(path.len() > 0 ==> np[0] == path[0]);
}

/// Adding nodes to the store keeps the loop state consistent.
proof fn lemma_keep_path(
    orig: Seq<Shape>,
    before: Seq<Shape>,
    after: Seq<Shape>,
    root: Term,
    path: Seq<Frame>,
    from: State,
    to: State,
)
    requires
        walk_ok(orig, before, root, path, from, to),
        shapes_wf(after),
        extends(after, before),
    ensures
        walk_ok(orig, after, root, path, from, to),
{
    assert forall|p: int| 0 <= p < path.len() implies frame_ok(orig, after, #[trigger] path[p], from, to) by {
        let fr = path[p];
        let ks = kids(orig[fr.node.id as int]);
        assert(frame_ok(orig, before, fr, from, to));
        assert forall|m: int| 0 <= m < fr.done@.len() implies {
            &&& (#[trigger] fr.done@[m]).id < after.len()
            &&& tree_at(after, fr.done@[m].id as int) == shift_tree(tree_at(orig, ks[m].id as int), from, to)
            &&& shift_ok(tree_at(orig, ks[m].id as int), from)
        } by {
            lemma_extends_tree(after, before, fr.done@[m].id as int);
        }
    }
}

/// Leaving the sub-term of the last frame with result `res`: the frame gets `res`, and
/// the path goes on with its next sub-term, or the frame is complete.
proof fn lemma_pop(
    orig: Seq<Shape>,
    cur: Seq<Shape>,
    root: Term,
    path: Seq<Frame>,
    res: Term,
    fr: Frame,
    from: State,
    to: State,
)
    requires
        walk_ok(orig, cur, root, path, from, to),
        path.len() > 0,
        res.id < cur.len(),
        tree_at(cur, res.id as int) == shift_tree(
            tree_at(orig, focus(orig, root, path).id as int),
            from,
            to,
        ),
        shift_ok(tree_at(orig, focus(orig, root, path).id as int), from),
        fr.node == path.last().node,
        fr.done@ == path.last().done@.push(res),
    ensures
        ({
            let rest = path.drop_last();
            let ks = kids(orig[fr.node.id as int]);
            let c = children(tree_at(orig, fr.node.id as int));
            &&& fr.node.id < orig.len()
            &&& fr.done@.len() <= ks.len()
            &&& c.len() == ks.len()
            &&& focus(orig, root, rest) == fr.node
            &&& shift_ok(tree_at(orig, root.id as int), from) ==> shift_ok(tree_at(orig, fr.node.id as int), from)
            &&& forall|m: int| 0 <= m < fr.done@.len() ==> {
                &&& (#[trigger] fr.done@[m]).id < cur.len()
                &&& tree_at(cur, fr.done@[m].id as int) == shift_tree(c[m], from, to)
                &&& shift_ok(c[m], from)
            }
            &&& walk_ok(orig, cur, root, rest, from, to)
            &&& fr.done@.len() < ks.len() ==> {
                &&& walk_ok(orig, cur, root, rest.push(fr), from, to)
                &&& focus(orig, root, rest.push(fr)) == ks[fr.done@.len() as int]
                &&& 1 + ppot(orig, path) == 1 + 2 * tsize(tree_at(orig, ks[fr.done@.len() as int].id as int))
                    + ppot(orig, rest.push(fr))
            }
            &&& fr.done@.len() == ks.len() ==> 1 + ppot(orig, path) == 2 + ppot(orig, rest)
        }),
{
    let rest = path.drop_last();
    let last = path.last();
    let n = path.len() - 1;
    let ks = kids(orig[fr.node.id as int]);
    let i = fr.node.id as int;
    let d = last.done@.len() as int;
    assert(path[n] == last);
    assert(frame_ok(orig, cur, last, from, to));
    lemma_tree_unfold(orig, i);
    let c = children(tree_at(orig, i));
    assert(forall|p: int| 0 <= p < rest.len() ==> #[trigger] rest[p] == path[p]);
    assert(path == rest.push(last));
    lemma_ppot_push(orig, rest, last);
    if shift_ok(tree_at(orig, root.id as int), from) {
        assert(shift_ok(tree_at(orig, path[n].node.id as int), from));
    }
    assert forall|m: int| 0 <= m < fr.done@.len() implies {
        &&& (#[trigger] fr.done@[m]).id < cur.len()
        &&& tree_at(cur, fr.done@[m].id as int) == shift_tree(c[m], from, to)
        &&& shift_ok(c[m], from)
    } by {
        if m < d {
            assert(fr.done@[m] == last.done@[m]);
        }
    }
    if n > 0 {
        let q = n - 1;
        assert(path[q + 1].node == kids(orig[path[q].node.id as int])[path[q].done@.len() as int]);
    }
    assert forall|p: int| 0 <= p < rest.len() implies frame_ok(orig, cur, #[trigger] rest[p], from, to) by {
        assert(rest[p] == path[p]);
    }
    assert forall|p: int| 0 <= p < rest.len() - 1 implies (#[trigger] rest[p + 1]).node == kids(
        orig[rest[p].node.id as int],
    )[rest[p].done@.len() as int] by {
        assert(rest[p + 1] == path[p + 1]);
        assert(rest[p] == path[p]);
    }
    if shift_ok(tree_at(orig, root.id as int), from) {
        assert forall|p: int| 0 <= p < rest.len() implies shift_ok(
            tree_at(orig, (#[trigger] rest[p]).node.id as int),
            from,
        ) by {
            assert(rest[p] == path[p]);
        }
    }
    assert(rest.len() > 0 ==> rest[0] == path[0]);
    if fr.done@.len() < ks.len() {
        let np = rest.push(fr);
        lemma_ppot_push(orig, rest, fr);
        assert(csize(c, d + 1) == tsize(c[d + 1]) + csize(c, d + 2));
        assert(forall|p: int| 0 <= p < rest.len() ==> #[trigger] np[p] == rest[p]);
        assert(frame_ok(orig, cur, fr, from, to));
        assert forall|p: int| 0 <= p < np.len() implies frame_ok(orig, cur, #[trigger] np[p], from, to) by {
            if p < rest.len() {
                assert(np[p] == rest[p]);
            }
        }
        assert forall|p: int| 0 <= p < np.len() - 1 implies (#[trigger] np[p + 1]).node == kids(
            orig[np[p].node.id as int],
        )[np[p].done@.len() as int] by {
            assert(np[p] == path[p]);
            if p + 1 < rest.len() {
                assert(np[p + 1] == path[p + 1]);
            }
        }
        if shift_ok(tree_at(orig, root.id as int), from) {
            assert forall|p: int| 0 <= p < np.len() implies shift_ok(
                tree_at(orig, (#[trigger] np[p]).node.id as int),
                from,
            ) by {
                assert(np[p].node == path[p].node);
            }
            assert(shift_ok(c[d + 1], from));
        }
        assert(rest.len() > 0 ==> np[0] == path[0]);
        assert(rest.len() == 0 ==> np[0].node == path[0].node);
    } else {
        assert(csize(c, d + 1) == 0);
    }
}

/// Rebuilding a complete frame's node from its results gives the rewritten tree of the node.
proof fn lemma_rebuilt(
    orig: Seq<Shape>,
    before: Seq<Shape>,
    after: Seq<Shape>,
    node: Term,
    done: Seq<Term>,
    res: Term,
    from: State,
    to: State,
)
    requires
        shapes_wf(orig),
        shapes_wf(before),
        shapes_wf(after),
        extends(before, orig),
        extends(after, before),
        node.id < orig.len(),
        done.len() == kids(orig[node.id as int]).len() > 0,
        forall|m: int| 0 <= m < done.len() ==> {
            &&& (#[trigger] done[m]).id < before.len()
            &&& tree_at(before, done[m].id as int) == shift_tree(
                children(tree_at(orig, node.id as int))[m],
                from,
                to,
            )
            &&& shift_ok(children(tree_at(orig, node.id as int))[m], from)
        },
        res.id < after.len(),
        after[res.id as int] == with_kids(orig[node.id as int], done),
    ensures
        tree_at(after, res.id as int) == shift_tree(tree_at(orig, node.id as int), from, to),
        shift_ok(tree_at(orig, node.id as int), from),
{
    let i = node.id as int;
    lemma_tree_unfold(orig, i);
    lemma_with_kids(orig[i], done);
    lemma_tree_unfold(after, res.id as int);
    let t = tree_at(orig, i);
    let c = children(t);
    let st = shift_tree(t, from, to);
    let rt = tree_at(after, res.id as int);
    assert forall|k: int| 0 <= k < c.len() implies #[trigger] children(rt)[k] == children(st)[k] by {
        lemma_extends_tree(after, before, done[k].id as int);
    }
    assert(children(rt) =~= children(st));
    assert(thead(rt) == thead(st));
    assert(!(orig[i] is V));
    assert forall|k: int| 0 <= k < c.len() implies shift_ok(#[trigger] c[k], from) by {
        assert(done[k].id < before.len());
    }
    assert(shift_ok(t, from));
}

/// Every variable of the frames' nodes and of the focus occurs in the root.
spec fn occ_ok(orig: Seq<Shape>, root: Term, path: Seq<Frame>) -> bool {
    &&& forall|p: int, v: Var|
        0 <= p < path.len() && #[trigger] occurs(tree_at(orig, path[p].node.id as int), v) ==> occurs(
            tree_at(orig, root.id as int),
            v,
        )
    &&& forall|v: Var|
        #[trigger] occurs(tree_at(orig, focus(orig, root, path).id as int), v) ==> occurs(
            tree_at(orig, root.id as int),
            v,
        )
}

proof fn lemma_occ_kid(orig: Seq<Shape>, i: int, k: int, v: Var)
    requires
        shapes_wf(orig),
        0 <= i < orig.len(),
        0 <= k < kids(orig[i]).len(),
        occurs(tree_at(orig, kids(orig[i])[k].id as int), v),
    ensures
        occurs(tree_at(orig, i), v),
{
    lemma_tree_unfold(orig, i);
    let t = tree_at(orig, i);
    let Tree::Node(h, c) = t;
    assert(occurs(c[k], v));
    lemma_occurs_from(c, v, 0, k);
}

proof fn lemma_occ_descend(orig: Seq<Shape>, root: Term, path: Seq<Frame>, fr: Frame)
    requires
        shapes_wf(orig),
        occ_ok(orig, root, path),
        fr.node == focus(orig, root, path),
        fr.node.id < orig.len(),
        fr.done@.len() == 0,
        kids(orig[fr.node.id as int]).len() > 0,
    ensures
        occ_ok(orig, root, path.push(fr)),
{
    let np = path.push(fr);
    let i = fr.node.id as int;
    assert forall|p: int, v: Var|
        0 <= p < np.len() && #[trigger] occurs(tree_at(orig, np[p].node.id as int), v) implies occurs(
        tree_at(orig, root.id as int),
        v,
    ) by {
        if p < path.len() {
            assert(np[p] == path[p]);
        }
    }
    assert forall|v: Var| #[trigger] occurs(tree_at(orig, focus(orig, root, np).id as int), v) implies occurs(
        tree_at(orig, root.id as int),
        v,
    ) by {
        lemma_occ_kid(orig, i, 0, v);
    }
}

proof fn lemma_occ_pop(
    orig: Seq<Shape>,
    cur: Seq<Shape>,
    root: Term,
    path: Seq<Frame>,
    fr: Frame,
    from: State,
    to: State,
)
    requires
        walk_ok(orig, cur, root, path, from, to),
        occ_ok(orig, root, path),
        path.len() > 0,
        fr.node == path.last().node,
        fr.done@.len() == path.last().done@.len() + 1,
    ensures
        fr.done@.len() < kids(orig[fr.node.id as int]).len() ==> occ_ok(orig, root, path.drop_last().push(fr)),
        occ_ok(orig, root, path.drop_last()),
{
    let rest = path.drop_last();
    let n = rest.len() as int;
    let i = fr.node.id as int;
    assert(path[n] == path.last());
    assert(frame_ok(orig, cur, path[n], from, to));
    if n > 0 {
        let q = n - 1;
        assert(path[q + 1].node == kids(orig[path[q].node.id as int])[path[q].done@.len() as int]);
    }
    assert forall|p: int, v: Var|
        0 <= p < rest.len() && #[trigger] occurs(tree_at(orig, rest[p].node.id as int), v) implies occurs(
        tree_at(orig, root.id as int),
        v,
    ) by {
        assert(rest[p] == path[p]);
    }
    assert forall|v: Var| #[trigger] occurs(tree_at(orig, focus(orig, root, rest).id as int), v) implies occurs(
        tree_at(orig, root.id as int),
        v,
    ) by {
        if n > 0 {
            assert(rest[n - 1] == path[n - 1]);
        }
        assert(occurs(tree_at(orig, path[n].node.id as int), v));
    }
    if fr.done@.len() < kids(orig[i]).len() {
        let np = rest.push(fr);
        assert forall|p: int, v: Var|
            0 <= p < np.len() && #[trigger] occurs(tree_at(orig, np[p].node.id as int), v) implies occurs(
            tree_at(orig, root.id as int),
            v,
        ) by {
            if p < n {
                assert(np[p] == path[p]);
            } else {
                assert(occurs(tree_at(orig, path[n].node.id as int), v));
            }
        }
        assert forall|v: Var| #[trigger] occurs(tree_at(orig, focus(orig, root, np).id as int), v) implies occurs(
            tree_at(orig, root.id as int),
            v,
        ) by {
            lemma_occ_kid(orig, i, fr.done@.len() as int, v);
            assert(occurs(tree_at(orig, path[n].node.id as int), v));
        }
    }
}

/// Rewrites every variable of `term` from state `from` to state `to`, bottom-up and without
/// recursion. Fails with a variable of the other state, when the term has one.
pub fn var_map(store: &mut TermStore, term: Term, from: State, to: State) -> (r: Result<Term, Var>)
    requires
        old(store).wf(),
        old(store).valid(term),
    ensures
        final(store).wf(),
        extends(final(store).shapes(), old(store).shapes()),
        match r {
            Ok(t) => {
                &&& shift_ok(old(store).tree(term), from)
                &&& final(store).valid(t)
                &&& final(store).tree(t) == shift_tree(old(store).tree(term), from, to)
            },
            Err(v) => {
                &&& !shift_ok(old(store).tree(term), from)
                &&& shift_var(v, from, to) is None
                &&& occurs(old(store).tree(term), v)
            },
        },
{
    let ghost orig = store.shapes();
    let mut path: Vec<Frame> = Vec::new();
    let mut cur = term;
    let mut res = term;
    let mut down = true;
    loop
        invariant
            store.wf(),
            orig == old(store).shapes(),
            walk_ok(orig, store.shapes(), term, path@, from, to),
            occ_ok(orig, term, path@),
            down ==> cur == focus(orig, term, path@),
            !down ==> {
                let f = focus(orig, term, path@);
                &&& res.id < store.shapes().len()
                &&& tree_at(store.shapes(), res.id as int) == shift_tree(tree_at(orig, f.id as int), from, to)
                &&& shift_ok(tree_at(orig, f.id as int), from)
            },
        decreases (if down {
            2 * tsize(tree_at(orig, cur.id as int))
        } else {
            1
        }) + ppot(orig, path@),
    {
        if down {
            let nk = store.num_kids(cur);
            proof {
                assert(store.shapes()[cur.id as int] == orig[cur.id as int]);
            }
            if nk > 0 {
                let first = store.kid(cur, 0);
                let fr = Frame { node: cur, done: Vec::new() };
                proof {
                    lemma_descend(orig, store.shapes(), term, path@, fr, from, to);
                    lemma_occ_descend(orig, term, path@, fr);
                }
                path.push(fr);
                cur = first;
            } else {
                let leaf: Option<Var> = match store.get(cur) {
                    RealTerm::V(v) => Some(*v),
                    _ => None,
                };
                proof {
                    lemma_tree_unfold(orig, cur.id as int);
                    lemma_extends_tree(store.shapes(), orig, cur.id as int);
                    let t = tree_at(orig, cur.id as int);
                    assert(children(t) =~= Seq::<Tree>::empty());
                    assert(children(shift_tree(t, from, to)) =~= Seq::<Tree>::empty());
                }
                match leaf {
                    Some(v) => {
                        let w = match v {
                            Var::Var(_) => v,
                            Var::SVar(x, st) => {
                                if st != from {
                                    proof {
                                        assert(occurs(tree_at(orig, cur.id as int), v));
                                    }
                                    return Err(v);
                                }
                                Var::SVar(x, to)
                            },
                        };
                        let ghost before = store.shapes();
                        res = store.var(w);
                        proof {
                            lemma_keep_path(orig, before, store.shapes(), term, path@, from, to);
                            lemma_tree_unfold(store.shapes(), res.id as int);
                            assert(children(tree_at(store.shapes(), res.id as int)) =~= Seq::<Tree>::empty());
                        }
                    },
                    None => {
                        res = cur;
                    },
                }
                down = false;
            }
        } else {
            let ghost old_p = path@;
            match path.pop() {
                None => {
                    return Ok(res);
                },
                Some(fr) => {
                    proof {
                        assert(fr == old_p.last());
                        assert(path@ == old_p.drop_last());
                    }
                    let mut fr = fr;
                    fr.done.push(res);
                    proof {
                        lemma_pop(orig, store.shapes(), term, old_p, res, fr, from, to);
                        lemma_occ_pop(orig, store.shapes(), term, old_p, fr, from, to);
                    }
                    let nk = store.num_kids(fr.node);
                    proof {
                        assert(store.shapes()[fr.node.id as int] == orig[fr.node.id as int]);
                    }
                    if fr.done.len() < nk {
                        cur = store.kid(fr.node, fr.done.len());
                        path.push(fr);
                        down = true;
                    } else {
                        let ghost before = store.shapes();
                        let ghost done = fr.done@;
                        let ghost node = fr.node;
                        res = store.rebuild(fr.node, fr.done);
                        proof {
                            lemma_keep_path(orig, before, store.shapes(), term, path@, from, to);
                            lemma_rebuilt(orig, before, store.shapes(), node, done, res, from, to);
                        }
                    }
                }
            }
        }
    }
}

/// Promotes every current-state variable of a term to the next state. Fails with a
/// next-state variable, when the term has one.
pub fn bump(store: &mut TermStore, term: Term) -> (r: Result<Term, Var>)
    requires
        old(store).wf(),
        old(store).valid(term),
    ensures
        final(store).wf(),
        extends(final(store).shapes(), old(store).shapes()),
        match r {
            Ok(t) => {
                &&& shift_ok(old(store).tree(term), State::Curr)
                &&& final(store).valid(t)
                &&& final(store).tree(t) == shift_tree(old(store).tree(term), State::Curr, State::Next)
            },
            Err(v) => {
                &&& !shift_ok(old(store).tree(term), State::Curr)
                &&& v matches Var::SVar(_, State::Next)
                &&& occurs(old(store).tree(term), v)
            },
        },
{
    var_map(store, term, State::Curr, State::Next)
}

/// Demotes every next-state variable of a term to the current state. Fails with a
/// current-state variable, when the term has one.
pub fn debump(store: &mut TermStore, term: Term) -> (r: Result<Term, Var>)
    requires
        old(store).wf(),
        old(store).valid(term),
    ensures
        final(store).wf(),
        extends(final(store).shapes(), old(store).shapes()),
        match r {
            Ok(t) => {
                &&& shift_ok(old(store).tree(term), State::Next)
                &&& final(store).valid(t)
                &&& final(store).tree(t) == shift_tree(old(store).tree(term), State::Next, State::Curr)
            },
            Err(v) => {
                &&& !shift_ok(old(store).tree(term), State::Next)
                &&& v matches Var::SVar(_, State::Curr)
                &&& occurs(old(store).tree(term), v)
            },
        },
{
    var_map(store, term, State::Next, State::Curr)
}

/// Shifting a tree to the other state and back gives the tree back, when it only has
/// variables of the first state (or plain ones).
pub proof fn lemma_shift_round_trip(t: Tree, from: State, to: State)
    requires
        shift_ok(t, from),
        from != to,
    ensures
        shift_ok(shift_tree(t, from, to), to),
        shift_tree(shift_tree(t, from, to), to, from) == t,
    decreases t,
{
    let Tree::Node(h, c) = t;
    let u = shift_tree(t, from, to);
    let back = shift_tree(u, to, from);
    assert forall|k: int| 0 <= k < c.len() implies shift_ok(#[trigger] children(u)[k], to) && shift_tree(
        children(u)[k],
        to,
        from,
    ) == c[k] by {
        assert(shift_ok(c[k], from));
        lemma_shift_round_trip(c[k], from, to);
    }
    assert(children(back) =~= c);
}

/// Debumping a bumped term gives the term back: for a term with no next-state variable,
/// `bump` succeeds and `debump` of its result succeeds and returns the very same handle.
pub proof fn lemma_debump_bump(
    s0: &TermStore,
    t: Term,
    s1: &TermStore,
    b: Term,
    s2: &TermStore,
    r: Term,
)
    requires
        s0.wf(),
        s0.valid(t),
        shift_ok(s0.tree(t), State::Curr),
        s1.wf(),
        extends(s1.shapes(), s0.shapes()),
        s1.valid(b),
        s1.tree(b) == shift_tree(s0.tree(t), State::Curr, State::Next),
        s2.wf(),
        extends(s2.shapes(), s1.shapes()),
        s2.valid(r),
        s2.tree(r) == shift_tree(s1.tree(b), State::Next, State::Curr),
    ensures
        shift_ok(s1.tree(b), State::Next),
        r == t,
{
    lemma_shift_round_trip(s0.tree(t), State::Curr, State::Next);
    lemma_extends_tree(s2.shapes(), s0.shapes(), t.id as int);
    lemma_canonical(s2, r, t);
}

} // verus!
