//! Terms: a hash-consing store of immutable term nodes, addressed by handles.
//!
//! The store keeps one node per shape. A node refers to its sub-terms by handle,
//! and a sub-term is always created before the terms that use it, so handles
//! that are equal name the same term, and handles that differ name different
//! terms.

use std::collections::HashMap;
use vstd::prelude::*;
use crate::bigint::{int_residue, RESIDUE_MOD};
use crate::cst::{Cst, Value};
use crate::operator::Operator;
use crate::sym::{Sym, Type};
use crate::var::{State, Var};

verus! {

broadcast use vstd::std_specs::hash::group_hash_axioms;

/// A handle on a term of a store. Equality of handles is equality of terms.
#[derive(Debug, Clone, Copy, PartialEq, Eq, Structural, Hash)]
pub struct Term {
    pub id: usize,
}

impl Term {
    /// Index of the term in its store.
    pub fn id(&self) -> (r: usize)
        ensures
            r == self.id,
    {
        self.id
    }
}

/// One node of a term, whose sub-terms are handles.
#[derive(Debug)]
pub enum RealTerm {
    /// A variable.
    V(Var),
    /// A constant value.
    C(Value),
    /// An application of an operator.
    Op(Operator, Vec<Term>),
    /// A universal quantification.
    Forall(Vec<(Sym, Type)>, Term),
    /// An existential quantification.
    Exists(Vec<(Sym, Type)>, Term),
    /// A let-binding.
    Let(Vec<(Sym, Term)>, Term),
    /// An application of a function symbol.
    App(Sym, Vec<Term>),
}

/// The mathematical content of a node.
pub enum Shape {
    V(Var),
    C(Cst),
    Op(Operator, Seq<Term>),
    Forall(Seq<(Sym, Type)>, Term),
    Exists(Seq<(Sym, Type)>, Term),
    Let(Seq<(Sym, Term)>, Term),
    App(Sym, Seq<Term>),
}

impl View for RealTerm {
    type V = Shape;

    open spec fn view(&self) -> Shape {
        match self {
            RealTerm::V(v) => Shape::V(*v),
            RealTerm::C(c) => Shape::C(c@),
            RealTerm::Op(o, a) => Shape::Op(*o, a@),
            RealTerm::Forall(b, t) => Shape::Forall(b@, *t),
            RealTerm::Exists(b, t) => Shape::Exists(b@, *t),
            RealTerm::Let(b, t) => Shape::Let(b@, *t),
            RealTerm::App(f, a) => Shape::App(*f, a@),
        }
    }
}

/// What a node holds besides its sub-terms.
pub enum Head {
    V(Var),
    C(Cst),
    Op(Operator),
    Forall(Seq<(Sym, Type)>),
    Exists(Seq<(Sym, Type)>),
    Let(Seq<Sym>),
    App(Sym),
}

/// A term as a finite tree: its structure, with sharing forgotten.
pub enum Tree {
    Node(Head, Seq<Tree>),
}

/// The sub-terms of a node, left to right; for a let-binding, the bound values and then the body.
pub open spec fn kids(s: Shape) -> Seq<Term> {
    match s {
        Shape::V(_) => Seq::empty(),
        Shape::C(_) => Seq::empty(),
        Shape::Op(_, a) => a,
        Shape::Forall(_, t) => seq![t],
        Shape::Exists(_, t) => seq![t],
        Shape::Let(b, t) => b.map_values(|p: (Sym, Term)| p.1).push(t),
        Shape::App(_, a) => a,
    }
}

/// What a node holds besides its sub-terms.
pub open spec fn head(s: Shape) -> Head {
    match s {
        Shape::V(v) => Head::V(v),
        Shape::C(c) => Head::C(c),
        Shape::Op(o, _) => Head::Op(o),
        Shape::Forall(b, _) => Head::Forall(b),
        Shape::Exists(b, _) => Head::Exists(b),
        Shape::Let(b, _) => Head::Let(b.map_values(|p: (Sym, Term)| p.0)),
        Shape::App(f, _) => Head::App(f),
    }
}

/// The node of the same kind as `s` with sub-terms `k`.
pub open spec fn with_kids(s: Shape, k: Seq<Term>) -> Shape {
    match s {
        Shape::V(v) => Shape::V(v),
        Shape::C(c) => Shape::C(c),
        Shape::Op(o, _) => Shape::Op(o, k),
        Shape::Forall(b, _) => Shape::Forall(b, k[0]),
        Shape::Exists(b, _) => Shape::Exists(b, k[0]),
        Shape::Let(b, _) => Shape::Let(
            Seq::new(b.len(), |i: int| (b[i].0, k[i])),
            k[b.len() as int],
        ),
        Shape::App(f, _) => Shape::App(f, k),
    }
}

/// A node with these properties may stand at index `i` of a store.
pub open spec fn shape_ok(s: Shape, i: int) -> bool {
    &&& forall|k: int| 0 <= k < kids(s).len() ==> 0 <= #[trigger] kids(s)[k].id < i
    &&& match s {
        Shape::C(c) => c.wf(),
        Shape::Op(_, a) => a.len() > 0,
        Shape::App(_, a) => a.len() > 0,
        Shape::Forall(b, _) => b.len() > 0,
        Shape::Exists(b, _) => b.len() > 0,
        Shape::Let(b, _) => 0 < b.len() < usize::MAX,
        _ => true,
    }
}

/// The tree of the term at index `i` of a sequence of nodes.
pub open spec fn tree_at(s: Seq<Shape>, i: int) -> Tree
    decreases i,
{
    if 0 <= i < s.len() {
        let ks = kids(s[i]);
        Tree::Node(
            head(s[i]),
            Seq::new(
                ks.len(),
                |k: int|
                    if 0 <= ks[k].id < i {
                        tree_at(s, ks[k].id as int)
                    } else {
                        Tree::Node(Head::Op(Operator::Eq), Seq::empty())
                    },
            ),
        )
    } else {
        Tree::Node(Head::Op(Operator::Eq), Seq::empty())
    }
}

/// A node is determined by its head and its sub-terms.
pub proof fn lemma_shape_determined(s1: Shape, s2: Shape)
    requires
        head(s1) == head(s2),
        kids(s1) == kids(s2),
    ensures
        s1 == s2,
{
    match (s1, s2) {
        (Shape::Let(b1, t1), Shape::Let(b2, t2)) => {
            let m1 = b1.map_values(|p: (Sym, Term)| p.0);
            let m2 = b2.map_values(|p: (Sym, Term)| p.0);
            assert(m1 == m2);
            assert(b1.len() == m1.len());
            let v1 = b1.map_values(|p: (Sym, Term)| p.1);
            let v2 = b2.map_values(|p: (Sym, Term)| p.1);
            assert(v1.push(t1) == v2.push(t2));
            assert forall|i: int| 0 <= i < b1.len() implies b1[i] == b2[i] by {
                assert(m1[i] == m2[i]);
                assert(v1.push(t1)[i] == v2.push(t2)[i]);
            }
            assert(v1.push(t1)[b1.len() as int] == v2.push(t2)[b1.len() as int]);
            assert(b1 =~= b2);
        },
        (Shape::Forall(_, t1), Shape::Forall(_, t2)) => {
            assert(seq![t1][0] == seq![t2][0]);
        },
        (Shape::Exists(_, t1), Shape::Exists(_, t2)) => {
            assert(seq![t1][0] == seq![t2][0]);
        },
        _ => {},
    }
}

/// Replacing the sub-terms of a node keeps its head and installs the new sub-terms.
pub proof fn lemma_with_kids(s: Shape, k: Seq<Term>)
    requires
        k.len() == kids(s).len(),
    ensures
        head(with_kids(s, k)) == head(s),
        kids(with_kids(s, k)) == k,
{
    match s {
        Shape::Let(b, t) => {
            let nb = Seq::new(b.len(), |i: int| (b[i].0, k[i]));
            assert(nb.map_values(|p: (Sym, Term)| p.0) =~= b.map_values(|p: (Sym, Term)| p.0));
            assert(nb.map_values(|p: (Sym, Term)| p.1).push(k[b.len() as int]) =~= k);
        },
        Shape::Forall(b, t) => {
            assert(seq![k[0]] =~= k);
        },
        Shape::Exists(b, t) => {
            assert(seq![k[0]] =~= k);
        },
        _ => {},
    }
}

/// Every node is well placed, and no two nodes have the same shape.
pub open spec fn shapes_wf(s: Seq<Shape>) -> bool {
    &&& forall|i: int| 0 <= i < s.len() ==> shape_ok(#[trigger] s[i], i)
    &&& forall|i: int, j: int| 0 <= i < s.len() && 0 <= j < s.len() && i != j ==> s[i] != s[j]
}

/// `t` extends `s`: it holds the nodes of `s` at the same indices, and maybe more.
pub open spec fn extends(t: Seq<Shape>, s: Seq<Shape>) -> bool {
    &&& s.len() <= t.len()
    &&& forall|i: int| 0 <= i < s.len() ==> #[trigger] t[i] == s[i]
}

/// Adding nodes to a store changes the tree of none of the terms already in it.
pub proof fn lemma_extends_tree(t: Seq<Shape>, s: Seq<Shape>, i: int)
    requires
        extends(t, s),
        shapes_wf(s),
        0 <= i < s.len(),
    ensures
        tree_at(t, i) == tree_at(s, i),
    decreases i,
{
    let ks = kids(s[i]);
    assert(t[i] == s[i]);
    assert forall|k: int| 0 <= k < ks.len() implies tree_at(t, ks[k].id as int) == tree_at(
        s,
        ks[k].id as int,
    ) by {
        assert(shape_ok(s[i], i));
        lemma_extends_tree(t, s, ks[k].id as int);
    }
    let Tree::Node(h1, c1) = tree_at(t, i);
    let Tree::Node(h2, c2) = tree_at(s, i);
    assert forall|k: int| 0 <= k < ks.len() implies c1[k] == c2[k] by {
        assert(shape_ok(s[i], i));
        assert(0 <= ks[k].id < i);
    }
    assert(c1 =~= c2);
}

/// In a well-formed store, two indices hold the same tree exactly when they are equal.
pub proof fn lemma_tree_injective(s: Seq<Shape>, i: int, j: int)
    requires
        shapes_wf(s),
        0 <= i < s.len(),
        0 <= j < s.len(),
        tree_at(s, i) == tree_at(s, j),
    ensures
        i == j,
    decreases i + j,
{
    let ki = kids(s[i]);
    let kj = kids(s[j]);
    assert(shape_ok(s[i], i));
    assert(shape_ok(s[j], j));
    let ti = tree_at(s, i);
    let tj = tree_at(s, j);
    let Tree::Node(hi, ci) = ti;
    let Tree::Node(hj, cj) = tj;
    assert(ci.len() == ki.len());
    assert(cj.len() == kj.len());
    assert forall|k: int| 0 <= k < ki.len() implies ki[k] == kj[k] by {
        assert(ci[k] == cj[k]);
        assert(0 <= ki[k].id < i);
        assert(0 <= kj[k].id < j);
        lemma_tree_injective(s, ki[k].id as int, kj[k].id as int);
    }
    assert(ki =~= kj);
    lemma_shape_determined(s[i], s[j]);
}

/// Modulus of the hash arithmetic.
pub const HASH_MOD: u128 = 0x1_0000_0000_0000_0000;

/// One step of the hash combination.
pub open spec fn mix(h: nat, x: nat) -> nat {
    ((h * 31 + x) % (HASH_MOD as nat)) as nat
}

/// Hash of `h` combined with the first `n` handles of `s`.
pub open spec fn mix_terms(h: nat, s: Seq<Term>, n: int) -> nat
    decreases n,
{
    if n <= 0 {
        h
    } else {
        mix(mix_terms(h, s, n - 1), s[n - 1].id as nat)
    }
}

/// Hash of `h` combined with the first `n` bound values of `s`.
pub open spec fn mix_binds(h: nat, s: Seq<(Sym, Term)>, n: int) -> nat
    decreases n,
{
    if n <= 0 {
        h
    } else {
        mix(mix_binds(h, s, n - 1), s[n - 1].1.id as nat)
    }
}

/// The residue of an integer that constants are hashed by.
pub open spec fn residue(i: int) -> nat {
    (i % (RESIDUE_MOD as int)) as nat
}

/// Hash of a constant.
pub open spec fn cst_hash(c: Cst) -> nat {
    match c {
        Cst::Bool(b) => mix(3, if b { 1 } else { 0 }),
        Cst::Int(i) => mix(4, residue(i)),
        Cst::Rat(q) => mix(mix(5, residue(q.num)), residue(q.den)),
    }
}

/// Hash of a node; equal nodes have equal hashes.
#[verifier::opaque]
pub open spec fn shape_hash(s: Shape) -> nat {
    match s {
        Shape::V(Var::Var(x)) => mix(1, x.id as nat),
        Shape::V(Var::SVar(x, State::Curr)) => mix(6, x.id as nat),
        Shape::V(Var::SVar(x, State::Next)) => mix(7, x.id as nat),
        Shape::C(c) => cst_hash(c),
        Shape::Op(_, a) => mix_terms(12, a, a.len() as int),
        Shape::Forall(b, t) => mix(mix(8, b.len()), t.id as nat),
        Shape::Exists(b, t) => mix(mix(9, b.len()), t.id as nat),
        Shape::Let(b, t) => mix_binds(mix(10, t.id as nat), b, b.len() as int),
        Shape::App(f, a) => mix_terms(mix(11, f.id as nat), a, a.len() as int),
    }
}

fn mix_exec(h: u64, x: u64) -> (r: u64)
    ensures
        r == mix(h as nat, x as nat),
{
    ((h as u128 * 31 + x as u128) % HASH_MOD) as u64
}

fn hash_terms(h: u64, a: &Vec<Term>) -> (r: u64)
    ensures
        r == mix_terms(h as nat, a@, a@.len() as int),
{
    let mut r = h;
    let mut i: usize = 0;
    while i < a.len()
        invariant
            i <= a@.len(),
            r == mix_terms(h as nat, a@, i as int),
        decreases a@.len() - i,
    {
        r = mix_exec(r, a[i].id as u64);
        i = i + 1;
    }
    r
}

fn hash_binds(h: u64, b: &Vec<(Sym, Term)>) -> (r: u64)
    ensures
        r == mix_binds(h as nat, b@, b@.len() as int),
{
    let mut r = h;
    let mut i: usize = 0;
    while i < b.len()
        invariant
            i <= b@.len(),
            r == mix_binds(h as nat, b@, i as int),
        decreases b@.len() - i,
    {
        r = mix_exec(r, b[i].1.id as u64);
        i = i + 1;
    }
    r
}

fn hash_of(t: &RealTerm) -> (r: u64)
    ensures
        r == shape_hash(t@),
{
    reveal(shape_hash);
    match t {
        RealTerm::V(Var::Var(x)) => mix_exec(1, x.id),
        RealTerm::V(Var::SVar(x, State::Curr)) => mix_exec(6, x.id),
        RealTerm::V(Var::SVar(x, State::Next)) => mix_exec(7, x.id),
        RealTerm::C(Value::Bool(b)) => mix_exec(3, if *b { 1 } else { 0 }),
        RealTerm::C(Value::Int(i)) => mix_exec(4, int_residue(i)),
        RealTerm::C(Value::Rat(n, d)) => mix_exec(mix_exec(5, int_residue(n)), int_residue(d)),
        RealTerm::Op(_, a) => hash_terms(12, a),
        RealTerm::Forall(b, t) => mix_exec(mix_exec(8, b.len() as u64), t.id as u64),
        RealTerm::Exists(b, t) => mix_exec(mix_exec(9, b.len() as u64), t.id as u64),
        RealTerm::Let(b, t) => hash_binds(mix_exec(10, t.id as u64), b),
        RealTerm::App(f, a) => hash_terms(mix_exec(11, f.id), a),
    }
}

fn same_terms(a: &Vec<Term>, b: &Vec<Term>) -> (r: bool)
    ensures
        r == (a@ == b@),
{
    if a.len() != b.len() {
        return false;
    }
    let mut i: usize = 0;
    while i < a.len()
        invariant
            i <= a@.len() == b@.len(),
            forall|k: int| 0 <= k < i ==> a@[k] == b@[k],
        decreases a@.len() - i,
    {
        if a[i] != b[i] {
            return false;
        }
        i = i + 1;
    }
    assert(a@ =~= b@);
    true
}

fn same_sorted(a: &Vec<(Sym, Type)>, b: &Vec<(Sym, Type)>) -> (r: bool)
    ensures
        r == (a@ == b@),
{
    if a.len() != b.len() {
        return false;
    }
    let mut i: usize = 0;
    while i < a.len()
        invariant
            i <= a@.len() == b@.len(),
            forall|k: int| 0 <= k < i ==> a@[k] == b@[k],
        decreases a@.len() - i,
    {
        if a[i].0 != b[i].0 || a[i].1 != b[i].1 {
            return false;
        }
        i = i + 1;
    }
    assert(a@ =~= b@);
    true
}

fn same_binds(a: &Vec<(Sym, Term)>, b: &Vec<(Sym, Term)>) -> (r: bool)
    ensures
        r == (a@ == b@),
{
    if a.len() != b.len() {
        return false;
    }
    let mut i: usize = 0;
    while i < a.len()
        invariant
            i <= a@.len() == b@.len(),
            forall|k: int| 0 <= k < i ==> a@[k] == b@[k],
        decreases a@.len() - i,
    {
        if a[i].0 != b[i].0 || a[i].1 != b[i].1 {
            return false;
        }
        i = i + 1;
    }
    assert(a@ =~= b@);
    true
}

fn same_shape(a: &RealTerm, b: &RealTerm) -> (r: bool)
    ensures
        r == (a@ == b@),
{
    match (a, b) {
        (RealTerm::V(x), RealTerm::V(y)) => x == y,
        (RealTerm::C(x), RealTerm::C(y)) => x.same(y),
        (RealTerm::Op(o, x), RealTerm::Op(p, y)) => *o == *p && same_terms(x, y),
        (RealTerm::Forall(x, t), RealTerm::Forall(y, u)) => *t == *u && same_sorted(x, y),
        (RealTerm::Exists(x, t), RealTerm::Exists(y, u)) => *t == *u && same_sorted(x, y),
        (RealTerm::Let(x, t), RealTerm::Let(y, u)) => *t == *u && same_binds(x, y),
        (RealTerm::App(f, x), RealTerm::App(g, y)) => *f == *g && same_terms(x, y),
        _ => false,
    }
}

/// The term store: one node per shape, and an index from hashes to nodes.
pub struct TermStore {
    nodes: Vec<RealTerm>,
    table: HashMap<u64, Vec<usize>>,
}

impl TermStore {
    /// The nodes of the store, by index.
    pub closed spec fn shapes(&self) -> Seq<Shape> {
        self.nodes@.map_values(|n: RealTerm| n@)
    }

    /// Every node is listed under its hash, and every listed index holds a node of that hash.
    pub closed spec fn table_wf(&self) -> bool {
        &&& forall|i: int|
            0 <= i < self.nodes@.len() ==> {
                let h = shape_hash(#[trigger] self.shapes()[i]) as u64;
                self.table@.contains_key(h) && self.table@[h]@.contains(i as usize)
            }
        &&& forall|h: u64, k: int|
            #![trigger self.table@[h]@[k]]
            self.table@.contains_key(h) && 0 <= k < self.table@[h]@.len() ==> {
                let j = self.table@[h]@[k];
                j < self.nodes@.len() && shape_hash(self.shapes()[j as int]) as u64 == h
            }
    }

    /// The store is well formed.
    pub open spec fn wf(&self) -> bool {
        shapes_wf(self.shapes()) && self.table_wf()
    }

    /// The handle names a term of this store.
    pub open spec fn valid(&self, t: Term) -> bool {
        t.id < self.shapes().len()
    }

    /// The node of a term.
    pub open spec fn shape(&self, t: Term) -> Shape {
        self.shapes()[t.id as int]
    }

    /// The tree of a term.
    pub open spec fn tree(&self, t: Term) -> Tree {
        tree_at(self.shapes(), t.id as int)
    }

    /// A node that may be added: its sub-terms are terms of this store.
    pub open spec fn admits(&self, s: Shape) -> bool {
        shape_ok(s, self.shapes().len() as int)
    }

    /// An empty store.
    pub fn new() -> (r: TermStore)
        ensures
            r.wf(),
            r.shapes().len() == 0,
    {
        let r = TermStore { nodes: Vec::new(), table: HashMap::new() };
        assert(r.shapes() =~= Seq::<Shape>::empty());
        r
    }

    /// Number of nodes in the store.
    pub fn len(&self) -> (r: usize)
        ensures
            r == self.shapes().len(),
    {
        self.nodes.len()
    }

    /// The node of a term.
    pub fn get(&self, t: Term) -> (r: &RealTerm)
        requires
            self.valid(t),
        ensures
            r@ == self.shape(t),
    {
        &self.nodes[t.id]
    }

    fn find(&self, t: &RealTerm, h: u64) -> (r: Option<usize>)
        requires
            self.wf(),
            h == shape_hash(t@) as u64,
        ensures
            match r {
                Some(i) => i < self.shapes().len() && self.shapes()[i as int] == t@,
                None => forall|i: int| 0 <= i < self.shapes().len() ==> self.shapes()[i] != t@,
            },
    {
        match self.table.get(&h) {
            None => {
                assert forall|i: int| 0 <= i < self.shapes().len() implies self.shapes()[i] != t@ by {
                    let _ = self.shapes()[i];
                }
                None
            },
            Some(bucket) => {
                let mut k: usize = 0;
                while k < bucket.len()
                    invariant
                        self.wf(),
                        self.table@.contains_key(h),
                        bucket@ == self.table@[h]@,
                        k <= bucket@.len(),
                        forall|m: int| 0 <= m < k ==> self.shapes()[#[trigger] bucket@[m] as int] != t@,
                    decreases bucket@.len() - k,
                {
                    let j = bucket[k];
                    assert(self.table@[h]@[k as int] == j);
                    if same_shape(&self.nodes[j], t) {
                        return Some(j);
                    }
                    k = k + 1;
                }
                assert(k == bucket@.len());
                assert forall|i: int| 0 <= i < self.shapes().len() implies self.shapes()[i] != t@ by {
                    if self.shapes()[i] == t@ {
                        assert(self.shapes().len() == self.nodes.len());
                        assert(self.table@[h]@.contains(i as usize));
                        let m = choose|m: int| 0 <= m < bucket@.len() && bucket@[m] == i as usize;
                        assert(self.shapes()[bucket@[m] as int] != t@);
                    }
                }
                None
            },
        }
    }

    /// The canonical handle of a node: the existing one, or a new one.
    pub fn mk(&mut self, t: RealTerm) -> (r: Term)
        requires
            old(self).wf(),
            old(self).admits(t@),
        ensures
            final(self).wf(),
            extends(final(self).shapes(), old(self).shapes()),
            final(self).valid(r),
            final(self).shape(r) == t@,
            old(self).shapes().contains(t@) ==> final(self).shapes() == old(self).shapes(),
    {
        let h = hash_of(&t);
        match self.find(&t, h) {
            Some(i) => Term { id: i },
            None => {
                let ghost old_shapes = self.shapes();
                let ghost old_table = self.table@;
                let idx = self.nodes.len();
                self.nodes.push(t);
                assert(self.shapes() =~= old_shapes.push(t@));
                let mut bucket = match self.table.remove(&h) {
                    Some(b) => b,
                    None => Vec::new(),
                };
                let ghost old_bucket = bucket@;
                bucket.push(idx);
                self.table.insert(h, bucket);
                assert(old_table.contains_key(h) ==> old_bucket == old_table[h]@);
                assert(!old_table.contains_key(h) ==> old_bucket == Seq::<usize>::empty());
                assert forall|i: int|
                    0 <= i < self.nodes@.len() implies {
                        let hh = shape_hash(#[trigger] self.shapes()[i]) as u64;
                        self.table@.contains_key(hh) && self.table@[hh]@.contains(i as usize)
                    } by {
                    let hh = shape_hash(self.shapes()[i]) as u64;
                    if i < idx {
                        assert(self.shapes()[i] == old_shapes[i]);
                        assert(old_table[hh]@.contains(i as usize));
                        if hh == h {
                            let m = choose|m: int|
                                0 <= m < old_table[hh]@.len() && old_table[hh]@[m] == i as usize;
                            assert(self.table@[hh]@[m] == i as usize);
                        }
                    } else {
                        assert(self.table@[h]@[old_bucket.len() as int] == idx);
                    }
                }
                assert forall|hh: u64, k: int|
                    self.table@.contains_key(hh) && 0 <= k < self.table@[hh]@.len() implies {
                        let j = #[trigger] self.table@[hh]@[k];
                        j < self.nodes@.len() && shape_hash(self.shapes()[j as int]) as u64 == hh
                    } by {
                    if hh == h {
                        if k < old_bucket.len() {
                            assert(self.table@[hh]@[k] == old_table[hh]@[k]);
                        }
                    } else {
                        assert(self.table@[hh]@[k] == old_table[hh]@[k]);
                    }
                }
                assert forall|i: int| 0 <= i < self.shapes().len() implies shape_ok(
                    #[trigger] self.shapes()[i],
                    i,
                ) by {
                    if i < idx {
                        assert(self.shapes()[i] == old_shapes[i]);
                    }
                }
                Term { id: idx }
            },
        }
    }

    /// `self` is `old` with maybe some nodes added, and `r` names a node of shape `s` in it.
    pub open spec fn built(&self, old: &TermStore, r: Term, s: Shape) -> bool {
        &&& self.wf()
        &&& extends(self.shapes(), old.shapes())
        &&& self.valid(r)
        &&& self.shape(r) == s
    }

    /// The variable `v`.
    pub fn var(&mut self, v: Var) -> (r: Term)
        requires
            old(self).wf(),
        ensures
            final(self).built(old(self), r, Shape::V(v)),
            old(self).shapes().contains(Shape::V(v)) ==> final(self).shapes() == old(self).shapes(),
    {
        self.mk(RealTerm::V(v))
    }

    /// The constant `c`.
    pub fn cst(&mut self, c: Value) -> (r: Term)
        requires
            old(self).wf(),
            c@.wf(),
        ensures
            final(self).built(old(self), r, Shape::C(c@)),
            old(self).shapes().contains(Shape::C(c@)) ==> final(self).shapes() == old(self).shapes(),
    {
        self.mk(RealTerm::C(c))
    }

    /// The application of `o` to `args`, which may not be empty.
    pub fn op(&mut self, o: Operator, args: Vec<Term>) -> (r: Term)
        requires
            old(self).wf(),
            args@.len() > 0,
            forall|k: int| 0 <= k < args@.len() ==> old(self).valid(#[trigger] args@[k]),
        ensures
            final(self).built(old(self), r, Shape::Op(o, args@)),
            old(self).shapes().contains(Shape::Op(o, args@)) ==> final(self).shapes() == old(self).shapes(),
    {
        self.mk(RealTerm::Op(o, args))
    }

    /// The application of the function symbol `f` to `args`, which may not be empty.
    pub fn app(&mut self, f: Sym, args: Vec<Term>) -> (r: Term)
        requires
            old(self).wf(),
            args@.len() > 0,
            forall|k: int| 0 <= k < args@.len() ==> old(self).valid(#[trigger] args@[k]),
        ensures
            final(self).built(old(self), r, Shape::App(f, args@)),
            old(self).shapes().contains(Shape::App(f, args@)) ==> final(self).shapes() == old(self).shapes(),
    {
        self.mk(RealTerm::App(f, args))
    }

    /// The universal quantification of `body` over `bind`; `body` itself when `bind` is empty.
    pub fn forall_b(&mut self, bind: Vec<(Sym, Type)>, body: Term) -> (r: Term)
        requires
            old(self).wf(),
            old(self).valid(body),
        ensures
            bind@.len() == 0 ==> r == body && *final(self) == *old(self),
            bind@.len() > 0 ==> final(self).built(old(self), r, Shape::Forall(bind@, body)),
    {
        if bind.len() == 0 {
            body
        } else {
            self.mk(RealTerm::Forall(bind, body))
        }
    }

    /// The existential quantification of `body` over `bind`; `body` itself when `bind` is empty.
    pub fn exists_b(&mut self, bind: Vec<(Sym, Type)>, body: Term) -> (r: Term)
        requires
            old(self).wf(),
            old(self).valid(body),
        ensures
            bind@.len() == 0 ==> r == body && *final(self) == *old(self),
            bind@.len() > 0 ==> final(self).built(old(self), r, Shape::Exists(bind@, body)),
    {
        if bind.len() == 0 {
            body
        } else {
            self.mk(RealTerm::Exists(bind, body))
        }
    }

    /// The let-binding of `bind` over `body`; `body` itself when `bind` is empty.
    pub fn let_b(&mut self, bind: Vec<(Sym, Term)>, body: Term) -> (r: Term)
        requires
            old(self).wf(),
            old(self).valid(body),
            bind@.len() < usize::MAX,
            forall|k: int| 0 <= k < bind@.len() ==> old(self).valid(#[trigger] bind@[k].1),
        ensures
            bind@.len() == 0 ==> r == body && *final(self) == *old(self),
            bind@.len() > 0 ==> final(self).built(old(self), r, Shape::Let(bind@, body)),
    {
        if bind.len() == 0 {
            body
        } else {
            let ghost s = Shape::Let(bind@, body);
            assert forall|k: int| 0 <= k < kids(s).len() implies 0 <= #[trigger] kids(s)[k].id
                < self.shapes().len() by {
                if k < bind@.len() {
                    assert(kids(s)[k] == bind@[k].1);
                }
            }
            self.mk(RealTerm::Let(bind, body))
        }
    }
}

impl TermStore {
    /// Number of sub-terms of a term.
    pub fn num_kids(&self, t: Term) -> (r: usize)
        requires
            self.wf(),
            self.valid(t),
        ensures
            r == kids(self.shape(t)).len(),
    {
        match self.get(t) {
            RealTerm::V(_) => 0,
            RealTerm::C(_) => 0,
            RealTerm::Op(_, a) => a.len(),
            RealTerm::Forall(_, _) => 1,
            RealTerm::Exists(_, _) => 1,
            RealTerm::Let(b, _) => {
                assert(shape_ok(self.shape(t), t.id as int));
                b.len() + 1
            },
            RealTerm::App(_, a) => a.len(),
        }
    }

    /// Sub-term `k` of a term.
    pub fn kid(&self, t: Term, k: usize) -> (r: Term)
        requires
            self.valid(t),
            k < kids(self.shape(t)).len(),
        ensures
            r == kids(self.shape(t))[k as int],
    {
        match self.get(t) {
            RealTerm::Op(_, a) => a[k],
            RealTerm::Forall(_, b) => *b,
            RealTerm::Exists(_, b) => *b,
            RealTerm::Let(b, body) => if k < b.len() {
                b[k].1
            } else {
                *body
            },
            RealTerm::App(_, a) => a[k],
            RealTerm::V(_) => t,
            RealTerm::C(_) => t,
        }
    }

    /// The term of the same kind as `t` with sub-terms `new_kids`.
    pub fn rebuild(&mut self, t: Term, new_kids: Vec<Term>) -> (r: Term)
        requires
            old(self).wf(),
            old(self).valid(t),
            new_kids@.len() == kids(old(self).shape(t)).len(),
            forall|k: int| 0 <= k < new_kids@.len() ==> old(self).valid(#[trigger] new_kids@[k]),
        ensures
            final(self).built(old(self), r, with_kids(old(self).shape(t), new_kids@)),
            old(self).shapes().contains(with_kids(old(self).shape(t), new_kids@)) ==> final(self).shapes() == old(self).shapes(),
    {
        let ghost s = self.shape(t);
        assert(shape_ok(s, t.id as int));
        let node = match self.get(t) {
            RealTerm::Op(o, _) => RealTerm::Op(*o, new_kids),
            RealTerm::App(f, _) => RealTerm::App(*f, new_kids),
            RealTerm::Forall(b, _) => RealTerm::Forall(copy_sorted(b), new_kids[0]),
            RealTerm::Exists(b, _) => RealTerm::Exists(copy_sorted(b), new_kids[0]),
            RealTerm::Let(b, _) => {
                let mut nb: Vec<(Sym, Term)> = Vec::new();
                let mut i: usize = 0;
                while i < b.len()
                    invariant
                        i <= b@.len(),
                        new_kids@.len() == b@.len() + 1,
                        nb@.len() == i,
                        forall|m: int| 0 <= m < i ==> #[trigger] nb@[m] == (b@[m].0, new_kids@[m]),
                    decreases b@.len() - i,
                {
                    nb.push((b[i].0, new_kids[i]));
                    i = i + 1;
                }
                let body = new_kids[b.len()];
                assert(nb@ =~= Seq::new(b@.len(), |m: int| (b@[m].0, new_kids@[m])));
                RealTerm::Let(nb, body)
            },
            RealTerm::V(_) => {
                return t;
            },
            RealTerm::C(_) => {
                return t;
            },
        };
        proof {
            lemma_with_kids(s, new_kids@);
            assert(node@ == with_kids(s, new_kids@));
            assert forall|k: int| 0 <= k < kids(node@).len() implies 0 <= #[trigger] kids(node@)[k].id
                < self.shapes().len() by {
                assert(kids(node@)[k] == new_kids@[k]);
            }
        }
        self.mk(node)
    }
}

fn copy_sorted(b: &Vec<(Sym, Type)>) -> (r: Vec<(Sym, Type)>)
    ensures
        r@ == b@,
{
    let mut r: Vec<(Sym, Type)> = Vec::new();
    let mut i: usize = 0;
    while i < b.len()
        invariant
            i <= b@.len(),
            r@ == b@.take(i as int),
        decreases b@.len() - i,
    {
        r.push((b[i].0, b[i].1));
        assert(b@.take(i as int + 1) =~= b@.take(i as int).push(b@[i as int]));
        i = i + 1;
    }
    assert(b@.take(b@.len() as int) =~= b@);
    r
}

/// The root of a tree.
pub open spec fn thead(t: Tree) -> Head {
    let Tree::Node(h, _) = t;
    h
}

/// The sub-trees of a tree.
pub open spec fn children(t: Tree) -> Seq<Tree> {
    let Tree::Node(_, c) = t;
    c
}

/// The tree of a node of a well-formed store is made of its head and the trees of its sub-terms.
pub proof fn lemma_tree_unfold(s: Seq<Shape>, i: int)
    requires
        shapes_wf(s),
        0 <= i < s.len(),
    ensures
        thead(tree_at(s, i)) == head(s[i]),
        children(tree_at(s, i)).len() == kids(s[i]).len(),
        forall|k: int|
            0 <= k < kids(s[i]).len() ==> 0 <= kids(s[i])[k].id < i && #[trigger] children(tree_at(s, i))[k]
                == tree_at(s, kids(s[i])[k].id as int),
{
    assert(shape_ok(s[i], i));
}

/// Building a shape that a store already holds returns the handle it has: handles of
/// a well-formed store with the same node are the same handle.
pub proof fn lemma_same_shape_same_handle(store: &TermStore, a: Term, b: Term)
    requires
        store.wf(),
        store.valid(a),
        store.valid(b),
        store.shape(a) == store.shape(b),
    ensures
        a == b,
{
}

/// Canonicity: two terms of a well-formed store have the same handle exactly when
/// they have the same structure.
pub proof fn lemma_canonical(store: &TermStore, a: Term, b: Term)
    requires
        store.wf(),
        store.valid(a),
        store.valid(b),
    ensures
        (a == b) <==> (store.tree(a) == store.tree(b)),
{
    if store.tree(a) == store.tree(b) {
        lemma_tree_injective(store.shapes(), a.id as int, b.id as int);
    }
}

impl RealTerm {
    /// Whether the node is the constant `true`.
    pub fn is_true(&self) -> (r: bool)
        ensures
            r == (self@ == Shape::C(Cst::Bool(true))),
    {
        match self {
            RealTerm::C(Value::Bool(b)) => *b,
            _ => false,
        }
    }

    /// Whether the node is the constant `false`.
    pub fn is_false(&self) -> (r: bool)
        ensures
            r == (self@ == Shape::C(Cst::Bool(false))),
    {
        match self {
            RealTerm::C(Value::Bool(b)) => !*b,
            _ => false,
        }
    }
}

/// A stateful term: a one-state term with its next-state version, or a two-state term.
#[derive(Debug, Clone, Copy, PartialEq, Eq, Structural)]
pub enum STerm {
    /// A one-state term and the same term over next-state variables.
    One(Term, Term),
    /// A two-state term, understood as true in the initial state.
    Two(Term),
}

impl STerm {
    /// The state version of the term, if it has one.
    pub fn state(&self) -> (r: Option<Term>)
        ensures
            r == (match *self {
                STerm::One(t, _) => Some(t),
                STerm::Two(_) => None,
            }),
    {
        match self {
            STerm::One(t, _) => Some(*t),
            STerm::Two(_) => None,
        }
    }

    /// The next-state version of the term.
    pub fn next(&self) -> (r: Term)
        ensures
            r == (match *self {
                STerm::One(_, t) => t,
                STerm::Two(t) => t,
            }),
    {
        match self {
            STerm::One(_, t) => *t,
            STerm::Two(t) => *t,
        }
    }
}

} // verus!
