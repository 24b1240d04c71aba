//! Transition systems, their functions and their properties.

use vstd::prelude::*;
use crate::sym::{Sym, Type};
use crate::term::Term;

verus! {

/// A signature: a list of types.
#[derive(Debug, Clone)]
pub struct Sig {
    types: Vec<Type>,
}

impl Sig {
    pub closed spec fn spec_types(&self) -> Seq<Type> {
        self.types@
    }

    /// A signature with these types.
    pub fn mk(types: Vec<Type>) -> (r: Sig)
        ensures
            r.spec_types() == types@,
    {
        Sig { types }
    }

    /// The types of the signature.
    pub fn types(&self) -> (r: &[Type])
        ensures
            r@ == self.spec_types(),
    {
        self.types.as_slice()
    }
}

/// A list of typed formal parameters.
#[derive(Debug, Clone)]
pub struct Args {
    args: Vec<(Sym, Type)>,
}

impl Args {
    pub closed spec fn spec_args(&self) -> Seq<(Sym, Type)> {
        self.args@
    }

    /// A parameter list with these parameters.
    pub fn mk(args: Vec<(Sym, Type)>) -> (r: Args)
        ensures
            r.spec_args() == args@,
    {
        Args { args }
    }

    /// The formal parameters.
    pub fn args(&self) -> (r: &[(Sym, Type)])
        ensures
            r@ == self.spec_args(),
    {
        self.args.as_slice()
    }

    /// Number of parameters.
    pub fn len(&self) -> (r: usize)
        ensures
            r == self.spec_args().len(),
    {
        self.args.len()
    }
}

/// An uninterpreted function.
#[derive(Debug, Clone)]
pub struct Uf {
    sym: Sym,
    sig: Sig,
    typ: Type,
}

impl Uf {
    pub closed spec fn spec_sym(&self) -> Sym {
        self.sym
    }

    pub closed spec fn spec_sig(&self) -> Seq<Type> {
        self.sig.spec_types()
    }

    pub closed spec fn spec_typ(&self) -> Type {
        self.typ
    }

    /// An uninterpreted function with this identifier, signature and return type.
    pub fn mk(sym: Sym, sig: Sig, typ: Type) -> (r: Uf)
        ensures
            r.spec_sym() == sym,
            r.spec_sig() == sig.spec_types(),
            r.spec_typ() == typ,
    {
        Uf { sym, sig, typ }
    }

    /// Identifier of the function.
    pub fn sym(&self) -> (r: &Sym)
        ensures
            *r == self.spec_sym(),
    {
        &self.sym
    }

    /// Signature of the function.
    pub fn sig(&self) -> (r: &[Type])
        ensures
            r@ == self.spec_sig(),
    {
        self.sig.types()
    }

    /// Return type of the function.
    pub fn typ(&self) -> (r: &Type)
        ensures
            *r == self.spec_typ(),
    {
        &self.typ
    }
}

/// A function with a body (a macro, in SMT-LIB terms).
#[derive(Debug)]
pub struct Fun {
    sym: Sym,
    args: Args,
    typ: Type,
    body: Term,
    calls: Vec<Callable>,
}

impl Fun {
    pub closed spec fn spec_sym(&self) -> Sym {
        self.sym
    }

    pub closed spec fn spec_args(&self) -> Seq<(Sym, Type)> {
        self.args.spec_args()
    }

    pub closed spec fn spec_typ(&self) -> Type {
        self.typ
    }

    pub closed spec fn spec_body(&self) -> Term {
        self.body
    }

    pub closed spec fn spec_calls(&self) -> Seq<Callable> {
        self.calls@
    }

    /// A function with this identifier, parameters, return type, body, and the callables
    /// it uses.
    pub fn mk(sym: Sym, args: Args, typ: Type, body: Term, calls: Vec<Callable>) -> (r: Fun)
        ensures
            r.spec_sym() == sym,
            r.spec_args() == args.spec_args(),
            r.spec_typ() == typ,
            r.spec_body() == body,
            r.spec_calls() == calls@,
    {
        Fun { sym, args, typ, body, calls }
    }

    /// Identifier of the function.
    pub fn sym(&self) -> (r: &Sym)
        ensures
            *r == self.spec_sym(),
    {
        &self.sym
    }

    /// Formal parameters of the function.
    pub fn args(&self) -> (r: &[(Sym, Type)])
        ensures
            r@ == self.spec_args(),
    {
        self.args.args()
    }

    /// Return type of the function.
    pub fn typ(&self) -> (r: &Type)
        ensures
            *r == self.spec_typ(),
    {
        &self.typ
    }

    /// Body of the function.
    pub fn body(&self) -> (r: &Term)
        ensures
            *r == self.spec_body(),
    {
        &self.body
    }

    /// Callables the function uses.
    pub fn calls(&self) -> (r: &[Callable])
        ensures
            r@ == self.spec_calls(),
    {
        self.calls.as_slice()
    }
}

/// An uninterpreted or a defined function.
#[derive(Debug)]
pub enum Callable {
    Dec(Uf),
    Def(Fun),
}

impl Callable {
    /// The identifier of the function.
    pub open spec fn spec_sym(&self) -> Sym {
        match self {
            Callable::Dec(f) => f.spec_sym(),
            Callable::Def(f) => f.spec_sym(),
        }
    }

    /// The identifier of the function.
    pub fn sym(&self) -> (r: &Sym)
        ensures
            *r == self.spec_sym(),
    {
        match self {
            Callable::Def(f) => f.sym(),
            Callable::Dec(f) => f.sym(),
        }
    }
}

/// A transition system.
#[derive(Debug)]
pub struct Sys {
    sym: Sym,
    state: Args,
    locals: Vec<(Sym, Type, Term)>,
    init: Term,
    trans: Term,
    subsys: Vec<(Sys, Vec<Term>)>,
    calls: Vec<Callable>,
}

impl Sys {
    pub closed spec fn spec_sym(&self) -> Sym {
        self.sym
    }

    pub closed spec fn spec_state(&self) -> Seq<(Sym, Type)> {
        self.state.spec_args()
    }

    pub closed spec fn spec_locals(&self) -> Seq<(Sym, Type, Term)> {
        self.locals@
    }

    pub closed spec fn spec_init(&self) -> Term {
        self.init
    }

    pub closed spec fn spec_trans(&self) -> Term {
        self.trans
    }

    pub closed spec fn spec_subsys(&self) -> Seq<(Sys, Vec<Term>)> {
        self.subsys@
    }

    pub closed spec fn spec_calls(&self) -> Seq<Callable> {
        self.calls@
    }

    /// A system with this identifier, state, local definitions, initial predicate,
    /// transition relation, sub-systems with their parameters, and the callables it uses.
    pub fn mk(
        sym: Sym,
        state: Args,
        locals: Vec<(Sym, Type, Term)>,
        init: Term,
        trans: Term,
        subsys: Vec<(Sys, Vec<Term>)>,
        calls: Vec<Callable>,
    ) -> (r: Sys)
        ensures
            r.spec_sym() == sym,
            r.spec_state() == state.spec_args(),
            r.spec_locals() == locals@,
            r.spec_init() == init,
            r.spec_trans() == trans,
            r.spec_subsys() == subsys@,
            r.spec_calls() == calls@,
    {
        Sys { sym, state, locals, init, trans, subsys, calls }
    }

    /// Identifier of the system.
    pub fn sym(&self) -> (r: &Sym)
        ensures
            *r == self.spec_sym(),
    {
        &self.sym
    }

    /// State of the system.
    pub fn state(&self) -> (r: &Args)
        ensures
            r.spec_args() == self.spec_state(),
    {
        &self.state
    }

    /// Local definitions of the system.
    pub fn locals(&self) -> (r: &[(Sym, Type, Term)])
        ensures
            r@ == self.spec_locals(),
    {
        self.locals.as_slice()
    }

    /// Initial predicate of the system.
    pub fn init(&self) -> (r: &Term)
        ensures
            *r == self.spec_init(),
    {
        &self.init
    }

    /// Transition relation of the system.
    pub fn trans(&self) -> (r: &Term)
        ensures
            *r == self.spec_trans(),
    {
        &self.trans
    }

    /// Sub-systems of the system, with their parameters.
    pub fn subsys(&self) -> (r: &[(Sys, Vec<Term>)])
        ensures
            r@ == self.spec_subsys(),
    {
        self.subsys.as_slice()
    }

    /// Callables the system uses.
    pub fn calls(&self) -> (r: &[Callable])
        ensures
            r@ == self.spec_calls(),
    {
        self.calls.as_slice()
    }
}

/// A property of a system.
#[derive(Debug)]
pub struct Prop {
    sym: Sym,
    sys: Sys,
    body: Term,
    calls: Vec<Callable>,
}

impl Prop {
    pub closed spec fn spec_sym(&self) -> Sym {
        self.sym
    }

    pub closed spec fn spec_body(&self) -> Term {
        self.body
    }

    pub closed spec fn spec_sys(&self) -> Sys {
        self.sys
    }

    pub closed spec fn spec_calls(&self) -> Seq<Callable> {
        self.calls@
    }

    /// A property with this identifier, over system `sys`, with this body and the
    /// callables it uses.
    pub fn mk(sym: Sym, sys: Sys, body: Term, calls: Vec<Callable>) -> (r: Prop)
        ensures
            r.spec_sym() == sym,
            r.spec_sys() == sys,
            r.spec_body() == body,
            r.spec_calls() == calls@,
    {
        Prop { sym, sys, body, calls }
    }

    /// Identifier of the property.
    pub fn sym(&self) -> (r: &Sym)
        ensures
            *r == self.spec_sym(),
    {
        &self.sym
    }

    /// System the property is about.
    pub fn sys(&self) -> (r: &Sys)
        ensures
            *r == self.spec_sys(),
    {
        &self.sys
    }

    /// Body of the property.
    pub fn body(&self) -> (r: &Term)
        ensures
            *r == self.spec_body(),
    {
        &self.body
    }

    /// Callables the property uses.
    pub fn calls(&self) -> (r: &[Callable])
        ensures
            r@ == self.spec_calls(),
    {
        self.calls.as_slice()
    }
}

impl PartialEq for Uf {
    /// Two of them are equal when their identifiers are.
    fn eq(&self, o: &Uf) -> (r: bool) {
        self.sym == o.sym
    }
}

impl vstd::std_specs::cmp::PartialEqSpecImpl for Uf {
    open spec fn obeys_eq_spec() -> bool {
        true
    }

    open spec fn eq_spec(&self, o: &Uf) -> bool {
        self.spec_sym() == o.spec_sym()
    }
}

impl Eq for Uf {

}

impl PartialEq for Fun {
    /// Two of them are equal when their identifiers are.
    fn eq(&self, o: &Fun) -> (r: bool) {
        self.sym == o.sym
    }
}

impl vstd::std_specs::cmp::PartialEqSpecImpl for Fun {
    open spec fn obeys_eq_spec() -> bool {
        true
    }

    open spec fn eq_spec(&self, o: &Fun) -> bool {
        self.spec_sym() == o.spec_sym()
    }
}

impl Eq for Fun {

}

impl PartialEq for Prop {
    /// Two of them are equal when their identifiers are.
    fn eq(&self, o: &Prop) -> (r: bool) {
        self.sym == o.sym
    }
}

impl vstd::std_specs::cmp::PartialEqSpecImpl for Prop {
    open spec fn obeys_eq_spec() -> bool {
        true
    }

    open spec fn eq_spec(&self, o: &Prop) -> bool {
        self.spec_sym() == o.spec_sym()
    }
}

impl Eq for Prop {

}

} // verus!
