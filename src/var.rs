//! Variables: plain symbols and state variables.

use vstd::prelude::*;
use crate::sym::Sym;

verus! {

/// A state is either current or next.
#[derive(Debug, Clone, Copy, PartialEq, Eq, Structural, Hash)]
pub enum State {
    Curr,
    Next,
}

/// A variable: a plain symbol, or a state variable in the current or next state.
#[derive(Debug, Clone, Copy, PartialEq, Eq, Structural, Hash)]
pub enum Var {
    Var(Sym),
    SVar(Sym, State),
}

impl Var {
    /// The symbol of a variable.
    pub open spec fn spec_sym(self) -> Sym {
        match self {
            Var::Var(s) => s,
            Var::SVar(s, _) => s,
        }
    }

    /// The symbol of a variable.
    pub fn sym(&self) -> (r: Sym)
        ensures
            r == self.spec_sym(),
    {
        match self {
            Var::Var(s) => *s,
            Var::SVar(s, _) => *s,
        }
    }
}

} // verus!
