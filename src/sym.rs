//! Symbols and types.

use vstd::prelude::*;

verus! {

/// An interned symbol: two symbols are the same exactly when their ids are.
#[derive(Debug, Clone, Copy, PartialEq, Eq, Structural, Hash)]
pub struct Sym {
    pub id: u64,
}

impl Sym {
    /// The symbol with interned id `id`.
    pub fn mk(id: u64) -> (r: Sym)
        ensures
            r.id == id,
    {
        Sym { id }
    }
}

/// The sorts of the term language.
#[derive(Debug, Clone, Copy, PartialEq, Eq, Structural, Hash)]
pub enum Type {
    Bool,
    Int,
    Rat,
}

impl Type {
    /// Whether the sort is numeric.
    pub open spec fn is_numeric(self) -> bool {
        self == Type::Int || self == Type::Rat
    }
}

} // verus!
