//! A bounded model-checking engine over a hash-consed term algebra.

pub mod arith;
pub mod bigint;
pub mod bmc;
pub mod cst;
pub mod eval;
pub mod fold;
pub mod offset;
pub mod operator;
pub mod sym;
pub mod system;
pub mod term;
pub mod var;
pub mod write;
pub mod zip;
