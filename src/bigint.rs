//! Integers of any size, computed with `num_bigint`.

use num_bigint::{BigInt, Sign};
use num_integer::Integer;
use num_traits::{Euclid, ToPrimitive};
use vstd::prelude::*;

verus! {

/// `2^(32 n)`.
pub open spec fn pow32(n: nat) -> nat
    decreases n,
{
    if n == 0 {
        1
    } else {
        4294967296 * pow32((n - 1) as nat)
    }
}

/// The number written with base-`2^32` digits `d`, least significant first.
pub open spec fn mag_val(d: Seq<u32>) -> nat
    decreases d.len(),
{
    if d.len() == 0 {
        0
    } else {
        (mag_val(d.drop_last()) + d.last() * pow32((d.len() - 1) as nat)) as nat
    }
}

/// Greatest common divisor, by Euclid's algorithm.
pub open spec fn gcd(a: nat, b: nat) -> nat
    decreases b,
{
    if b == 0 {
        a
    } else {
        gcd(b, a % b)
    }
}

/// The absolute value of an integer.
pub open spec fn abs(n: int) -> nat {
    if n < 0 {
        (-n) as nat
    } else {
        n as nat
    }
}

/// Decimal digits of a natural number.
pub open spec fn digits(n: nat) -> Seq<u8>
    decreases n,
{
    if n < 10 {
        seq![(48 + n) as u8]
    } else {
        digits(n / 10).push((48 + n % 10) as u8)
    }
}

/// Modulus of the residues that constants are hashed by.
pub const RESIDUE_MOD: u64 = 1_000_000_007;

/// An integer of any size: a sign and base-`2^32` digits, least significant first.
#[derive(Debug)]
pub struct Int {
    neg: bool,
    mag: Vec<u32>,
}

impl Int {
    /// The integer.
    pub closed spec fn value(&self) -> int {
        if self.neg {
            -(mag_val(self.mag@) as int)
        } else {
            mag_val(self.mag@) as int
        }
    }

    /// The same integer.
    pub fn copy(&self) -> (r: Int)
        ensures
            r.value() == self.value(),
    {
        Int { neg: self.neg, mag: self.mag.clone() }
    }

    /// Its opposite.
    pub fn neg(&self) -> (r: Int)
        ensures
            r.value() == -self.value(),
    {
        Int { neg: !self.neg, mag: self.mag.clone() }
    }

    /// Whether it is zero.
    pub fn is_zero(&self) -> (r: bool)
        ensures
            r == (self.value() == 0),
    {
        int_eq(self, &Int::from_i64(0))
    }

    /// Whether it is negative.
    pub fn is_negative(&self) -> (r: bool)
        ensures
            r == (self.value() < 0),
    {
        int_lt(self, &Int::from_i64(0))
    }

    /// The integer `i`.
    pub fn from_i64(i: i64) -> (r: Int)
        ensures
            r.value() == i,
    {
        int_from_i64(i)
    }
}

/// Relies on `BigInt::from(i64)`: the same integer.
#[verifier::external_body]
fn int_from_i64(i: i64) -> (r: Int)
    ensures
        r.value() == i,
{
    let (s, mag) = BigInt::from(i).to_u32_digits();
    Int { neg: s == Sign::Minus, mag }
}

/// Relies on `+` on `BigInt`: the sum.
#[verifier::external_body]
pub(crate) fn int_add(a: &Int, b: &Int) -> (r: Int)
    ensures
        r.value() == a.value() + b.value(),
{
    let x = BigInt::from_slice(if a.neg { Sign::Minus } else { Sign::Plus }, &a.mag);
    let y = BigInt::from_slice(if b.neg { Sign::Minus } else { Sign::Plus }, &b.mag);
    let (s, mag) = (x + y).to_u32_digits();
    Int { neg: s == Sign::Minus, mag }
}

/// Relies on `-` on `BigInt`: the difference.
#[verifier::external_body]
pub(crate) fn int_sub(a: &Int, b: &Int) -> (r: Int)
    ensures
        r.value() == a.value() - b.value(),
{
    let x = BigInt::from_slice(if a.neg { Sign::Minus } else { Sign::Plus }, &a.mag);
    let y = BigInt::from_slice(if b.neg { Sign::Minus } else { Sign::Plus }, &b.mag);
    let (s, mag) = (x - y).to_u32_digits();
    Int { neg: s == Sign::Minus, mag }
}

/// Relies on `*` on `BigInt`: the product.
#[verifier::external_body]
pub(crate) fn int_mul(a: &Int, b: &Int) -> (r: Int)
    ensures
        r.value() == a.value() * b.value(),
{
    let x = BigInt::from_slice(if a.neg { Sign::Minus } else { Sign::Plus }, &a.mag);
    let y = BigInt::from_slice(if b.neg { Sign::Minus } else { Sign::Plus }, &b.mag);
    let (s, mag) = (x * y).to_u32_digits();
    Int { neg: s == Sign::Minus, mag }
}

/// Relies on `num_traits::Euclid::div_euclid` for `BigInt`: the Euclidean quotient
/// (it panics on a zero divisor).
#[verifier::external_body]
pub(crate) fn int_div_euclid(a: &Int, b: &Int) -> (r: Int)
    requires
        b.value() != 0,
    ensures
        r.value() == a.value() / b.value(),
{
    let x = BigInt::from_slice(if a.neg { Sign::Minus } else { Sign::Plus }, &a.mag);
    let y = BigInt::from_slice(if b.neg { Sign::Minus } else { Sign::Plus }, &b.mag);
    let (s, mag) = x.div_euclid(&y).to_u32_digits();
    Int { neg: s == Sign::Minus, mag }
}

/// Relies on `num_integer::Integer::gcd` for `BigInt`: the greatest common divisor,
/// never negative.
#[verifier::external_body]
pub(crate) fn int_gcd(a: &Int, b: &Int) -> (r: Int)
    ensures
        r.value() == gcd(abs(a.value()), abs(b.value())),
{
    let x = BigInt::from_slice(if a.neg { Sign::Minus } else { Sign::Plus }, &a.mag);
    let y = BigInt::from_slice(if b.neg { Sign::Minus } else { Sign::Plus }, &b.mag);
    let (s, mag) = x.gcd(&y).to_u32_digits();
    Int { neg: s == Sign::Minus, mag }
}

/// Relies on `<` on `BigInt`.
#[verifier::external_body]
pub(crate) fn int_lt(a: &Int, b: &Int) -> (r: bool)
    ensures
        r == (a.value() < b.value()),
{
    let x = BigInt::from_slice(if a.neg { Sign::Minus } else { Sign::Plus }, &a.mag);
    let y = BigInt::from_slice(if b.neg { Sign::Minus } else { Sign::Plus }, &b.mag);
    x < y
}

/// Relies on `==` on `BigInt`.
#[verifier::external_body]
pub(crate) fn int_eq(a: &Int, b: &Int) -> (r: bool)
    ensures
        r == (a.value() == b.value()),
{
    let x = BigInt::from_slice(if a.neg { Sign::Minus } else { Sign::Plus }, &a.mag);
    let y = BigInt::from_slice(if b.neg { Sign::Minus } else { Sign::Plus }, &b.mag);
    x == y
}

/// Relies on `num_integer::Integer::mod_floor` for `BigInt` and `ToPrimitive::to_u64`:
/// the residue modulo `RESIDUE_MOD`, which is in `0 .. RESIDUE_MOD` and so fits.
#[verifier::external_body]
pub(crate) fn int_residue(a: &Int) -> (r: u64)
    ensures
        r == a.value() % (RESIDUE_MOD as int),
{
    let x = BigInt::from_slice(if a.neg { Sign::Minus } else { Sign::Plus }, &a.mag);
    x.mod_floor(&BigInt::from(RESIDUE_MOD)).to_u64().unwrap_or(0)
}

/// Relies on `BigUint::to_str_radix(10)` on the magnitude: its decimal digits.
#[verifier::external_body]
pub(crate) fn int_decimal(a: &Int) -> (r: Vec<u8>)
    ensures
        r@ == digits(abs(a.value())),
{
    let x = BigInt::from_slice(if a.neg { Sign::Minus } else { Sign::Plus }, &a.mag);
    x.magnitude().to_str_radix(10).into_bytes()
}

} // verus!
