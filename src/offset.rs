//! Unrolling depths, and the time span of a formula.

use vstd::prelude::*;

verus! {

/// Largest depth an offset can hold.
pub const MAX_OFFSET: u16 = 65535;

/// A bounded, non-negative unrolling depth.
#[derive(Debug, Clone, Copy, PartialEq, Eq, Structural, PartialOrd, Ord, Hash)]
pub struct Offset {
    offset: u16,
}

impl Offset {
    /// The depth, as a number.
    pub closed spec fn value(self) -> nat {
        self.offset as nat
    }

    /// The depth as an integer.
    pub fn to_int(&self) -> (r: u16)
        ensures
            r == self.value(),
    {
        self.offset
    }

    /// The offset of depth `n`.
    pub fn of_int(n: usize) -> (r: Offset)
        requires
            n <= MAX_OFFSET,
        ensures
            r.value() == n,
    {
        Offset { offset: n as u16 }
    }

    /// The offset following this one.
    pub fn nxt(&self) -> (r: Offset)
        requires
            self.value() < MAX_OFFSET,
        ensures
            r.value() == self.value() + 1,
    {
        Offset { offset: self.offset + 1 }
    }
}

/// Offsets of the same depth are the same offset.
pub proof fn lemma_offset_eq(a: Offset, b: Offset)
    requires
        a.value() == b.value(),
    ensures
        a == b,
{
}

/// Well-formed pairs of offsets at the same depth are the same pair.
pub proof fn lemma_offset2_eq(a: Offset2, b: Offset2)
    requires
        a.wf(),
        b.wf(),
        a.depth() == b.depth(),
    ensures
        a == b,
{
}

/// Whether a byte is an ASCII decimal digit.
pub open spec fn is_digit(b: u8) -> bool {
    48 <= b <= 57
}

/// The number that the first `n` bytes of `s` denote in decimal.
pub open spec fn decimal(s: Seq<u8>, n: int) -> int
    decreases n,
{
    if n <= 0 {
        0
    } else {
        decimal(s, n - 1) * 10 + (s[n - 1] - 48)
    }
}

proof fn lemma_decimal_mono(s: Seq<u8>, i: int, j: int)
    requires
        0 <= i <= j <= s.len(),
        forall|k: int| 0 <= k < s.len() ==> is_digit(#[trigger] s[k]),
    ensures
        0 <= decimal(s, i) <= decimal(s, j),
    decreases j - i,
{
    if i < j {
        lemma_decimal_mono(s, i, j - 1);
        assert(is_digit(s[j - 1]));
    } else {
        lemma_decimal_nonneg(s, i);
    }
}

proof fn lemma_decimal_nonneg(s: Seq<u8>, n: int)
    requires
        0 <= n <= s.len(),
        forall|k: int| 0 <= k < s.len() ==> is_digit(#[trigger] s[k]),
    ensures
        0 <= decimal(s, n),
    decreases n,
{
    if n > 0 {
        lemma_decimal_nonneg(s, n - 1);
        assert(is_digit(s[n - 1]));
    }
}

impl Offset {
    /// The offset written in decimal in `bytes`.
    pub fn of_bytes(bytes: &[u8]) -> (r: Offset)
        requires
            bytes@.len() > 0,
            forall|k: int| 0 <= k < bytes@.len() ==> is_digit(#[trigger] bytes@[k]),
            decimal(bytes@, bytes@.len() as int) <= MAX_OFFSET,
        ensures
            r.value() == decimal(bytes@, bytes@.len() as int),
    {
        let mut acc: u32 = 0;
        let mut i: usize = 0;
        while i < bytes.len()
            invariant
                i <= bytes@.len(),
                forall|k: int| 0 <= k < bytes@.len() ==> is_digit(#[trigger] bytes@[k]),
                decimal(bytes@, bytes@.len() as int) <= MAX_OFFSET,
                acc == decimal(bytes@, i as int),
            decreases bytes@.len() - i,
        {
            proof {
                lemma_decimal_mono(bytes@, i as int + 1, bytes@.len() as int);
                lemma_decimal_mono(bytes@, i as int, i as int);
            }
            acc = acc * 10 + (bytes[i] - 48) as u32;
            i = i + 1;
        }
        Offset { offset: acc as u16 }
    }
}

/// A pair of offsets, current and next, the next one following the current one.
#[derive(Debug, Clone, Copy, PartialEq, Eq, Structural)]
pub struct Offset2 {
    curr: Offset,
    next: Offset,
}

impl Offset2 {
    /// The current depth.
    pub closed spec fn depth(self) -> nat {
        self.curr.value()
    }

    /// The pair is well formed: the next offset follows the current one.
    pub closed spec fn wf(self) -> bool {
        self.next.value() == self.curr.value() + 1
    }

    /// The pair `(0, 1)`.
    pub fn init() -> (r: Offset2)
        ensures
            r.wf(),
            r.depth() == 0,
    {
        Offset2 { curr: Offset::of_int(0), next: Offset::of_int(1) }
    }

    /// The pair following this one.
    pub fn nxt(&self) -> (r: Offset2)
        requires
            self.wf(),
            self.depth() + 2 <= MAX_OFFSET,
        ensures
            r.wf(),
            r.depth() == self.depth() + 1,
    {
        Offset2 { curr: self.curr.nxt(), next: self.next.nxt() }
    }

    /// The current offset.
    pub fn curr(&self) -> (r: Offset)
        ensures
            r.value() == self.depth(),
    {
        self.curr
    }

    /// The next offset.
    pub fn next(&self) -> (r: Offset)
        requires
            self.wf(),
        ensures
            r.value() == self.depth() + 1,
    {
        self.next
    }
}

/// The time span of a formula: no offset, one offset, or two offsets `lo < hi`.
#[derive(Debug, Clone, Copy, PartialEq, Eq, Structural)]
pub enum Smt2Offset {
    No,
    One(Offset),
    Two(Offset, Offset),
}

impl Smt2Offset {
    /// A span of two offsets has its lower one first.
    pub open spec fn wf(self) -> bool {
        match self {
            Smt2Offset::Two(lo, hi) => lo.value() < hi.value(),
            _ => true,
        }
    }

    /// The merge of two spans, `None` when they cannot be combined.
    pub open spec fn spec_merge(self, rhs: Smt2Offset) -> Option<Smt2Offset> {
        if self == rhs {
            Some(rhs)
        } else {
            match (self, rhs) {
                (Smt2Offset::No, _) => Some(rhs),
                (_, Smt2Offset::No) => Some(self),
                (Smt2Offset::One(a), Smt2Offset::One(b)) => if a.value() < b.value() {
                    Some(Smt2Offset::Two(a, b))
                } else {
                    Some(Smt2Offset::Two(b, a))
                },
                (Smt2Offset::Two(lo, hi), Smt2Offset::One(x)) => if x == lo || x == hi {
                    Some(self)
                } else {
                    None
                },
                (Smt2Offset::One(x), Smt2Offset::Two(lo, hi)) => if x == lo || x == hi {
                    Some(rhs)
                } else {
                    None
                },
                _ => None,
            }
        }
    }

    /// `No` for `None`, and `One(o)` for `Some(o)`.
    pub fn of_opt(opt: Option<Offset>) -> (r: Smt2Offset)
        ensures
            r == (match opt {
                None => Smt2Offset::No,
                Some(o) => Smt2Offset::One(o),
            }),
    {
        match opt {
            None => Smt2Offset::No,
            Some(o) => Smt2Offset::One(o),
        }
    }

    /// True iff `self` is `One(o)` and `rhs` is `Two(_, o)`.
    pub fn is_next_of(&self, rhs: &Smt2Offset) -> (r: bool)
        ensures
            r == (match (*self, *rhs) {
                (Smt2Offset::One(a), Smt2Offset::Two(_, b)) => a == b,
                _ => false,
            }),
    {
        match (self, rhs) {
            (Smt2Offset::One(a), Smt2Offset::Two(_, b)) => *a == *b,
            _ => false,
        }
    }

    /// Merges two spans: equal spans and `No` merge trivially, two single offsets make a
    /// span of two, and a span of two absorbs one of its own offsets; all else fails.
    pub fn merge(&self, rhs: &Smt2Offset) -> (r: Option<Smt2Offset>)
        requires
            self.wf(),
            rhs.wf(),
        ensures
            r == self.spec_merge(*rhs),
            r matches Some(m) ==> m.wf(),
    {
        if *self == *rhs {
            return Some(*rhs);
        }
        match (self, rhs) {
            (Smt2Offset::No, _) => Some(*rhs),
            (_, Smt2Offset::No) => Some(*self),
            (Smt2Offset::One(a), Smt2Offset::One(b)) => if a.to_int() < b.to_int() {
                Some(Smt2Offset::Two(*a, *b))
            } else {
                proof {
                    assert(a.value() != b.value());
                }
                Some(Smt2Offset::Two(*b, *a))
            },
            (Smt2Offset::Two(lo, hi), Smt2Offset::One(x)) => if *x == *lo || *x == *hi {
                Some(*self)
            } else {
                None
            },
            (Smt2Offset::One(x), Smt2Offset::Two(lo, hi)) => if *x == *lo || *x == *hi {
                Some(*rhs)
            } else {
                None
            },
            _ => None,
        }
    }
}

} // verus!
