//! Byte offsets into the concatenation of all loaded sources, and spans of them.

use crate::text::{decimal, decimal_string};
use core::cmp::Ordering;
use vstd::prelude::*;
use vstd::string::*;

verus! {

/// A byte offset into the global text formed by all sources, one after the other.
#[derive(Debug, Clone, Copy, PartialEq, Eq, Structural, PartialOrd, Ord, Hash)]
pub struct Offset(pub u32);

impl Offset {
    /// The offset `len` bytes further on.
    pub fn advanced_by(self, len: u32) -> (r: Offset)
        requires
            self.0 + len <= u32::MAX,
        ensures
            r.0 == self.0 + len,
    {
        Offset(self.0 + len)
    }

    /// How far this offset lies past `other`, as an offset.
    pub fn minus(self, other: Offset) -> (r: Offset)
        requires
            other.0 <= self.0,
        ensures
            r.0 == self.0 - other.0,
    {
        Offset(self.0 - other.0)
    }

    /// The offset `len` bytes earlier, or zero when there are fewer before it.
    pub fn saturating_sub(self, len: u32) -> (r: Offset)
        ensures
            r.0 == (if self.0 >= len { self.0 - len } else { 0 }),
    {
        if self.0 >= len {
            Offset(self.0 - len)
        } else {
            Offset(0)
        }
    }
}

/// How a span is written: its first offset, `..`, and its end.
pub open spec fn location_text(loc: Location) -> Seq<char> {
    decimal(loc.lo() as nat) + ".."@ + decimal(loc.hi() as nat)
}

/// A half-open span `[start, end)` of byte offsets.
#[derive(Debug, Clone, Copy, PartialEq, Eq, Structural)]
pub struct Location {
    start: Offset,
    end: Offset,
}

impl Location {
    #[verifier::type_invariant]
    spec fn ordered(self) -> bool {
        self.start.0 <= self.end.0
    }

    /// First byte of the span.
    pub closed spec fn lo(self) -> u32 {
        self.start.0
    }

    /// One past the last byte of the span.
    pub closed spec fn hi(self) -> u32 {
        self.end.0
    }

    /// Spans with the same first byte and the same end are the same span.
    pub proof fn lemma_same_bounds(a: Location, b: Location)
        requires
            a.lo() == b.lo(),
            a.hi() == b.hi(),
        ensures
            a == b,
    {
    }

    /// The span of `len` bytes that starts at `start`.
    pub fn new(start: Offset, len: u32) -> (r: Location)
        requires
            start.0 + len <= u32::MAX,
        ensures
            r.lo() == start.0,
            r.hi() == start.0 + len,
    {
        Location { start, end: Offset(start.0 + len) }
    }

    /// The first byte of the span.
    pub fn start(&self) -> (r: Offset)
        ensures
            r.0 == self.lo(),
            self.lo() <= self.hi(),
    {
        proof {
            use_type_invariant(self);
        }
        self.start
    }

    /// One past the last byte of the span.
    pub fn end(&self) -> (r: Offset)
        ensures
            r.0 == self.hi(),
            self.lo() <= self.hi(),
    {
        proof {
            use_type_invariant(self);
        }
        self.end
    }

    /// The first byte of the span.
    pub fn get_start(&self) -> (r: Offset)
        ensures
            r.0 == self.lo(),
            self.lo() <= self.hi(),
    {
        self.start()
    }

    /// One past the last byte of the span.
    pub fn get_end(&self) -> (r: Offset)
        ensures
            r.0 == self.hi(),
            self.lo() <= self.hi(),
    {
        self.end()
    }

    /// The number of bytes in the span.
    pub fn get_len(&self) -> (r: u32)
        ensures
            r == self.hi() - self.lo(),
    {
        proof {
            use_type_invariant(self);
        }
        self.end.0 - self.start.0
    }

    /// Whether the span covers no byte.
    pub fn is_empty(&self) -> (r: bool)
        ensures
            r == (self.lo() == self.hi()),
    {
        self.start.0 == self.end.0
    }

    /// The span written as `start..end`.
    pub fn to_string(&self) -> (r: String)
        ensures
            r@ == location_text(*self),
    {
        let mut r = decimal_string(self.start.0);
        r.append("..");
        let end = decimal_string(self.end.0);
        r.append(end.as_str());
        r
    }

    /// Whether the byte at `offset` lies inside the span.
    pub fn contains(&self, offset: u32) -> (r: bool)
        ensures
            r == (self.lo() <= offset < self.hi()),
    {
        self.start.0 <= offset && offset < self.end.0
    }

    /// Where the span lies relative to the byte at `offset`: `Greater` when it
    /// starts after it, `Less` when it ends at or before it, `Equal` when it
    /// holds it.
    pub fn compare_to(&self, offset: u32) -> (r: Ordering)
        ensures
            r == (if self.lo() > offset {
                Ordering::Greater
            } else if self.hi() <= offset {
                Ordering::Less
            } else {
                Ordering::Equal
            }),
    {
        if self.start.0 > offset {
            Ordering::Greater
        } else if self.end.0 <= offset {
            Ordering::Less
        } else {
            Ordering::Equal
        }
    }
}

} // verus!
