//! Absolute (un-quantized) intervals of the 32-bit ring: the coordinate
//! system the quantized arcs project into.

use vstd::prelude::*;

verus! {

use crate::spacetime::{Loc, U32_LEN};

/// A contiguous interval of the ring in absolute coordinates. A `Bounded`
/// range is inclusive on both edges; a right edge numerically below the
/// left edge denotes wraparound coverage, not an empty range.
#[derive(Clone, Copy, Debug, PartialEq, Eq, Structural)]
pub enum DhtArcRange {
    /// No coverage at all.
    Empty,
    /// The whole ring.
    Full,
    /// Everything from the first location to the second, inclusive,
    /// walking the ring upward (wrapping past zero if needed).
    Bounded(Loc, Loc),
}

/// How many locations a range covers.
pub open spec fn range_length_spec(r: DhtArcRange) -> int {
    match r {
        DhtArcRange::Empty => 0,
        DhtArcRange::Full => U32_LEN as int,
        DhtArcRange::Bounded(lo, hi) => ((hi.0 - lo.0) % (U32_LEN as int)) + 1,
    }
}

impl DhtArcRange {
    /// Constructor for the inclusive range between two edges.
    pub fn from_bounds(a: Loc, b: Loc) -> (r: DhtArcRange)
        ensures
            r == DhtArcRange::Bounded(a, b),
    {
        DhtArcRange::Bounded(a, b)
    }

    /// The number of locations this range covers.
    pub fn length(&self) -> (r: u64)
        ensures
            r as int == range_length_spec(*self),
    {
        match self {
            DhtArcRange::Empty => 0,
            DhtArcRange::Full => U32_LEN,
            DhtArcRange::Bounded(lo, hi) => {
                if lo.0 <= hi.0 {
                    (hi.0 as u64) - (lo.0 as u64) + 1
                } else {
                    U32_LEN - (lo.0 as u64) + (hi.0 as u64) + 1
                }
            },
        }
    }

    /// Whether this is the empty range.
    pub fn is_empty(&self) -> (r: bool)
        ensures
            r == (*self matches DhtArcRange::Empty),
    {
        match self {
            DhtArcRange::Empty => true,
            _ => false,
        }
    }

    /// Whether this is the full ring.
    pub fn is_full(&self) -> (r: bool)
        ensures
            r == (*self matches DhtArcRange::Full),
    {
        match self {
            DhtArcRange::Full => true,
            _ => false,
        }
    }
}

/// How long an arc with the given half-length is: a half-length counts the
/// center location once, so the full length is one less than double it,
/// capped at the whole ring.
pub open spec fn half_to_full_len_spec(half_len: u32) -> int {
    if half_len == 0 {
        0
    } else if 2 * half_len - 1 > U32_LEN {
        U32_LEN as int
    } else {
        2 * half_len - 1
    }
}

/// An absolute arc with a definite start location: the un-quantized
/// counterpart of a located arq.
#[derive(Clone, Copy, Debug, PartialEq, Eq, Structural)]
pub struct DhtArc {
    /// The left edge, in absolute coordinates.
    pub start: Loc,
    /// How many locations the arc covers, walking upward from `start`;
    /// at most the whole ring.
    pub len: u64,
}

impl DhtArc {
    /// Constructor from the left edge and the covered length.
    pub fn from_start_and_len(start: Loc, len: u64) -> (r: DhtArc)
        ensures
            r.start == start,
            r.len == len,
    {
        DhtArc { start, len }
    }

    /// Constructor from the center-counting half-length convention.
    pub fn from_start_and_half_len(start: Loc, half_len: u32) -> (r: DhtArc)
        ensures
            r.start == start,
            r.len as int == half_to_full_len_spec(half_len),
    {
        let len: u64 = if half_len == 0 {
            0
        } else {
            let d = 2 * (half_len as u64) - 1;
            if d > U32_LEN {
                U32_LEN
            } else {
                d
            }
        };
        DhtArc { start, len }
    }

    /// The left edge.
    pub fn start_loc(&self) -> (r: Loc)
        ensures
            r == self.start,
    {
        self.start
    }

    /// The covered length.
    pub fn length(&self) -> (r: u64)
        ensures
            r == self.len,
    {
        self.len
    }
}

} // verus!
