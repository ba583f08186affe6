//! The space the arcs live in: the topology (quantum size) of the 32-bit
//! ring, absolute locations, quantized offsets, and powers of two.

use vstd::prelude::*;

verus! {

use vstd::arithmetic::power2::{lemma_pow2_unfold, lemma_pow2_strictly_increases, lemma2_to64};

/// Number of values that a `u32` can represent: the size of the ring.
pub const U32_LEN: u64 = 0x1_0000_0000;

/// `2^e`, as a mathematical natural.
pub open spec fn pow2_nat(e: nat) -> nat {
    vstd::arithmetic::power2::pow2(e)
}

/// `2^min(p, 31)`: the value the executable `pow2` computes, clamped so it
/// always fits in a `u32`.
pub open spec fn pow2_clamped(p: u8) -> nat {
    if p < 31 {
        pow2_nat(p as nat)
    } else {
        pow2_nat(31)
    }
}

/// Convenience method for taking the power of 2 in u32. Powers of 32 and
/// above are clamped to 31, since `2^32` does not fit in a `u32`.
pub fn pow2(p: u8) -> (r: u32)
    ensures
        r as nat == pow2_clamped(p),
        1 <= r,
{
    let e: u8 = if p < 31 {
        p
    } else {
        31
    };
    let mut r: u32 = 1;
    let mut i: u8 = 0;
    proof {
        lemma2_to64();
    }
    while i < e
        invariant
            i <= e,
            e <= 31,
            r as nat == pow2_nat(i as nat),
        decreases e - i,
    {
        proof {
            lemma_pow2_strictly_increases(i as nat, 31);
            lemma2_to64();
            lemma_pow2_unfold((i + 1) as nat);
        }
        r = r * 2;
        i = i + 1;
    }
    r
}

/// The topology of the space: how wide the smallest addressable bucket
/// (the quantum) is. `quantum` is always `2^quantum_power`.
#[derive(Clone, Copy, PartialEq, Eq, Structural)]
pub struct Topology {
    /// Bucket width in absolute units.
    pub quantum: u32,
    /// The base-2 logarithm of `quantum`.
    pub quantum_power: u8,
}

impl Topology {
    /// The topology's invariant: the quantum is the claimed power of two.
    pub open spec fn wf(self) -> bool {
        self.quantum_power <= 31 && self.quantum as nat == pow2_nat(self.quantum_power as nat)
    }

    /// A topology whose quantum is a single absolute unit.
    pub fn unit_zero() -> (t: Topology)
        ensures
            t.wf(),
            t.quantum == 1,
            t.quantum_power == 0,
    {
        proof {
            lemma2_to64();
        }
        Topology { quantum: 1, quantum_power: 0 }
    }

    /// The standard topology: buckets of `2^12` absolute units.
    pub fn standard() -> (t: Topology)
        ensures
            t.wf(),
            t.quantum == 4096,
            t.quantum_power == 12,
    {
        proof {
            lemma2_to64();
        }
        Topology { quantum: 4096, quantum_power: 12 }
    }

    /// The standard topology, as used for a full epoch of history.
    pub fn standard_epoch_full() -> (t: Topology)
        ensures
            t.wf(),
            t.quantum == 4096,
            t.quantum_power == 12,
    {
        Topology::standard()
    }

    /// The lowest quantization power an arc may use.
    pub fn min_power(&self) -> (r: u8)
        ensures
            r == 0,
    {
        0
    }
}

/// An absolute location on the 32-bit ring.
#[derive(Clone, Copy, Debug, PartialEq, Eq, Hash, Structural)]
pub struct Loc(pub u32);

impl Loc {
    /// The raw ring coordinate.
    pub fn as_u32(&self) -> (r: u32)
        ensures
            r == self.0,
    {
        self.0
    }
}

impl From<u32> for Loc {
    fn from(x: u32) -> (r: Loc) {
        Loc(x)
    }
}

impl vstd::std_specs::convert::FromSpecImpl<u32> for Loc {
    open spec fn obeys_from_spec() -> bool {
        true
    }

    open spec fn from_spec(x: u32) -> Loc {
        Loc(x)
    }
}

/// A quantized offset: a count of chunks from the origin of the ring, at
/// some power known from context.
#[derive(Clone, Copy, Debug, PartialEq, Eq, Hash, Structural)]
pub struct SpaceOffset(pub u32);

impl SpaceOffset {
    /// The raw chunk count.
    pub fn as_u32(&self) -> (r: u32)
        ensures
            r == self.0,
    {
        self.0
    }
}

impl From<u32> for SpaceOffset {
    fn from(x: u32) -> (r: SpaceOffset) {
        SpaceOffset(x)
    }
}

impl vstd::std_specs::convert::FromSpecImpl<u32> for SpaceOffset {
    open spec fn obeys_from_spec() -> bool {
        true
    }

    open spec fn from_spec(x: u32) -> SpaceOffset {
        SpaceOffset(x)
    }
}

/// One chunk of the quantized grid: a power and the chunk's offset at that
/// power.
#[derive(Clone, Copy, Debug, PartialEq, Eq, Hash, Structural)]
pub struct SpaceSegment {
    /// The quantization level of this segment.
    pub power: u8,
    /// Which chunk, at that level.
    pub offset: u32,
}

impl SpaceSegment {
    /// Constructor from individual parts.
    pub fn new(power: u8, offset: u32) -> (r: SpaceSegment)
        ensures
            r.power == power,
            r.offset == offset,
    {
        SpaceSegment { power, offset }
    }
}

} // verus!
