//! The quantized arc type.
//!
//! Arq coordinates are expressed in terms of powers of two: the chunk width
//! an arc is built from is `quantum * 2^power`, and the arc covers `count`
//! consecutive chunks starting at `start`. Boundaries therefore always fall
//! on a grid determined by the power.

use vstd::prelude::*;

verus! {

use crate::spacetime::{Topology, Loc, SpaceOffset, SpaceSegment, pow2, pow2_nat, pow2_clamped,
    U32_LEN};
use crate::arc_range::{DhtArcRange, DhtArc, range_length_spec, half_to_full_len_spec};
use crate::strat::{ArqStrat, floor_log2};
use vstd::arithmetic::power2::{lemma_pow2_pos, lemma_pow2_strictly_increases, lemma2_to64,
    lemma2_to64_rest};
use vstd::arithmetic::div_mod::{lemma_fundamental_div_mod, lemma_small_mod, lemma_mod_bound};
use vstd::arithmetic::mul::{lemma_mul_upper_bound, lemma_mul_nonnegative, lemma_mul_strictly_positive};

/// The product of two ring-sized values fits in a `u64`.
pub proof fn lemma_mul_fits_u64(a: int, b: int)
    requires
        0 <= a <= 0xffff_ffff,
        0 <= b <= 0xffff_ffff,
    ensures
        0 <= a * b <= 0xffff_fffe_0000_0001,
{
    lemma_mul_upper_bound(a, 0xffff_ffff, b, 0xffff_ffff);
    lemma_mul_nonnegative(a, b);
}

/// Reduce an absolute coordinate computation onto the ring.
pub open spec fn ring_mod(x: int) -> int {
    x % 0x1_0000_0000
}

/// The absolute width of one chunk at the given power: `quantum * 2^power`,
/// clamped to stay clear of `u32` overflow.
pub open spec fn chunk_width_spec(dim: Topology, power: u8) -> nat {
    let w = pow2_clamped(power) * (dim.quantum as nat);
    if w > 0x7fff_ffff {
        0x7fff_ffff
    } else {
        w
    }
}

/// The absolute width of one chunk at the given power, as executable code.
pub fn absolute_chunk_width_at(dim: &Topology, power: u8) -> (r: u32)
    requires
        dim.wf(),
    ensures
        r as nat == chunk_width_spec(*dim, power),
        1 <= r,
{
    let base = pow2(power);
    proof {
        lemma_pow2_pos(dim.quantum_power as nat);
        lemma_mul_fits_u64(base as int, dim.quantum as int);
        lemma_mul_strictly_positive(base as int, dim.quantum as int);
    }
    let w64 = (base as u64) * (dim.quantum as u64);
    if w64 > 0x7fff_ffff {
        0x7fff_ffff
    } else {
        w64 as u32
    }
}

/// Represents the start point or "left edge" of an arq.
///
/// This generalizes over the two uses of an arq: one whose start is a
/// definite absolute location (an agent's own arc), and one whose start is
/// a quantized offset that has forgotten which location produced it (the
/// form used for arc-set operations).
pub trait ArqStart: Sized + Copy {
    /// The absolute ring location this start denotes at the given power.
    spec fn loc_of(self, dim: Topology, power: u8) -> u32;

    /// The quantized chunk offset this start denotes at the given power.
    spec fn offset_of(self, dim: Topology, power: u8) -> u32;

    /// What requantizing to a coarser grid by the given factor yields, if
    /// it is exact.
    spec fn up_spec(self, factor: u32) -> Option<Self>;

    /// What requantizing to a finer grid by the given factor yields.
    spec fn down_spec(self, factor: u32) -> Self;

    /// The zero start.
    spec fn zero_spec() -> Self;

    /// Get the absolute location representation.
    fn to_loc(&self, dim: &Topology, power: u8) -> (r: Loc)
        requires
            dim.wf(),
        ensures
            r.0 == self.loc_of(*dim, power),
    ;

    /// Get the quantized offset representation.
    fn to_offset(&self, dim: &Topology, power: u8) -> (r: SpaceOffset)
        requires
            dim.wf(),
        ensures
            r.0 == self.offset_of(*dim, power),
    ;

    /// Requantize to a higher power, using the precalculated multiplicative
    /// factor; `None` if that would lose information.
    fn requantize_up(&self, factor: u32) -> (r: Option<Self>)
        requires
            1 <= factor,
        ensures
            r == self.up_spec(factor),
    ;

    /// Requantize to a lower power, using the precalculated multiplicative
    /// factor.
    fn requantize_down(&self, factor: u32) -> (r: Self)
        requires
            1 <= factor,
        ensures
            r == self.down_spec(factor),
    ;

    /// Zero value.
    fn zero() -> (r: Self)
        ensures
            r == Self::zero_spec(),
    ;

    /// Requantizing up, where it succeeds, is undone exactly by
    /// requantizing back down by the same factor.
    proof fn lemma_up_down(self, factor: u32)
        requires
            1 <= factor,
            self.up_spec(factor) is Some,
        ensures
            self.up_spec(factor)->0.down_spec(factor) == self,
    ;
}

impl ArqStart for Loc {
    open spec fn loc_of(self, dim: Topology, power: u8) -> u32 {
        self.0
    }

    open spec fn offset_of(self, dim: Topology, power: u8) -> u32 {
        ((self.0 as nat) / chunk_width_spec(dim, power)) as u32
    }

    open spec fn up_spec(self, factor: u32) -> Option<Loc> {
        Some(self)
    }

    open spec fn down_spec(self, factor: u32) -> Loc {
        self
    }

    open spec fn zero_spec() -> Loc {
        Loc(0)
    }

    fn to_loc(&self, dim: &Topology, power: u8) -> (r: Loc) {
        *self
    }

    fn to_offset(&self, dim: &Topology, power: u8) -> (r: SpaceOffset) {
        let cw = absolute_chunk_width_at(dim, power);
        SpaceOffset(self.0 / cw)
    }

    fn requantize_up(&self, factor: u32) -> (r: Option<Loc>) {
        Some(*self)
    }

    fn requantize_down(&self, factor: u32) -> (r: Loc) {
        *self
    }

    fn zero() -> (r: Loc) {
        Loc(0)
    }

    proof fn lemma_up_down(self, factor: u32) {
    }
}

impl ArqStart for SpaceOffset {
    open spec fn loc_of(self, dim: Topology, power: u8) -> u32 {
        (((self.0 as nat) * chunk_width_spec(dim, power)) % 0x1_0000_0000) as u32
    }

    open spec fn offset_of(self, dim: Topology, power: u8) -> u32 {
        self.0
    }

    open spec fn up_spec(self, factor: u32) -> Option<SpaceOffset> {
        if self.0 as nat % factor as nat == 0 {
            Some(SpaceOffset((self.0 as nat / factor as nat) as u32))
        } else {
            None
        }
    }

    open spec fn down_spec(self, factor: u32) -> SpaceOffset {
        SpaceOffset((((self.0 as nat) * (factor as nat)) % 0x1_0000_0000) as u32)
    }

    open spec fn zero_spec() -> SpaceOffset {
        SpaceOffset(0)
    }

    fn to_loc(&self, dim: &Topology, power: u8) -> (r: Loc) {
        let cw = absolute_chunk_width_at(dim, power);
        proof {
            lemma_mul_fits_u64(self.0 as int, cw as int);
        }
        let v = ((self.0 as u64) * (cw as u64)) % U32_LEN;
        Loc(v as u32)
    }

    fn to_offset(&self, dim: &Topology, power: u8) -> (r: SpaceOffset) {
        *self
    }

    fn requantize_up(&self, factor: u32) -> (r: Option<SpaceOffset>) {
        if self.0 % factor == 0 {
            Some(SpaceOffset(self.0 / factor))
        } else {
            None
        }
    }

    fn requantize_down(&self, factor: u32) -> (r: SpaceOffset) {
        proof {
            lemma_mul_fits_u64(self.0 as int, factor as int);
        }
        let v = ((self.0 as u64) * (factor as u64)) % U32_LEN;
        SpaceOffset(v as u32)
    }

    fn zero() -> (r: SpaceOffset) {
        SpaceOffset(0)
    }

    proof fn lemma_up_down(self, factor: u32) {
        let q = self.0 as int / factor as int;
        vstd::arithmetic::div_mod::lemma_div_nonincreasing(self.0 as int, factor as int);
        vstd::arithmetic::div_mod::lemma_div_pos_is_pos(self.0 as int, factor as int);
        let u = self.up_spec(factor)->0;
        assert(u.0 as int == q);
        lemma_fundamental_div_mod(self.0 as int, factor as int);
        assert(u.0 as int * factor as int == self.0 as int);
        lemma_small_mod(self.0 as nat, 0x1_0000_0000);
    }
}

/// A quantized arc: `count` chunks of width `quantum * 2^power`, starting
/// at `start`, on the 32-bit ring.
///
/// The power must stay below 32 (a power of 32 would overflow the 32-bit
/// width calculation); that bound is carried by the contracts that need it.
#[derive(Clone, Copy, Debug, PartialEq, Eq)]
pub struct Arq<S: ArqStart> {
    /// The "start" defines the left edge of the arq.
    pub start: S,
    /// The level of quantization. Total length is `quantum * 2^power * count`.
    pub power: u8,
    /// The number of chunks.
    pub count: u32,
}

/// Alias for an arq anchored at a definite absolute location.
pub type ArqLocated = Arq<Loc>;

/// Alias for an arq whose start is a location-forgetting quantized offset.
pub type ArqBounds = Arq<SpaceOffset>;

/// Whether a power/count combination covers the whole ring.
///
/// Power 0 is never full by construction; a power of 32 or more is always
/// full (a single chunk would already overflow the ring). Otherwise the
/// arc is full when `count` reaches `2^(32 - quantum_power - power)`.
pub open spec fn is_full_spec(dim: Topology, power: u8, count: u32) -> bool {
    let max: u8 = if dim.quantum_power <= 32 {
        (32 - dim.quantum_power) as u8
    } else {
        0
    };
    if power == 0 {
        false
    } else if power >= 32 {
        true
    } else {
        count as nat >= pow2_clamped(if power <= max {
            (max - power) as u8
        } else {
            0
        })
    }
}

/// Calculate whether a given combination of power and count corresponds to
/// full coverage of the ring.
pub fn is_full(dim: &Topology, power: u8, count: u32) -> (r: bool)
    requires
        dim.wf(),
    ensures
        r == is_full_spec(*dim, power, count),
{
    let max: u8 = if dim.quantum_power <= 32 {
        32 - dim.quantum_power
    } else {
        0
    };
    if power == 0 {
        false
    } else if power >= 32 {
        true
    } else {
        let e: u8 = if power <= max {
            max - power
        } else {
            0
        };
        count >= pow2(e)
    }
}

/// The absolute length of an arq with the given power and count: chunk
/// width times count, capped at the whole ring.
pub open spec fn arq_length_spec(dim: Topology, power: u8, count: u32) -> int {
    let len = chunk_width_spec(dim, power) * count;
    if len > 0x1_0000_0000 {
        0x1_0000_0000
    } else {
        len as int
    }
}

impl<S: ArqStart> Arq<S> {
    /// Constructor from individual parts.
    pub fn new(power: u8, start: S, count: u32) -> (r: Self)
        ensures
            r.power == power,
            r.start == start,
            r.count == count,
    {
        Arq { power, start, count }
    }

    /// The number of quanta each chunk spans.
    fn quantum_chunk_width(&self) -> (r: u32)
        ensures
            r as nat == pow2_clamped(self.power),
    {
        pow2(self.power)
    }

    /// The absolute length of each chunk.
    pub(crate) fn absolute_chunk_width(&self, dim: &Topology) -> (r: u32)
        requires
            dim.wf(),
        ensures
            r as nat == chunk_width_spec(*dim, self.power),
            1 <= r,
    {
        absolute_chunk_width_at(dim, self.power)
    }

    /// The absolute length of the entire arq.
    pub fn absolute_length(&self, dim: &Topology) -> (r: u64)
        requires
            dim.wf(),
        ensures
            r as int == arq_length_spec(*dim, self.power, self.count),
    {
        let cw = self.absolute_chunk_width(dim);
        proof {
            lemma_mul_fits_u64(cw as int, self.count as int);
        }
        let len = (cw as u64) * (self.count as u64);
        if len > U32_LEN {
            U32_LEN
        } else {
            len
        }
    }

    /// Accessor.
    pub fn power(&self) -> (r: u8)
        ensures
            r == self.power,
    {
        self.power
    }

    /// Accessor.
    pub fn count(&self) -> (r: u32)
        ensures
            r == self.count,
    {
        self.count
    }

    /// This arq has full coverage.
    pub fn is_full(&self, dim: &Topology) -> (r: bool)
        requires
            dim.wf(),
        ensures
            r == is_full_spec(*dim, self.power, self.count),
    {
        is_full(dim, self.power, self.count)
    }

    /// This arq has zero coverage.
    pub fn is_empty(&self) -> (r: bool)
        ensures
            r == (self.count == 0),
    {
        self.count == 0
    }

    /// Determine the edges of this arq in absolute coordinates.
    pub fn to_edge_locs(&self, dim: &Topology) -> (r: (Loc, Loc))
        requires
            dim.wf(),
        ensures
            r.0.0 == left_edge_spec(*self, *dim),
            r.1.0 == right_edge_spec(*self, *dim),
    {
        let cw = self.absolute_chunk_width(dim);
        let off = self.start.to_offset(dim, self.power);
        proof {
            lemma_mul_fits_u64(off.0 as int, cw as int);
            lemma_mul_upper_bound(self.count as int, 0xffff_ffff, cw as int, 0x7fff_ffff);
            lemma_mul_nonnegative(self.count as int, cw as int);
        }
        let left = ((off.0 as u64) * (cw as u64)) % U32_LEN;
        let total = left + (self.count as u64) * (cw as u64);
        let right = (total + (U32_LEN - 1)) % U32_LEN;
        proof {
            vstd::arithmetic::div_mod::lemma_mod_add_multiples_vanish(
                left as int + self.count as int * cw as int - 1,
                0x1_0000_0000,
            );
        }
        (Loc(left as u32), Loc(right as u32))
    }

    /// Convert to the absolute-interval representation.
    pub fn to_dht_arc_range(&self, dim: &Topology) -> (r: DhtArcRange)
        requires
            dim.wf(),
        ensures
            r == to_range_spec(*self, *dim),
    {
        if is_full(dim, self.power, self.count) {
            DhtArcRange::Full
        } else if self.count == 0 {
            DhtArcRange::Empty
        } else {
            let (a, b) = self.to_edge_locs(dim);
            DhtArcRange::from_bounds(a, b)
        }
    }

    /// Convert to the absolute-interval representation using the standard
    /// topology.
    pub fn to_dht_arc_range_std(&self) -> (r: DhtArcRange)
        ensures
            r == to_range_spec(*self, standard_topology()),
    {
        let dim = Topology::standard();
        self.to_dht_arc_range(&dim)
    }

    /// Requantize to a different power. Requantizing to a higher power
    /// succeeds only if no information would be lost to rounding; then the
    /// count divides exactly and the start sits on the coarser grid.
    /// Requantizing to a lower power always succeeds.
    pub fn requantize(&self, new_power: u8) -> (r: Option<Self>)
        requires
            self.power < 32,
            new_power < 32,
            new_power <= self.power ==> self.count as nat * pow2_clamped(
                (self.power - new_power) as u8,
            ) <= 0xffff_ffff,
        ensures
            r == requantize_spec(*self, new_power),
    {
        if self.power < new_power {
            let factor = pow2(new_power - self.power);
            match self.start.requantize_up(factor) {
                Some(start) => {
                    proof {
                        lemma_fundamental_div_mod(self.count as int, factor as int);
                        lemma_mod_bound(self.count as int, factor as int);
                        vstd::arithmetic::mul::lemma_mul_is_commutative(
                            self.count as int / factor as int,
                            factor as int,
                        );
                        assert((self.count as int / factor as int) * factor as int
                            <= self.count as int);
                    }
                    let new_count = self.count / factor;
                    if self.count == new_count * factor {
                        Some(Arq { start, power: new_power, count: new_count })
                    } else {
                        None
                    }
                },
                None => None,
            }
        } else {
            let factor = pow2(self.power - new_power);
            let start = self.start.requantize_down(factor);
            Some(Arq { start, power: new_power, count: self.count * factor })
        }
    }

    /// Construct a full arq at the given power; the count is calculated
    /// accordingly.
    pub fn new_full(dim: &Topology, start: S, power: u8) -> (r: Self)
        requires
            dim.wf(),
            1 <= power < 32,
        ensures
            r.start == start,
            r.power == power,
            r.count as nat == pow2_clamped(full_count_exp(*dim, power)),
            is_full_spec(*dim, power, r.count),
    {
        let e: u8 = if power + dim.quantum_power <= 32 {
            32 - power - dim.quantum_power
        } else {
            0
        };
        let count = pow2(e);
        proof {
            lemma2_to64();
        }
        Arq { start, power, count }
    }

    /// Construct a full arq at the highest power the strategy admits.
    pub fn new_full_max(dim: &Topology, strat: &ArqStrat, start: S) -> (r: Self)
        requires
            dim.wf(),
            strat.wf(),
            dim.quantum_power + floor_log2(strat.max_chunks as nat) <= 31,
        ensures
            r.start == start,
            1 <= r.power < 32,
            is_full_spec(*dim, r.power, r.count),
    {
        proof {
            let m = strat.max_chunks as nat;
            assert(floor_log2(m) == 1 + floor_log2(m / 2));
            assert(floor_log2(m / 2) == 1 + floor_log2(m / 4));
        }
        let power = dim.max_power(strat);
        Self::new_full(dim, start, power)
    }
}

/// The exponent of the count that exactly fills the ring at a power:
/// `32 - power - quantum_power`, saturated at zero.
pub open spec fn full_count_exp(dim: Topology, power: u8) -> u8 {
    if power + dim.quantum_power <= 32 {
        (32 - power - dim.quantum_power) as u8
    } else {
        0
    }
}

/// The standard topology as a spec value.
pub open spec fn standard_topology() -> Topology {
    Topology { quantum: 4096, quantum_power: 12 }
}

/// The absolute left edge of an arq: its quantized offset scaled by the
/// chunk width, reduced to the ring.
pub open spec fn left_edge_spec<S: ArqStart>(a: Arq<S>, dim: Topology) -> int {
    ring_mod(a.start.offset_of(dim, a.power) as int * chunk_width_spec(dim, a.power) as int)
}

/// The absolute right (inclusive) edge of an arq.
pub open spec fn right_edge_spec<S: ArqStart>(a: Arq<S>, dim: Topology) -> int {
    ring_mod(left_edge_spec(a, dim) + a.count as int * chunk_width_spec(dim, a.power) as int - 1)
}

/// The absolute interval an arq denotes: full coverage and emptiness are
/// detected exactly; anything else projects to its two edges.
pub open spec fn to_range_spec<S: ArqStart>(a: Arq<S>, dim: Topology) -> DhtArcRange {
    if is_full_spec(dim, a.power, a.count) {
        DhtArcRange::Full
    } else if a.count == 0 {
        DhtArcRange::Empty
    } else {
        DhtArcRange::Bounded(
            Loc(left_edge_spec(a, dim) as u32),
            Loc(right_edge_spec(a, dim) as u32),
        )
    }
}

impl Arq<Loc> {
    /// Construct an empty arq (count 0) at the minimum power.
    pub fn new_empty(dim: &Topology, start: Loc) -> (r: Self)
        ensures
            r.start == start,
            r.power == 0,
            r.count == 0,
    {
        let power = dim.min_power();
        Arq { start, power, count: 0 }
    }

    /// Reduce the power by 1, doubling the count.
    pub fn downshift(&self) -> (r: Self)
        requires
            1 <= self.power,
            self.count * 2 <= 0xffff_ffff,
        ensures
            r.start == self.start,
            r.power == self.power - 1,
            r.count == self.count * 2,
    {
        Arq { start: self.start, power: self.power - 1, count: self.count * 2 }
    }

    /// Increase the power by 1, halving the count. If this would round,
    /// return `None`, unless `force` is true, in which case the count is
    /// first rounded up to even.
    pub fn upshift(&self, force: bool) -> (r: Option<Self>)
        requires
            self.power < 0xff,
            self.count < 0xffff_ffff,
        ensures
            self.count % 2 == 0 ==> r == Some(
                Arq { start: self.start, power: (self.power + 1) as u8, count: self.count / 2 },
            ),
            self.count % 2 == 1 && force ==> r == Some(
                Arq {
                    start: self.start,
                    power: (self.power + 1) as u8,
                    count: ((self.count + 1) / 2) as u32,
                },
            ),
            self.count % 2 == 1 && !force ==> r is None,
    {
        let count = if force && self.count % 2 == 1 {
            self.count + 1
        } else {
            self.count
        };
        if count % 2 == 0 {
            Some(Arq { start: self.start, power: self.power + 1, count: count / 2 })
        } else {
            None
        }
    }

    /// Convert to the bounds representation, which forgets the absolute
    /// location: the start becomes the chunk offset the location falls in.
    pub fn to_bounds(&self, dim: &Topology) -> (r: ArqBounds)
        requires
            dim.wf(),
        ensures
            r.start.0 as nat == self.start.0 as nat / chunk_width_spec(*dim, self.power),
            r.power == self.power,
            r.count == self.count,
    {
        let cw = self.absolute_chunk_width(dim);
        ArqBounds { start: SpaceOffset(self.start.0 / cw), power: self.power, count: self.count }
    }

    /// Convert to the bounds representation using the standard topology.
    pub fn to_bounds_std(&self) -> (r: ArqBounds)
        ensures
            r.start.0 as nat == self.start.0 as nat / chunk_width_spec(
                standard_topology(),
                self.power,
            ),
            r.power == self.power,
            r.count == self.count,
    {
        let dim = Topology::standard();
        self.to_bounds(&dim)
    }

    /// Get the arq's left edge in absolute coordinates.
    pub fn start_loc(&self) -> (r: Loc)
        ensures
            r == self.start,
    {
        self.start
    }

    /// Get a mutable reference to the arq's count.
    pub fn count_mut(&mut self) -> (r: &mut u32)
        ensures
            *r == old(self).count,
            final(self).count == *final(r),
            final(self).start == old(self).start,
            final(self).power == old(self).power,
    {
        &mut self.count
    }

    /// Convert to an absolute arc with the same start and length.
    pub fn to_dht_arc(&self, dim: &Topology) -> (r: DhtArc)
        requires
            dim.wf(),
        ensures
            r.start == self.start,
            r.len as int == arq_length_spec(*dim, self.power, self.count),
    {
        let len = self.absolute_length(dim);
        DhtArc::from_start_and_len(self.start, len)
    }

    /// Convert to an absolute arc using the standard topology.
    pub fn to_dht_arc_std(&self) -> (r: DhtArc)
        ensures
            r.start == self.start,
            r.len as int == arq_length_spec(standard_topology(), self.power, self.count),
    {
        let dim = Topology::standard();
        self.to_dht_arc(&dim)
    }

    /// The two arqs represent the same interval despite having potentially
    /// different terms: same start, and same total length on the ring.
    pub fn equivalent(dim: &Topology, a: &Self, b: &Self) -> (r: bool)
        requires
            dim.wf(),
        ensures
            r == (a.start == b.start && ring_mod(
                a.count as int * chunk_width_spec(*dim, a.power) as int,
            ) == ring_mod(b.count as int * chunk_width_spec(*dim, b.power) as int)),
    {
        let qa = a.absolute_chunk_width(dim);
        let qb = b.absolute_chunk_width(dim);
        proof {
            lemma_mul_fits_u64(a.count as int, qa as int);
            lemma_mul_fits_u64(b.count as int, qb as int);
        }
        let la = ((a.count as u64) * (qa as u64)) % U32_LEN;
        let lb = ((b.count as u64) * (qb as u64)) % U32_LEN;
        a.start.0 == b.start.0 && la == lb
    }
}

impl Arq<SpaceOffset> {
    /// The two arqs represent the same interval despite having potentially
    /// different terms: both empty, or same scaled start and same scaled
    /// length on the ring.
    pub fn equivalent(dim: &Topology, a: &Self, b: &Self) -> (r: bool)
        requires
            dim.wf(),
        ensures
            r == (a.count == 0 && b.count == 0 || (ring_mod(
                a.start.0 as int * chunk_width_spec(*dim, a.power) as int,
            ) == ring_mod(b.start.0 as int * chunk_width_spec(*dim, b.power) as int) && ring_mod(
                a.count as int * chunk_width_spec(*dim, a.power) as int,
            ) == ring_mod(b.count as int * chunk_width_spec(*dim, b.power) as int))),
    {
        let qa = a.absolute_chunk_width(dim);
        let qb = b.absolute_chunk_width(dim);
        proof {
            lemma_mul_fits_u64(a.start.0 as int, qa as int);
            lemma_mul_fits_u64(b.start.0 as int, qb as int);
            lemma_mul_fits_u64(a.count as int, qa as int);
            lemma_mul_fits_u64(b.count as int, qb as int);
        }
        let sa = ((a.start.0 as u64) * (qa as u64)) % U32_LEN;
        let sb = ((b.start.0 as u64) * (qb as u64)) % U32_LEN;
        let la = ((a.count as u64) * (qa as u64)) % U32_LEN;
        let lb = ((b.count as u64) * (qb as u64)) % U32_LEN;
        a.count == 0 && b.count == 0 || (sa == sb && la == lb)
    }

    /// Upcast to an arq that knows its absolute location, chosen by the
    /// given function from the bounds' own grid-aligned location.
    pub fn to_arq<F: FnOnce(Loc) -> Loc>(&self, dim: &Topology, f: F) -> (r: Arq<Loc>)
        requires
            dim.wf(),
            forall|l: Loc| #[trigger] f.requires((l,)),
        ensures
            f.ensures(
                (Loc(self.start.loc_of(*dim, self.power)),),
                r.start,
            ),
            r.power == self.power,
            r.count == self.count,
    {
        let l = self.start.to_loc(dim, self.power);
        Arq { start: f(l), power: self.power, count: self.count }
    }

    /// Get the arq bounds's offset.
    pub fn offset(&self) -> (r: SpaceOffset)
        ensures
            r == self.start,
    {
        self.start
    }

    /// Each chunk of the arq, in order, as a grid segment; the offsets wrap
    /// around the ring.
    pub fn segments(&self) -> (r: Vec<SpaceSegment>)
        ensures
            r@.len() == self.count,
            forall|i: int|
                0 <= i < self.count ==> r@[i] == (SpaceSegment {
                    power: self.power,
                    offset: ring_mod(self.start.0 + i) as u32,
                }),
    {
        let mut out: Vec<SpaceSegment> = Vec::new();
        let mut c: u32 = 0;
        while c < self.count
            invariant
                c <= self.count,
                out@.len() == c,
                forall|i: int|
                    0 <= i < c ==> out@[i] == (SpaceSegment {
                        power: self.power,
                        offset: ring_mod(self.start.0 + i) as u32,
                    }),
            decreases self.count - c,
        {
            let off = (((c as u64) + (self.start.0 as u64)) % U32_LEN) as u32;
            out.push(SpaceSegment::new(self.power, off));
            c = c + 1;
        }
        out
    }
}

/// The covered length of a bounded absolute interval, handling wraparound.
/// The degenerate all-but-nothing wrap (`lo == hi + 1`) reduces to zero,
/// as the 32-bit arithmetic it models does.
pub open spec fn bounded_len_spec(lo: u32, hi: u32) -> int {
    if lo <= hi {
        hi - lo + 1
    } else {
        (0x1_0000_0000 - lo + hi + 1) % 0x1_0000_0000
    }
}

/// What converting an absolute interval back to bounds at a fixed power
/// yields: the arq, and whether rounding occurred. A bounded interval is
/// lossless only when its left edge sits on the chunk grid and its length
/// is within one unit of an exact multiple of the chunk width; when
/// rounding is not permitted, a lossy interval yields `None`.
pub open spec fn from_interval_spec(
    dim: Topology,
    power: u8,
    interval: DhtArcRange,
    always_round: bool,
) -> Option<(ArqBounds, bool)> {
    match interval {
        DhtArcRange::Empty => Some(
            (Arq { start: SpaceOffset(0), power, count: 0u32 }, false),
        ),
        DhtArcRange::Full => Some(
            (
                Arq {
                    start: SpaceOffset(0),
                    power,
                    count: pow2_clamped(full_count_exp(dim, power)) as u32,
                },
                false,
            ),
        ),
        DhtArcRange::Bounded(l, h) => {
            let s = pow2_clamped(power) * (dim.quantum as nat);
            let offset = (l.0 as nat) / s;
            let len = bounded_len_spec(l.0, h.0);
            let count = len / (s as int);
            let rem = len % (s as int);
            let diff = if rem < s - rem {
                rem
            } else {
                s - rem
            };
            let lossless = l.0 == offset * s && diff <= 1;
            if always_round || lossless {
                Some(
                    (
                        Arq { start: SpaceOffset(offset as u32), power, count: count as u32 },
                        !lossless,
                    ),
                )
            } else {
                None
            }
        },
    }
}

impl Arq<SpaceOffset> {
    fn from_interval_inner(dim: &Topology, power: u8, interval: DhtArcRange, always_round: bool)
        -> (r: Option<(Self, bool)>)
        requires
            dim.wf(),
            interval matches DhtArcRange::Full ==> 1 <= power && power + dim.quantum_power <= 32,
            interval matches DhtArcRange::Bounded(l, h) ==> power + dim.quantum_power <= 31 && !(
            l.0 == 0 && h.0 == 0xffff_ffff),
        ensures
            r == from_interval_spec(*dim, power, interval, always_round),
    {
        match interval {
            DhtArcRange::Empty => Some(
                (Arq { start: SpaceOffset(0), power, count: 0 }, false),
            ),
            DhtArcRange::Full => {
                let e: u8 = 32 - power - dim.quantum_power;
                let full_count = pow2(e);
                Some((Arq { start: SpaceOffset(0), power, count: full_count }, false))
            },
            DhtArcRange::Bounded(l, h) => {
                let lo = l.as_u32();
                let hi = h.as_u32();
                let q = dim.quantum;
                let base = pow2(power);
                proof {
                    vstd::arithmetic::power2::lemma_pow2_adds(
                        power as nat,
                        dim.quantum_power as nat,
                    );
                    lemma_pow2_strictly_increases((power + dim.quantum_power) as nat, 32);
                    lemma2_to64();
                }
                let s = base * q;
                let offset = lo / s;
                let len: u32 = if lo <= hi {
                    hi - lo + 1
                } else {
                    ((U32_LEN - (lo as u64) + (hi as u64) + 1) % U32_LEN) as u32
                };
                let count = len / s;
                let rem = len % s;
                let diff = if rem < s - rem {
                    rem
                } else {
                    s - rem
                };
                proof {
                    lemma_fundamental_div_mod(lo as int, s as int);
                    lemma_mod_bound(lo as int, s as int);
                    vstd::arithmetic::mul::lemma_mul_is_commutative(
                        lo as int / s as int,
                        s as int,
                    );
                }
                let lossless = lo == offset * s && diff <= 1;
                if always_round || lossless {
                    Some((Arq { start: SpaceOffset(offset), power, count }, !lossless))
                } else {
                    None
                }
            },
        }
    }

    /// Return the bounds which most closely match the given interval at
    /// the given power, together with whether rounding occurred.
    pub fn from_interval_rounded(dim: &Topology, power: u8, interval: DhtArcRange)
        -> (r: (Self, bool))
        requires
            dim.wf(),
            interval matches DhtArcRange::Full ==> 1 <= power && power + dim.quantum_power <= 32,
            interval matches DhtArcRange::Bounded(l, h) ==> power + dim.quantum_power <= 31 && !(
            l.0 == 0 && h.0 == 0xffff_ffff),
        ensures
            Some((r.0, r.1)) == from_interval_spec(*dim, power, interval, true),
    {
        Self::from_interval_inner(dim, power, interval, true).unwrap()
    }

    /// Return the bounds which are equivalent to the given interval at the
    /// given power, if the conversion is lossless.
    pub fn from_interval(dim: &Topology, power: u8, interval: DhtArcRange) -> (r: Option<Self>)
        requires
            dim.wf(),
            interval matches DhtArcRange::Full ==> 1 <= power && power + dim.quantum_power <= 32,
            interval matches DhtArcRange::Bounded(l, h) ==> power + dim.quantum_power <= 31 && !(
            l.0 == 0 && h.0 == 0xffff_ffff),
        ensures
            r == match from_interval_spec(*dim, power, interval, false) {
                Some((a, _)) => Some(a),
                None => None::<ArqBounds>,
            },
    {
        match Self::from_interval_inner(dim, power, interval, false) {
            Some((a, _)) => Some(a),
            None => None,
        }
    }

    /// An arbitrary zero-coverage arq at the given power.
    pub fn empty(dim: &Topology, power: u8) -> (r: Self)
        requires
            dim.wf(),
        ensures
            r.start == SpaceOffset(0),
            r.power == power,
            r.count == 0,
    {
        Self::from_interval(dim, power, DhtArcRange::Empty).unwrap()
    }
}

/// Just the size of a quantized arc, without a start location.
#[derive(Clone, Copy, Debug, PartialEq, Eq, Structural)]
pub struct ArqSize {
    /// The power.
    pub power: u8,
    /// The count.
    pub count: u32,
}

impl ArqSize {
    /// Data for an empty arc.
    pub fn empty() -> (r: Self)
        ensures
            r.power == 0,
            r.count == 0,
    {
        ArqSize { power: 0, count: 0 }
    }

    /// Convert to an arq by supplying the start location.
    pub fn to_arq(&self, start: Loc) -> (r: Arq<Loc>)
        ensures
            r.start == start,
            r.power == self.power,
            r.count == self.count,
    {
        Arq::new(self.power, start, self.count)
    }
}

impl ArqSize {
    /// Construct approximate quantized info from an arc half-length, under
    /// the standard topology and the default strategy.
    pub fn from_half_len(half_len: u32) -> (r: ArqSize)
        ensures
            ({
                let a = approximate_arq_spec(
                    standard_topology(),
                    ArqStrat { min_chunks: 8, max_chunks: 16 },
                    Loc(0),
                    half_to_full_len_spec(half_len) as u64,
                );
                r.power == a.power && r.count == a.count
            }),
    {
        let dim = Topology::standard();
        let strat = ArqStrat::default();
        let arq = Arq::from_start_and_half_len_approximate(&dim, &strat, Loc(0), half_len);
        ArqSize::from(arq)
    }
}

impl From<Arq<Loc>> for ArqSize {
    fn from(arq: Arq<Loc>) -> (r: ArqSize) {
        ArqSize { power: arq.power, count: arq.count }
    }
}

impl vstd::std_specs::convert::FromSpecImpl<Arq<Loc>> for ArqSize {
    open spec fn obeys_from_spec() -> bool {
        true
    }

    open spec fn from_spec(arq: Arq<Loc>) -> ArqSize {
        ArqSize { power: arq.power, count: arq.count }
    }
}

/// The chunk count after `k` exact halvings of `c0`, rounded to the
/// nearest integer (halves round up) at the end: `round(c0 / 2^k)`.
pub open spec fn rounded_count(c0: nat, k: nat) -> nat {
    if k == 0 {
        c0
    } else {
        (c0 + pow2_nat((k - 1) as nat)) / pow2_nat(k)
    }
}

/// The least number of halvings, at or above `k`, that brings the rounded
/// count of `c0` within `max`; halted at 34 halvings, which a ring-sized
/// `c0` never reaches.
pub open spec fn fit_power_from(c0: nat, max: nat, k: nat) -> nat
    decreases 34 - k,
{
    if k >= 34 || rounded_count(c0, k) <= max {
        k
    } else {
        fit_power_from(c0, max, k + 1)
    }
}

/// The least number of halvings that brings the rounded count of `c0`
/// within `max`: the power chosen by the approximate fit.
pub open spec fn fit_power(c0: nat, max: nat) -> nat {
    fit_power_from(c0, max, 0)
}

/// Calculate the unique pairing of power and count implied by a given
/// length and max number of chunks: the count is repeatedly halved, with
/// rounding, until it fits the budget. Gives the nearest value that
/// satisfies the constraints, but may not be exact.
pub fn power_and_count_from_length(dim: &Topology, len: u64, max_chunks: u32) -> (r: ArqSize)
    requires
        dim.wf(),
        len <= U32_LEN,
        1 <= max_chunks,
    ensures
        r.power as nat == fit_power((len / (dim.quantum as u64)) as nat, max_chunks as nat),
        r.count as nat == rounded_count((len / (dim.quantum as u64)) as nat, r.power as nat),
        r.count <= max_chunks,
        forall|j: nat|
            j < r.power ==> #[trigger] rounded_count((len / (dim.quantum as u64)) as nat, j)
                > max_chunks,
{
    proof {
        lemma_pow2_pos(dim.quantum_power as nat);
    }
    let c0 = len / (dim.quantum as u64);
    let mut power: u8 = 0;
    let mut w: u64 = 1;
    let mut count: u64 = c0;
    proof {
        lemma2_to64();
        lemma2_to64_rest();
    }
    while count > max_chunks as u64
        invariant
            c0 <= 0x1_0000_0000,
            w as nat == pow2_nat(power as nat),
            count as nat == rounded_count(c0 as nat, power as nat),
            power <= 33,
            fit_power(c0 as nat, max_chunks as nat) == fit_power_from(
                c0 as nat,
                max_chunks as nat,
                power as nat,
            ),
            forall|j: nat| j < power ==> #[trigger] rounded_count(c0 as nat, j) > max_chunks,
            1 <= max_chunks,
        decreases 34 - power,
    {
        proof {
            lemma2_to64();
            lemma2_to64_rest();
            // count exceeds the budget, so fewer than 33 halvings have
            // happened: after 33 the rounded count is at most 1.
            if power >= 33 {
                assert(rounded_count(c0 as nat, 33) <= 1) by {
                    vstd::arithmetic::div_mod::lemma_multiply_divide_lt(
                        c0 + pow2_nat(32),
                        pow2_nat(33) as int,
                        2,
                    );
                }
                assert(false);
            }
            lemma_pow2_strictly_increases((power + 1) as nat, 34);
            vstd::arithmetic::power2::lemma_pow2_unfold((power + 1) as nat);
        }
        power = power + 1;
        w = w * 2;
        count = (c0 + w / 2) / w;
    }
    proof {
        // the loop has stopped at the least adequate power
        assert(fit_power_from(c0 as nat, max_chunks as nat, power as nat) == power);
    }
    ArqSize { power, count: count as u32 }
}

/// Calculate the highest power and lowest count such that the given
/// length is represented exactly: the power absorbs the length's trailing
/// zero bits, and the count is then doubled (lowering the power) until it
/// reaches `min_chunks`. If the length is not representable even at the
/// quantum level, return `None`.
pub fn power_and_count_from_length_exact(dim: &Topology, len: u64, min_chunks: u32)
    -> (r: Option<ArqSize>)
    requires
        dim.wf(),
        1 <= len <= U32_LEN,
        1 <= min_chunks <= 0x8000_0000,
        len as nat % (dim.quantum as nat) == 0 ==> len as nat / (dim.quantum as nat)
            >= min_chunks,
    ensures
        r is Some <==> len as nat % (dim.quantum as nat) == 0,
        r matches Some(sz) ==> sz.count as nat * pow2_nat(sz.power as nat) * (dim.quantum as nat)
            == len,
        r matches Some(sz) ==> min_chunks <= sz.count,
        r matches Some(sz) ==> (sz.count < 2 * min_chunks || sz.count % 2 == 1),
{
    proof {
        lemma2_to64();
        vstd::arithmetic::mul::lemma_mul_basics(len as int);
    }
    let mut m: u64 = len;
    let mut z: u8 = 0;
    while m % 2 == 0
        invariant
            1 <= m,
            len as nat == m as nat * pow2_nat(z as nat),
            len <= U32_LEN,
            z <= 32,
        decreases m,
    {
        proof {
            lemma2_to64();
            if z >= 32 {
                // an even kernel after 32 halvings would exceed the ring
                vstd::arithmetic::mul::lemma_mul_inequality(
                    2,
                    m as int,
                    pow2_nat(z as nat) as int,
                );
                assert(2 * pow2_nat(32) == 0x2_0000_0000);
                assert(false);
            }
            vstd::arithmetic::power2::lemma_pow2_unfold((z + 1) as nat);
            lemma_fundamental_div_mod(m as int, 2);
            assert(((m / 2) as nat) * pow2_nat((z + 1) as nat) == m as nat * pow2_nat(z as nat))
                by {
                vstd::arithmetic::mul::lemma_mul_is_associative(
                    (m / 2) as int,
                    2,
                    pow2_nat(z as nat) as int,
                );
                assert(((m / 2) as int) * 2 == m);
            }
        }
        m = m / 2;
        z = z + 1;
    }
    proof {
        lemma_pow2_pos(dim.quantum_power as nat);
    }
    if z < dim.quantum_power {
        proof {
            lemma_exact_fit_none(len as nat, m as nat, z as nat, *dim);
        }
        return None;
    }
    proof {
        let q = dim.quantum as nat;
        let t = m as nat * pow2_nat((z - dim.quantum_power) as nat);
        vstd::arithmetic::power2::lemma_pow2_adds(
            (z - dim.quantum_power) as nat,
            dim.quantum_power as nat,
        );
        assert(len as nat == m as nat * (pow2_nat((z - dim.quantum_power) as nat) * q));
        vstd::arithmetic::mul::lemma_mul_is_associative(
            m as int,
            pow2_nat((z - dim.quantum_power) as nat) as int,
            q as int,
        );
        assert(len as nat == t * q);
        vstd::arithmetic::mul::lemma_mul_is_commutative(t as int, q as int);
        vstd::arithmetic::div_mod::lemma_fundamental_div_mod_converse(
            len as int,
            q as int,
            t as int,
            0,
        );
        assert(len as nat % q == 0);
        assert(len as nat / q == t);
    }
    let mut power: u8 = z - dim.quantum_power;
    let mut count: u64 = m;
    while count < min_chunks as u64
        invariant
            dim.wf(),
            count as nat * pow2_nat(power as nat) == len as nat / (dim.quantum as nat),
            len as nat / (dim.quantum as nat) >= min_chunks,
            count == m || count < 2 * min_chunks,
            1 <= count,
            1 <= min_chunks <= 0x8000_0000,
            len as nat == m as nat * pow2_nat(z as nat),
            m % 2 == 1,
            1 <= m,
            len <= U32_LEN,
        decreases power,
    {
        proof {
            if power == 0 {
                lemma2_to64();
                vstd::arithmetic::mul::lemma_mul_basics(count as int);
                assert(false);
            }
            vstd::arithmetic::power2::lemma_pow2_unfold(power as nat);
            assert((count as nat * 2) * pow2_nat((power - 1) as nat) == count as nat * pow2_nat(
                power as nat,
            )) by {
                vstd::arithmetic::mul::lemma_mul_is_associative(
                    count as int,
                    2,
                    pow2_nat((power - 1) as nat) as int,
                );
                vstd::arithmetic::mul::lemma_mul_is_associative(
                    count as int,
                    pow2_nat((power - 1) as nat) as int,
                    2,
                );
                vstd::arithmetic::mul::lemma_mul_is_commutative(
                    pow2_nat((power - 1) as nat) as int,
                    2,
                );
            }
        }
        count = count * 2;
        power = power - 1;
    }
    proof {
        // an odd kernel of a ring-sized length fits in 32 bits
        if count == m && m >= 0x1_0000_0000 {
            lemma2_to64();
            lemma_pow2_pos(z as nat);
            vstd::arithmetic::mul::lemma_mul_increases(pow2_nat(z as nat) as int, m as int);
            vstd::arithmetic::mul::lemma_mul_is_commutative(pow2_nat(z as nat) as int, m as int);
            assert(m as nat <= len as nat);
            assert(m == 0x1_0000_0000);
            assert(false);
        }
        // stitch the exact representation back to the original length
        let q = dim.quantum as nat;
        lemma_fundamental_div_mod(len as int, q as int);
        vstd::arithmetic::mul::lemma_mul_is_commutative((len as nat / q) as int, q as int);
        assert((count as nat * pow2_nat(power as nat)) * q == len);
    }
    Some(ArqSize { power, count: count as u32 })
}

/// A length whose odd kernel appears before `quantum_power` doublings is
/// not a multiple of the quantum.
proof fn lemma_exact_fit_none(len: nat, m: nat, z: nat, dim: Topology)
    requires
        dim.wf(),
        1 <= m,
        m % 2 == 1,
        len == m * pow2_nat(z),
        z < dim.quantum_power,
    ensures
        len % (dim.quantum as nat) != 0,
{
    let q = dim.quantum as nat;
    lemma_pow2_pos(dim.quantum_power as nat);
    lemma_pow2_pos(z);
    lemma_pow2_pos((dim.quantum_power - z) as nat);
    if len % q == 0 {
        let t = len / q;
        lemma_fundamental_div_mod(len as int, q as int);
        assert(len == q * t);
        vstd::arithmetic::mul::lemma_mul_is_commutative(q as int, t as int);
        // q == 2^(quantum_power - z) * 2^z
        vstd::arithmetic::power2::lemma_pow2_adds((dim.quantum_power - z) as nat, z);
        assert(len == t * (pow2_nat((dim.quantum_power - z) as nat) * pow2_nat(z)));
        vstd::arithmetic::mul::lemma_mul_is_associative(
            t as int,
            pow2_nat((dim.quantum_power - z) as nat) as int,
            pow2_nat(z) as int,
        );
        let u = t * pow2_nat((dim.quantum_power - z) as nat);
        assert(m * pow2_nat(z) == u * pow2_nat(z));
        vstd::arithmetic::mul::lemma_mul_is_commutative(m as int, pow2_nat(z) as int);
        vstd::arithmetic::mul::lemma_mul_is_commutative(u as int, pow2_nat(z) as int);
        vstd::arithmetic::mul::lemma_mul_equality_converse(
            pow2_nat(z) as int,
            m as int,
            u as int,
        );
        // m is then even, contradicting its oddness
        vstd::arithmetic::power2::lemma_pow2_unfold((dim.quantum_power - z) as nat);
        vstd::arithmetic::mul::lemma_mul_is_associative(
            t as int,
            2,
            pow2_nat((dim.quantum_power - z - 1) as nat) as int,
        );
        vstd::arithmetic::mul::lemma_mul_is_commutative(
            t as int,
            (2 * pow2_nat((dim.quantum_power - z - 1) as nat)) as int,
        );
        vstd::arithmetic::mul::lemma_mul_is_associative(
            2,
            t as int,
            pow2_nat((dim.quantum_power - z - 1) as nat) as int,
        );
        assert(m == 2 * (t * pow2_nat((dim.quantum_power - z - 1) as nat))) by {
            vstd::arithmetic::mul::lemma_mul_is_commutative(
                (t * pow2_nat((dim.quantum_power - z - 1) as nat)) as int,
                2,
            );
        }
        assert(m % 2 == 0) by {
            vstd::arithmetic::div_mod::lemma_mod_multiples_basic(
                (t * pow2_nat((dim.quantum_power - z - 1) as nat)) as int,
                2,
            );
            vstd::arithmetic::mul::lemma_mul_is_commutative(
                (t * pow2_nat((dim.quantum_power - z - 1) as nat)) as int,
                2,
            );
        }
        assert(false);
    }
}

/// What the general fitting entry point yields: an empty arc at minimum
/// power for a zero length, and the budgeted halving fit otherwise.
pub open spec fn approximate_arq_spec(dim: Topology, strat: ArqStrat, start: Loc, len: u64)
    -> Arq<Loc> {
    if len == 0 {
        Arq { start, power: 0u8, count: 0u32 }
    } else {
        let c0 = (len as nat) / (dim.quantum as nat);
        let p = fit_power(c0, strat.max_chunks as nat);
        Arq { start, power: p as u8, count: rounded_count(c0, p) as u32 }
    }
}

/// Given a start and a length, give the arq which matches most closely
/// under the provided strategy.
pub fn approximate_arq(dim: &Topology, strat: &ArqStrat, start: Loc, len: u64) -> (r: Arq<Loc>)
    requires
        dim.wf(),
        strat.wf(),
        len <= U32_LEN,
    ensures
        r == approximate_arq_spec(*dim, *strat, start, len),
        r.count <= strat.max_chunks,
{
    if len == 0 {
        let power = dim.min_power();
        Arq::new(power, start, 0)
    } else {
        let sz = power_and_count_from_length(dim, len, strat.max_chunks());
        proof {
            assert((len as nat) / (dim.quantum as nat) == ((len / (dim.quantum as u64)) as nat));
        }
        Arq::new(sz.power, start, sz.count)
    }
}

impl Arq<Loc> {
    /// Compute the arq which most closely matches the given absolute arc.
    pub fn from_dht_arc_approximate(dim: &Topology, strat: &ArqStrat, dht_arc: &DhtArc)
        -> (r: Self)
        requires
            dim.wf(),
            strat.wf(),
            dht_arc.len <= U32_LEN,
        ensures
            r == approximate_arq_spec(*dim, *strat, dht_arc.start, dht_arc.len),
    {
        approximate_arq(dim, strat, dht_arc.start_loc(), dht_arc.length())
    }

    /// Compute the arq which most closely matches the given start and
    /// half-length.
    pub fn from_start_and_half_len_approximate(
        dim: &Topology,
        strat: &ArqStrat,
        start: Loc,
        half_len: u32,
    ) -> (r: Self)
        requires
            dim.wf(),
            strat.wf(),
        ensures
            r == approximate_arq_spec(
                *dim,
                *strat,
                start,
                half_to_full_len_spec(half_len) as u64,
            ),
    {
        let arc = DhtArc::from_start_and_half_len(start, half_len);
        Self::from_dht_arc_approximate(dim, strat, &arc)
    }
}

/// What requantizing an arq to a new power yields: moving to a higher
/// power divides the count and the start by the factor, and is defined
/// only when both divide exactly; moving to a lower power multiplies them.
pub open spec fn requantize_spec<S: ArqStart>(a: Arq<S>, new_power: u8) -> Option<Arq<S>> {
    if a.power < new_power {
        let factor = pow2_clamped((new_power - a.power) as u8) as u32;
        match a.start.up_spec(factor) {
            Some(start) => if a.count as nat % factor as nat == 0 {
                Some(
                    Arq {
                        start,
                        power: new_power,
                        count: (a.count as nat / factor as nat) as u32,
                    },
                )
            } else {
                None
            },
            None => None,
        }
    } else {
        let factor = pow2_clamped((a.power - new_power) as u8) as u32;
        Some(
            Arq {
                start: a.start.down_spec(factor),
                power: new_power,
                count: ((a.count as nat * factor as nat) % 0x1_0000_0000) as u32,
            },
        )
    }
}



/// The clamped power of two is positive and fits well inside a `u32`.
pub proof fn lemma_pow2_clamped_bounds(p: u8)
    ensures
        1 <= pow2_clamped(p) <= 0x8000_0000,
{
    lemma2_to64();
    if p < 31 {
        lemma_pow2_pos(p as nat);
        lemma_pow2_strictly_increases(p as nat, 31);
    }
}

/// The chunk width is always positive.
pub proof fn lemma_chunk_width_pos(dim: Topology, power: u8)
    requires
        dim.wf(),
    ensures
        1 <= chunk_width_spec(dim, power),
{
    lemma_pow2_pos(dim.quantum_power as nat);
    if power < 31 {
        lemma_pow2_pos(power as nat);
    } else {
        lemma_pow2_pos(31);
    }
    lemma_mul_strictly_positive(pow2_clamped(power) as int, dim.quantum as int);
}

/// Coverage becomes full exactly at the threshold count
/// `2^(32 - quantum_power - power)`: one chunk fewer is not full, and the
/// threshold itself is. Power 0 is excluded: it is never full by
/// construction.
pub proof fn lemma_is_full_threshold(dim: Topology, power: u8)
    requires
        dim.wf(),
        1 <= power < 32,
        power + dim.quantum_power <= 32,
    ensures
        !is_full_spec(
            dim,
            power,
            (pow2_nat((32 - dim.quantum_power - power) as nat) - 1) as u32,
        ),
        is_full_spec(dim, power, pow2_nat((32 - dim.quantum_power - power) as nat) as u32),
{
    let e = (32 - dim.quantum_power - power) as nat;
    lemma_pow2_pos(e);
    lemma_pow2_strictly_increases(e, 32);
    lemma2_to64();
}

/// Requantizing to a higher power, where it succeeds, then back to the
/// original power, round-trips to the original arq exactly.
pub proof fn lemma_requantize_round_trip<S: ArqStart>(a: Arq<S>, p: u8)
    requires
        a.power < p < 32,
        requantize_spec(a, p) is Some,
    ensures
        requantize_spec(requantize_spec(a, p)->0, a.power) == Some(a),
{
    let d = (p - a.power) as u8;
    lemma_pow2_clamped_bounds(d);
    let factor = pow2_clamped(d) as u32;
    let b = requantize_spec(a, p)->0;
    a.start.lemma_up_down(factor);
    lemma_fundamental_div_mod(a.count as int, factor as int);
    vstd::arithmetic::mul::lemma_mul_is_commutative(
        (a.count as nat / factor as nat) as int,
        factor as int,
    );
    assert(b.count as nat * factor as nat == a.count as nat);
    lemma_small_mod(a.count as nat, 0x1_0000_0000);
}

/// A lossy up-requantization is refused: when the count does not divide
/// by the power step, requantizing up returns nothing.
pub proof fn lemma_requantize_up_lossy<S: ArqStart>(a: Arq<S>, p: u8)
    requires
        a.power < p < 32,
        a.count as nat % (pow2_clamped((p - a.power) as u8) as nat) != 0,
    ensures
        requantize_spec(a, p) is None,
{
    lemma_pow2_clamped_bounds((p - a.power) as u8);
}

/// Every power and count the fitting loop walks through, characterized:
/// the result is at least `k`, lands on a rounded count within the budget
/// (unless the cutoff was hit), and every earlier halving count was over
/// budget.
proof fn lemma_fit_power_from_props(c0: nat, max: nat, k: nat)
    requires
        k <= 34,
    ensures
        k <= fit_power_from(c0, max, k) <= 34,
        fit_power_from(c0, max, k) < 34 ==> rounded_count(c0, fit_power_from(c0, max, k)) <= max,
        forall|j: nat|
            k <= j < fit_power_from(c0, max, k) ==> #[trigger] rounded_count(c0, j) > max,
    decreases 34 - k,
{
    if k >= 34 || rounded_count(c0, k) <= max {
    } else {
        lemma_fit_power_from_props(c0, max, k + 1);
    }
}

/// A budget that is already met at some halving count bounds the fit
/// power by it; and the fit lands within budget, every earlier halving
/// being over budget.
proof fn lemma_fit_power_bound(c0: nat, max: nat, k: nat)
    requires
        1 <= max,
        k <= 34,
        rounded_count(c0, k) <= max,
    ensures
        fit_power(c0, max) <= k,
        rounded_count(c0, fit_power(c0, max)) <= max,
        forall|j: nat| j < fit_power(c0, max) ==> #[trigger] rounded_count(c0, j) > max,
{
    lemma_fit_power_from_props(c0, max, 0);
    if fit_power(c0, max) > k {
        assert(rounded_count(c0, k) > max);
    }
}


/// The fitting loop's chosen power keeps the chunk grid coarse enough to
/// matter but fine enough to stay exact: for a ring-sized length and a
/// well-formed strategy, the fit power plus the quantum power stays at or
/// below 30, and the fitted count times the chunk width stays within the
/// ring.
proof fn lemma_fit_bounds(dim: Topology, strat: ArqStrat, len: u64)
    requires
        dim.wf(),
        strat.wf(),
        dim.quantum_power <= 30,
        1 <= len <= U32_LEN,
    ensures
        ({
            let c0 = (len as nat) / (dim.quantum as nat);
            let p = fit_power(c0, strat.max_chunks as nat);
            &&& p + dim.quantum_power <= 30
            &&& rounded_count(c0, p) * pow2_nat((p + dim.quantum_power) as nat) <= 0x1_0000_0000
            &&& rounded_count(c0, p) <= strat.max_chunks
            &&& (1 <= p ==> (rounded_count(c0, p) * pow2_nat((p + dim.quantum_power) as nat)
                == 0x1_0000_0000 <==> rounded_count(c0, p) == pow2_nat(
                (32 - dim.quantum_power - p) as nat,
            )))
        }),
{
    lemma2_to64();
    lemma_pow2_pos(dim.quantum_power as nat);
    let q = dim.quantum as nat;
    let qp = dim.quantum_power as nat;
    let c0 = (len as nat) / q;
    let max = strat.max_chunks as nat;

    // the raw chunk count is bounded by the ring in quanta
    assert(c0 <= pow2_nat((32 - qp) as nat)) by {
        vstd::arithmetic::power2::lemma_pow2_adds((32 - qp) as nat, qp);
        vstd::arithmetic::div_mod::lemma_div_is_ordered(len as int, 0x1_0000_0000, q as int);
        vstd::arithmetic::div_mod::lemma_div_by_multiple(pow2_nat((32 - qp) as nat) as int, q as int);
    }

    // thirty halvings past the quantum bring the count within four
    let k0 = (30 - qp) as nat;
    assert(rounded_count(c0, k0) <= 4) by {
        if k0 == 0 {
            vstd::arithmetic::power2::lemma_pow2_unfold(2);
            vstd::arithmetic::power2::lemma_pow2_unfold(1);
        } else {
            lemma_pow2_pos(k0);
            lemma_pow2_pos((k0 - 1) as nat);
            lemma_pow2_strictly_increases((k0 - 1) as nat, k0);
            assert(pow2_nat((32 - qp) as nat) == 4 * pow2_nat(k0)) by {
                vstd::arithmetic::power2::lemma_pow2_adds(2, k0);
            }
            vstd::arithmetic::div_mod::lemma_div_is_ordered(
                c0 as int + pow2_nat((k0 - 1) as nat) as int,
                4 * pow2_nat(k0) as int + pow2_nat((k0 - 1) as nat) as int,
                pow2_nat(k0) as int,
            );
            assert((4 * pow2_nat(k0) as int + pow2_nat((k0 - 1) as nat) as int) / (
            pow2_nat(k0) as int) == 4) by {
                vstd::arithmetic::mul::lemma_mul_is_commutative(4, pow2_nat(k0) as int);
                vstd::arithmetic::div_mod::lemma_div_multiples_vanish_fancy(
                    4,
                    pow2_nat((k0 - 1) as nat) as int,
                    pow2_nat(k0) as int,
                );
            }
        }
    }
    assert(4 <= max);
    lemma_fit_power_bound(c0, max, k0);
    let p = fit_power(c0, max);
    assert(p + qp <= 30);

    // the fitted count cannot overfill the ring
    let e = (32 - qp - p) as nat;
    let cnt = rounded_count(c0, p);
    assert(cnt <= pow2_nat(e)) by {
        if p == 0 {
        } else {
            lemma_pow2_pos(p);
            lemma_pow2_pos((p - 1) as nat);
            lemma_pow2_strictly_increases((p - 1) as nat, p);
            assert(pow2_nat((32 - qp) as nat) == pow2_nat(e) * pow2_nat(p)) by {
                vstd::arithmetic::power2::lemma_pow2_adds(e, p);
            }
            vstd::arithmetic::div_mod::lemma_div_is_ordered(
                c0 as int + pow2_nat((p - 1) as nat) as int,
                pow2_nat(e) as int * pow2_nat(p) as int + pow2_nat((p - 1) as nat) as int,
                pow2_nat(p) as int,
            );
            assert((pow2_nat(e) as int * pow2_nat(p) as int + pow2_nat((p - 1) as nat) as int) / (
            pow2_nat(p) as int) == pow2_nat(e)) by {
                vstd::arithmetic::mul::lemma_mul_is_commutative(
                    pow2_nat(e) as int,
                    pow2_nat(p) as int,
                );
                vstd::arithmetic::div_mod::lemma_div_multiples_vanish_fancy(
                    pow2_nat(e) as int,
                    pow2_nat((p - 1) as nat) as int,
                    pow2_nat(p) as int,
                );
            }
        }
    }
    assert(cnt * pow2_nat((p + qp) as nat) <= 0x1_0000_0000) by {
        vstd::arithmetic::mul::lemma_mul_inequality(
            cnt as int,
            pow2_nat(e) as int,
            pow2_nat((p + qp) as nat) as int,
        );
        assert(pow2_nat(e) * pow2_nat((p + qp) as nat) == 0x1_0000_0000) by {
            vstd::arithmetic::power2::lemma_pow2_adds(e, (p + qp) as nat);
        }
    }
    if 1 <= p {
        if cnt * pow2_nat((p + qp) as nat) == 0x1_0000_0000 {
            // only the exact threshold count reaches the whole ring
            assert(cnt == pow2_nat(e)) by {
                assert(pow2_nat(e) * pow2_nat((p + qp) as nat) == 0x1_0000_0000) by {
                    vstd::arithmetic::power2::lemma_pow2_adds(e, (p + qp) as nat);
                }
                lemma_pow2_pos((p + qp) as nat);
                vstd::arithmetic::mul::lemma_mul_is_commutative(
                    cnt as int,
                    pow2_nat((p + qp) as nat) as int,
                );
                vstd::arithmetic::mul::lemma_mul_is_commutative(
                    pow2_nat(e) as int,
                    pow2_nat((p + qp) as nat) as int,
                );
                vstd::arithmetic::mul::lemma_mul_equality_converse(
                    pow2_nat((p + qp) as nat) as int,
                    cnt as int,
                    pow2_nat(e) as int,
                );
            }
        }
        if cnt == pow2_nat(e) {
            assert(cnt * pow2_nat((p + qp) as nat) == 0x1_0000_0000) by {
                vstd::arithmetic::power2::lemma_pow2_adds(e, (p + qp) as nat);
            }
        }
    }
}


/// Round-trip law for the approximate fit: fitting a start and length and
/// projecting the fitted arq back to an absolute interval yields an
/// interval whose length is exactly the arq's own absolute length, for
/// any length up to the whole ring.
pub proof fn lemma_approximate_arq_round_trip(
    dim: Topology,
    strat: ArqStrat,
    start: Loc,
    len: u64,
)
    requires
        dim.wf(),
        strat.wf(),
        dim.quantum_power <= 30,
        len <= U32_LEN,
    ensures
        ({
            let a = approximate_arq_spec(dim, strat, start, len);
            range_length_spec(to_range_spec(a, dim)) == arq_length_spec(dim, a.power, a.count)
        }),
{
    lemma2_to64();
    lemma_pow2_pos(dim.quantum_power as nat);
    let q = dim.quantum as nat;
    let qp = dim.quantum_power as nat;
    let a = approximate_arq_spec(dim, strat, start, len);
    if len == 0 {
        vstd::arithmetic::mul::lemma_mul_basics(chunk_width_spec(dim, 0u8) as int);
    } else {
        let c0 = (len as nat) / q;
        let max = strat.max_chunks as nat;
        let p = fit_power(c0, max);
        let cnt = rounded_count(c0, p);
        lemma_fit_bounds(dim, strat, len);
        // the chunk width at the fitted power is the exact power of two
        let cw = pow2_nat((p + qp) as nat);
        assert(chunk_width_spec(dim, a.power) == cw) by {
            vstd::arithmetic::power2::lemma_pow2_adds(p, qp);
            lemma_pow2_strictly_increases((p + qp) as nat, 31);
        }
        assert(a.power == p as u8);
        assert(a.count == cnt as u32);
        assert(a.count as nat == cnt) by {
            lemma_pow2_pos((p + qp) as nat);
            if 1 <= cnt {
                vstd::arithmetic::mul::lemma_mul_increases(cw as int, cnt as int);
                vstd::arithmetic::mul::lemma_mul_is_commutative(cw as int, cnt as int);
            }
        }
        let t = cnt * cw;
        assert(t <= 0x1_0000_0000);
        assert(chunk_width_spec(dim, a.power) * (a.count as nat) == t) by {
            vstd::arithmetic::mul::lemma_mul_is_commutative(cw as int, cnt as int);
        }
        if is_full_spec(dim, a.power, a.count) {
            // full coverage: both sides are the whole ring
            assert(1 <= p);
            let e = (32 - qp - p) as nat;
            assert(a.count as nat >= pow2_nat(e)) by {
                lemma_pow2_strictly_increases(e, 32);
            }
            assert(t == 0x1_0000_0000) by {
                vstd::arithmetic::mul::lemma_mul_inequality(
                    pow2_nat(e) as int,
                    cnt as int,
                    cw as int,
                );
                assert(pow2_nat(e) as int * cw as int == 0x1_0000_0000) by {
                    vstd::arithmetic::power2::lemma_pow2_adds(e, (p + qp) as nat);
                }
            }
            assert(arq_length_spec(dim, a.power, a.count) == 0x1_0000_0000);
        } else if a.count == 0 {
            vstd::arithmetic::mul::lemma_mul_basics(cw as int);
        } else {
            // bounded: the interval's modular length telescopes back to
            // the plain product of count and chunk width
            let off = a.start.offset_of(dim, a.power) as int;
            let left = ring_mod(off * cw as int);
            let right = ring_mod(left + a.count as int * cw as int - 1);
            vstd::arithmetic::div_mod::lemma_mod_bound(off * cw as int, 0x1_0000_0000);
            vstd::arithmetic::mul::lemma_mul_nonnegative(off, cw as int);
            assert(0 <= left < 0x1_0000_0000);
            assert(a.count as int * cw as int == t);
            vstd::arithmetic::div_mod::lemma_sub_mod_noop(
                left + t - 1,
                left,
                0x1_0000_0000,
            );
            lemma_small_mod(left as nat, 0x1_0000_0000);
            assert((right - left) % 0x1_0000_0000 == (t - 1) % 0x1_0000_0000) by {
                vstd::arithmetic::div_mod::lemma_mod_mod(left + t - 1, 1, 0x1_0000_0000);
                vstd::arithmetic::div_mod::lemma_mod_twice(left + t - 1, 0x1_0000_0000);
                vstd::arithmetic::div_mod::lemma_sub_mod_noop(
                    left + t - 1,
                    left,
                    0x1_0000_0000,
                );
            }
            assert(1 <= t) by {
                lemma_pow2_pos((p + qp) as nat);
                vstd::arithmetic::mul::lemma_mul_strictly_positive(cnt as int, cw as int);
            }
            assert((t - 1) % 0x1_0000_0000 == t - 1) by {
                lemma_small_mod((t - 1) as nat, 0x1_0000_0000);
            }
            vstd::arithmetic::div_mod::lemma_mod_bound(
                left + a.count as int * cw as int - 1,
                0x1_0000_0000,
            );
            assert(range_length_spec(to_range_spec(a, dim)) == t);
            assert(arq_length_spec(dim, a.power, a.count) == t);
        }
    }
}


/// Monotonicity of the bounds conversion: for one fixed power, a start
/// location at or before another yields a bounds offset, and a left edge,
/// at or before the other's. Offsets never wrap, so converting a sorted
/// list of centers to bounds preserves its order outright.
pub proof fn lemma_to_bounds_monotone(dim: Topology, power: u8, a: u32, b: u32)
    requires
        dim.wf(),
        a <= b,
    ensures
        (a as nat) / chunk_width_spec(dim, power) <= (b as nat) / chunk_width_spec(dim, power),
        ring_mod(((a as nat) / chunk_width_spec(dim, power)) as int * chunk_width_spec(
            dim,
            power,
        ) as int) <= ring_mod(((b as nat) / chunk_width_spec(dim, power)) as int
            * chunk_width_spec(dim, power) as int),
{
    lemma_chunk_width_pos(dim, power);
    let cw = chunk_width_spec(dim, power) as int;
    vstd::arithmetic::div_mod::lemma_div_is_ordered(a as int, b as int, cw);
    let oa = (a as nat) / chunk_width_spec(dim, power);
    let ob = (b as nat) / chunk_width_spec(dim, power);
    lemma_fundamental_div_mod(a as int, cw);
    lemma_fundamental_div_mod(b as int, cw);
    lemma_mod_bound(a as int, cw);
    lemma_mod_bound(b as int, cw);
    vstd::arithmetic::mul::lemma_mul_is_commutative(oa as int, cw);
    vstd::arithmetic::mul::lemma_mul_is_commutative(ob as int, cw);
    assert(oa as int * cw <= a as int);
    assert(ob as int * cw <= b as int);
    vstd::arithmetic::mul::lemma_mul_nonnegative(oa as int, cw);
    vstd::arithmetic::mul::lemma_mul_nonnegative(ob as int, cw);
    lemma_small_mod((oa as int * cw) as nat, 0x1_0000_0000);
    lemma_small_mod((ob as int * cw) as nat, 0x1_0000_0000);
    vstd::arithmetic::mul::lemma_mul_inequality(oa as int, ob as int, cw);
}

/// The list form of the ordering law: bounds offsets derived from a
/// sorted list of centers, all at one power, form a sorted list too.
pub proof fn lemma_bounds_preserve_ordering(dim: Topology, power: u8, centers: Seq<u32>)
    requires
        dim.wf(),
        forall|i: int, j: int|
            0 <= i <= j < centers.len() ==> #[trigger] centers[i] <= #[trigger] centers[j],
    ensures
        forall|i: int, j: int|
            0 <= i <= j < centers.len() ==> #[trigger] ((centers[i] as nat) / chunk_width_spec(
                dim,
                power,
            )) <= #[trigger] ((centers[j] as nat) / chunk_width_spec(dim, power)),
{
    assert forall|i: int, j: int| 0 <= i <= j < centers.len() implies ((centers[i] as nat)
        / chunk_width_spec(dim, power)) <= ((centers[j] as nat) / chunk_width_spec(
        dim,
        power,
    )) by {
        lemma_to_bounds_monotone(dim, power, centers[i], centers[j]);
    }
}


/// Fitted arcs respect the strategy's band: the chunk count never
/// exceeds the maximum, and whenever the fit settles on a nonzero power,
/// the count is at least the minimum (halving a count that was over
/// budget cannot fall below half the budget, and the band spans a
/// doubling).
pub proof fn lemma_approximate_arq_within_strategy(
    dim: Topology,
    strat: ArqStrat,
    start: Loc,
    len: u64,
)
    requires
        dim.wf(),
        strat.wf(),
        len <= U32_LEN,
    ensures
        ({
            let a = approximate_arq_spec(dim, strat, start, len);
            &&& a.count <= strat.max_chunks
            &&& (1 <= a.power ==> strat.min_chunks <= a.count)
        }),
{
    lemma2_to64();
    lemma2_to64_rest();
    lemma_pow2_pos(dim.quantum_power as nat);
    if len == 0 {
    } else {
        let q = dim.quantum as nat;
        let c0 = (len as nat) / q;
        let max = strat.max_chunks as nat;
        let min = strat.min_chunks as nat;
        // deep enough halving always meets the budget
        assert(c0 <= 0x1_0000_0000) by {
            vstd::arithmetic::div_mod::lemma_div_is_ordered(len as int, 0x1_0000_0000, q as int);
            vstd::arithmetic::div_mod::lemma_div_basics_1(0x1_0000_0000);
        }
        assert(rounded_count(c0, 33) <= 1) by {
            vstd::arithmetic::div_mod::lemma_multiply_divide_lt(
                c0 as int + pow2_nat(32) as int,
                pow2_nat(33) as int,
                2,
            );
        }
        lemma_fit_power_bound(c0, max, 33);
        let p = fit_power(c0, max);
        let cnt = rounded_count(c0, p);
        assert(cnt <= max);
        if 1 <= p {
            // the previous, coarser count was over budget
            assert(rounded_count(c0, (p - 1) as nat) > max);
            if p == 1 {
                assert(c0 >= max + 1);
                assert(cnt == (c0 + 1) / 2);
                vstd::arithmetic::div_mod::lemma_div_is_ordered(
                    max as int + 2,
                    c0 as int + 1,
                    2,
                );
                assert((2 * min as int + 2) / 2 == min + 1) by {
                    vstd::arithmetic::div_mod::lemma_div_multiples_vanish_fancy(
                        min as int + 1,
                        0,
                        2,
                    );
                }
                vstd::arithmetic::div_mod::lemma_div_is_ordered(
                    2 * min as int + 2,
                    max as int + 2,
                    2,
                );
            } else {
                let h = pow2_nat((p - 2) as nat) as int;
                lemma_pow2_pos((p - 2) as nat);
                // unfold the neighbouring powers of two over h
                assert(pow2_nat((p - 1) as nat) == 2 * h) by {
                    vstd::arithmetic::power2::lemma_pow2_unfold((p - 1) as nat);
                }
                assert(pow2_nat(p) == 4 * h) by {
                    vstd::arithmetic::power2::lemma_pow2_unfold(p);
                    vstd::arithmetic::power2::lemma_pow2_unfold((p - 1) as nat);
                }
                // from the over-budget coarser count, bound the raw count
                assert(c0 as int + h >= (max as int + 1) * (2 * h)) by {
                    lemma_fundamental_div_mod(c0 as int + h, 2 * h);
                    vstd::arithmetic::div_mod::lemma_mod_bound(c0 as int + h, 2 * h);
                    vstd::arithmetic::mul::lemma_mul_inequality(
                        max as int + 1,
                        (c0 as int + h) / (2 * h),
                        2 * h,
                    );
                    vstd::arithmetic::mul::lemma_mul_is_commutative(
                        (c0 as int + h) / (2 * h),
                        2 * h,
                    );
                    vstd::arithmetic::mul::lemma_mul_is_commutative(max as int + 1, 2 * h);
                }
                // so the halved count keeps at least half the budget
                assert((max as int + 1) * (2 * h) + h == (2 * max as int + 3) * h) by {
                    vstd::arithmetic::mul::lemma_mul_is_distributive_add_other_way(
                        2 * h,
                        max as int,
                        1,
                    );
                    vstd::arithmetic::mul::lemma_mul_is_distributive_add_other_way(
                        h,
                        2 * max as int,
                        3,
                    );
                    vstd::arithmetic::mul::lemma_mul_is_associative(max as int, 2, h);
                }
                assert(cnt as int >= ((2 * max as int + 3) * h) / (4 * h)) by {
                    vstd::arithmetic::div_mod::lemma_div_is_ordered(
                        (2 * max as int + 3) * h,
                        c0 as int + 2 * h,
                        4 * h,
                    );
                }
                assert(((2 * max as int + 3) * h) / (4 * h) == (2 * max as int + 3) / 4) by {
                    vstd::arithmetic::div_mod::lemma_div_denominator(
                        (2 * max as int + 3) * h,
                        h,
                        4,
                    );
                    vstd::arithmetic::div_mod::lemma_div_by_multiple(2 * max as int + 3, h);
                    vstd::arithmetic::mul::lemma_mul_is_commutative(h, 4);
                }
                assert((4 * min as int + 3) / 4 == min) by {
                    vstd::arithmetic::div_mod::lemma_div_multiples_vanish_fancy(min as int, 3, 4);
                }
                vstd::arithmetic::div_mod::lemma_div_is_ordered(
                    4 * min as int + 3,
                    2 * max as int + 3,
                    4,
                );
            }
        }
    }
}


/// A fitted arc is fit for the set algebra: its power keeps the chunk
/// grid unclamped and its total length stays within the ring, so its
/// bounds form may enter an arc set.
pub proof fn lemma_fitted_arq_ready(dim: Topology, strat: ArqStrat, start: Loc, len: u64)
    requires
        dim.wf(),
        strat.wf(),
        dim.quantum_power <= 30,
        len <= U32_LEN,
    ensures
        ({
            let a = approximate_arq_spec(dim, strat, start, len);
            &&& a.power + dim.quantum_power <= 30
            &&& a.count as int * chunk_width_spec(dim, a.power) as int <= 0x1_0000_0000
        }),
{
    lemma2_to64();
    lemma_pow2_pos(dim.quantum_power as nat);
    let a = approximate_arq_spec(dim, strat, start, len);
    if len == 0 {
        vstd::arithmetic::mul::lemma_mul_basics(chunk_width_spec(dim, 0u8) as int);
    } else {
        lemma_fit_bounds(dim, strat, len);
        let qp = dim.quantum_power as nat;
        let c0 = (len as nat) / (dim.quantum as nat);
        let p = fit_power(c0, strat.max_chunks as nat);
        let cnt = rounded_count(c0, p);
        assert(chunk_width_spec(dim, a.power) == pow2_nat((p + qp) as nat)) by {
            vstd::arithmetic::power2::lemma_pow2_adds(p, qp);
            lemma_pow2_strictly_increases((p + qp) as nat, 31);
        }
        assert(a.count as nat == cnt) by {
            lemma_pow2_pos((p + qp) as nat);
            if 1 <= cnt {
                vstd::arithmetic::mul::lemma_mul_increases(
                    pow2_nat((p + qp) as nat) as int,
                    cnt as int,
                );
                vstd::arithmetic::mul::lemma_mul_is_commutative(
                    pow2_nat((p + qp) as nat) as int,
                    cnt as int,
                );
            }
        }
    }
}


/// Halving an exactly-representable count loses nothing: a count that is
/// a multiple of `2^k` rounds through `k` halvings to the plain quotient.
proof fn lemma_rounded_exact(cnt: nat, p: nat, k: nat)
    requires
        k <= p,
    ensures
        rounded_count(cnt * pow2_nat(p), k) == cnt * pow2_nat((p - k) as nat),
{
    if k == 0 {
        assert(pow2_nat((p - 0) as nat) == pow2_nat(p));
    } else {
        lemma_pow2_pos(k);
        lemma_pow2_pos((k - 1) as nat);
        lemma_pow2_pos((p - k) as nat);
        lemma_pow2_strictly_increases((k - 1) as nat, k);
        assert(cnt * pow2_nat(p) == pow2_nat(k) * (cnt * pow2_nat((p - k) as nat))) by {
            vstd::arithmetic::power2::lemma_pow2_adds(k, (p - k) as nat);
            vstd::arithmetic::mul::lemma_mul_is_associative(
                cnt as int,
                pow2_nat(k) as int,
                pow2_nat((p - k) as nat) as int,
            );
            vstd::arithmetic::mul::lemma_mul_is_commutative(cnt as int, pow2_nat(k) as int);
            vstd::arithmetic::mul::lemma_mul_is_associative(
                pow2_nat(k) as int,
                cnt as int,
                pow2_nat((p - k) as nat) as int,
            );
        }
        vstd::arithmetic::div_mod::lemma_div_multiples_vanish_fancy(
            (cnt * pow2_nat((p - k) as nat)) as int,
            pow2_nat((k - 1) as nat) as int,
            pow2_nat(k) as int,
        );
    }
}

/// Refitting a fitted arc is stable: feeding a fitted arq's own absolute
/// length back through the fit yields an arq with exactly the same
/// absolute length and the same start — the power may move within the
/// strategy's band, but no coverage is gained or lost, so the two arcs
/// are equivalent.
pub proof fn lemma_approximate_arq_refit(dim: Topology, strat: ArqStrat, start: Loc, len: u64)
    requires
        dim.wf(),
        strat.wf(),
        dim.quantum_power <= 30,
        len <= U32_LEN,
    ensures
        ({
            let a = approximate_arq_spec(dim, strat, start, len);
            let len2 = arq_length_spec(dim, a.power, a.count);
            let b = approximate_arq_spec(dim, strat, start, len2 as u64);
            &&& b.start == a.start
            &&& arq_length_spec(dim, b.power, b.count) == len2
            &&& ring_mod(a.count as int * chunk_width_spec(dim, a.power) as int) == ring_mod(
                b.count as int * chunk_width_spec(dim, b.power) as int,
            )
        }),
{
    lemma2_to64();
    lemma_pow2_pos(dim.quantum_power as nat);
    let q = dim.quantum as nat;
    let qp = dim.quantum_power as nat;
    let a = approximate_arq_spec(dim, strat, start, len);
    let len2 = arq_length_spec(dim, a.power, a.count);
    if len == 0 {
        vstd::arithmetic::mul::lemma_mul_basics(chunk_width_spec(dim, 0u8) as int);
        assert(len2 == 0);
    } else {
        let c0 = (len as nat) / q;
        let max = strat.max_chunks as nat;
        let p = fit_power(c0, max);
        let cnt = rounded_count(c0, p);
        lemma_fit_bounds(dim, strat, len);
        let cw = pow2_nat((p + qp) as nat);
        assert(chunk_width_spec(dim, a.power) == cw) by {
            vstd::arithmetic::power2::lemma_pow2_adds(p, qp);
            lemma_pow2_strictly_increases((p + qp) as nat, 31);
        }
        assert(a.count as nat == cnt) by {
            lemma_pow2_pos((p + qp) as nat);
            if 1 <= cnt {
                vstd::arithmetic::mul::lemma_mul_increases(cw as int, cnt as int);
                vstd::arithmetic::mul::lemma_mul_is_commutative(cw as int, cnt as int);
            }
        }
        assert(len2 == cnt * cw) by {
            vstd::arithmetic::mul::lemma_mul_is_commutative(cw as int, cnt as int);
        }
        if cnt == 0 {
            vstd::arithmetic::mul::lemma_mul_basics(cw as int);
            assert(len2 == 0);
            vstd::arithmetic::mul::lemma_mul_basics(chunk_width_spec(dim, 0u8) as int);
        } else {
            // the fitted length splits exactly into quanta
            let c1 = cnt * pow2_nat(p);
            assert(len2 == c1 * q) by {
                vstd::arithmetic::power2::lemma_pow2_adds(p, qp);
                vstd::arithmetic::mul::lemma_mul_is_associative(
                    cnt as int,
                    pow2_nat(p) as int,
                    q as int,
                );
            }
            assert((len2 as u64 as nat) / q == c1) by {
                lemma_small_mod(0, q);
                vstd::arithmetic::mul::lemma_mul_is_commutative(c1 as int, q as int);
                vstd::arithmetic::div_mod::lemma_div_by_multiple(c1 as int, q as int);
            }
            // every halving up to the fitted power is exact
            lemma_rounded_exact(cnt, p, p);
            assert(rounded_count(c1, p) == cnt) by {
                vstd::arithmetic::mul::lemma_mul_basics(cnt as int);
            }
            assert(p <= 34);
            lemma_fit_power_bound(c1, max, p);
            let p2 = fit_power(c1, max);
            let cnt2 = rounded_count(c1, p2);
            lemma_rounded_exact(cnt, p, p2);
            assert(cnt2 == cnt * pow2_nat((p - p2) as nat));
            // the refitted length telescopes back to the fitted one
            let b = approximate_arq_spec(dim, strat, start, len2 as u64);
            let cw2 = pow2_nat((p2 + qp) as nat);
            assert(chunk_width_spec(dim, b.power) == cw2) by {
                vstd::arithmetic::power2::lemma_pow2_adds(p2, qp);
                lemma_pow2_strictly_increases((p2 + qp) as nat, 31);
            }
            assert(b.count as nat == cnt2) by {
                lemma_pow2_pos((p2 + qp) as nat);
                if 1 <= cnt2 {
                    vstd::arithmetic::mul::lemma_mul_increases(cw2 as int, cnt2 as int);
                    vstd::arithmetic::mul::lemma_mul_is_commutative(cw2 as int, cnt2 as int);
                }
            }
            assert(cnt2 * cw2 == cnt * cw) by {
                vstd::arithmetic::power2::lemma_pow2_adds((p - p2) as nat, (p2 + qp) as nat);
                vstd::arithmetic::mul::lemma_mul_is_associative(
                    cnt as int,
                    pow2_nat((p - p2) as nat) as int,
                    cw2 as int,
                );
            }
            assert(arq_length_spec(dim, b.power, b.count) == len2) by {
                vstd::arithmetic::mul::lemma_mul_is_commutative(cw2 as int, cnt2 as int);
            }
        }
    }
}

} // verus!
