//! Collections of location-forgetting arqs, one per agent, and their set
//! algebra: union and intersection of coverage under a shared topology.
//!
//! A set keeps all its members at one common power — the finest power any
//! member uses — so that members combine on a single chunk grid.
//! Requantizing down to that power is always lossless.

use vstd::prelude::*;

verus! {

use crate::spacetime::{Topology, SpaceOffset, pow2_nat, pow2_clamped, U32_LEN};
use crate::arq::{ArqBounds, chunk_width_spec, left_edge_spec, requantize_spec};
use vstd::arithmetic::power2::{lemma_pow2_pos, lemma_pow2_adds, lemma_pow2_strictly_increases,
    lemma2_to64};
use vstd::arithmetic::div_mod::{lemma_fundamental_div_mod, lemma_small_mod};

/// Positions in the half-open absolute interval `[lo, hi)`.
pub open spec fn span(lo: int, hi: int) -> Set<int> {
    Set::new(|x: int| lo <= x < hi)
}

/// The positions a wrapping interval covers: `len` positions starting at
/// `left`, wrapping past the top of the ring.
pub open spec fn wrap_span(left: int, len: int) -> Set<int> {
    if left + len <= 0x1_0000_0000 {
        span(left, left + len)
    } else {
        span(left, 0x1_0000_0000).union(span(0, left + len - 0x1_0000_0000))
    }
}

/// The set of absolute ring positions a bounds arq covers.
pub open spec fn arq_coverage(dim: Topology, a: ArqBounds) -> Set<int> {
    wrap_span(
        left_edge_spec(a, dim),
        a.count as int * chunk_width_spec(dim, a.power) as int,
    )
}

/// A bounds arq fit for set algebra: its chunk grid is unclamped and its
/// total length stays within the ring.
pub open spec fn bounds_wf(dim: Topology, a: ArqBounds) -> bool {
    &&& a.power + dim.quantum_power <= 30
    &&& a.count as int * chunk_width_spec(dim, a.power) as int <= 0x1_0000_0000
}

/// The positions any member of a list of arqs covers.
pub open spec fn seq_coverage(dim: Topology, arqs: Seq<ArqBounds>) -> Set<int>
    decreases arqs.len(),
{
    if arqs.len() == 0 {
        Set::empty()
    } else {
        arq_coverage(dim, arqs[0]).union(seq_coverage(dim, arqs.drop_first()))
    }
}

/// Coverage of a list grows one member at a time.
pub proof fn lemma_seq_coverage_push(dim: Topology, arqs: Seq<ArqBounds>, a: ArqBounds)
    ensures
        seq_coverage(dim, arqs.push(a)) == seq_coverage(dim, arqs).union(arq_coverage(dim, a)),
    decreases arqs.len(),
{
    if arqs.len() == 0 {
        assert(arqs.push(a).drop_first() =~= Seq::<ArqBounds>::empty());
        assert(arqs.push(a)[0] == a);
        assert(seq_coverage(dim, arqs.push(a).drop_first()) =~= Set::<int>::empty());
        assert(seq_coverage(dim, arqs.push(a)) == arq_coverage(dim, a).union(
            Set::<int>::empty(),
        ));
        assert(arq_coverage(dim, a).union(Set::<int>::empty()) =~= Set::<int>::empty().union(
            arq_coverage(dim, a),
        ));
        assert(seq_coverage(dim, arqs) == Set::<int>::empty());
    } else {
        assert(arqs.push(a).drop_first() =~= arqs.drop_first().push(a));
        lemma_seq_coverage_push(dim, arqs.drop_first(), a);
        assert(seq_coverage(dim, arqs.push(a)) =~= seq_coverage(dim, arqs).union(
            arq_coverage(dim, a),
        ));
    }
}

/// The finest power any member of a list uses; zero for an empty list.
pub open spec fn seq_min_power(arqs: Seq<ArqBounds>) -> u8
    decreases arqs.len(),
{
    if arqs.len() == 0 {
        0
    } else if arqs.len() == 1 {
        arqs[0].power
    } else {
        let rest = seq_min_power(arqs.drop_last());
        if arqs.last().power < rest {
            arqs.last().power
        } else {
            rest
        }
    }
}

/// The common power is no coarser than any member's own power.
pub proof fn lemma_seq_min_power_le(arqs: Seq<ArqBounds>, i: int)
    requires
        0 <= i < arqs.len(),
    ensures
        seq_min_power(arqs) <= arqs[i].power,
    decreases arqs.len(),
{
    if arqs.len() > 1 {
        if i < arqs.len() - 1 {
            lemma_seq_min_power_le(arqs.drop_last(), i);
        }
    }
}

/// Requantizing a bounds arq down (to a finer power) covers the same
/// positions: the left edge and the total length are unchanged.
pub proof fn lemma_requantize_down_coverage(dim: Topology, a: ArqBounds, new_power: u8)
    requires
        dim.wf(),
        bounds_wf(dim, a),
        new_power <= a.power,
        a.count as nat * pow2_clamped((a.power - new_power) as u8) <= 0xffff_ffff,
    ensures
        requantize_spec(a, new_power) matches Some(b) && bounds_wf(dim, b) && arq_coverage(
            dim,
            b,
        ) == arq_coverage(dim, a) && b.power == new_power,
{
    let d = (a.power - new_power) as u8;
    crate::arq::lemma_pow2_clamped_bounds(d);
    let f = pow2_clamped(d) as int;
    let b = requantize_spec(a, new_power)->0;
    lemma_pow2_pos(dim.quantum_power as nat);
    lemma_pow2_pos(a.power as nat);
    lemma_pow2_pos(new_power as nat);
    lemma_pow2_pos(d as nat);
    // the chunk widths are unclamped powers of two, and scale by the factor
    let cwa = chunk_width_spec(dim, a.power) as int;
    let cwb = chunk_width_spec(dim, new_power) as int;
    assert(cwa == pow2_nat((a.power + dim.quantum_power) as nat)) by {
        lemma_pow2_adds(a.power as nat, dim.quantum_power as nat);
        lemma_pow2_strictly_increases((a.power + dim.quantum_power) as nat, 31);
        lemma2_to64();
    }
    assert(cwb == pow2_nat((new_power + dim.quantum_power) as nat)) by {
        lemma_pow2_adds(new_power as nat, dim.quantum_power as nat);
        lemma_pow2_strictly_increases((new_power + dim.quantum_power) as nat, 31);
        lemma2_to64();
    }
    assert(f * cwb == cwa) by {
        lemma_pow2_adds(d as nat, (new_power + dim.quantum_power) as nat);
    }
    // counts: the new count times the new width is the old length
    assert(b.count as int == a.count as int * f) by {
        lemma_small_mod((a.count as nat * f as nat), 0x1_0000_0000);
    }
    assert(b.count as int * cwb == a.count as int * cwa) by {
        vstd::arithmetic::mul::lemma_mul_is_associative(a.count as int, f, cwb);
    }
    // starts: the scaled start hits the same absolute left edge
    let sa = a.start.0 as int;
    let sb = b.start.0 as int;
    assert(sb == (sa * f) % 0x1_0000_0000);
    assert(left_edge_spec(b, dim) == left_edge_spec(a, dim)) by {
        assert((((sa * f) % 0x1_0000_0000) * cwb) % 0x1_0000_0000 == ((sa * f) * cwb)
            % 0x1_0000_0000) by {
            vstd::arithmetic::div_mod::lemma_mul_mod_noop_left(sa * f, cwb, 0x1_0000_0000);
        }
        assert((sa * f) * cwb == sa * cwa) by {
            vstd::arithmetic::mul::lemma_mul_is_associative(sa, f, cwb);
        }
    }
}

/// A collection of bounds arqs at one common power: the shape in which
/// per-agent coverage is combined and compared.
#[derive(Clone, Debug)]
pub struct ArqSet {
    /// The member arqs, all sharing `power`.
    pub arqs: Vec<ArqBounds>,
    /// The shared quantization level.
    pub power: u8,
}

/// Requantizing every member of a list down to its common minimum power
/// stays within the count's range.
pub open spec fn requantize_fits(arqs: Seq<ArqBounds>) -> bool {
    forall|i: int|
        0 <= i < arqs.len() ==> (#[trigger] arqs[i]).count as nat * pow2_clamped(
            (arqs[i].power - seq_min_power(arqs)) as u8,
        ) <= 0xffff_ffff
}

impl ArqSet {
    /// The set's invariant under a topology: every member sits on the
    /// shared power's grid and covers at most the whole ring.
    pub open spec fn wf(self, dim: Topology) -> bool {
        &&& self.power + dim.quantum_power <= 30
        &&& forall|i: int|
            0 <= i < self.arqs@.len() ==> (#[trigger] self.arqs@[i]).power == self.power
        &&& forall|i: int| 0 <= i < self.arqs@.len() ==> bounds_wf(dim, #[trigger] self.arqs@[i])
    }

    /// The positions any member covers.
    pub open spec fn coverage(self, dim: Topology) -> Set<int> {
        seq_coverage(dim, self.arqs@)
    }

    /// Accessor.
    pub fn power(&self) -> (r: u8)
        ensures
            r == self.power,
    {
        self.power
    }

    /// The member arqs.
    pub fn arqs(&self) -> (r: &Vec<ArqBounds>)
        ensures
            r@ == self.arqs@,
    {
        &self.arqs
    }

    /// How many members the set has.
    pub fn len(&self) -> (r: usize)
        ensures
            r == self.arqs@.len(),
    {
        self.arqs.len()
    }
}


impl ArqSet {
    /// Constructor: requantize every member down to the finest power any
    /// of them uses, so the whole set shares one chunk grid.
    pub fn new(arqs: Vec<ArqBounds>) -> (r: ArqSet)
        requires
            requantize_fits(arqs@),
            forall|i: int| 0 <= i < arqs@.len() ==> (#[trigger] arqs@[i]).power < 32,
        ensures
            r.power == seq_min_power(arqs@),
            r.arqs@.len() == arqs@.len(),
            forall|i: int|
                0 <= i < arqs@.len() ==> #[trigger] r.arqs@[i] == requantize_spec(
                    arqs@[i],
                    seq_min_power(arqs@),
                )->0,
    {
        let ghost garqs = arqs@;
        let mut pmin: u8 = 0;
        if arqs.len() > 0 {
            pmin = arqs[0].power;
            let mut i: usize = 1;
            while i < arqs.len()
                invariant
                    1 <= i <= garqs.len(),
                    arqs@ == garqs,
                    pmin == seq_min_power(garqs.take(i as int)),
                decreases garqs.len() - i,
            {
                proof {
                    assert(garqs.take(i as int + 1).drop_last() =~= garqs.take(i as int));
                    assert(garqs.take(i as int + 1).last() == garqs[i as int]);
                }
                if arqs[i].power < pmin {
                    pmin = arqs[i].power;
                }
                i = i + 1;
            }
            proof {
                assert(garqs.take(garqs.len() as int) =~= garqs);
            }
        }
        let mut out: Vec<ArqBounds> = Vec::new();
        let mut i: usize = 0;
        while i < arqs.len()
            invariant
                i <= garqs.len(),
                arqs@ == garqs,
                pmin == seq_min_power(garqs),
                requantize_fits(garqs),
                forall|j: int| 0 <= j < garqs.len() ==> (#[trigger] garqs[j]).power < 32,
                out@.len() == i,
                forall|j: int|
                    0 <= j < i ==> #[trigger] out@[j] == requantize_spec(garqs[j], pmin)->0,
            decreases garqs.len() - i,
        {
            proof {
                lemma_seq_min_power_le(garqs, i as int);
            }
            let a = arqs[i];
            let got = a.requantize(pmin);
            match got {
                Some(b) => {
                    out.push(b);
                },
                None => {
                    proof {
                        assert(false);
                    }
                },
            }
            i = i + 1;
        }
        ArqSet { arqs: out, power: pmin }
    }
}

/// A member of a well-formed set can be requantized to any power at or
/// below its own without its count overflowing.
pub proof fn lemma_refit_fits(dim: Topology, a: ArqBounds, pc: u8)
    requires
        dim.wf(),
        bounds_wf(dim, a),
        pc <= a.power,
        1 <= pc + dim.quantum_power,
    ensures
        a.count as nat * pow2_clamped((a.power - pc) as u8) <= 0xffff_ffff,
{
    let d = (a.power - pc) as u8;
    crate::arq::lemma_pow2_clamped_bounds(d);
    let f = pow2_clamped(d) as int;
    let g = pow2_nat((pc + dim.quantum_power) as nat) as int;
    lemma_pow2_pos((pc + dim.quantum_power) as nat);
    let cwa = chunk_width_spec(dim, a.power) as int;
    assert(cwa == pow2_nat((a.power + dim.quantum_power) as nat)) by {
        lemma_pow2_adds(a.power as nat, dim.quantum_power as nat);
        lemma_pow2_strictly_increases((a.power + dim.quantum_power) as nat, 31);
        lemma2_to64();
    }
    assert(f * g == cwa) by {
        lemma_pow2_adds(d as nat, (pc + dim.quantum_power) as nat);
    }
    assert((a.count as int * f) * g == a.count as int * cwa) by {
        vstd::arithmetic::mul::lemma_mul_is_associative(a.count as int, f, g);
    }
    assert(2 <= g) by {
        if (pc + dim.quantum_power) as nat > 1 {
            lemma_pow2_strictly_increases(1, (pc + dim.quantum_power) as nat);
        }
        lemma2_to64();
    }
    assert((a.count as int * f) * 2 <= (a.count as int * f) * g) by {
        vstd::arithmetic::mul::lemma_mul_nonnegative(a.count as int, f);
        vstd::arithmetic::mul::lemma_mul_inequality(2, g, a.count as int * f);
        vstd::arithmetic::mul::lemma_mul_is_commutative(a.count as int * f, 2);
        vstd::arithmetic::mul::lemma_mul_is_commutative(a.count as int * f, g);
    }
}

/// Requantizing every member of a list down to one power preserves the
/// list's coverage.
pub proof fn lemma_seq_requantized_coverage(dim: Topology, olds: Seq<ArqBounds>,
    news: Seq<ArqBounds>, pc: u8)
    requires
        dim.wf(),
        olds.len() == news.len(),
        pc + dim.quantum_power <= 30,
        forall|i: int| 0 <= i < olds.len() ==> bounds_wf(dim, #[trigger] olds[i]),
        forall|i: int| 0 <= i < olds.len() ==> pc <= (#[trigger] olds[i]).power,
        forall|i: int|
            0 <= i < olds.len() ==> #[trigger] news[i] == requantize_spec(olds[i], pc)->0,
        1 <= pc + dim.quantum_power,
    ensures
        seq_coverage(dim, news) == seq_coverage(dim, olds),
        forall|i: int|
            0 <= i < news.len() ==> bounds_wf(dim, #[trigger] news[i]) && news[i].power == pc,
    decreases olds.len(),
{
    if olds.len() == 0 {
        assert(seq_coverage(dim, news) =~= seq_coverage(dim, olds));
    } else {
        lemma_refit_fits(dim, olds[0], pc);
        lemma_requantize_down_coverage(dim, olds[0], pc);
        lemma_seq_requantized_coverage(dim, olds.drop_first(), news.drop_first(), pc);
        assert(seq_coverage(dim, news) =~= seq_coverage(dim, olds));
        assert forall|i: int| 0 <= i < news.len() implies bounds_wf(dim, #[trigger] news[i])
            && news[i].power == pc by {
            if i == 0 {
            } else {
                assert(news.drop_first()[i - 1] == news[i]);
            }
        }
    }
}


impl ArqSet {
    /// Requantize every member down to the given power, preserving
    /// coverage; a building block for the set operations.
    fn normalized(&self, dim: &Topology, pc: u8) -> (r: Vec<ArqBounds>)
        requires
            dim.wf(),
            self.wf(*dim),
            pc <= self.power,
            1 <= pc + dim.quantum_power,
        ensures
            seq_coverage(*dim, r@) == self.coverage(*dim),
            forall|i: int|
                0 <= i < r@.len() ==> bounds_wf(*dim, #[trigger] r@[i]) && r@[i].power == pc,
    {
        let mut out: Vec<ArqBounds> = Vec::new();
        let mut i: usize = 0;
        let ghost garqs = self.arqs@;
        while i < self.arqs.len()
            invariant
                i <= garqs.len(),
                self.arqs@ == garqs,
                dim.wf(),
                self.wf(*dim),
                pc <= self.power,
                1 <= pc + dim.quantum_power,
                out@.len() == i,
                forall|j: int|
                    0 <= j < i ==> #[trigger] out@[j] == requantize_spec(garqs[j], pc)->0,
            decreases garqs.len() - i,
        {
            proof {
                lemma_refit_fits(*dim, garqs[i as int], pc);
                lemma_requantize_down_coverage(*dim, garqs[i as int], pc);
            }
            let a = self.arqs[i];
            match a.requantize(pc) {
                Some(b) => {
                    out.push(b);
                },
                None => {
                    proof {
                        assert(false);
                    }
                },
            }
            i = i + 1;
        }
        proof {
            lemma_seq_requantized_coverage(*dim, garqs, out@, pc);
        }
        out
    }

    /// The union of two sets' coverage: both sets' members, brought to the
    /// finer of the two shared powers.
    pub fn union(&self, dim: &Topology, other: &ArqSet) -> (r: ArqSet)
        requires
            dim.wf(),
            self.wf(*dim),
            other.wf(*dim),
            1 <= dim.quantum_power + if self.power < other.power {
                self.power
            } else {
                other.power
            },
        ensures
            r.wf(*dim),
            r.coverage(*dim) == self.coverage(*dim).union(other.coverage(*dim)),
            r.power == if self.power < other.power {
                self.power
            } else {
                other.power
            },
    {
        let pc = if self.power < other.power {
            self.power
        } else {
            other.power
        };
        let mut out = self.normalized(dim, pc);
        let ghost left = out@;
        let more = other.normalized(dim, pc);
        let ghost right = more@;
        let mut i: usize = 0;
        while i < more.len()
            invariant
                i <= right.len(),
                more@ == right,
                out@ == left + right.take(i as int),
            decreases right.len() - i,
        {
            proof {
                assert((left + right.take(i as int)).push(right[i as int]) =~= left + right.take(
                    i as int + 1,
                ));
            }
            out.push(more[i]);
            i = i + 1;
        }
        proof {
            assert(out@ =~= left + right);
            lemma_seq_coverage_concat(*dim, left, right);
            assert forall|j: int| 0 <= j < out@.len() implies bounds_wf(*dim, #[trigger] out@[j])
                && out@[j].power == pc by {
                if j < left.len() {
                } else {
                    assert(out@[j] == right[j - left.len()]);
                }
            }
        }
        ArqSet { arqs: out, power: pc }
    }
}

/// Coverage of two lists laid end to end is the union of their coverages.
pub proof fn lemma_seq_coverage_concat(dim: Topology, s1: Seq<ArqBounds>, s2: Seq<ArqBounds>)
    ensures
        seq_coverage(dim, s1 + s2) == seq_coverage(dim, s1).union(seq_coverage(dim, s2)),
    decreases s1.len(),
{
    if s1.len() == 0 {
        assert(s1 + s2 =~= s2);
        assert(seq_coverage(dim, s1).union(seq_coverage(dim, s2)) =~= seq_coverage(dim, s2));
    } else {
        assert((s1 + s2).drop_first() =~= s1.drop_first() + s2);
        lemma_seq_coverage_concat(dim, s1.drop_first(), s2);
        assert(seq_coverage(dim, s1 + s2) =~= seq_coverage(dim, s1).union(
            seq_coverage(dim, s2),
        ));
    }
}


/// Push the overlap of two aligned half-open absolute intervals, if any,
/// as one bounds arq at the shared power.
fn push_overlap(
    dim: &Topology,
    pc: u8,
    cw: u32,
    lo1: u64,
    hi1: u64,
    lo2: u64,
    hi2: u64,
    out: &mut Vec<ArqBounds>,
)
    requires
        dim.wf(),
        1 <= pc + dim.quantum_power <= 30,
        cw as nat == chunk_width_spec(*dim, pc),
        lo1 as int % cw as int == 0,
        hi1 as int % cw as int == 0,
        lo2 as int % cw as int == 0,
        hi2 as int % cw as int == 0,
        lo1 <= hi1 <= 0x1_0000_0000,
        lo2 <= hi2 <= 0x1_0000_0000,
    ensures
        seq_coverage(*dim, final(out)@) == seq_coverage(*dim, old(out)@).union(
            span(lo1 as int, hi1 as int).intersect(span(lo2 as int, hi2 as int)),
        ),
        forall|j: int| 0 <= j < old(out)@.len() ==> final(out)@[j] == old(out)@[j],
        old(out)@.len() <= final(out)@.len(),
        forall|j: int|
            old(out)@.len() <= j < final(out)@.len() ==> bounds_wf(
                *dim,
                #[trigger] final(out)@[j],
            ) && final(out)@[j].power == pc,
{
    proof {
        // the chunk width is the unclamped power of two, at least 2
        lemma_pow2_adds(pc as nat, dim.quantum_power as nat);
        lemma_pow2_strictly_increases((pc + dim.quantum_power) as nat, 31);
        lemma_pow2_strictly_increases(0, (pc + dim.quantum_power) as nat);
        lemma2_to64();
        assert(cw as nat == pow2_nat((pc + dim.quantum_power) as nat));
    }
    let lo = if lo1 > lo2 {
        lo1
    } else {
        lo2
    };
    let hi = if hi1 < hi2 {
        hi1
    } else {
        hi2
    };
    if lo < hi {
        proof {
            // both cut points stay on the chunk grid
            lemma_fundamental_div_mod(lo as int, cw as int);
            lemma_fundamental_div_mod(hi as int, cw as int);
            // the whole ring is a whole number of chunks
            let nc = pow2_nat((32 - pc - dim.quantum_power) as nat) as int;
            assert(cw as int * nc == 0x1_0000_0000) by {
                lemma_pow2_adds(
                    (pc + dim.quantum_power) as nat,
                    (32 - pc - dim.quantum_power) as nat,
                );
            }
            assert(nc <= 0x8000_0000) by {
                lemma_pow2_strictly_increases((32 - pc - dim.quantum_power) as nat, 32);
                if ((32 - pc - dim.quantum_power) as nat) < 31 {
                    lemma_pow2_strictly_increases((32 - pc - dim.quantum_power) as nat, 31);
                }
            }
            let ql = lo as int / cw as int;
            let qh = hi as int / cw as int;
            assert(cw as int * ql == lo);
            assert(cw as int * qh == hi);
            assert(qh <= nc) by {
                if qh > nc {
                    vstd::arithmetic::mul::lemma_mul_inequality(nc + 1, qh, cw as int);
                    vstd::arithmetic::mul::lemma_mul_is_commutative(nc + 1, cw as int);
                    vstd::arithmetic::mul::lemma_mul_is_commutative(qh, cw as int);
                    vstd::arithmetic::mul::lemma_mul_is_distributive_add(cw as int, nc, 1);
                }
            }
            vstd::arithmetic::div_mod::lemma_div_is_ordered(lo as int, hi as int, cw as int);
            assert(cw as int * (qh - ql) == hi - lo) by {
                vstd::arithmetic::mul::lemma_mul_is_distributive_sub(cw as int, qh, ql);
            }
            assert((hi - lo) as int / cw as int == qh - ql) by {
                vstd::arithmetic::mul::lemma_mul_is_commutative(cw as int, qh - ql);
                vstd::arithmetic::div_mod::lemma_div_by_multiple(qh - ql, cw as int);
            }
        }
        let start = (lo / (cw as u64)) as u32;
        let count = ((hi - lo) / (cw as u64)) as u32;
        let pushed = ArqBounds { start: SpaceOffset(start), power: pc, count };
        proof {
            let ghost qlv = lo as int / cw as int;
            let ghost qhv = hi as int / cw as int;
            // the pushed arq covers exactly the overlap span
            assert(start as int * cw as int == lo) by {
                vstd::arithmetic::mul::lemma_mul_is_commutative(cw as int, qlv);
            }
            assert(count as int * cw as int == hi - lo) by {
                vstd::arithmetic::mul::lemma_mul_is_commutative(cw as int, qhv - qlv);
            }
            assert(left_edge_spec(pushed, *dim) == lo) by {
                lemma_small_mod(lo as nat, 0x1_0000_0000);
            }
            assert(arq_coverage(*dim, pushed) =~= span(lo as int, hi as int));
            assert(bounds_wf(*dim, pushed));
            lemma_seq_coverage_push(*dim, out@, pushed);
            assert(span(lo as int, hi as int) =~= span(lo1 as int, hi1 as int).intersect(
                span(lo2 as int, hi2 as int),
            ));
        }
        out.push(pushed);
    } else {
        proof {
            assert(span(lo1 as int, hi1 as int).intersect(span(lo2 as int, hi2 as int))
                =~= Set::<int>::empty());
            assert(seq_coverage(*dim, out@) =~= seq_coverage(*dim, out@).union(
                Set::<int>::empty(),
            ));
        }
    }
}

/// Push the intersection of two same-power members onto the output: at
/// most two aligned pieces each, intersected pairwise.
fn intersect_pair(dim: &Topology, pc: u8, cw: u32, a: &ArqBounds, b: &ArqBounds,
    out: &mut Vec<ArqBounds>)
    requires
        dim.wf(),
        1 <= pc + dim.quantum_power <= 30,
        cw as nat == chunk_width_spec(*dim, pc),
        a.power == pc,
        b.power == pc,
        bounds_wf(*dim, *a),
        bounds_wf(*dim, *b),
    ensures
        seq_coverage(*dim, final(out)@) == seq_coverage(*dim, old(out)@).union(
            arq_coverage(*dim, *a).intersect(arq_coverage(*dim, *b)),
        ),
        forall|j: int| 0 <= j < old(out)@.len() ==> final(out)@[j] == old(out)@[j],
        old(out)@.len() <= final(out)@.len(),
        forall|j: int|
            old(out)@.len() <= j < final(out)@.len() ==> bounds_wf(
                *dim,
                #[trigger] final(out)@[j],
            ) && final(out)@[j].power == pc,
{
    proof {
        lemma_pow2_adds(pc as nat, dim.quantum_power as nat);
        lemma_pow2_strictly_increases((pc + dim.quantum_power) as nat, 31);
        lemma_pow2_strictly_increases(0, (pc + dim.quantum_power) as nat);
        lemma2_to64();
    }
    let (la, lena) = piece_bounds(dim, pc, cw, a);
    let (lb, lenb) = piece_bounds(dim, pc, cw, b);
    let ahi1 = if la + lena < U32_LEN {
        la + lena
    } else {
        U32_LEN
    };
    let aex = if la + lena > U32_LEN {
        la + lena - U32_LEN
    } else {
        0
    };
    let bhi1 = if lb + lenb < U32_LEN {
        lb + lenb
    } else {
        U32_LEN
    };
    let bex = if lb + lenb > U32_LEN {
        lb + lenb - U32_LEN
    } else {
        0
    };
    proof {
        // the wrapped-past-zero remainders stay on the chunk grid too
        vstd::arithmetic::div_mod::lemma_sub_mod_noop(
            la as int + lena as int,
            0x1_0000_0000,
            cw as int,
        );
        vstd::arithmetic::div_mod::lemma_sub_mod_noop(
            lb as int + lenb as int,
            0x1_0000_0000,
            cw as int,
        );
        lemma_small_mod(0, cw as nat);
        assert(arq_coverage(*dim, *a) =~= span(la as int, ahi1 as int).union(
            span(0, aex as int),
        ));
        assert(arq_coverage(*dim, *b) =~= span(lb as int, bhi1 as int).union(
            span(0, bex as int),
        ));
    }
    let ghost before = out@;
    push_overlap(dim, pc, cw, la, ahi1, lb, bhi1, out);
    push_overlap(dim, pc, cw, la, ahi1, 0, bex, out);
    push_overlap(dim, pc, cw, 0, aex, lb, bhi1, out);
    push_overlap(dim, pc, cw, 0, aex, 0, bex, out);
    proof {
        assert(seq_coverage(*dim, out@) =~= seq_coverage(*dim, before).union(
            arq_coverage(*dim, *a).intersect(arq_coverage(*dim, *b)),
        ));
    }
}

/// The left edge and total length of a member, in absolute coordinates,
/// with the grid-alignment facts the intersection needs.
fn piece_bounds(dim: &Topology, pc: u8, cw: u32, a: &ArqBounds) -> (r: (u64, u64))
    requires
        dim.wf(),
        1 <= pc + dim.quantum_power <= 30,
        cw as nat == chunk_width_spec(*dim, pc),
        a.power == pc,
        bounds_wf(*dim, *a),
    ensures
        r.0 as int == left_edge_spec(*a, *dim),
        r.1 as int == a.count as int * cw as int,
        r.0 as int % cw as int == 0,
        r.1 as int % cw as int == 0,
        (r.0 as int + r.1 as int) % cw as int == 0,
        0x1_0000_0000 as int % cw as int == 0,
        r.0 < 0x1_0000_0000,
        r.1 <= 0x1_0000_0000,
{
    proof {
        lemma_pow2_adds(pc as nat, dim.quantum_power as nat);
        lemma_pow2_strictly_increases((pc + dim.quantum_power) as nat, 31);
        lemma_pow2_strictly_increases(0, (pc + dim.quantum_power) as nat);
        lemma2_to64();
        crate::arq::lemma_mul_fits_u64(a.start.0 as int, cw as int);
        crate::arq::lemma_mul_fits_u64(a.count as int, cw as int);
    }
    let la = ((a.start.0 as u64) * (cw as u64)) % U32_LEN;
    let lena = (a.count as u64) * (cw as u64);
    proof {
        let s = a.start.0 as int;
        let nc = pow2_nat((32 - pc - dim.quantum_power) as nat) as int;
        assert(cw as int * nc == 0x1_0000_0000) by {
            lemma_pow2_adds(
                (pc + dim.quantum_power) as nat,
                (32 - pc - dim.quantum_power) as nat,
            );
        }
        assert(nc >= 1) by {
            lemma_pow2_pos((32 - pc - dim.quantum_power) as nat);
        }
        // the reduced left edge keeps its grid alignment
        assert((s * cw as int) % (cw as int * nc) == cw as int * ((s * cw as int / cw as int)
            % nc) + (s * cw as int) % cw as int) by {
            vstd::arithmetic::div_mod::lemma_breakdown(s * cw as int, cw as int, nc);
            vstd::arithmetic::mul::lemma_mul_nonnegative(s, cw as int);
        }
        assert((s * cw as int) % cw as int == 0) by {
            vstd::arithmetic::div_mod::lemma_mod_multiples_basic(s, cw as int);
            vstd::arithmetic::mul::lemma_mul_is_commutative(s, cw as int);
        }
        assert(s * cw as int / cw as int == s) by {
            vstd::arithmetic::div_mod::lemma_div_by_multiple(s, cw as int);
        }
        assert(la as int == cw as int * (s % nc));
        assert(la as int % cw as int == 0) by {
            vstd::arithmetic::div_mod::lemma_mod_multiples_basic(s % nc, cw as int);
            vstd::arithmetic::mul::lemma_mul_is_commutative(s % nc, cw as int);
        }
        assert(lena as int % cw as int == 0) by {
            vstd::arithmetic::div_mod::lemma_mod_multiples_basic(a.count as int, cw as int);
            vstd::arithmetic::mul::lemma_mul_is_commutative(a.count as int, cw as int);
        }
        assert((la as int + lena as int) % cw as int == 0) by {
            assert(la as int + lena as int == cw as int * (s % nc + a.count as int)) by {
                vstd::arithmetic::mul::lemma_mul_is_distributive_add(
                    cw as int,
                    s % nc,
                    a.count as int,
                );
                vstd::arithmetic::mul::lemma_mul_is_commutative(a.count as int, cw as int);
            }
            vstd::arithmetic::div_mod::lemma_mod_multiples_basic(
                s % nc + a.count as int,
                cw as int,
            );
            vstd::arithmetic::mul::lemma_mul_is_commutative(s % nc + a.count as int, cw as int);
        }
        assert(0x1_0000_0000 as int % cw as int == 0) by {
            vstd::arithmetic::div_mod::lemma_mod_multiples_basic(nc, cw as int);
            vstd::arithmetic::mul::lemma_mul_is_commutative(nc, cw as int);
        }
        vstd::arithmetic::div_mod::lemma_mod_bound(s * cw as int, 0x1_0000_0000);
        vstd::arithmetic::mul::lemma_mul_nonnegative(s, cw as int);
    }
    (la, lena)
}

impl ArqSet {
    /// The intersection of two sets' coverage: the common positions, as a
    /// fresh set at the finer of the two shared powers. This is how two
    /// peers' independently chosen arcs become one shared reconciliation
    /// scope.
    pub fn intersection(&self, dim: &Topology, other: &ArqSet) -> (r: ArqSet)
        requires
            dim.wf(),
            self.wf(*dim),
            other.wf(*dim),
            1 <= dim.quantum_power + if self.power < other.power {
                self.power
            } else {
                other.power
            },
        ensures
            r.wf(*dim),
            r.coverage(*dim) == self.coverage(*dim).intersect(other.coverage(*dim)),
            r.power == if self.power < other.power {
                self.power
            } else {
                other.power
            },
    {
        let pc = if self.power < other.power {
            self.power
        } else {
            other.power
        };
        let na = self.normalized(dim, pc);
        let nb = other.normalized(dim, pc);
        let cw = crate::arq::absolute_chunk_width_at(dim, pc);
        let ghost cov_b = seq_coverage(*dim, nb@);
        let mut out: Vec<ArqBounds> = Vec::new();
        let mut i: usize = 0;
        while i < na.len()
            invariant
                dim.wf(),
                1 <= pc + dim.quantum_power <= 30,
                cw as nat == chunk_width_spec(*dim, pc),
                i <= na@.len(),
                forall|k: int|
                    0 <= k < na@.len() ==> bounds_wf(*dim, #[trigger] na@[k]) && na@[k].power
                        == pc,
                forall|k: int|
                    0 <= k < nb@.len() ==> bounds_wf(*dim, #[trigger] nb@[k]) && nb@[k].power
                        == pc,
                cov_b == seq_coverage(*dim, nb@),
                seq_coverage(*dim, out@) == seq_coverage(*dim, na@.take(i as int)).intersect(
                    cov_b,
                ),
                forall|k: int|
                    0 <= k < out@.len() ==> bounds_wf(*dim, #[trigger] out@[k]) && out@[k].power
                        == pc,
            decreases na@.len() - i,
        {
            let ghost outer_before = out@;
            let mut j: usize = 0;
            while j < nb.len()
                invariant
                    dim.wf(),
                    1 <= pc + dim.quantum_power <= 30,
                    cw as nat == chunk_width_spec(*dim, pc),
                    i < na@.len(),
                    j <= nb@.len(),
                    forall|k: int|
                        0 <= k < na@.len() ==> bounds_wf(*dim, #[trigger] na@[k]) && na@[k].power
                            == pc,
                    forall|k: int|
                        0 <= k < nb@.len() ==> bounds_wf(*dim, #[trigger] nb@[k]) && nb@[k].power
                            == pc,
                    seq_coverage(*dim, out@) == seq_coverage(*dim, outer_before).union(
                        arq_coverage(*dim, na@[i as int]).intersect(
                            seq_coverage(*dim, nb@.take(j as int)),
                        ),
                    ),
                    forall|k: int|
                        0 <= k < out@.len() ==> bounds_wf(*dim, #[trigger] out@[k])
                            && out@[k].power == pc,
                decreases nb@.len() - j,
            {
                let ghost inner_before = out@;
                intersect_pair(dim, pc, cw, &na[i], &nb[j], &mut out);
                proof {
                    assert(nb@.take(j as int + 1) =~= nb@.take(j as int).push(nb@[j as int]));
                    lemma_seq_coverage_push(*dim, nb@.take(j as int), nb@[j as int]);
                    assert(seq_coverage(*dim, out@) =~= seq_coverage(*dim, outer_before).union(
                        arq_coverage(*dim, na@[i as int]).intersect(
                            seq_coverage(*dim, nb@.take(j as int + 1)),
                        ),
                    ));
                }
                j = j + 1;
            }
            proof {
                assert(nb@.take(nb@.len() as int) =~= nb@);
                assert(na@.take(i as int + 1) =~= na@.take(i as int).push(na@[i as int]));
                lemma_seq_coverage_push(*dim, na@.take(i as int), na@[i as int]);
                assert(seq_coverage(*dim, out@) =~= seq_coverage(
                    *dim,
                    na@.take(i as int + 1),
                ).intersect(cov_b));
            }
            i = i + 1;
        }
        proof {
            assert(na@.take(na@.len() as int) =~= na@);
        }
        ArqSet { arqs: out, power: pc }
    }
}


/// The equivalence predicate agrees with the coverage model: two
/// non-degenerate well-formed bounds that are equivalent (same scaled
/// start and same scaled length on the ring) cover exactly the same
/// positions. Degenerate cases are excluded because on the ring a zero
/// length and a full-ring length are indistinguishable once scaled.
pub proof fn lemma_equivalent_same_coverage(dim: Topology, a: ArqBounds, b: ArqBounds)
    requires
        dim.wf(),
        bounds_wf(dim, a),
        bounds_wf(dim, b),
        1 <= a.count as int * chunk_width_spec(dim, a.power) as int,
        (a.count as int * chunk_width_spec(dim, a.power) as int) < 0x1_0000_0000,
        1 <= b.count as int * chunk_width_spec(dim, b.power) as int,
        (b.count as int * chunk_width_spec(dim, b.power) as int) < 0x1_0000_0000,
        crate::arq::ring_mod(a.start.0 as int * chunk_width_spec(dim, a.power) as int)
            == crate::arq::ring_mod(b.start.0 as int * chunk_width_spec(dim, b.power) as int),
        crate::arq::ring_mod(a.count as int * chunk_width_spec(dim, a.power) as int)
            == crate::arq::ring_mod(b.count as int * chunk_width_spec(dim, b.power) as int),
    ensures
        arq_coverage(dim, a) == arq_coverage(dim, b),
{
    let la = a.count as int * chunk_width_spec(dim, a.power) as int;
    let lb = b.count as int * chunk_width_spec(dim, b.power) as int;
    lemma_small_mod(la as nat, 0x1_0000_0000);
    lemma_small_mod(lb as nat, 0x1_0000_0000);
    assert(la == lb);
    assert(left_edge_spec(a, dim) == left_edge_spec(b, dim));
}

} // verus!
