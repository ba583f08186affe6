//! The sizing strategy for fitted arcs: how many chunks an arc should be
//! quantized into, and the highest power a topology admits under it.

use vstd::prelude::*;

verus! {

use crate::spacetime::{Topology, pow2_nat};
use vstd::arithmetic::power2::{
    lemma_pow2_unfold,
    lemma_pow2_strictly_increases,
    lemma2_to64,
    lemma2_to64_rest,
};

/// `floor(log2(n))`, with `floor_log2(0) == 0`.
pub open spec fn floor_log2(n: nat) -> nat
    decreases n,
{
    if n <= 1 {
        0
    } else {
        1 + floor_log2(n / 2)
    }
}

/// The sizing policy consumed by the fitting algorithms: fitted arcs (apart
/// from the degenerate power-0 case) keep their chunk count between
/// `min_chunks` and `max_chunks`.
#[derive(Clone, Copy, PartialEq, Eq, Structural)]
pub struct ArqStrat {
    /// The fewest chunks a fitted arc should have.
    pub min_chunks: u32,
    /// The most chunks a fitted arc may have.
    pub max_chunks: u32,
}

impl ArqStrat {
    /// The strategy's invariant: the band between the two bounds spans at
    /// least a doubling, so that halving a too-large count cannot fall
    /// below the minimum.
    pub open spec fn wf(self) -> bool {
        2 <= self.min_chunks && self.min_chunks * 2 <= self.max_chunks
    }

    /// Constructor from individual bounds.
    pub fn new(min_chunks: u32, max_chunks: u32) -> (r: ArqStrat)
        ensures
            r.min_chunks == min_chunks,
            r.max_chunks == max_chunks,
    {
        ArqStrat { min_chunks, max_chunks }
    }

    /// The fewest chunks a fitted arc should have.
    pub fn min_chunks(&self) -> (r: u32)
        ensures
            r == self.min_chunks,
    {
        self.min_chunks
    }

    /// The most chunks a fitted arc may have.
    pub fn max_chunks(&self) -> (r: u32)
        ensures
            r == self.max_chunks,
    {
        self.max_chunks
    }
}

impl Default for ArqStrat {
    /// The default band of 8 to 16 chunks.
    fn default() -> (r: ArqStrat)
        ensures
            r.min_chunks == 8,
            r.max_chunks == 16,
            r.wf(),
    {
        ArqStrat { min_chunks: 8, max_chunks: 16 }
    }
}

/// `floor(log2(n))` as executable code.
pub fn floor_log2_exec(n: u32) -> (r: u32)
    ensures
        r as nat == floor_log2(n as nat),
        r <= 31,
{
    let mut m: u32 = n;
    let mut r: u32 = 0;
    proof {
        lemma2_to64();
        assert(pow2_nat(0) == 1);
        assert(m as nat * pow2_nat(0) == m as nat) by {
            vstd::arithmetic::mul::lemma_mul_basics(m as int);
        }
    }
    while m > 1
        invariant
            floor_log2(n as nat) == r + floor_log2(m as nat),
            m as nat * pow2_nat(r as nat) <= n as nat,
            r <= 31,
        decreases m,
    {
        proof {
            // m >= 2, so pow2(r + 1) <= m * pow2(r) <= n < pow2(32).
            lemma_pow2_unfold((r + 1) as nat);
            vstd::arithmetic::mul::lemma_mul_inequality(2, m as int, pow2_nat(r as nat) as int);
            if r + 1 >= 32 {
                if r + 1 > 32 {
                    lemma_pow2_strictly_increases(32, (r + 1) as nat);
                }
                lemma2_to64();
                lemma2_to64_rest();
                assert(false);
            }
            // the halved count still satisfies the size invariant
            vstd::arithmetic::mul::lemma_mul_inequality(
                ((m / 2) as int) * 2,
                m as int,
                pow2_nat(r as nat) as int,
            );
            assert(((m / 2) as nat) * pow2_nat((r + 1) as nat) == (((m / 2) as int) * 2)
                * pow2_nat(r as nat)) by {
                vstd::arithmetic::mul::lemma_mul_is_associative(
                    (m / 2) as int,
                    2,
                    pow2_nat(r as nat) as int,
                );
            }
        }
        m = m / 2;
        r = r + 1;
    }
    r
}

impl Topology {
    /// The highest power the strategy admits for this topology: coarse
    /// enough that `max_chunks` chunks of that width can still cover the
    /// whole ring.
    pub fn max_power(&self, strat: &ArqStrat) -> (r: u8)
        ensures
            r as int == if 32 - self.quantum_power - floor_log2(strat.max_chunks as nat) >= 0 {
                32 - self.quantum_power - floor_log2(strat.max_chunks as nat)
            } else {
                0
            },
    {
        let l = floor_log2_exec(strat.max_chunks);
        let s = self.quantum_power as u32 + l;
        if s >= 32 {
            0
        } else {
            (32 - s) as u8
        }
    }
}

} // verus!
