//! Quantized coverage arcs over a circular 32-bit address space, and the
//! sharded gossip round protocol that uses them.
//!
//! An arc ("arq") is a contiguous, possibly wrapping interval of the ring,
//! expressed as a start, a power (the quantization level) and a count of
//! chunks of width `quantum * 2^power`. The `arq` module holds the arc
//! algebra; `arq_set` the per-agent collections and their set operations;
//! `initiate` the gossip round state machine built on top of them.

pub mod spacetime;
pub mod strat;
pub mod arc_range;
pub mod arq;
pub mod arq_set;
pub mod gossip;
pub mod initiate;
