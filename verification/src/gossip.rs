//! The data the sharded gossip protocol exchanges and tracks: wire
//! messages, per-round state, and the map of active rounds keyed by the
//! remote peer's certificate.

use vstd::prelude::*;

verus! {

use crate::arq_set::ArqSet;
use crate::arq::ArqBounds;

/// An agent known to a node, carried through gossip as an opaque signed
/// record; identified here by its id.
#[derive(Clone, Copy, Debug, PartialEq, Eq, Structural)]
pub struct AgentInfo {
    /// The agent's identity.
    pub agent: u64,
}

/// Which reconciliation style a gossip instance runs.
#[derive(Clone, Copy, Debug, PartialEq, Eq, Structural)]
pub enum GossipType {
    /// Recently authored data, reconciled with time-windowed bloom
    /// filters.
    Recent,
    /// Historical data, reconciled with precomputed region digests.
    Historical,
}

/// A half-open window of time, in microseconds since the epoch.
#[derive(Clone, Copy, Debug, PartialEq, Eq, Structural)]
pub struct TimeWindow {
    /// The first instant inside the window.
    pub start: u64,
    /// The first instant past the window.
    pub end: u64,
}

/// A precomputed summary of the data in a coverage region, produced by
/// the backing store for Historical reconciliation.
#[derive(Clone, Debug, PartialEq, Eq)]
pub struct RegionSetDigest {
    /// The encoded summary.
    pub data: Vec<u8>,
}

/// A bloom filter over the op hashes of one time window: the encoded
/// filter where hashes were found, or nothing where agents hold the arc
/// but no hashes exist locally.
#[derive(Clone, Debug, PartialEq, Eq)]
pub struct TimedBloomFilter {
    /// The encoded filter, if any hashes were found.
    pub bloom: Option<Vec<u8>>,
    /// The window the filter covers.
    pub time: TimeWindow,
}

/// One batch of per-window bloom filters from the op store: either the
/// whole remaining window, or a size-limited piece with a cursor from
/// which the next batch resumes.
#[derive(Clone, Debug, PartialEq, Eq)]
pub enum Batch {
    /// The batch covers everything that was asked for.
    Complete(Vec<TimedBloomFilter>),
    /// The batch was cut short; resume from `cursor`.
    Partial {
        /// Where the next query should resume.
        cursor: u64,
        /// The filters gathered so far.
        data: Vec<TimedBloomFilter>,
    },
}

/// The bloom filter of one time window as it crosses the wire.
#[derive(Clone, Debug, PartialEq, Eq)]
pub enum EncodedTimedBloomFilter {
    /// No hashes and no agents for the window: nothing to exchange.
    NoOverlap,
    /// Hashes were found; the filter carries them.
    HaveHashes {
        /// The encoded bloom filter.
        filter: Vec<u8>,
        /// The window the filter covers.
        time_window: TimeWindow,
    },
    /// No hash data is held locally for an arc the remote covers: ask for
    /// everything in the window.
    MissingAllHashes {
        /// The window in question.
        time_window: TimeWindow,
    },
}

/// The messages two gossiping peers exchange.
#[derive(Clone, Debug, PartialEq, Eq)]
pub enum ShardedGossipWire {
    /// Open a round: the sender's coverage, its tie-break id, and its
    /// agents.
    Initiate {
        /// The sender's fitted arc bounds.
        intervals: Vec<ArqBounds>,
        /// The random id that resolves simultaneous initiations.
        id: u32,
        /// The sender's agents.
        agent_list: Vec<AgentInfo>,
    },
    /// Agree to a round: the responder's coverage and agents.
    Accept {
        /// The responder's fitted arc bounds.
        intervals: Vec<ArqBounds>,
        /// The responder's agents.
        agent_list: Vec<AgentInfo>,
    },
    /// A bloom filter over which agents the sender knows.
    Agents {
        /// The encoded filter.
        filter: Vec<u8>,
    },
    /// A bloom filter over op hashes for one time window.
    OpBloom {
        /// The filter, or the reason there is none.
        missing_hashes: EncodedTimedBloomFilter,
        /// Whether this is the final bloom of the batch.
        finished: bool,
    },
    /// A region digest set for Historical reconciliation.
    OpRegions {
        /// The digests over the common coverage.
        region_set: RegionSetDigest,
    },
    /// The round is already running; the initiate was stale.
    AlreadyInProgress,
    /// The receiver has no local agents to gossip from.
    NoAgents,
}

/// The state of one gossip round with one remote peer.
#[derive(Clone, Debug)]
pub struct RoundState {
    /// The remote peer's agents, as reported in its initiate or accept.
    pub remote_agent_list: Vec<AgentInfo>,
    /// The common coverage both peers agreed to reconcile.
    pub common_arq_set: ArqSet,
    /// The region digest set sent for Historical rounds.
    pub region_set: Option<RegionSetDigest>,
    /// Where the next bloom batch resumes, when the last one was partial.
    pub bloom_batch_cursor: Option<u64>,
    /// How many op-bloom acknowledgements are still owed.
    pub expected_op_bloom_count: u32,
    /// Whether the round's region data has been queued for sending.
    pub regions_are_queued: bool,
    /// Whether Historical op data is still in flight.
    pub has_pending_historical_op_data: bool,
}

impl RoundState {
    /// Note that one more op bloom has been sent and awaits its reply.
    pub fn increment_expected_op_blooms(&mut self)
        requires
            old(self).expected_op_bloom_count < 0xffff_ffff,
        ensures
            final(self).expected_op_bloom_count == old(self).expected_op_bloom_count + 1,
            final(self).remote_agent_list == old(self).remote_agent_list,
            final(self).common_arq_set == old(self).common_arq_set,
            final(self).region_set == old(self).region_set,
            final(self).bloom_batch_cursor == old(self).bloom_batch_cursor,
            final(self).regions_are_queued == old(self).regions_are_queued,
            final(self).has_pending_historical_op_data == old(
                self,
            ).has_pending_historical_op_data,
    {
        self.expected_op_bloom_count = self.expected_op_bloom_count + 1;
    }
}

/// The peer this node is currently trying to initiate a round with;
/// exists only between sending an initiate and its resolution.
#[derive(Clone, Debug)]
pub struct ShardedGossipTarget {
    /// The peer's agents as last reported.
    pub remote_agent_list: Vec<AgentInfo>,
    /// The peer's node certificate.
    pub cert: u64,
    /// The random id carried in our initiate, for tie-breaking.
    pub tie_break: u32,
    /// When the initiate was sent; cleared once the peer accepts.
    pub when_initiated: Option<u64>,
    /// How to reach the peer.
    pub url: String,
}

/// A remote peer chosen by the peer directory as a gossip candidate.
#[derive(Clone, Debug)]
pub struct Node {
    /// The agents the peer holds.
    pub agent_info_list: Vec<AgentInfo>,
    /// The peer's node certificate.
    pub cert: u64,
    /// How to reach the peer.
    pub url: String,
}

/// The map of active rounds, keyed by remote peer certificate. At most
/// one round exists per certificate.
#[derive(Clone, Debug)]
pub struct RoundMap {
    entries: Vec<(u64, RoundState)>,
}

impl RoundMap {
    /// No certificate appears twice.
    pub closed spec fn wf(self) -> bool {
        forall|i: int, j: int|
            0 <= i < j < self.entries@.len() ==> (#[trigger] self.entries@[i]).0 != (
            #[trigger] self.entries@[j]).0
    }

    /// Whether a round exists for the certificate.
    pub closed spec fn contains_spec(self, cert: u64) -> bool {
        exists|i: int| 0 <= i < self.entries@.len() && (#[trigger] self.entries@[i]).0 == cert
    }

    /// The round stored for the certificate.
    pub closed spec fn get_spec(self, cert: u64) -> RoundState {
        let i = choose|i: int|
            0 <= i < self.entries@.len() && (#[trigger] self.entries@[i]).0 == cert;
        self.entries@[i].1
    }

    /// How many rounds are active.
    pub closed spec fn len_spec(self) -> nat {
        self.entries@.len()
    }

    /// In a well-formed map, the entry at any index with the right key is
    /// the stored round.
    proof fn lemma_get(self, cert: u64, i: int)
        requires
            self.wf(),
            0 <= i < self.entries@.len(),
            self.entries@[i].0 == cert,
        ensures
            self.contains_spec(cert),
            self.get_spec(cert) == self.entries@[i].1,
    {
        let j = choose|j: int|
            0 <= j < self.entries@.len() && (#[trigger] self.entries@[j]).0 == cert;
        if i < j {
            assert(self.entries@[i].0 != self.entries@[j].0);
        } else if j < i {
            assert(self.entries@[j].0 != self.entries@[i].0);
        }
    }

    /// An empty map.
    pub fn new() -> (r: RoundMap)
        ensures
            r.wf(),
            forall|c: u64| !r.contains_spec(c),
            r.len_spec() == 0,
    {
        RoundMap { entries: Vec::new() }
    }

    /// Whether a round exists for the certificate.
    pub fn round_exists(&self, cert: u64) -> (r: bool)
        ensures
            r == self.contains_spec(cert),
    {
        let mut i: usize = 0;
        while i < self.entries.len()
            invariant
                i <= self.entries@.len(),
                forall|j: int| 0 <= j < i ==> (#[trigger] self.entries@[j]).0 != cert,
            decreases self.entries@.len() - i,
        {
            if self.entries[i].0 == cert {
                return true;
            }
            i = i + 1;
        }
        false
    }

    /// Store a round for the certificate, replacing any earlier one.
    pub fn insert(&mut self, cert: u64, state: RoundState)
        requires
            old(self).wf(),
        ensures
            final(self).wf(),
            final(self).contains_spec(cert),
            final(self).get_spec(cert) == state,
            forall|c: u64|
                c != cert ==> #[trigger] final(self).contains_spec(c) == old(
                    self,
                ).contains_spec(c),
            forall|c: u64|
                c != cert && old(self).contains_spec(c) ==> #[trigger] final(self).get_spec(c)
                    == old(self).get_spec(c),
    {
        let ghost before = self.entries@;
        let mut i: usize = 0;
        while i < self.entries.len()
            invariant
                i <= self.entries@.len(),
                self.entries@ == before,
                before == old(self).entries@,
                old(self).wf(),
                forall|j: int| 0 <= j < i ==> (#[trigger] self.entries@[j]).0 != cert,
            decreases self.entries@.len() - i,
        {
            if self.entries[i].0 == cert {
                self.entries.set(i, (cert, state));
                proof {
                    assert(old(self).wf());
                    assert forall|a: int, b: int|
                        0 <= a < b < self.entries@.len() implies (#[trigger] self.entries@[a]).0
                        != (#[trigger] self.entries@[b]).0 by {
                        assert(before[a].0 != before[b].0);
                    }
                    self.lemma_get(cert, i as int);
                    assert forall|c: u64| c != cert implies #[trigger] self.contains_spec(c)
                        == old(self).contains_spec(c) by {
                        if old(self).contains_spec(c) {
                            let j = choose|j: int|
                                0 <= j < before.len() && (#[trigger] before[j]).0 == c;
                            assert(self.entries@[j].0 == c);
                        }
                        if self.contains_spec(c) {
                            let j = choose|j: int|
                                0 <= j < self.entries@.len() && (#[trigger] self.entries@[j]).0
                                    == c;
                            assert(before[j].0 == c);
                        }
                    }
                    assert forall|c: u64| c != cert && old(self).contains_spec(c) implies
                        #[trigger] self.get_spec(c) == old(self).get_spec(c) by {
                        let j = choose|j: int|
                            0 <= j < before.len() && (#[trigger] before[j]).0 == c;
                        assert(self.entries@[j].0 == c);
                        self.lemma_get(c, j);
                        old(self).lemma_get(c, j);
                    }
                }
                return;
            }
            i = i + 1;
        }
        self.entries.push((cert, state));
        proof {
            assert forall|a: int, b: int|
                0 <= a < b < self.entries@.len() implies (#[trigger] self.entries@[a]).0 != (
            #[trigger] self.entries@[b]).0 by {
                if b < before.len() as int {
                    assert(before[a].0 != before[b].0);
                } else {
                    assert(self.entries@[b].0 == cert);
                    assert(before[a].0 != cert);
                }
            }
            self.lemma_get(cert, before.len() as int);
            assert forall|c: u64| c != cert implies #[trigger] self.contains_spec(c) == old(
                self,
            ).contains_spec(c) by {
                if old(self).contains_spec(c) {
                    let j = choose|j: int| 0 <= j < before.len() && (#[trigger] before[j]).0 == c;
                    assert(self.entries@[j].0 == c);
                }
                if self.contains_spec(c) {
                    let j = choose|j: int|
                        0 <= j < self.entries@.len() && (#[trigger] self.entries@[j]).0 == c;
                    assert(j < before.len());
                    assert(before[j].0 == c);
                }
            }
            assert forall|c: u64| c != cert && old(self).contains_spec(c) implies #[trigger] self
                .get_spec(c) == old(self).get_spec(c) by {
                let j = choose|j: int| 0 <= j < before.len() && (#[trigger] before[j]).0 == c;
                assert(self.entries@[j].0 == c);
                self.lemma_get(c, j);
                old(self).lemma_get(c, j);
            }
        }
    }

    /// Evict the round for the certificate, if any: how a completed,
    /// timed-out or superseded round leaves the map.
    pub fn remove(&mut self, cert: u64)
        requires
            old(self).wf(),
        ensures
            final(self).wf(),
            !final(self).contains_spec(cert),
            forall|c: u64|
                c != cert ==> #[trigger] final(self).contains_spec(c) == old(
                    self,
                ).contains_spec(c),
            forall|c: u64|
                c != cert && old(self).contains_spec(c) ==> #[trigger] final(self).get_spec(c)
                    == old(self).get_spec(c),
    {
        let ghost before = self.entries@;
        let mut i: usize = 0;
        while i < self.entries.len()
            invariant
                i <= self.entries@.len(),
                self.entries@ == before,
                before == old(self).entries@,
                old(self).wf(),
                forall|j: int| 0 <= j < i ==> (#[trigger] self.entries@[j]).0 != cert,
            decreases self.entries@.len() - i,
        {
            if self.entries[i].0 == cert {
                self.entries.remove(i);
                proof {
                    assert(self.entries@ =~= before.remove(i as int));
                    assert forall|a: int, b: int|
                        0 <= a < b < self.entries@.len() implies (#[trigger] self.entries@[a]).0
                        != (#[trigger] self.entries@[b]).0 by {
                        let a0: int = if a < i as int {
                            a
                        } else {
                            a + 1
                        };
                        let b0: int = if b < i as int {
                            b
                        } else {
                            b + 1
                        };
                        assert(before[a0].0 != before[b0].0);
                    }
                    assert forall|c: u64| !(c != cert) || #[trigger] self.contains_spec(c) == old(
                        self,
                    ).contains_spec(c) by {
                        if c != cert {
                            if old(self).contains_spec(c) {
                                let j = choose|j: int|
                                    0 <= j < before.len() && (#[trigger] before[j]).0 == c;
                                if j < i as int {
                                    assert(self.entries@[j].0 == c);
                                } else {
                                    assert(j != i as int);
                                    assert(self.entries@[j - 1].0 == c);
                                }
                            }
                            if self.contains_spec(c) {
                                let j = choose|j: int|
                                    0 <= j < self.entries@.len() && (
                                    #[trigger] self.entries@[j]).0 == c;
                                if j < i as int {
                                    assert(before[j].0 == c);
                                } else {
                                    assert(before[j + 1].0 == c);
                                }
                            }
                        }
                    }
                    if self.contains_spec(cert) {
                        let j = choose|j: int|
                            0 <= j < self.entries@.len() && (#[trigger] self.entries@[j]).0
                                == cert;
                        if j < i as int {
                            assert(before[j].0 == cert);
                            assert(false);
                        } else {
                            assert(before[j + 1].0 == cert);
                            assert(before[i as int].0 == cert);
                            assert(false);
                        }
                    }
                    assert forall|c: u64| c != cert && old(self).contains_spec(c) implies
                        #[trigger] self.get_spec(c) == old(self).get_spec(c) by {
                        let j = choose|j: int|
                            0 <= j < before.len() && (#[trigger] before[j]).0 == c;
                        old(self).lemma_get(c, j);
                        if j < i as int {
                            assert(self.entries@[j].0 == c);
                            self.lemma_get(c, j);
                        } else {
                            assert(j != i as int);
                            assert(self.entries@[j - 1].0 == c);
                            self.lemma_get(c, j - 1);
                        }
                    }
                }
                return;
            }
            i = i + 1;
        }
    }
}

} // verus!
