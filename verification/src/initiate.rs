//! The initiate/accept handshake of the sharded gossip protocol, and the
//! bloom/region batch generator that derives what a fresh round should
//! exchange.
//!
//! Everything here is in-memory bookkeeping: the owning component holds
//! this state under its lock and performs network sends and store queries
//! outside it, handing the results in as plain values.

use vstd::prelude::*;

verus! {

use crate::spacetime::Topology;
use crate::arq::ArqBounds;
use crate::arq_set::{ArqSet, seq_coverage, bounds_wf, seq_min_power, requantize_fits,
    lemma_refit_fits, lemma_seq_requantized_coverage, lemma_seq_min_power_le};
use crate::gossip::{AgentInfo, GossipType, TimeWindow, RegionSetDigest, TimedBloomFilter, Batch,
    EncodedTimedBloomFilter, ShardedGossipWire, RoundState, ShardedGossipTarget, Node, RoundMap};

/// Relies on rand's thread-local generator, `thread_rng().gen()`: a fresh
/// 32-bit tie-break id. Nothing is assumed of the value.
#[verifier::external_body]
fn gen_tie_break() -> u32 {
    rand::Rng::gen(&mut rand::thread_rng())
}

/// When an outgoing target's initiate has waited past the round timeout
/// without an accept.
pub open spec fn target_expired(t: ShardedGossipTarget, now: u64, timeout: u64) -> bool {
    t.when_initiated matches Some(w) && w + timeout < now
}

/// The outgoing target after expired-target clearing.
pub open spec fn expired_cleared(tgt: Option<ShardedGossipTarget>, now: u64, timeout: u64)
    -> Option<ShardedGossipTarget> {
    match tgt {
        Some(t) => if target_expired(t, now, timeout) {
            None
        } else {
            Some(t)
        },
        None => None,
    }
}

/// The receiving side of a simultaneous initiate yields when its own
/// tie-break id is at or above the remote's; on an exact tie both sides
/// yield.
pub open spec fn yields_to_remote(our_id: u32, remote_id: u32) -> bool {
    our_id >= remote_id
}

/// Tie-break determinism: of two peers that initiate to each other at
/// once, never both proceed; an exact tie makes both abort; and with
/// distinct ids exactly the one with the strictly smaller id proceeds.
pub proof fn lemma_tie_break_determinism(a: u32, b: u32)
    ensures
        !(!yields_to_remote(a, b) && !yields_to_remote(b, a)),
        a == b ==> yields_to_remote(a, b) && yields_to_remote(b, a),
        a != b ==> (!yields_to_remote(a, b) <==> yields_to_remote(b, a)),
{
}

/// The wire form of one window's bloom filter.
pub open spec fn op_bloom_wire(b: TimedBloomFilter) -> EncodedTimedBloomFilter {
    match b.bloom {
        Some(f) => EncodedTimedBloomFilter::HaveHashes { filter: f, time_window: b.time },
        None => EncodedTimedBloomFilter::MissingAllHashes { time_window: b.time },
    }
}

/// The messages one bloom batch emits: a lone no-overlap marker when the
/// batch found nothing, else one bloom per window, the last flagged final
/// exactly when no partial batch remains to resume.
pub open spec fn bloom_messages(blooms: Seq<TimedBloomFilter>, partial: bool)
    -> Seq<ShardedGossipWire> {
    if blooms.len() == 0 {
        seq![
            ShardedGossipWire::OpBloom {
                missing_hashes: EncodedTimedBloomFilter::NoOverlap,
                finished: true,
            },
        ]
    } else {
        Seq::new(
            blooms.len(),
            |i: int|
                ShardedGossipWire::OpBloom {
                    missing_hashes: op_bloom_wire(blooms[i]),
                    finished: i == blooms.len() - 1 && !partial,
                },
        )
    }
}

/// The filters a batch carries.
pub open spec fn batch_data(b: Batch) -> Seq<TimedBloomFilter> {
    match b {
        Batch::Complete(d) => d@,
        Batch::Partial { cursor, data } => data@,
    }
}

/// Whether a batch was cut short.
pub open spec fn batch_partial(b: Batch) -> bool {
    b matches Batch::Partial { .. }
}

/// The cursor a batch leaves for the next one.
pub open spec fn batch_cursor(b: Batch) -> Option<u64> {
    match b {
        Batch::Complete(d) => None,
        Batch::Partial { cursor, data } => Some(cursor),
    }
}

/// The query results a fresh round's plan is built from: what the owning
/// component fetched from its backing store for this gossip type.
pub enum ReconciliationData {
    /// For Historical rounds: the region digest summary over the common
    /// coverage.
    Historical {
        /// The digests.
        region_set: RegionSetDigest,
    },
    /// For Recent rounds: the agent bloom (if one was built) and the
    /// first batch of op-hash blooms.
    Recent {
        /// The encoded agent bloom filter, if any agents were found.
        agent_bloom: Option<Vec<u8>>,
        /// The first op-bloom batch over the lookback window.
        batch: Batch,
    },
}

/// The exchange-plan messages a fresh round emits, after its accept.
pub open spec fn plan_messages(data: ReconciliationData) -> Seq<ShardedGossipWire> {
    match data {
        ReconciliationData::Historical { region_set } => seq![
            ShardedGossipWire::OpRegions { region_set },
        ],
        ReconciliationData::Recent { agent_bloom, batch } => (match agent_bloom {
            Some(f) => seq![ShardedGossipWire::Agents { filter: f }],
            None => Seq::<ShardedGossipWire>::empty(),
        }) + bloom_messages(batch_data(batch), batch_partial(batch)),
    }
}

/// Arc lists ready for set algebra under a topology: every member within
/// ring bounds, and the common grid coarse enough for a `u32` chunk
/// count.
pub open spec fn arqs_ready(dim: Topology, arqs: Seq<ArqBounds>) -> bool {
    &&& forall|i: int| 0 <= i < arqs.len() ==> bounds_wf(dim, #[trigger] arqs[i])
    &&& 1 <= dim.quantum_power + seq_min_power(arqs)
    &&& seq_min_power(arqs) + dim.quantum_power <= 30
}

/// A plain copy of an agent list.
fn copy_agents(v: &Vec<AgentInfo>) -> (r: Vec<AgentInfo>)
    ensures
        r@ == v@,
{
    let mut out: Vec<AgentInfo> = Vec::new();
    let mut i: usize = 0;
    while i < v.len()
        invariant
            i <= v@.len(),
            out@ == v@.take(i as int),
        decreases v@.len() - i,
    {
        proof {
            assert(v@.take(i as int + 1) =~= v@.take(i as int).push(v@[i as int]));
        }
        out.push(v[i]);
        i = i + 1;
    }
    proof {
        assert(v@.take(v@.len() as int) =~= v@);
    }
    out
}

/// A plain copy of an arc-bounds list.
fn copy_arqs(v: &Vec<ArqBounds>) -> (r: Vec<ArqBounds>)
    ensures
        r@ == v@,
{
    let mut out: Vec<ArqBounds> = Vec::new();
    let mut i: usize = 0;
    while i < v.len()
        invariant
            i <= v@.len(),
            out@ == v@.take(i as int),
        decreases v@.len() - i,
    {
        proof {
            assert(v@.take(i as int + 1) =~= v@.take(i as int).push(v@[i as int]));
        }
        out.push(v[i]);
        i = i + 1;
    }
    proof {
        assert(v@.take(v@.len() as int) =~= v@);
    }
    out
}

/// One gossip instance's round and target bookkeeping. The owning
/// component keeps it behind a lock and mutates it only through the
/// transition methods here, in short critical sections; network sends and
/// store queries happen outside the lock and hand their results in as
/// arguments.
pub struct ShardedGossipLocal {
    /// Which reconciliation style this instance runs.
    pub gossip_type: GossipType,
    /// How long an unanswered initiate may wait before its target is
    /// evicted.
    pub round_timeout: u64,
    /// The agents this node gossips on behalf of.
    pub local_agents: Vec<AgentInfo>,
    /// The peer this node is currently initiating with, if any.
    pub initiate_tgt: Option<ShardedGossipTarget>,
    /// The active rounds, keyed by remote peer certificate.
    pub round_map: RoundMap,
}

impl ShardedGossipLocal {
    /// The instance's invariant: its round map is a map.
    pub open spec fn wf(self) -> bool {
        self.round_map.wf()
    }

    /// A fresh instance with no target and no rounds.
    pub fn new(gossip_type: GossipType, round_timeout: u64, local_agents: Vec<AgentInfo>) -> (r:
        Self)
        ensures
            r.wf(),
            r.gossip_type == gossip_type,
            r.round_timeout == round_timeout,
            r.local_agents@ == local_agents@,
            r.initiate_tgt is None,
            forall|c: u64| !r.round_map.contains_spec(c),
    {
        ShardedGossipLocal {
            gossip_type,
            round_timeout,
            local_agents,
            initiate_tgt: None,
            round_map: RoundMap::new(),
        }
    }

    /// Clear the outgoing target if its initiate has waited past the
    /// round timeout without an accept.
    pub fn check_tgt_expired(&mut self, now: u64)
        ensures
            final(self).initiate_tgt == expired_cleared(
                old(self).initiate_tgt,
                now,
                old(self).round_timeout,
            ),
            final(self).gossip_type == old(self).gossip_type,
            final(self).round_timeout == old(self).round_timeout,
            final(self).local_agents == old(self).local_agents,
            final(self).round_map == old(self).round_map,
    {
        let expired = match &self.initiate_tgt {
            Some(t) => match t.when_initiated {
                Some(w) => now > w && now - w > self.round_timeout,
                None => false,
            },
            None => false,
        };
        if expired {
            self.initiate_tgt = None;
        }
    }

    /// Try to initiate gossip if there is no current outgoing target.
    ///
    /// An expired target is first cleared. With a live target, no local
    /// agents, or no candidate peer, nothing happens and nothing is sent:
    /// a normal outcome, not an error. Otherwise the candidate becomes
    /// the outgoing target and the returned initiate message carries the
    /// local coverage, the local agents, and a fresh random tie-break id
    /// equal to the one recorded on the target.
    pub fn try_initiate(&mut self, now: u64, local_arqs: Vec<ArqBounds>, candidate: Option<Node>)
        -> (r: Option<(u64, String, ShardedGossipWire)>)
        ensures
            final(self).gossip_type == old(self).gossip_type,
            final(self).round_timeout == old(self).round_timeout,
            final(self).local_agents == old(self).local_agents,
            final(self).round_map == old(self).round_map,
            ({
                let tgt1 = expired_cleared(old(self).initiate_tgt, now, old(self).round_timeout);
                if tgt1 is Some || old(self).local_agents@.len() == 0 || candidate is None {
                    r is None && final(self).initiate_tgt == tgt1
                } else {
                    r matches Some(out) && out.0 == candidate->0.cert && out.1
                        == candidate->0.url && (out.2 matches ShardedGossipWire::Initiate {
                        intervals,
                        id,
                        agent_list,
                    } && intervals == local_arqs && agent_list@ == old(self).local_agents@
                        && final(self).initiate_tgt == Some(
                        ShardedGossipTarget {
                            remote_agent_list: candidate->0.agent_info_list,
                            cert: candidate->0.cert,
                            tie_break: id,
                            when_initiated: Some(now),
                            url: candidate->0.url,
                        },
                    ))
                }
            }),
    {
        self.check_tgt_expired(now);
        if self.initiate_tgt.is_some() {
            return None;
        }
        if self.local_agents.len() == 0 {
            return None;
        }
        match candidate {
            None => None,
            Some(node) => {
                let id = gen_tie_break();
                let url_out = node.url.clone();
                let gossip = ShardedGossipWire::Initiate {
                    intervals: local_arqs,
                    id,
                    agent_list: copy_agents(&self.local_agents),
                };
                self.initiate_tgt = Some(
                    ShardedGossipTarget {
                        remote_agent_list: node.agent_info_list,
                        cert: node.cert,
                        tie_break: id,
                        when_initiated: Some(now),
                        url: node.url,
                    },
                );
                Some((node.cert, url_out, gossip))
            },
        }
    }

    /// Generate the next batch of bloom messages from a batch of
    /// per-window filters: an empty batch emits one final no-overlap
    /// marker; otherwise each filter becomes one bloom message, the last
    /// flagged final exactly when the batch was complete. Each emitted
    /// bloom is counted against the round's expected replies, and a
    /// partial batch leaves its cursor on the round for resumption.
    pub fn next_bloom_batch(&self, state: &mut RoundState, batch: Batch,
        gossip: &mut Vec<ShardedGossipWire>)
        requires
            old(state).expected_op_bloom_count + batch_data(batch).len() <= 0xffff_ffff,
        ensures
            final(gossip)@ == old(gossip)@ + bloom_messages(
                batch_data(batch),
                batch_partial(batch),
            ),
            final(state).bloom_batch_cursor == batch_cursor(batch),
            final(state).expected_op_bloom_count == old(state).expected_op_bloom_count
                + batch_data(batch).len(),
            final(state).remote_agent_list == old(state).remote_agent_list,
            final(state).common_arq_set == old(state).common_arq_set,
            final(state).region_set == old(state).region_set,
            final(state).regions_are_queued == old(state).regions_are_queued,
            final(state).has_pending_historical_op_data == old(
                state,
            ).has_pending_historical_op_data,
    {
        let ghost gbatch = batch;
        let (mut data, partial) = match batch {
            Batch::Complete(d) => {
                state.bloom_batch_cursor = None;
                (d, false)
            },
            Batch::Partial { cursor, data } => {
                state.bloom_batch_cursor = Some(cursor);
                (data, true)
            },
        };
        let ghost orig = data@;
        if data.len() == 0 {
            gossip.push(
                ShardedGossipWire::OpBloom {
                    missing_hashes: EncodedTimedBloomFilter::NoOverlap,
                    finished: true,
                },
            );
            proof {
                assert(final(gossip)@ =~= old(gossip)@ + bloom_messages(
                    batch_data(gbatch),
                    batch_partial(gbatch),
                ));
            }
        } else {
            let n = data.len();
            let mut i: usize = 0;
            while i < n
                invariant
                    n == orig.len(),
                    i <= n,
                    data@ == orig.skip(i as int),
                    gossip@ == old(gossip)@ + bloom_messages(orig, partial).take(i as int),
                    state.expected_op_bloom_count == old(state).expected_op_bloom_count + i,
                    old(state).expected_op_bloom_count + orig.len() <= 0xffff_ffff,
                    state.bloom_batch_cursor == batch_cursor(gbatch),
                    partial == batch_partial(gbatch),
                    state.remote_agent_list == old(state).remote_agent_list,
                    state.common_arq_set == old(state).common_arq_set,
                    state.region_set == old(state).region_set,
                    state.regions_are_queued == old(state).regions_are_queued,
                    state.has_pending_historical_op_data == old(
                        state,
                    ).has_pending_historical_op_data,
                decreases n - i,
            {
                proof {
                    assert(orig.skip(i as int)[0] == orig[i as int]);
                    assert(orig.skip(i as int).drop_first() =~= orig.skip(i as int + 1));
                }
                let b = data.remove(0);
                state.increment_expected_op_blooms();
                let missing = match b.bloom {
                    Some(f) => EncodedTimedBloomFilter::HaveHashes {
                        filter: f,
                        time_window: b.time,
                    },
                    None => EncodedTimedBloomFilter::MissingAllHashes { time_window: b.time },
                };
                let finished = i == n - 1 && !partial;
                gossip.push(ShardedGossipWire::OpBloom { missing_hashes: missing, finished });
                proof {
                    assert(bloom_messages(orig, partial).take(i as int + 1) =~= bloom_messages(
                        orig,
                        partial,
                    ).take(i as int).push(bloom_messages(orig, partial)[i as int]));
                }
                i = i + 1;
            }
            proof {
                assert(bloom_messages(orig, partial).take(n as int) =~= bloom_messages(
                    orig,
                    partial,
                ));
            }
        }
    }

    /// The window the next bloom-batch query should cover: the default
    /// lookback window, resumed from the saved cursor when the previous
    /// batch was left partial. Taking the window consumes the cursor.
    pub fn bloom_batch_window(&self, state: &mut RoundState, default_window: TimeWindow) -> (r:
        TimeWindow)
        ensures
            r.start == (match old(state).bloom_batch_cursor {
                Some(c) => c,
                None => default_window.start,
            }),
            r.end == default_window.end,
            final(state).bloom_batch_cursor is None,
            final(state).expected_op_bloom_count == old(state).expected_op_bloom_count,
            final(state).remote_agent_list == old(state).remote_agent_list,
            final(state).common_arq_set == old(state).common_arq_set,
            final(state).region_set == old(state).region_set,
            final(state).regions_are_queued == old(state).regions_are_queued,
            final(state).has_pending_historical_op_data == old(
                state,
            ).has_pending_historical_op_data,
    {
        let start = match state.bloom_batch_cursor {
            Some(c) => c,
            None => default_window.start,
        };
        state.bloom_batch_cursor = None;
        TimeWindow { start, end: default_window.end }
    }

    /// Build the exchange plan for a fresh round: intersect the two
    /// peers' coverage, emit the region digests (Historical) or the agent
    /// bloom and first op-bloom batch (Recent), and return the new round
    /// state. A Historical round stays pending until its op data arrives
    /// out-of-band; a Recent round counts its region work as already
    /// queued.
    pub fn generate_blooms_or_regions(
        &self,
        dim: &Topology,
        remote_agent_list: Vec<AgentInfo>,
        local_arqs: Vec<ArqBounds>,
        remote_arqs: Vec<ArqBounds>,
        data: ReconciliationData,
        gossip: &mut Vec<ShardedGossipWire>,
    ) -> (r: RoundState)
        requires
            dim.wf(),
            arqs_ready(*dim, local_arqs@),
            arqs_ready(*dim, remote_arqs@),
            (data matches ReconciliationData::Historical { .. }) <==> self.gossip_type
                == GossipType::Historical,
            data matches ReconciliationData::Recent { agent_bloom, batch } ==> batch_data(
                batch,
            ).len() <= 0xffff_ffff,
        ensures
            final(gossip)@ == old(gossip)@ + plan_messages(data),
            r.remote_agent_list@ == remote_agent_list@,
            r.common_arq_set.wf(*dim),
            r.common_arq_set.coverage(*dim) == seq_coverage(*dim, local_arqs@).intersect(
                seq_coverage(*dim, remote_arqs@),
            ),
            self.gossip_type == GossipType::Historical ==> (data matches
                ReconciliationData::Historical { region_set } && r.region_set matches Some(rs)
                && rs.data@ == region_set.data@ && r.has_pending_historical_op_data
                && !r.regions_are_queued && r.bloom_batch_cursor is None
                && r.expected_op_bloom_count == 0),
            self.gossip_type == GossipType::Recent ==> (data matches ReconciliationData::Recent {
                agent_bloom,
                batch,
            } && r.region_set is None && !r.has_pending_historical_op_data
                && r.regions_are_queued && r.bloom_batch_cursor == batch_cursor(batch)
                && r.expected_op_bloom_count == batch_data(batch).len()),
    {
        let common = intersect_coverage(dim, &local_arqs, &remote_arqs);
        match data {
            ReconciliationData::Historical { region_set } => {
                let kept = RegionSetDigest { data: copy_bytes(&region_set.data) };
                gossip.push(ShardedGossipWire::OpRegions { region_set });
                let state = RoundState {
                    remote_agent_list,
                    common_arq_set: common,
                    region_set: Some(kept),
                    bloom_batch_cursor: None,
                    expected_op_bloom_count: 0,
                    regions_are_queued: false,
                    has_pending_historical_op_data: true,
                };
                state
            },
            ReconciliationData::Recent { agent_bloom, batch } => {
                match agent_bloom {
                    Some(f) => {
                        gossip.push(ShardedGossipWire::Agents { filter: f });
                    },
                    None => {},
                }
                let mut state = RoundState {
                    remote_agent_list,
                    common_arq_set: common,
                    region_set: None,
                    bloom_batch_cursor: None,
                    expected_op_bloom_count: 0,
                    regions_are_queued: true,
                    has_pending_historical_op_data: false,
                };
                self.next_bloom_batch(&mut state, batch, gossip);
                state
            },
        }
    }
}

/// A plain copy of a byte string.
fn copy_bytes(v: &Vec<u8>) -> (r: Vec<u8>)
    ensures
        r@ == v@,
{
    let mut out: Vec<u8> = Vec::new();
    let mut i: usize = 0;
    while i < v.len()
        invariant
            i <= v@.len(),
            out@ == v@.take(i as int),
        decreases v@.len() - i,
    {
        proof {
            assert(v@.take(i as int + 1) =~= v@.take(i as int).push(v@[i as int]));
        }
        out.push(v[i]);
        i = i + 1;
    }
    proof {
        assert(v@.take(v@.len() as int) =~= v@);
    }
    out
}

/// Intersect two peers' arc lists into the common coverage set.
fn intersect_coverage(dim: &Topology, local_arqs: &Vec<ArqBounds>, remote_arqs: &Vec<ArqBounds>)
    -> (r: ArqSet)
    requires
        dim.wf(),
        arqs_ready(*dim, local_arqs@),
        arqs_ready(*dim, remote_arqs@),
    ensures
        r.wf(*dim),
        r.coverage(*dim) == seq_coverage(*dim, local_arqs@).intersect(
            seq_coverage(*dim, remote_arqs@),
        ),
{
    proof {
        lemma_arqs_ready_fits(*dim, local_arqs@);
        lemma_arqs_ready_fits(*dim, remote_arqs@);
    }
    let la = copy_arqs(local_arqs);
    let ra = copy_arqs(remote_arqs);
    let local_set = ArqSet::new(la);
    let remote_set = ArqSet::new(ra);
    proof {
        lemma_seq_requantized_coverage(
            *dim,
            local_arqs@,
            local_set.arqs@,
            seq_min_power(local_arqs@),
        );
        lemma_seq_requantized_coverage(
            *dim,
            remote_arqs@,
            remote_set.arqs@,
            seq_min_power(remote_arqs@),
        );
    }
    local_set.intersection(dim, &remote_set)
}

/// Lists ready for set algebra can be normalized without their counts
/// overflowing.
proof fn lemma_arqs_ready_fits(dim: Topology, arqs: Seq<ArqBounds>)
    requires
        dim.wf(),
        arqs_ready(dim, arqs),
    ensures
        requantize_fits(arqs),
        forall|i: int| 0 <= i < arqs.len() ==> (#[trigger] arqs[i]).power < 32,
        forall|i: int| 0 <= i < arqs.len() ==> seq_min_power(arqs) <= (#[trigger] arqs[i]).power,
{
    assert forall|i: int| 0 <= i < arqs.len() implies (#[trigger] arqs[i]).count as nat
        * crate::spacetime::pow2_clamped((arqs[i].power - seq_min_power(arqs)) as u8)
        <= 0xffff_ffff by {
        lemma_seq_min_power_le(arqs, i);
        lemma_refit_fits(dim, arqs[i], seq_min_power(arqs));
    }
    assert forall|i: int| 0 <= i < arqs.len() implies (#[trigger] arqs[i]).power < 32 by {
        assert(bounds_wf(dim, arqs[i]));
    }
    assert forall|i: int| 0 <= i < arqs.len() implies seq_min_power(arqs) <= (
    #[trigger] arqs[i]).power by {
        lemma_seq_min_power_le(arqs, i);
    }
}



impl ShardedGossipLocal {
    /// Receive an incoming initiate and resolve it deterministically.
    ///
    /// A stale initiate for a peer whose round already runs is answered
    /// `AlreadyInProgress` with no state change. An initiate from the
    /// very peer this node is itself initiating with is tie-broken: with
    /// our id at or above the remote's we yield silently (the remote, or
    /// neither on an exact tie, proceeds); with a strictly smaller remote
    /// id winning, our own outgoing target is abandoned and the initiate
    /// is accepted. With no local agents the reply is exactly `NoAgents`.
    /// Otherwise the reply is the accept carrying the local coverage and
    /// agents, followed by the exchange plan, and a fresh round is
    /// registered for the peer's certificate.
    pub fn incoming_initiate(
        &mut self,
        dim: &Topology,
        peer_cert: u64,
        remote_arqs: Vec<ArqBounds>,
        remote_id: u32,
        remote_agent_list: Vec<AgentInfo>,
        local_arqs: Vec<ArqBounds>,
        data: ReconciliationData,
    ) -> (r: Vec<ShardedGossipWire>)
        requires
            old(self).wf(),
            dim.wf(),
            arqs_ready(*dim, local_arqs@),
            arqs_ready(*dim, remote_arqs@),
            (data matches ReconciliationData::Historical { .. }) <==> old(self).gossip_type
                == GossipType::Historical,
            data matches ReconciliationData::Recent { agent_bloom, batch } ==> batch_data(
                batch,
            ).len() <= 0xffff_ffff,
        ensures
            final(self).wf(),
            final(self).gossip_type == old(self).gossip_type,
            final(self).round_timeout == old(self).round_timeout,
            final(self).local_agents == old(self).local_agents,
            old(self).round_map.contains_spec(peer_cert) ==> r@ == seq![
                ShardedGossipWire::AlreadyInProgress,
            ] && *final(self) == *old(self),
            ({
                let same_target = old(self).initiate_tgt matches Some(t) && t.cert == peer_cert;
                let our_id = old(self).initiate_tgt->0.tie_break;
                &&& (!old(self).round_map.contains_spec(peer_cert) && same_target
                    && yields_to_remote(our_id, remote_id) ==> r@.len() == 0 && *final(self)
                    == *old(self))
                &&& (!old(self).round_map.contains_spec(peer_cert) && !(same_target
                    && yields_to_remote(our_id, remote_id)) ==> ({
                    let tgt1: Option<ShardedGossipTarget> = if same_target {
                        None
                    } else {
                        old(self).initiate_tgt
                    };
                    if old(self).local_agents@.len() == 0 {
                        r@ == seq![ShardedGossipWire::NoAgents] && final(self).initiate_tgt
                            == tgt1 && final(self).round_map == old(self).round_map
                    } else {
                        &&& final(self).initiate_tgt == tgt1
                        &&& r@.len() >= 1
                        &&& (r@[0] matches ShardedGossipWire::Accept { intervals, agent_list }
                            && intervals == local_arqs && agent_list@ == old(
                            self,
                        ).local_agents@)
                        &&& r@.skip(1) == plan_messages(data)
                        &&& final(self).round_map.contains_spec(peer_cert)
                        &&& forall|c: u64|
                            c != peer_cert ==> #[trigger] final(self).round_map.contains_spec(c)
                                == old(self).round_map.contains_spec(c)
                        &&& forall|c: u64|
                            c != peer_cert && old(self).round_map.contains_spec(c)
                                ==> #[trigger] final(self).round_map.get_spec(c) == old(
                                self,
                            ).round_map.get_spec(c)
                        &&& ({
                            let st = final(self).round_map.get_spec(peer_cert);
                            &&& st.remote_agent_list@ == remote_agent_list@
                            &&& st.common_arq_set.wf(*dim)
                            &&& st.common_arq_set.coverage(*dim) == seq_coverage(
                                *dim,
                                local_arqs@,
                            ).intersect(seq_coverage(*dim, remote_arqs@))
                            &&& (old(self).gossip_type == GossipType::Recent
                                ==> st.regions_are_queued
                                && !st.has_pending_historical_op_data && st.region_set is None
                                && (data matches ReconciliationData::Recent { batch, .. }
                                && st.bloom_batch_cursor == batch_cursor(batch)
                                && st.expected_op_bloom_count == batch_data(batch).len()))
                            &&& (old(self).gossip_type == GossipType::Historical
                                ==> !st.regions_are_queued
                                && st.has_pending_historical_op_data
                                && st.expected_op_bloom_count == 0)
                        })
                    }
                }))
            }),
    {
        if self.round_map.round_exists(peer_cert) {
            // one side has already started a round; the initiate is stale
            return vec![ShardedGossipWire::AlreadyInProgress];
        }
        let same_as_target: Option<u32> = match &self.initiate_tgt {
            Some(t) => if t.cert == peer_cert {
                Some(t.tie_break)
            } else {
                None
            },
            None => None,
        };
        match same_as_target {
            Some(our_id) => {
                if our_id >= remote_id {
                    // we yield: the remote (with the strictly smaller id)
                    // proceeds, or neither does on an exact tie
                    return Vec::new();
                } else {
                    // the remote wins the race: abandon our own attempt
                    self.initiate_tgt = None;
                }
            },
            None => {},
        }
        if self.local_agents.len() == 0 {
            return vec![ShardedGossipWire::NoAgents];
        }
        let local_arqs_kept = copy_arqs(&local_arqs);
        let mut gossip: Vec<ShardedGossipWire> = Vec::new();
        gossip.push(
            ShardedGossipWire::Accept {
                intervals: local_arqs,
                agent_list: copy_agents(&self.local_agents),
            },
        );
        let ghost after_accept = gossip@;
        let state = self.generate_blooms_or_regions(
            dim,
            remote_agent_list,
            local_arqs_kept,
            remote_arqs,
            data,
            &mut gossip,
        );
        self.round_map.insert(peer_cert, state);
        proof {
            assert(gossip@.skip(1) =~= plan_messages(data));
        }
        gossip
    }
}

} // verus!
