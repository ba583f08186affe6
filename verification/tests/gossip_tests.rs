use kitsune_dht::arq_set::ArqSet;
use kitsune_dht::gossip::{AgentInfo, Batch, EncodedTimedBloomFilter, GossipType, Node, RoundMap,
    RoundState, ShardedGossipTarget, ShardedGossipWire, TimeWindow, TimedBloomFilter};
use kitsune_dht::initiate::{ReconciliationData, ShardedGossipLocal};
use kitsune_dht::spacetime::Topology;

fn agent(id: u64) -> AgentInfo {
    AgentInfo { agent: id }
}

fn recent_node(tie_break: u32, peer_cert: u64) -> ShardedGossipLocal {
    ShardedGossipLocal {
        gossip_type: GossipType::Recent,
        round_timeout: 1000,
        local_agents: vec![agent(1)],
        initiate_tgt: Some(ShardedGossipTarget {
            remote_agent_list: vec![],
            cert: peer_cert,
            tie_break,
            when_initiated: Some(0),
            url: String::from("peer"),
        }),
        round_map: RoundMap::new(),
    }
}

fn empty_recent_data() -> ReconciliationData {
    ReconciliationData::Recent {
        agent_bloom: None,
        batch: Batch::Complete(vec![]),
    }
}

#[test]
fn incoming_initiate_already_in_progress() {
    let dim = Topology::standard_epoch_full();
    let mut st = ShardedGossipLocal::new(GossipType::Recent, 1000, vec![agent(1)]);
    let first = st.incoming_initiate(&dim, 7, vec![], 42, vec![agent(9)], vec![],
        empty_recent_data());
    assert!(matches!(first[0], ShardedGossipWire::Accept { .. }));
    assert!(st.round_map.round_exists(7));
    // a stale duplicate initiate for the same certificate
    let second = st.incoming_initiate(&dim, 7, vec![], 43, vec![agent(9)], vec![],
        empty_recent_data());
    assert_eq!(second.len(), 1);
    assert!(matches!(second[0], ShardedGossipWire::AlreadyInProgress));
    assert!(st.round_map.round_exists(7));
}

#[test]
fn incoming_initiate_no_agents() {
    let dim = Topology::standard_epoch_full();
    let mut st = ShardedGossipLocal::new(GossipType::Recent, 1000, vec![]);
    let reply = st.incoming_initiate(&dim, 7, vec![], 42, vec![agent(9)], vec![],
        empty_recent_data());
    assert_eq!(reply.len(), 1);
    assert!(matches!(reply[0], ShardedGossipWire::NoAgents));
    assert!(!st.round_map.round_exists(7));
}

#[test]
fn recent_round_empty_window_emits_final_no_overlap() {
    let dim = Topology::standard_epoch_full();
    let mut st = ShardedGossipLocal::new(GossipType::Recent, 1000, vec![agent(1)]);
    let reply = st.incoming_initiate(&dim, 7, vec![], 42, vec![agent(9)], vec![],
        empty_recent_data());
    assert_eq!(reply.len(), 2);
    assert!(matches!(reply[0], ShardedGossipWire::Accept { .. }));
    match &reply[1] {
        ShardedGossipWire::OpBloom {
            missing_hashes,
            finished,
        } => {
            assert!(matches!(missing_hashes, EncodedTimedBloomFilter::NoOverlap));
            assert!(*finished);
        }
        other => panic!("expected an op bloom, got {:?}", other),
    }
}

#[test]
fn tie_break_smaller_id_proceeds() {
    let dim = Topology::standard_epoch_full();
    // peer certificates: a sees b as 20, b sees a as 10
    let mut a = recent_node(100, 20);
    let mut b = recent_node(200, 10);
    // a's id (100) is smaller: a accepts b's initiate, b yields to a's
    let a_reply = a.incoming_initiate(&dim, 20, vec![], 200, vec![], vec![],
        empty_recent_data());
    let b_reply = b.incoming_initiate(&dim, 10, vec![], 100, vec![], vec![],
        empty_recent_data());
    assert!(!a_reply.is_empty());
    assert!(matches!(a_reply[0], ShardedGossipWire::Accept { .. }));
    assert!(a.initiate_tgt.is_none());
    assert!(b_reply.is_empty());
    assert!(b.initiate_tgt.is_some());
}

#[test]
fn tie_break_equal_ids_both_abort() {
    let dim = Topology::standard_epoch_full();
    let mut a = recent_node(150, 20);
    let mut b = recent_node(150, 10);
    let a_reply = a.incoming_initiate(&dim, 20, vec![], 150, vec![], vec![],
        empty_recent_data());
    let b_reply = b.incoming_initiate(&dim, 10, vec![], 150, vec![], vec![],
        empty_recent_data());
    assert!(a_reply.is_empty());
    assert!(b_reply.is_empty());
    assert!(!a.round_map.round_exists(20));
    assert!(!b.round_map.round_exists(10));
}

#[test]
fn historical_round_emits_region_digest() {
    let dim = Topology::standard_epoch_full();
    let mut st = ShardedGossipLocal::new(GossipType::Historical, 1000, vec![agent(1)]);
    let data = ReconciliationData::Historical {
        region_set: kitsune_dht::gossip::RegionSetDigest {
            data: vec![1, 2, 3],
        },
    };
    let reply = st.incoming_initiate(&dim, 5, vec![], 9, vec![agent(2)], vec![], data);
    assert_eq!(reply.len(), 2);
    assert!(matches!(reply[0], ShardedGossipWire::Accept { .. }));
    match &reply[1] {
        ShardedGossipWire::OpRegions { region_set } => {
            assert_eq!(region_set.data, vec![1, 2, 3]);
        }
        other => panic!("expected regions, got {:?}", other),
    }
    assert!(st.round_map.round_exists(5));
}

#[test]
fn try_initiate_needs_no_target_and_agents() {
    let mut st = ShardedGossipLocal::new(GossipType::Recent, 1000, vec![]);
    // no local agents: nothing to do
    assert!(st.try_initiate(50, vec![], None).is_none());
    let mut st = ShardedGossipLocal::new(GossipType::Recent, 1000, vec![agent(1)]);
    // no candidate found: a normal, silent outcome
    assert!(st.try_initiate(50, vec![], None).is_none());
    assert!(st.initiate_tgt.is_none());
    let node = Node {
        agent_info_list: vec![agent(9)],
        cert: 77,
        url: String::from("remote"),
    };
    let out = st.try_initiate(60, vec![], Some(node)).unwrap();
    assert_eq!(out.0, 77);
    assert_eq!(out.1, "remote");
    let tgt = st.initiate_tgt.as_ref().unwrap();
    assert_eq!(tgt.cert, 77);
    assert_eq!(tgt.when_initiated, Some(60));
    match out.2 {
        ShardedGossipWire::Initiate { id, .. } => assert_eq!(id, tgt.tie_break),
        other => panic!("expected an initiate, got {:?}", other),
    }
    // a second attempt while the target lives does nothing
    let node2 = Node {
        agent_info_list: vec![],
        cert: 78,
        url: String::from("other"),
    };
    assert!(st.try_initiate(70, vec![], Some(node2)).is_none());
}

#[test]
fn expired_target_is_cleared() {
    let mut st = recent_node(5, 33);
    st.check_tgt_expired(500);
    assert!(st.initiate_tgt.is_some());
    st.check_tgt_expired(1000);
    assert!(st.initiate_tgt.is_some());
    st.check_tgt_expired(1001);
    assert!(st.initiate_tgt.is_none());
}

#[test]
fn bloom_batch_cursor_round_trip() {
    let mut state = RoundState {
        remote_agent_list: vec![],
        common_arq_set: ArqSet::new(vec![]),
        region_set: None,
        bloom_batch_cursor: None,
        expected_op_bloom_count: 0,
        regions_are_queued: true,
        has_pending_historical_op_data: false,
    };
    let st = ShardedGossipLocal::new(GossipType::Recent, 1000, vec![agent(1)]);
    let mut gossip = Vec::new();
    let window = TimeWindow { start: 100, end: 900 };
    // a partial batch saves its cursor on the round
    let partial = Batch::Partial {
        cursor: 400,
        data: vec![TimedBloomFilter {
            bloom: Some(vec![0xab]),
            time: TimeWindow { start: 100, end: 400 },
        }],
    };
    st.next_bloom_batch(&mut state, partial, &mut gossip);
    assert_eq!(state.bloom_batch_cursor, Some(400));
    assert_eq!(state.expected_op_bloom_count, 1);
    assert_eq!(gossip.len(), 1);
    match &gossip[0] {
        ShardedGossipWire::OpBloom {
            missing_hashes,
            finished,
        } => {
            assert!(matches!(missing_hashes, EncodedTimedBloomFilter::HaveHashes { .. }));
            // more windows remain: not final
            assert!(!finished);
        }
        other => panic!("expected an op bloom, got {:?}", other),
    }
    // the next window resumes from the cursor
    let resumed = st.bloom_batch_window(&mut state, window);
    assert_eq!(resumed.start, 400);
    assert_eq!(resumed.end, 900);
    assert_eq!(state.bloom_batch_cursor, None);
    // a complete batch marks its last bloom final
    let complete = Batch::Complete(vec![
        TimedBloomFilter {
            bloom: Some(vec![0xcd]),
            time: TimeWindow { start: 400, end: 600 },
        },
        TimedBloomFilter {
            bloom: None,
            time: TimeWindow { start: 600, end: 900 },
        },
    ]);
    st.next_bloom_batch(&mut state, complete, &mut gossip);
    assert_eq!(state.bloom_batch_cursor, None);
    assert_eq!(state.expected_op_bloom_count, 3);
    assert_eq!(gossip.len(), 3);
    match &gossip[1] {
        ShardedGossipWire::OpBloom { finished, .. } => assert!(!finished),
        other => panic!("expected an op bloom, got {:?}", other),
    }
    match &gossip[2] {
        ShardedGossipWire::OpBloom {
            missing_hashes,
            finished,
        } => {
            assert!(matches!(missing_hashes, EncodedTimedBloomFilter::MissingAllHashes { .. }));
            assert!(*finished);
        }
        other => panic!("expected an op bloom, got {:?}", other),
    }
}

#[test]
fn round_map_keeps_one_round_per_cert() {
    let mut map = RoundMap::new();
    assert!(!map.round_exists(1));
    let state = RoundState {
        remote_agent_list: vec![agent(4)],
        common_arq_set: ArqSet::new(vec![]),
        region_set: None,
        bloom_batch_cursor: None,
        expected_op_bloom_count: 0,
        regions_are_queued: false,
        has_pending_historical_op_data: false,
    };
    map.insert(1, state.clone());
    map.insert(2, state.clone());
    map.insert(1, state);
    assert!(map.round_exists(1));
    assert!(map.round_exists(2));
    map.remove(1);
    assert!(!map.round_exists(1));
    assert!(map.round_exists(2));
}
