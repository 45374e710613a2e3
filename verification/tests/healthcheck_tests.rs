use mixnet_core::addr::{HostAddress, IpAddress};
use mixnet_core::healthcheck::{HealthCheckError, HealthCheckResult};
use mixnet_core::presence::{MixNodePresence, MixProviderPresence, CocoPresence, Topology};
use mixnet_core::score::{NodeScore, ScoreThreshold};
use mixnet_core::topology::{MixNode, MixProviderNode};

fn v4(a: u8, b: u8, c: u8, d: u8, port: u16) -> HostAddress {
    HostAddress { ip: IpAddress::V4 { a, b, c, d }, port }
}

fn key_text(fill: u8) -> String {
    base64::encode_config(&[fill; 32], base64::URL_SAFE)
}

fn mix(fill: u8, layer: u64) -> MixNode {
    MixNode {
        host: v4(9, 9, 9, 9, 1789),
        pub_key: key_text(fill),
        layer,
        last_seen: 1,
        version: "v".to_string(),
    }
}

fn provider(fill: u8) -> MixProviderNode {
    MixProviderNode {
        client_listener: v4(10, 0, 0, 1, 9000),
        mixnet_listener: v4(10, 0, 0, 1, 9001),
        pub_key: key_text(fill),
        registered_clients: vec![],
        last_seen: 1,
        version: "v".to_string(),
    }
}

fn counters_for(result: &HealthCheckResult, fill: u8) -> (u32, u32) {
    let key = base64::decode_config(key_text(fill), base64::URL_SAFE).unwrap();
    result.node_score(&key).expect("node was scored")
}

#[test]
fn two_hundred_fifty_six_iterations_are_rejected() {
    let mixes = vec![mix(1, 1), mix(2, 2), mix(3, 3)];
    let providers = vec![provider(4)];
    let r = HealthCheckResult::calculate(&mixes, &providers, 256, &vec![]);
    assert!(matches!(r, Err(HealthCheckError::TooManyIterations)));
}

#[test]
fn two_hundred_fifty_five_iterations_are_accepted() {
    let mixes = vec![mix(1, 1), mix(2, 2), mix(3, 3)];
    let providers = vec![provider(4)];
    let result = HealthCheckResult::calculate(&mixes, &providers, 255, &vec![]).unwrap();
    // one route, probed 255 times, nothing resolved
    for fill in [1u8, 2, 3, 4] {
        let (received, sent) = counters_for(&result, fill);
        assert_eq!(sent, 255);
        assert_eq!(received, 0);
    }
}

#[test]
fn zero_iterations_give_all_zero_scores() {
    let mixes = vec![mix(1, 1), mix(2, 2), mix(3, 3)];
    let providers = vec![provider(4)];
    // even a claimed healthy path key credits nothing when nothing was sent
    let mut stray = Vec::new();
    for fill in [1u8, 2, 3, 4] {
        stray.extend_from_slice(&[fill; 32]);
    }
    let result = HealthCheckResult::calculate(&mixes, &providers, 0, &vec![stray]).unwrap();
    for fill in [1u8, 2, 3, 4] {
        let (received, sent) = counters_for(&result, fill);
        assert_eq!((received, sent), (0, 0));
    }
}

#[test]
fn empty_layer_gives_all_zero_scores() {
    // layer two is empty: no route exists, the network is unhealthy
    let mixes = vec![mix(1, 1), mix(2, 1), mix(5, 3), mix(6, 3)];
    let providers = vec![provider(4)];
    let result = HealthCheckResult::calculate(&mixes, &providers, 3, &vec![]).unwrap();
    for fill in [1u8, 2, 5, 6, 4] {
        let (received, sent) = counters_for(&result, fill);
        assert_eq!((received, sent), (0, 0));
    }
}

#[test]
fn healthy_path_keys_credit_every_hop() {
    let mixes = vec![mix(1, 1), mix(2, 2), mix(3, 3)];
    let providers = vec![provider(4)];
    let mut path_key = Vec::new();
    for fill in [1u8, 2, 3, 4] {
        path_key.extend_from_slice(&[fill; 32]);
    }
    let result = HealthCheckResult::calculate(&mixes, &providers, 2, &vec![path_key]).unwrap();
    for fill in [1u8, 2, 3, 4] {
        let (received, sent) = counters_for(&result, fill);
        assert_eq!(sent, 2);
        assert_eq!(received, 1);
    }
}

#[test]
fn repeated_identities_share_one_counting_entry() {
    // two mix records and the provider all carry identity one
    let mixes = vec![mix(1, 1), mix(1, 2), mix(2, 3)];
    let providers = vec![provider(1)];
    let zero = HealthCheckResult::zero_score(&mixes, &providers);
    assert_eq!(zero.scores().len(), 2);
    let result = HealthCheckResult::calculate(&mixes, &providers, 1, &vec![]).unwrap();
    assert_eq!(result.scores().len(), 2);
    // the single route crosses the shared identity three times
    assert_eq!(counters_for(&result, 1), (0, 3));
    assert_eq!(counters_for(&result, 2), (0, 1));
}

#[test]
fn sort_scores_orders_ascending_by_score() {
    let mut high = NodeScore::new(vec![1; 32]);
    let mut low = NodeScore::new(vec![2; 32]);
    let unprobed = NodeScore::new(vec![3; 32]);
    for _ in 0..10 {
        high.increase_sent_packet_count();
        low.increase_sent_packet_count();
    }
    for _ in 0..8 {
        high.increase_received_packet_count();
    }
    for _ in 0..3 {
        low.increase_received_packet_count();
    }
    let mut result = HealthCheckResult::from_scores(vec![high, low, unprobed]);
    result.sort_scores();
    let scores = result.scores();
    assert_eq!(scores.len(), 3);
    // 0/0 counts as zero, then 3/10, then 8/10
    assert!(scores[0].has_key(&vec![3; 32]));
    assert!(scores[1].has_key(&vec![2; 32]));
    assert!(scores[2].has_key(&vec![1; 32]));
}

fn scored_topology() -> (Topology, Vec<Option<HostAddress>>, HealthCheckResult) {
    let topology = Topology {
        coco_nodes: vec![CocoPresence {
            host: "coco:1".to_string(),
            pub_key: "ck".to_string(),
            last_seen: 1,
            version: "v".to_string(),
        }],
        mix_nodes: vec![
            MixNodePresence {
                host: "a.example:1".to_string(),
                pub_key: key_text(1),
                layer: 1,
                last_seen: 1,
                version: "v".to_string(),
            },
            MixNodePresence {
                host: "b.example:1".to_string(),
                pub_key: key_text(2),
                layer: 1,
                last_seen: 1,
                version: "v".to_string(),
            },
        ],
        mix_provider_nodes: vec![MixProviderPresence {
            client_listener: "1.2.3.4:9000".to_string(),
            mixnet_listener: "1.2.3.4:9001".to_string(),
            pub_key: key_text(7),
            registered_clients: vec![],
            last_seen: 1,
            version: "v".to_string(),
        }],
    };
    let resolved = vec![Some(v4(5, 5, 5, 5, 1)), Some(v4(6, 6, 6, 6, 1))];
    // scores: node 1 at 3/10, node 2 at 8/10, provider at 10/10
    let mut s1 = NodeScore::new(vec![1; 32]);
    let mut s2 = NodeScore::new(vec![2; 32]);
    let mut sp = NodeScore::new(vec![7; 32]);
    for _ in 0..10 {
        s1.increase_sent_packet_count();
        s2.increase_sent_packet_count();
        sp.increase_sent_packet_count();
    }
    for _ in 0..3 {
        s1.increase_received_packet_count();
    }
    for _ in 0..8 {
        s2.increase_received_packet_count();
    }
    for _ in 0..10 {
        sp.increase_received_packet_count();
    }
    let result = HealthCheckResult::from_scores(vec![s1, s2, sp]);
    (topology, resolved, result)
}

#[test]
fn zero_score_lists_every_node_at_zero() {
    let mixes = vec![mix(1, 1), mix(2, 2)];
    let providers = vec![provider(3)];
    let result = HealthCheckResult::zero_score(&mixes, &providers);
    assert_eq!(result.scores().len(), 3);
    for fill in [1u8, 2, 3] {
        assert_eq!(counters_for(&result, fill), (0, 0));
    }
}

#[test]
fn snapshot_routes_fail_on_a_malformed_provider() {
    let (mut topology, resolved, _) = scored_topology();
    topology.mix_provider_nodes[0].mixnet_listener = "not an address".to_string();
    let r = topology.all_paths(&resolved);
    assert!(matches!(
        r,
        Err(mixnet_core::topology::TopologyError::MalformedProviderRecord)
    ));
}

#[test]
fn snapshot_routes_need_every_layer() {
    // both mixes of this snapshot sit in layer one
    let (topology, resolved, _) = scored_topology();
    let r = topology.all_paths(&resolved);
    assert!(matches!(
        r,
        Err(mixnet_core::topology::TopologyError::InsufficientNodes)
    ));
}

#[test]
fn filtering_at_one_half_keeps_only_the_better_node() {
    let (topology, resolved, result) = scored_topology();
    let threshold = ScoreThreshold::Finite { num: 1, den: 2 };
    let filtered = result.filter_topology_by_score(&topology, &resolved, &threshold).unwrap();
    assert_eq!(filtered.mix_nodes.len(), 1);
    assert_eq!(filtered.mix_nodes[0].pub_key, key_text(2));
    assert_eq!(filtered.mix_provider_nodes.len(), 1);
    assert_eq!(filtered.coco_nodes.len(), 1);
}

#[test]
fn filtering_below_everything_keeps_all_scored_nodes() {
    let (topology, resolved, result) = scored_topology();
    let filtered = result
        .filter_topology_by_score(&topology, &resolved, &ScoreThreshold::NegativeInfinity)
        .unwrap();
    assert_eq!(filtered.mix_nodes.len(), 2);
    assert_eq!(filtered.mix_provider_nodes.len(), 1);
    assert_eq!(filtered.coco_nodes.len(), 1);
}

#[test]
fn filtering_above_everything_keeps_only_coco_nodes() {
    let (topology, resolved, result) = scored_topology();
    let filtered = result
        .filter_topology_by_score(&topology, &resolved, &ScoreThreshold::PositiveInfinity)
        .unwrap();
    assert!(filtered.mix_nodes.is_empty());
    assert!(filtered.mix_provider_nodes.is_empty());
    assert_eq!(filtered.coco_nodes.len(), 1);
    assert_eq!(filtered.coco_nodes[0].pub_key, "ck");
}

#[test]
fn node_scores_are_keyed_by_decoded_identities() {
    let m = mix(42, 1);
    let s = NodeScore::from_mixnode(&m).unwrap();
    assert_eq!(s.pub_key_bytes(), vec![42u8; 32]);
    let bad = MixNode {
        host: v4(9, 9, 9, 9, 1),
        pub_key: "!!!not base64!!!".to_string(),
        layer: 1,
        last_seen: 1,
        version: "v".to_string(),
    };
    assert!(NodeScore::from_mixnode(&bad).is_none());
    let p = provider(43);
    let sp = NodeScore::from_provider(&p).unwrap();
    assert_eq!(sp.pub_key_bytes(), vec![43u8; 32]);
}

#[test]
fn scores_never_report_more_received_than_sent() {
    let mut s = NodeScore::new(vec![9; 32]);
    // ask for credits it never earned: the count stays within what was sent
    for _ in 0..5 {
        s.increase_received_packet_count();
    }
    let (received, sent) = s.check_bounds();
    assert_eq!((received, sent), (0, 0));
    s.increase_sent_packet_count();
    for _ in 0..5 {
        s.increase_received_packet_count();
    }
    let (received, sent) = s.check_bounds();
    assert!(received <= sent);
    assert_eq!((received, sent), (1, 1));
}
