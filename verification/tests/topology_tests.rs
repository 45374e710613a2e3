use mixnet_core::addr::{host_address_string, parse_host_address, HostAddress, IpAddress, Ipv6Groups};
use mixnet_core::presence::{CocoPresence, MixNodePresence, MixProviderClient, MixProviderPresence, Topology};
use mixnet_core::topology::{all_paths_from_nodes, MixNode, MixProviderNode, TopologyError};

fn v4(a: u8, b: u8, c: u8, d: u8, port: u16) -> HostAddress {
    HostAddress { ip: IpAddress::V4 { a, b, c, d }, port }
}

fn mix(key: &str, layer: u64, host: HostAddress) -> MixNode {
    MixNode {
        host,
        pub_key: key.to_string(),
        layer,
        last_seen: 7,
        version: "0.3.2".to_string(),
    }
}

fn provider(key: &str) -> MixProviderNode {
    MixProviderNode {
        client_listener: v4(10, 0, 0, 1, 9000),
        mixnet_listener: v4(10, 0, 0, 1, 9001),
        pub_key: key.to_string(),
        registered_clients: vec![],
        last_seen: 3,
        version: "0.3.2".to_string(),
    }
}

#[test]
fn it_formats_a_v4_address() {
    let s = host_address_string(&v4(192, 168, 0, 17, 1789));
    assert_eq!(s, "192.168.0.17:1789");
}

#[test]
fn it_formats_a_v6_address() {
    let addr = HostAddress {
        ip: IpAddress::V6 {
            groups: Ipv6Groups {
                g0: 0x2001,
                g1: 0xdb8,
                g2: 0,
                g3: 0,
                g4: 0,
                g5: 0,
                g6: 0,
                g7: 1,
            },
        },
        port: 443,
    };
    assert_eq!(host_address_string(&addr), "[2001:db8:0:0:0:0:0:1]:443");
}

#[test]
fn it_parses_canonical_v4_text() {
    let parsed = parse_host_address(&"1.2.3.4:5678".to_string());
    assert_eq!(parsed, Some(v4(1, 2, 3, 4, 5678)));
}

#[test]
fn it_parses_canonical_v6_text() {
    let parsed = parse_host_address(&"[2001:db8:0:0:0:0:0:1]:443".to_string());
    let expected = HostAddress {
        ip: IpAddress::V6 {
            groups: Ipv6Groups {
                g0: 0x2001,
                g1: 0xdb8,
                g2: 0,
                g3: 0,
                g4: 0,
                g5: 0,
                g6: 0,
                g7: 1,
            },
        },
        port: 443,
    };
    assert_eq!(parsed, Some(expected));
}

#[test]
fn it_rejects_text_that_is_no_address() {
    assert_eq!(parse_host_address(&"foomp.foomp.foomp:1234".to_string()), None);
    assert_eq!(parse_host_address(&"1.2.3:4".to_string()), None);
    assert_eq!(parse_host_address(&"01.2.3.4:5".to_string()), None);
    assert_eq!(parse_host_address(&"1.2.3.4".to_string()), None);
    assert_eq!(parse_host_address(&"1.2.3.4:99999".to_string()), None);
}

#[test]
fn parsing_inverts_formatting() {
    let addr = v4(255, 0, 12, 9, 65535);
    let text = host_address_string(&addr);
    assert_eq!(parse_host_address(&text), Some(addr));
}

#[test]
fn coco_record_round_trips_exactly() {
    let wire = CocoPresence {
        host: "validator.example.org:4000".to_string(),
        pub_key: "someKey==".to_string(),
        last_seen: 1234567,
        version: "0.3.2".to_string(),
    };
    let model = wire.to_model();
    let back = CocoPresence::from_model(&model);
    assert_eq!(back.host, wire.host);
    assert_eq!(back.pub_key, wire.pub_key);
    assert_eq!(back.last_seen, wire.last_seen);
    assert_eq!(back.version, wire.version);
}

#[test]
fn mix_record_converts_under_a_resolution() {
    let wire = MixNodePresence {
        host: "mix.example.org:1789".to_string(),
        pub_key: "k1".to_string(),
        layer: 2,
        last_seen: 5,
        version: "0.3.2".to_string(),
    };
    let model = wire.to_model(Some(v4(185, 10, 20, 30, 1789))).unwrap();
    assert_eq!(model.layer, 2);
    let back = MixNodePresence::from_model(&model);
    // every field survives except the host, normalised to the resolved form
    assert_eq!(back.host, "185.10.20.30:1789");
    assert_eq!(back.pub_key, wire.pub_key);
    assert_eq!(back.layer, wire.layer);
    assert_eq!(back.last_seen, wire.last_seen);
    assert_eq!(back.version, wire.version);
}

#[test]
fn mix_record_without_resolution_is_host_unresolvable() {
    let wire = MixNodePresence {
        host: "foomp.foomp.foomp:1234".to_string(),
        pub_key: "".to_string(),
        layer: 0,
        last_seen: 0,
        version: "".to_string(),
    };
    let result = wire.to_model(None);
    assert!(matches!(result, Err(TopologyError::HostUnresolvable)));
}

#[test]
fn provider_record_round_trips_exactly() {
    let wire = MixProviderPresence {
        client_listener: "1.2.3.4:9000".to_string(),
        mixnet_listener: "1.2.3.4:9001".to_string(),
        pub_key: "pk".to_string(),
        registered_clients: vec![MixProviderClient { pub_key: "client1".to_string() }],
        last_seen: 77,
        version: "0.3.2".to_string(),
    };
    let model = wire.to_model().expect("listeners are literal addresses");
    let back = MixProviderPresence::from_model(&model);
    assert_eq!(back.client_listener, wire.client_listener);
    assert_eq!(back.mixnet_listener, wire.mixnet_listener);
    assert_eq!(back.pub_key, wire.pub_key);
    assert_eq!(back.registered_clients.len(), 1);
    assert_eq!(back.registered_clients[0].pub_key, "client1");
    assert_eq!(back.last_seen, wire.last_seen);
    assert_eq!(back.version, wire.version);
}

#[test]
fn provider_record_with_bad_listener_is_refused() {
    let wire = MixProviderPresence {
        client_listener: "not an address".to_string(),
        mixnet_listener: "1.2.3.4:9001".to_string(),
        pub_key: "pk".to_string(),
        registered_clients: vec![],
        last_seen: 0,
        version: "".to_string(),
    };
    assert!(wire.to_model().is_none());
}

#[test]
fn all_paths_enumerates_the_cartesian_product_in_order() {
    let h = v4(9, 9, 9, 9, 1);
    let mixes = vec![
        mix("A", 1, h),
        mix("B", 1, h),
        mix("C", 2, h),
        mix("D", 3, h),
        mix("E", 3, h),
    ];
    let providers = vec![provider("P")];
    let paths = all_paths_from_nodes(&mixes, &providers).unwrap();
    let keys: Vec<Vec<&str>> = paths
        .iter()
        .map(|p| p.iter().map(|hop| hop.pub_key.as_str()).collect())
        .collect();
    assert_eq!(
        keys,
        vec![
            vec!["A", "C", "D", "P"],
            vec!["A", "C", "E", "P"],
            vec!["B", "C", "D", "P"],
            vec!["B", "C", "E", "P"],
        ]
    );
    for p in &paths {
        assert_eq!(p.len(), 4);
        assert_eq!(p[3].pub_key, "P");
    }
}

#[test]
fn all_paths_fails_on_an_empty_layer() {
    let h = v4(9, 9, 9, 9, 1);
    let mixes = vec![mix("A", 1, h), mix("B", 1, h), mix("D", 3, h), mix("E", 3, h)];
    let providers = vec![provider("P")];
    let r = all_paths_from_nodes(&mixes, &providers);
    assert!(matches!(r, Err(TopologyError::InsufficientNodes)));
}

#[test]
fn topology_accessors_convert_and_drop_unresolved() {
    let topology = Topology {
        coco_nodes: vec![CocoPresence {
            host: "coco:1".to_string(),
            pub_key: "ck".to_string(),
            last_seen: 1,
            version: "v".to_string(),
        }],
        mix_nodes: vec![
            MixNodePresence {
                host: "resolves.example:1789".to_string(),
                pub_key: "m1".to_string(),
                layer: 1,
                last_seen: 1,
                version: "v".to_string(),
            },
            MixNodePresence {
                host: "never.resolves:1789".to_string(),
                pub_key: "m2".to_string(),
                layer: 2,
                last_seen: 1,
                version: "v".to_string(),
            },
        ],
        mix_provider_nodes: vec![MixProviderPresence {
            client_listener: "1.2.3.4:9000".to_string(),
            mixnet_listener: "1.2.3.4:9001".to_string(),
            pub_key: "pk".to_string(),
            registered_clients: vec![],
            last_seen: 1,
            version: "v".to_string(),
        }],
    };
    let resolved = vec![Some(v4(5, 6, 7, 8, 1789)), None];
    let mixes = topology.get_mix_nodes(&resolved);
    assert_eq!(mixes.len(), 1);
    assert_eq!(mixes[0].pub_key, "m1");
    let providers = topology.get_mix_provider_nodes().unwrap();
    assert_eq!(providers.len(), 1);
    let cocos = topology.get_coco_nodes();
    assert_eq!(cocos.len(), 1);
    assert_eq!(cocos[0].pub_key, "ck");
}

#[test]
fn new_from_nodes_renders_models_back_to_wire() {
    let mixes = vec![mix("m1", 1, v4(5, 6, 7, 8, 1789))];
    let providers = vec![provider("pk")];
    let cocos = vec![];
    let t = Topology::new_from_nodes(&mixes, &providers, &cocos);
    assert_eq!(t.mix_nodes.len(), 1);
    assert_eq!(t.mix_nodes[0].host, "5.6.7.8:1789");
    assert_eq!(t.mix_provider_nodes.len(), 1);
    assert_eq!(t.mix_provider_nodes[0].mixnet_listener, "10.0.0.1:9001");
    assert!(t.coco_nodes.is_empty());
}
