use mixnet_core::addr::{HostAddress, IpAddress};
use mixnet_core::healthcheck::path_key_to_node_keys;
use mixnet_core::path_check::{path_to_key, PathChecker, PathStatus};
use mixnet_core::topology::PathHop;

fn hop(fill: u8) -> PathHop {
    PathHop {
        host: HostAddress { ip: IpAddress::V4 { a: 9, b: 9, c: 9, d: 9 }, port: 1789 },
        pub_key: base64::encode_config(&[fill; 32], base64::URL_SAFE),
    }
}

#[test]
fn path_keys_concatenate_the_hop_identities() {
    let path = vec![hop(1), hop(2), hop(3), hop(4)];
    let key = path_to_key(&path).unwrap();
    assert_eq!(key.len(), 4 * 32);
    let mut expected = Vec::new();
    for fill in [1u8, 2, 3, 4] {
        expected.extend_from_slice(&[fill; 32]);
    }
    assert_eq!(key, expected);
}

#[test]
fn a_path_with_a_bad_identity_has_no_key() {
    let mut path = vec![hop(1)];
    path.push(PathHop {
        host: HostAddress { ip: IpAddress::V4 { a: 9, b: 9, c: 9, d: 9 }, port: 1789 },
        pub_key: "*** not base64 ***".to_string(),
    });
    assert!(path_to_key(&path).is_none());
}

#[test]
fn node_keys_invert_the_path_key() {
    let path = vec![hop(5), hop(6)];
    let key = path_to_key(&path).unwrap();
    let node_keys = path_key_to_node_keys(&key);
    assert_eq!(node_keys, vec![vec![5u8; 32], vec![6u8; 32]]);
}

#[test]
fn resolution_sorts_keys_into_their_statuses() {
    let mut checker = PathChecker::new();
    let came_back = path_to_key(&vec![hop(1), hop(2)]).unwrap();
    let lost = path_to_key(&vec![hop(1), hop(3)]).unwrap();
    let unsendable = path_to_key(&vec![hop(1), hop(4)]).unwrap();
    checker.register_pending(came_back.clone());
    checker.register_pending(lost.clone());
    checker.mark_malformed(unsendable.clone());
    checker.resolve_pending_checks(&vec![came_back.clone()]);

    let statuses = checker.get_all_statuses();
    assert_eq!(statuses.len(), 3);
    assert_eq!(statuses[0], (came_back.clone(), PathStatus::Healthy));
    assert_eq!(statuses[1], (lost.clone(), PathStatus::Unresolved));
    assert_eq!(statuses[2], (unsendable.clone(), PathStatus::Malformed));

    let healthy = checker.healthy_keys();
    assert_eq!(healthy, vec![came_back]);
}

#[test]
fn registering_a_key_twice_keeps_one_entry() {
    let mut checker = PathChecker::new();
    let key = path_to_key(&vec![hop(7)]).unwrap();
    checker.register_pending(key.clone());
    checker.register_pending(key.clone());
    assert_eq!(checker.get_all_statuses().len(), 1);
}
