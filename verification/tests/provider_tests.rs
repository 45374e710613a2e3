use mixnet_core::ledger::{derive_token, AuthToken, ClientLedger};
use mixnet_core::provider::{
    frame_messages, handle_retrieve, parse_client_request, process_packet, ClientRequest,
    MixProcessingError, ProcessedPacket, ProviderError, RequestError, RetrieveError,
    SocketErrorKind, FAILURE_RESPONSE, MIX_ACK, MAX_REQUEST_SIZE, REGISTER_OPCODE,
    RETRIEVE_OPCODE,
};
use mixnet_core::store::MessageStore;
use mixnet_core::{banner, usage, MESSAGE_RETRIEVAL_LIMIT, STORED_MESSAGE_FILENAME_LENGTH};

fn token(fill: u8) -> AuthToken {
    AuthToken::from_bytes(vec![fill; 32])
}

#[test]
fn current_clients_has_one_encoded_entry_per_destination() {
    let mut ledger = ClientLedger::new();
    let destinations: Vec<Vec<u8>> = vec![vec![1; 32], vec![2; 32], vec![3; 32]];
    for (i, d) in destinations.iter().enumerate() {
        ledger.register_client(d.clone(), token(10 + i as u8));
    }
    let clients = ledger.current_clients();
    assert_eq!(clients.len(), 3);
    for (i, d) in destinations.iter().enumerate() {
        assert_eq!(clients[i].pub_key, base64::encode_config(d, base64::URL_SAFE));
    }
}

#[test]
fn token_derivation_is_deterministic() {
    let secret = vec![0xAAu8; 32];
    let client_a = vec![0x0Fu8; 32];
    let client_b = vec![0xF0u8; 32];
    let t1 = derive_token(&secret, &client_a);
    let t2 = derive_token(&secret, &client_a);
    let t3 = derive_token(&secret, &client_b);
    assert!(t1.eq_token(&t2));
    assert!(!t1.eq_token(&t3));
    assert_eq!(t1.as_bytes(), &vec![0xA5u8; 32]);
}

#[test]
fn double_registration_returns_the_same_token() {
    let mut ledger = ClientLedger::new();
    let destination = vec![5; 32];
    let first = ledger.register_client(destination.clone(), token(1));
    let second = ledger.register_client(destination.clone(), token(2));
    assert!(first.eq_token(&second));
    assert_eq!(first.as_bytes(), &vec![1; 32]);
    assert_eq!(ledger.current_clients().len(), 1);
}

#[test]
fn insert_token_behaves_like_a_map_keyed_by_token() {
    let mut ledger = ClientLedger::new();
    assert!(!ledger.has_token(&token(1)));
    assert_eq!(ledger.insert_token(token(1), vec![9; 32]), None);
    assert!(ledger.has_token(&token(1)));
    let old = ledger.insert_token(token(1), vec![8; 32]);
    assert_eq!(old, Some(vec![9; 32]));
    assert_eq!(ledger.lookup_token(&token(1)), Some(vec![8; 32]));
    assert_eq!(ledger.lookup_token(&token(2)), None);
}

#[test]
fn retrieval_is_capped_and_consumes_messages() {
    let mut store = MessageStore::new();
    let dest = vec![4; 32];
    for i in 0..(MESSAGE_RETRIEVAL_LIMIT + 1) {
        store.store_message(&dest, vec![i as u8, 100]);
    }
    assert_eq!(store.message_count(&dest), MESSAGE_RETRIEVAL_LIMIT + 1);
    let first = store.retrieve_messages(&dest);
    assert_eq!(first.len(), MESSAGE_RETRIEVAL_LIMIT);
    let second = store.retrieve_messages(&dest);
    assert_eq!(second.len(), 1);
    assert_eq!(store.message_count(&dest), 0);
    // consumed on retrieval: the two batches share no message
    for m in &second {
        assert!(!first.contains(m));
    }
    assert_eq!(second[0], vec![MESSAGE_RETRIEVAL_LIMIT as u8, 100]);
}

#[test]
fn register_store_retrieve_empties_the_mailbox() {
    let mut ledger = ClientLedger::new();
    let mut store = MessageStore::new();
    let destination = vec![6; 32];
    let auth = ledger.register_client(destination.clone(), token(6));
    let blobs: Vec<Vec<u8>> = vec![b"first".to_vec(), b"second".to_vec(), b"third".to_vec()];
    for b in &blobs {
        store.store_message(&destination, b.clone());
    }
    let (response, taken) = handle_retrieve(&ledger, &mut store, &auth).unwrap();
    assert_eq!(response, frame_messages(&blobs));
    assert_eq!(taken, blobs);
    for b in &blobs {
        let needle: &[u8] = b;
        assert!(response.windows(needle.len()).any(|w| w == needle));
    }
    assert_eq!(store.message_count(&destination), 0);
}

#[test]
fn retrieval_with_unknown_token_is_unauthorized() {
    let ledger = ClientLedger::new();
    let mut store = MessageStore::new();
    let r = handle_retrieve(&ledger, &mut store, &token(9));
    assert!(matches!(r, Err(RetrieveError::Unauthorized)));
}

#[test]
fn framing_prefixes_each_message_with_its_length() {
    let msgs = vec![b"ab".to_vec(), b"c".to_vec()];
    let framed = frame_messages(&msgs);
    assert_eq!(framed, vec![0, 0, 0, 2, b'a', b'b', 0, 0, 0, 1, b'c']);
    assert_eq!(frame_messages(&vec![]), Vec::<u8>::new());
}

#[test]
fn register_requests_parse() {
    let mut wire = vec![REGISTER_OPCODE];
    wire.extend_from_slice(&[7; 32]);
    match parse_client_request(&wire).unwrap() {
        ClientRequest::Register { client_pub_key } => assert_eq!(client_pub_key, vec![7; 32]),
        _ => panic!("expected a registration"),
    }
}

#[test]
fn retrieve_requests_parse() {
    let mut wire = vec![RETRIEVE_OPCODE];
    wire.extend_from_slice(&[8; 32]);
    match parse_client_request(&wire).unwrap() {
        ClientRequest::Retrieve { token } => assert_eq!(token.as_bytes(), &vec![8; 32]),
        _ => panic!("expected a retrieval"),
    }
}

#[test]
fn bad_requests_are_refused() {
    assert!(matches!(
        parse_client_request(&vec![0; MAX_REQUEST_SIZE + 1]),
        Err(RequestError::TooLong)
    ));
    assert!(matches!(
        parse_client_request(&vec![REGISTER_OPCODE; 10]),
        Err(RequestError::Malformed)
    ));
    let mut wrong_opcode = vec![77u8];
    wrong_opcode.extend_from_slice(&[0; 32]);
    assert!(matches!(parse_client_request(&wrong_opcode), Err(RequestError::Malformed)));
}

#[test]
fn final_deliveries_are_stored_and_forwards_refused() {
    let final_hop = ProcessedPacket::FinalHop { destination: vec![1; 32], payload: b"hello".to_vec() };
    let data = process_packet(final_hop).unwrap();
    assert_eq!(data.destination, vec![1; 32]);
    assert_eq!(data.payload, b"hello".to_vec());
    let forward = ProcessedPacket::ForwardHop {
        address: mixnet_core::addr::HostAddress {
            ip: mixnet_core::addr::IpAddress::V4 { a: 1, b: 2, c: 3, d: 4 },
            port: 1789,
        },
        packet: vec![0; 8],
    };
    assert!(matches!(process_packet(forward), Err(MixProcessingError::ReceivedForwardHopData)));
}

#[test]
fn socket_failures_classify_as_the_source_does() {
    assert_eq!(
        ProviderError::from_kind(SocketErrorKind::ConnectionRefused),
        ProviderError::TcpListenerConnectionError
    );
    assert_eq!(
        ProviderError::from_kind(SocketErrorKind::ConnectionReset),
        ProviderError::TcpListenerConnectionError
    );
    assert_eq!(
        ProviderError::from_kind(SocketErrorKind::ConnectionAborted),
        ProviderError::TcpListenerConnectionError
    );
    assert_eq!(
        ProviderError::from_kind(SocketErrorKind::NotConnected),
        ProviderError::TcpListenerConnectionError
    );
    assert_eq!(
        ProviderError::from_kind(SocketErrorKind::AddrInUse),
        ProviderError::TcpListenerBindingError
    );
    assert_eq!(
        ProviderError::from_kind(SocketErrorKind::AddrNotAvailable),
        ProviderError::TcpListenerBindingError
    );
    assert_eq!(
        ProviderError::from_kind(SocketErrorKind::UnexpectedEof),
        ProviderError::TcpListenerUnexpectedEof
    );
    assert_eq!(
        ProviderError::from_kind(SocketErrorKind::Other),
        ProviderError::TcpListenerUnknownError
    );
}

#[test]
fn fixed_protocol_constants_hold() {
    assert_eq!(MIX_ACK, "foomp");
    assert_eq!(FAILURE_RESPONSE, "bad foomp");
    assert_eq!(STORED_MESSAGE_FILENAME_LENGTH, 16);
    assert_eq!(MESSAGE_RETRIEVAL_LIMIT, 5);
}

#[test]
fn banner_and_usage_carry_the_version() {
    let b = banner("0.3.2");
    assert!(b.contains("(client - version 0.3.2)"));
    let u = usage("0.3.2");
    assert!(u.starts_with(&b));
    assert!(u.ends_with("usage: --help to see available options.\n\n"));
}
