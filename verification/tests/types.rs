use inferencemesh::peer::PeerKey;
use inferencemesh::types::{ModelInfo, RemoteSpanInfo, ServerInfo, ServerState};

#[test]
fn server_states_read_from_numbers() {
    assert_eq!(ServerState::from_u8(0), Some(ServerState::Offline));
    assert_eq!(ServerState::from_u8(1), Some(ServerState::Joining));
    assert_eq!(ServerState::from_u8(2), Some(ServerState::Online));
    assert_eq!(ServerState::from_u8(3), None);
    assert_eq!(ServerState::Online.rank(), 2);
}

#[test]
fn server_info_builders() {
    let s = ServerInfo::new(ServerState::Joining, 2.5f64.to_bits())
        .with_blocks(3, 8)
        .with_throughput_info(1.0f64.to_bits(), 2.0f64.to_bits(), 3.0f64.to_bits());
    assert_eq!(s.state, ServerState::Joining);
    assert_eq!(f64::from_bits(s.throughput_bits), 2.5);
    assert_eq!((s.start_block, s.end_block), (Some(3), Some(8)));
    assert_eq!(s.inference_rps_bits.map(f64::from_bits), Some(3.0));
    assert!(s.adapters.is_empty());
    assert!(s.next_pings.is_none());
}

#[test]
fn span_length_and_model_info() {
    let p = PeerKey::from_bytes(libp2p::PeerId::random().to_bytes()).unwrap();
    let span = RemoteSpanInfo { peer_id: p, start: 4, end: 9, server_info: ServerInfo::new(ServerState::Online, 0) };
    assert_eq!(span.length(), 5);
    let m = ModelInfo { num_blocks: 16, repository: Some("meta/llama".to_string()) };
    let c = m.clone();
    assert_eq!(c.num_blocks, 16);
    assert_eq!(c.repository.as_deref(), Some("meta/llama"));
}

#[test]
fn peer_encodings_follow_the_multihash_grammar() {
    let enc = |code: u8, len: usize| {
        let mut v = vec![code, len as u8];
        v.extend(std::iter::repeat(7u8).take(len));
        v
    };
    for (bytes, ok) in [
        (enc(0, 0), true),
        (enc(0, 42), true),
        (enc(0, 43), false),
        (enc(0x12, 32), true),
        (enc(0x12, 64), true),
        (enc(0x12, 65), false),
        (enc(0x13, 32), false),
        (vec![0x12, 32, 1, 2], false),
        (vec![0x12], false),
        (vec![], false),
    ] {
        assert_eq!(PeerKey::from_bytes(bytes.clone()).is_some(), ok, "{:?}", bytes);
        assert_eq!(libp2p::PeerId::from_bytes(&bytes).is_ok(), ok, "{:?}", bytes);
    }
    let mut trailing = enc(0x12, 32);
    trailing.push(0);
    assert!(PeerKey::from_bytes(trailing).is_none());
}
