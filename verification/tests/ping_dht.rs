use std::time::Duration;

use inferencemesh::dht::{
    layer_addr_key, layer_addr_key_bytes, layer_key, layer_key_bytes, server_info_key, server_info_key_bytes,
};
use inferencemesh::peer::PeerKey;
use inferencemesh::ping::PingAggregator;

fn random_peer() -> (libp2p::PeerId, PeerKey) {
    let id = libp2p::PeerId::random();
    (id, PeerKey::from_bytes(id.to_bytes()).unwrap())
}

#[test]
fn ping_records_and_reads_round_trip_times() {
    let mut p = PingAggregator::new();
    let (id_a, a) = random_peer();
    let (_, b) = random_peer();
    assert_eq!(p.get_rtt(&a), None);
    p.record_rtt(a.clone(), 12.5f64.to_bits());
    p.record_rtt(b.clone(), 3.0f64.to_bits());
    p.record_rtt(a.clone(), 7.25f64.to_bits());
    assert_eq!(p.get_rtt(&a).map(f64::from_bits), Some(7.25));
    assert_eq!(p.get_rtt(&b).map(f64::from_bits), Some(3.0));
    let dict = p.to_dict();
    assert_eq!(dict.len(), 2);
    assert!(dict.contains(&(id_a.to_base58(), 7.25f64.to_bits())));
}

#[test]
fn ping_staleness_and_retention() {
    let mut p = PingAggregator::new();
    let (_, a) = random_peer();
    let (_, b) = random_peer();
    let (_, c) = random_peer();
    p.record_rtt_at(a.clone(), 1, 0);
    p.record_rtt_at(b.clone(), 2, 1_000);
    assert!(p.stale_at(&a, 500, 1_000));
    assert!(!p.stale_at(&b, 500, 1_000));
    assert!(!p.stale_at(&a, 1_000, 1_000));
    assert!(p.stale_at(&c, 500, 1_000));
    assert!(!p.stale_at(&b, 0, 10));
    p.retain_recent_at(500, 1_000);
    assert_eq!(p.get_rtt(&a), None);
    assert_eq!(p.get_rtt(&b), Some(2));
    p.record_rtt(c.clone(), 5);
    assert!(!p.stale(&c, Duration::from_secs(3600).as_nanos()));
    assert!(p.stale(&a, Duration::from_secs(3600).as_nanos()));
    p.retain_recent(Duration::from_secs(3600).as_nanos());
    assert_eq!(p.get_rtt(&c), Some(5));
}

#[test]
fn dht_keys() {
    assert_eq!(layer_key_bytes(7), b"layer_007".to_vec());
    assert_eq!(layer_key_bytes(1234), b"layer_1234".to_vec());
    assert_eq!(layer_key(42).to_vec(), b"layer_042".to_vec());
    let (id, p) = random_peer();
    let hex: String = id.to_bytes().iter().map(|b| format!("{:02x}", b)).collect();
    assert_eq!(layer_addr_key_bytes(5, &p), format!("addr_{}_005", hex).into_bytes());
    assert_eq!(layer_addr_key(5, &p).to_vec(), format!("addr_{}_005", hex).into_bytes());
    assert_eq!(server_info_key_bytes(&p), format!("server_info_{}", id).into_bytes());
    assert_eq!(server_info_key(&p).to_vec(), format!("server_info_{}", id).into_bytes());
}
