use std::time::Duration;

use inferencemesh::peer::PeerKey;
use inferencemesh::provider_cache::ProviderCache;

fn random_peer() -> PeerKey {
    PeerKey::from_bytes(libp2p::PeerId::random().to_bytes()).unwrap()
}

#[test]
fn test_cache_insert_and_get() {
    let mut cache = ProviderCache::new(Duration::from_secs(60).as_nanos());
    let peer = random_peer();
    cache.insert(1, peer.clone());
    assert_eq!(cache.get_excluding(1, &[]), vec![peer]);
}

#[test]
fn test_cache_excludes_failed_peers() {
    let mut cache = ProviderCache::new(Duration::from_secs(60).as_nanos());
    let a = random_peer();
    let b = random_peer();
    cache.insert(1, a.clone());
    cache.insert(1, b.clone());
    let exclude = vec![a];
    assert_eq!(cache.get_excluding(1, &exclude), vec![b]);
}

#[test]
fn test_cache_evict() {
    let mut cache = ProviderCache::new(Duration::from_secs(60).as_nanos());
    let peer = random_peer();
    cache.insert(1, peer.clone());
    cache.evict(1, &peer);
    assert!(cache.get_excluding(1, &[]).is_empty());
}

#[test]
fn test_build_chain_returns_none_when_missing_layer() {
    let cache = ProviderCache::new(Duration::from_secs(60).as_nanos());
    assert!(cache.build_chain(&[1, 2], &[]).is_none());
}

#[test]
fn test_build_chain_returns_chain_when_all_layers_present() {
    let mut cache = ProviderCache::new(Duration::from_secs(60).as_nanos());
    let a = random_peer();
    let b = random_peer();
    cache.insert(1, a.clone());
    cache.insert(2, b.clone());
    let chain = cache.build_chain(&[1, 2], &[]).unwrap();
    assert_eq!(chain, vec![a, b]);
}

#[test]
fn cache_entries_expire_after_their_time_to_live() {
    let mut cache = ProviderCache::new(Duration::from_secs(60).as_nanos());
    let ttl: u128 = 60_000_000_000;
    let a = random_peer();
    let b = random_peer();
    cache.insert_at(3, a.clone(), 0);
    cache.insert_at(3, b.clone(), ttl);
    assert_eq!(cache.get_excluding_at(3, &[], ttl - 1), vec![a.clone(), b.clone()]);
    assert_eq!(cache.get_excluding_at(3, &[], ttl), vec![b.clone()]);
    assert_eq!(cache.get_excluding_at(3, &[], 2 * ttl), Vec::<PeerKey>::new());
}

#[test]
fn cache_entry_found_later_than_now_is_fresh() {
    let mut cache = ProviderCache::new(Duration::from_secs(60).as_nanos());
    let a = random_peer();
    cache.insert_at(3, a.clone(), 500);
    assert_eq!(cache.get_excluding_at(3, &[], 10), vec![a]);
}

#[test]
fn cache_prune_drops_old_entries_and_empty_layers() {
    let mut cache = ProviderCache::new(Duration::from_secs(60).as_nanos());
    let ttl: u128 = 60_000_000_000;
    let a = random_peer();
    let b = random_peer();
    cache.insert_at(1, a.clone(), 0);
    cache.insert_at(2, b.clone(), ttl);
    cache.insert_at(2, a.clone(), 0);
    assert_eq!(cache.len(), 3);
    cache.prune_expired_at(ttl + 1);
    assert_eq!(cache.len(), 1);
    assert_eq!(cache.get_excluding_at(2, &[], ttl + 1), vec![b]);
    assert!(cache.get_excluding_at(1, &[], 0).is_empty());
}

#[test]
fn cache_prune_now_keeps_fresh_entries() {
    let mut cache = ProviderCache::new(Duration::from_secs(60).as_nanos());
    let a = random_peer();
    cache.insert(4, a.clone());
    cache.prune_expired();
    assert_eq!(cache.len(), 1);
    assert_eq!(cache.get_excluding(4, &[]), vec![a]);
}

#[test]
fn cache_evict_only_touches_the_named_layer() {
    let mut cache = ProviderCache::new(Duration::from_secs(60).as_nanos());
    let a = random_peer();
    let b = random_peer();
    cache.insert(1, a.clone());
    cache.insert(1, b.clone());
    cache.insert(2, a.clone());
    cache.evict(1, &a);
    cache.evict(7, &a);
    assert_eq!(cache.get_excluding(1, &[]), vec![b]);
    assert_eq!(cache.get_excluding(2, &[]), vec![a]);
    assert_eq!(cache.len(), 2);
}

#[test]
fn cache_build_chain_skips_excluded_providers() {
    let mut cache = ProviderCache::new(Duration::from_secs(60).as_nanos());
    let a = random_peer();
    let b = random_peer();
    cache.insert(1, a.clone());
    cache.insert(1, b.clone());
    cache.insert(2, a.clone());
    let exclude = vec![a.clone()];
    assert!(cache.build_chain(&[1, 2], &exclude).is_none());
    assert_eq!(cache.build_chain(&[1], &exclude).unwrap(), vec![b]);
    assert_eq!(cache.build_chain(&[], &exclude).unwrap(), Vec::<PeerKey>::new());
}

#[test]
fn cache_build_chain_at_one_moment() {
    let mut cache = ProviderCache::new(100);
    let a = random_peer();
    let b = random_peer();
    let c = random_peer();
    cache.insert_at(1, a.clone(), 0);
    cache.insert_at(1, b.clone(), 50);
    cache.insert_at(2, c.clone(), 50);
    assert_eq!(cache.build_chain_at(&[1, 2], &[], 99).unwrap(), vec![a.clone(), c.clone()]);
    assert_eq!(cache.build_chain_at(&[1, 2], &[], 100).unwrap(), vec![b.clone(), c.clone()]);
    assert!(cache.build_chain_at(&[1, 2], &[], 150).is_none());
    assert!(cache.build_chain_at(&[2, 3], &[], 0).is_none());
}

#[test]
fn cache_prune_keeps_lookups_at_the_same_moment() {
    let mut cache = ProviderCache::new(100);
    let a = random_peer();
    let b = random_peer();
    cache.insert_at(1, a.clone(), 0);
    cache.insert_at(1, b.clone(), 80);
    cache.insert_at(2, a.clone(), 10);
    let before1 = cache.get_excluding_at(1, &[], 120);
    let before2 = cache.get_excluding_at(2, &[], 120);
    let before_ex = cache.get_excluding_at(1, &[b.clone()], 120);
    cache.prune_expired_at(120);
    assert_eq!(cache.get_excluding_at(1, &[], 120), before1);
    assert_eq!(cache.get_excluding_at(2, &[], 120), before2);
    assert_eq!(cache.get_excluding_at(1, &[b.clone()], 120), before_ex);
    assert_eq!(before1, vec![b.clone()]);
    assert_eq!(cache.len(), 1);
    cache.prune_expired_at(120);
    assert_eq!(cache.len(), 1);
    assert_eq!(cache.get_excluding_at(1, &[], 120), vec![b]);
}
