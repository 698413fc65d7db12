use inferencemesh::dtype::{Dtype, ProtocolError};
use inferencemesh::peer::PeerKey;
use inferencemesh::request::ForwardPassRequest;
use inferencemesh::routing::build_next_request;

fn random_peer() -> PeerKey {
    PeerKey::from_bytes(libp2p::PeerId::random().to_bytes()).unwrap()
}

#[test]
fn test_is_terminal() {
    let peer_a = random_peer();
    let peer_b = random_peer();
    let route = vec![peer_a, peer_b];

    let req = ForwardPassRequest::build(&route, 0, 42, Dtype::F32, &[1, 4], &[0u8; 16], None).unwrap();
    assert!(!req.is_terminal().unwrap());

    let req2 = ForwardPassRequest::build(&route, 1, 42, Dtype::F32, &[1, 4], &[0u8; 16], None).unwrap();
    assert!(req2.is_terminal().unwrap());
}

#[test]
fn test_build_next_request_increments_hop() {
    let peer_a = random_peer();
    let peer_b = random_peer();
    let route = vec![peer_a, peer_b.clone()];

    let req = ForwardPassRequest::build(&route, 0, 42, Dtype::F32, &[1, 4], &[0u8; 16], None).unwrap();
    assert_eq!(req.hop_index().unwrap(), 0);
    assert_eq!(req.request_id().unwrap(), 42);
    assert!(!req.is_terminal().unwrap());

    let (next_peer, next_req) = build_next_request(&req).unwrap();
    assert_eq!(next_peer, peer_b);
    assert_eq!(next_req.hop_index().unwrap(), 1);
    assert_eq!(next_req.request_id().unwrap(), 42);
    assert!(next_req.is_terminal().unwrap());
}

#[test]
fn next_request_keeps_tensor_and_mask() {
    let route = vec![random_peer(), random_peer(), random_peer()];
    let mask_shape = [2u64, 2];
    let mask_data = [1u8, 0, 0, 1];
    let req = ForwardPassRequest::build(
        &route,
        1,
        7,
        Dtype::BF16,
        &[2, 3],
        &[9u8; 12],
        Some((Dtype::F16, &mask_shape, &mask_data)),
    )
    .unwrap();
    let (next_peer, next) = build_next_request(&req).unwrap();
    assert_eq!(next_peer, route[2]);
    assert_eq!(next.hop_index().unwrap(), 2);
    assert_eq!(next.route().unwrap(), route);
    assert_eq!(next.tensor_dtype().unwrap(), Dtype::BF16);
    assert_eq!(next.tensor_shape().unwrap(), vec![2, 3]);
    assert_eq!(next.tensor_data().unwrap(), vec![9u8; 12]);
    assert_eq!(
        next.mask_data().unwrap(),
        Some((Dtype::F16, vec![2u64, 2], vec![1u8, 0, 0, 1]))
    );
}

#[test]
fn request_with_unreadable_route_is_refused() {
    let good = ForwardPassRequest::build(&[random_peer()], 0, 5, Dtype::F32, &[1], &[0u8; 4], None).unwrap();
    let mut bytes = good.into_bytes();
    // The route entry starts after hop (4), id (8), count (4) and its length (4).
    bytes[20] = 0xff;
    bytes[21] = 0xff;
    let bad = ForwardPassRequest::from_bytes(bytes).unwrap();
    assert_eq!(bad.route(), Err(ProtocolError::InvalidPeerId));
    assert_eq!(bad.is_terminal(), Err(ProtocolError::InvalidPeerId));
    assert!(matches!(build_next_request(&bad), Err(ProtocolError::InvalidPeerId)));
}

#[test]
fn next_request_with_unknown_dtype_is_refused() {
    let route = vec![random_peer(), random_peer()];
    let good = ForwardPassRequest::build(&route, 0, 5, Dtype::F32, &[1], &[0u8; 4], None).unwrap();
    let mut bytes = good.into_bytes();
    let n = bytes.len();
    // The tensor's element type follows the route; locate it from the end:
    // dtype (2) + dims count (4) + one dim (8) + data length (8) + data (4) + mask flag (1).
    let at = n - (2 + 4 + 8 + 8 + 4 + 1);
    bytes[at] = 9;
    let bad = ForwardPassRequest::from_bytes(bytes).unwrap();
    assert_eq!(bad.tensor_dtype(), Err(ProtocolError::UnknownDtype));
    assert!(matches!(build_next_request(&bad), Err(ProtocolError::UnknownDtype)));
}

#[test]
fn request_reaches_the_last_worker_after_one_hop_per_worker() {
    let route = vec![random_peer(), random_peer(), random_peer(), random_peer()];
    let mut req = ForwardPassRequest::build(&route, 0, 3, Dtype::F32, &[1], &[0u8; 4], None).unwrap();
    let mut hops = 0;
    while !req.is_terminal().unwrap() {
        let (peer, next) = build_next_request(&req).unwrap();
        hops += 1;
        assert_eq!(peer, route[hops]);
        assert_eq!(next.hop_index().unwrap() as usize, hops);
        req = next;
    }
    assert_eq!(hops, route.len() - 1);
    assert_eq!(req.request_id().unwrap(), 3);
}
