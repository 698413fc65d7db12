use inferencemesh::client::{ClientAction, ClientError, ClientEvent, ClientState, MAX_RETRIES};
use inferencemesh::dtype::Dtype;
use inferencemesh::peer::PeerKey;
use inferencemesh::response::ForwardPassResponse;

fn random_peer() -> PeerKey {
    PeerKey::from_bytes(libp2p::PeerId::random().to_bytes()).unwrap()
}

fn find_tokens(actions: &[ClientAction]) -> Vec<(u32, u64)> {
    actions
        .iter()
        .map(|a| match a {
            ClientAction::FindProviders { layer, token } => (*layer, *token),
            other => panic!("unexpected action {:?}", other),
        })
        .collect()
}

#[test]
fn client_bootstraps_once_and_looks_up_every_layer() {
    let mut c = ClientState::new(vec![1, 2], vec![0u8; 8]);
    let boot = random_peer();
    let acts = c.step(ClientEvent::ConnectionEstablished { peer: boot.clone() });
    assert!(matches!(&acts[..], [ClientAction::AddBootstrapAddr { peer }] if *peer == boot));
    assert!(c.step(ClientEvent::ConnectionEstablished { peer: random_peer() }).is_empty());
    assert!(c.step(ClientEvent::RoutingUpdated { is_new_peer: false }).is_empty());
    let acts = c.step(ClientEvent::RoutingUpdated { is_new_peer: true });
    assert_eq!(find_tokens(&acts), vec![(1, 0), (2, 1)]);
    assert!(c.step(ClientEvent::OtherKad).is_empty());
}

#[test]
fn client_sends_the_payload_along_the_found_chain() {
    let mut c = ClientState::new(vec![1, 2], vec![5u8; 8]);
    c.step(ClientEvent::RoutingUpdated { is_new_peer: true });
    let a = random_peer();
    let b = random_peer();
    assert!(c.step(ClientEvent::ProvidersFound { token: 0, providers: vec![a.clone()] }).is_empty());
    let acts = c.step(ClientEvent::ProvidersFound { token: 1, providers: vec![b.clone(), a.clone()] });
    assert_eq!(acts.len(), 1);
    match &acts[0] {
        ClientAction::SendRequest { peer, request } => {
            assert_eq!(*peer, a);
            assert_eq!(request.route().unwrap(), vec![a.clone(), b.clone()]);
            assert_eq!(request.hop_index().unwrap(), 0);
            assert_eq!(request.request_id().unwrap(), 1);
            assert_eq!(request.tensor_dtype().unwrap(), Dtype::F32);
            assert_eq!(request.tensor_shape().unwrap(), vec![1, 2]);
            assert_eq!(request.tensor_data().unwrap(), vec![5u8; 8]);
            assert_eq!(request.mask_data().unwrap(), None);
        }
        other => panic!("unexpected action {:?}", other),
    }
    assert!(c.step(ClientEvent::OtherKad).is_empty());
    let response = ForwardPassResponse::build(1, Dtype::F32, &[1, 2], &[5u8; 8]).unwrap();
    let acts = c.step(ClientEvent::Response { response });
    assert!(matches!(&acts[..], [ClientAction::Finish { result: Ok(r) }] if r.request_id() == Ok(1)));
    assert!(c.is_finished());
    assert!(c.step(ClientEvent::OtherKad).is_empty());
}

#[test]
fn client_waits_for_every_query_before_sending() {
    let mut c = ClientState::new(vec![4, 5], vec![]);
    c.step(ClientEvent::RoutingUpdated { is_new_peer: true });
    let a = random_peer();
    assert!(c.step(ClientEvent::ProvidersFinished { token: 1 }).is_empty());
    assert!(c.step(ClientEvent::ProvidersFound { token: 0, providers: vec![a.clone()] }).is_empty());
    assert!(c.step(ClientEvent::ProvidersFound { token: 7, providers: vec![a.clone()] }).is_empty());
    assert!(c.step(ClientEvent::OtherKad).is_empty());
}

#[test]
fn client_fails_over_to_another_provider() {
    let mut c = ClientState::new(vec![1], vec![0u8; 4]);
    c.step(ClientEvent::RoutingUpdated { is_new_peer: true });
    let a = random_peer();
    let b = random_peer();
    let acts = c.step(ClientEvent::ProvidersFound { token: 0, providers: vec![a.clone()] });
    assert!(matches!(&acts[..], [ClientAction::SendRequest { peer, .. }] if *peer == a));
    assert!(c.step(ClientEvent::OutboundFailure { peer: a.clone() }).is_empty());
    let acts = c.step(ClientEvent::OtherKad);
    assert_eq!(find_tokens(&acts), vec![(1, 1)]);
    let acts = c.step(ClientEvent::ProvidersFound { token: 1, providers: vec![a.clone(), b.clone()] });
    assert!(matches!(&acts[..], [ClientAction::SendRequest { peer, .. }] if *peer == b));
}

#[test]
fn client_gives_up_after_the_retries() {
    let mut c = ClientState::new(vec![1], vec![0u8; 4]);
    for _ in 0..MAX_RETRIES {
        assert!(c.step(ClientEvent::OutboundFailure { peer: random_peer() }).is_empty());
    }
    let acts = c.step(ClientEvent::OutboundFailure { peer: random_peer() });
    assert!(matches!(
        &acts[..],
        [ClientAction::Finish { result: Err(ClientError::OutboundFailed { retries: 3 }) }]
    ));
    assert!(c.is_finished());
}

#[test]
fn client_with_no_layers_never_sends() {
    let mut c = ClientState::new(vec![], vec![0u8; 4]);
    assert!(c.step(ClientEvent::RoutingUpdated { is_new_peer: true }).is_empty());
    assert!(c.step(ClientEvent::OtherKad).is_empty());
    assert!(!c.is_finished());
}
