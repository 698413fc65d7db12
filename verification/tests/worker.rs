use inferencemesh::dtype::{Dtype, ProtocolError};
use inferencemesh::peer::PeerKey;
use inferencemesh::request::ForwardPassRequest;
use inferencemesh::response::ForwardPassResponse;
use inferencemesh::worker::{
    compute_response, echo_response, failure_response, WorkerAction, WorkerEvent, WorkerState,
};

fn random_peer() -> PeerKey {
    PeerKey::from_bytes(libp2p::PeerId::random().to_bytes()).unwrap()
}

fn request(route: &[PeerKey], hop: u32) -> ForwardPassRequest {
    ForwardPassRequest::build(route, hop, 11, Dtype::F32, &[1, 2], &[1u8, 2, 3, 4, 5, 6, 7, 8], None).unwrap()
}

fn response_parts(r: &ForwardPassResponse) -> (u64, Dtype, Vec<u64>, Vec<u8>) {
    (r.request_id().unwrap(), r.tensor_dtype().unwrap(), r.tensor_shape().unwrap(), r.tensor_data().unwrap())
}

#[test]
fn worker_announces_its_layers_once_after_joining() {
    let mut w = WorkerState::new(3, 9, false);
    assert!(w.step(WorkerEvent::Kad { new_peer: false }).is_empty());
    let acts = w.step(WorkerEvent::Kad { new_peer: true });
    assert!(matches!(&acts[..], [WorkerAction::AnnounceLayers { start: 3, end: 9 }]));
    assert!(w.step(WorkerEvent::Kad { new_peer: true }).is_empty());
    let boot = random_peer();
    let acts = w.step(WorkerEvent::ConnectionEstablished { peer: boot.clone() });
    assert!(matches!(&acts[..], [WorkerAction::AddBootstrapAddr { peer }] if *peer == boot));
    assert!(w.step(WorkerEvent::ConnectionEstablished { peer: random_peer() }).is_empty());
}

#[test]
fn echo_worker_mirrors_the_last_hop() {
    let me = random_peer();
    let mut w = WorkerState::new(0, 1, false);
    let acts = w.step(WorkerEvent::Request { channel: 4, request: request(&[random_peer(), me], 1) });
    match &acts[..] {
        [WorkerAction::SendResponse { channel: 4, response }] => {
            assert_eq!(response_parts(response), (11, Dtype::F32, vec![1, 2], vec![1u8, 2, 3, 4, 5, 6, 7, 8]));
        }
        other => panic!("unexpected actions {:?}", other),
    }
}

#[test]
fn compute_worker_hands_the_last_hop_to_the_engine() {
    let mut w = WorkerState::new(0, 1, true);
    let acts = w.step(WorkerEvent::Request { channel: 2, request: request(&[random_peer()], 0) });
    assert!(matches!(&acts[..], [WorkerAction::Compute { channel: 2, request_id: 11, .. }]));
}

#[test]
fn worker_forwards_and_relays_the_reply() {
    let next = random_peer();
    let mut w = WorkerState::new(0, 1, false);
    let acts = w.step(WorkerEvent::Request { channel: 7, request: request(&[random_peer(), next.clone()], 0) });
    let token = match &acts[..] {
        [WorkerAction::SendRequest { token, peer, request }] => {
            assert_eq!(*peer, next);
            assert_eq!(request.hop_index().unwrap(), 1);
            assert_eq!(request.request_id().unwrap(), 11);
            assert!(request.is_terminal().unwrap());
            *token
        }
        other => panic!("unexpected actions {:?}", other),
    };
    let reply = ForwardPassResponse::build(11, Dtype::F32, &[1], &[9u8; 4]).unwrap();
    let acts = w.step(WorkerEvent::Response { token, response: reply });
    match &acts[..] {
        [WorkerAction::SendResponse { channel: 7, response }] => {
            assert_eq!(response_parts(response), (11, Dtype::F32, vec![1], vec![9u8; 4]));
        }
        other => panic!("unexpected actions {:?}", other),
    }
    let again = ForwardPassResponse::build(11, Dtype::F32, &[], &[]).unwrap();
    assert!(w.step(WorkerEvent::Response { token, response: again }).is_empty());
}

#[test]
fn worker_signals_a_failed_forward_upstream() {
    let mut w = WorkerState::new(0, 1, false);
    let acts = w.step(WorkerEvent::Request { channel: 5, request: request(&[random_peer(), random_peer()], 0) });
    let token = match &acts[..] {
        [WorkerAction::SendRequest { token, .. }] => *token,
        other => panic!("unexpected actions {:?}", other),
    };
    assert!(w.step(WorkerEvent::OutboundFailure { token: token + 100 }).is_empty());
    let acts = w.step(WorkerEvent::OutboundFailure { token });
    match &acts[..] {
        [WorkerAction::SendResponse { channel: 5, response }] => {
            assert_eq!(response_parts(response), (0, Dtype::F32, vec![], vec![]));
        }
        other => panic!("unexpected actions {:?}", other),
    }
    assert!(w.step(WorkerEvent::OutboundFailure { token }).is_empty());
}

#[test]
fn echo_worker_stops_on_an_unknown_element_type() {
    let me = random_peer();
    let good = request(&[me], 0);
    let mut bytes = good.into_bytes();
    let n = bytes.len();
    let at = n - (2 + 4 + 8 + 8 + 8 + 8 + 1);
    bytes[at] = 0x55;
    let bad = ForwardPassRequest::from_bytes(bytes).unwrap();
    assert_eq!(bad.tensor_dtype(), Err(ProtocolError::UnknownDtype));
    let mut w = WorkerState::new(0, 0, false);
    let acts = w.step(WorkerEvent::Request { channel: 1, request: bad });
    assert!(matches!(&acts[..], [WorkerAction::Stop { error: ProtocolError::UnknownDtype }]));
    assert!(w.is_stopped());
    assert!(w.step(WorkerEvent::Kad { new_peer: true }).is_empty());
}

#[test]
fn answers_built_for_the_last_hop() {
    let req = request(&[random_peer()], 0);
    let echo = echo_response(3, &req).unwrap();
    assert_eq!(response_parts(&echo), (3, Dtype::F32, vec![1, 2], vec![1u8, 2, 3, 4, 5, 6, 7, 8]));
    let out = compute_response(3, &req, Some(vec![0u8; 12]));
    assert_eq!(response_parts(&out), (3, Dtype::F32, vec![3], vec![0u8; 12]));
    let failed = compute_response(3, &req, None);
    assert_eq!(response_parts(&failed), (3, Dtype::F32, vec![], vec![]));
    assert_eq!(response_parts(&failure_response()), (0, Dtype::F32, vec![], vec![]));
    let half = ForwardPassRequest::build(&[], 0, 1, Dtype::F16, &[2], &[0u8; 4], None).unwrap();
    let out = compute_response(8, &half, Some(vec![1u8; 6]));
    assert_eq!(response_parts(&out), (8, Dtype::F16, vec![1], vec![1u8; 6]));
}

#[test]
fn compute_worker_stops_on_an_unknown_element_type() {
    let good = request(&[random_peer()], 0);
    let mut bytes = good.into_bytes();
    let n = bytes.len();
    let at = n - (2 + 4 + 8 + 8 + 8 + 8 + 1);
    bytes[at] = 0x55;
    let bad = ForwardPassRequest::from_bytes(bytes).unwrap();
    let mut w = WorkerState::new(0, 0, true);
    let acts = w.step(WorkerEvent::Request { channel: 1, request: bad });
    assert!(matches!(&acts[..], [WorkerAction::Stop { error: ProtocolError::UnknownDtype }]));
    assert!(w.is_stopped());
}
