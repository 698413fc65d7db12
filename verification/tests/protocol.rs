use inferencemesh::codec::{frame, frame_header, frame_length, ForwardPassProtocol};
use inferencemesh::dtype::{Dtype, ProtocolError, SchemaDtype};
use inferencemesh::peer::PeerKey;
use inferencemesh::request::ForwardPassRequest;
use inferencemesh::response::ForwardPassResponse;

fn random_peer() -> PeerKey {
    PeerKey::from_bytes(libp2p::PeerId::random().to_bytes()).unwrap()
}

#[test]
fn request_bytes_read_back_as_the_request() {
    let route = vec![random_peer(), random_peer()];
    let mask_shape = [1u64, 3];
    let mask_data = [1u8, 1, 0];
    let req = ForwardPassRequest::build(
        &route,
        1,
        99,
        Dtype::F16,
        &[3, 1],
        &[1u8, 2, 3, 4, 5, 6],
        Some((Dtype::F32, &mask_shape, &mask_data)),
    )
    .unwrap();
    let back = ForwardPassRequest::from_bytes(req.into_bytes()).unwrap();
    assert_eq!(back.route().unwrap(), route);
    assert_eq!(back.hop_index().unwrap(), 1);
    assert_eq!(back.request_id().unwrap(), 99);
    assert_eq!(back.tensor_dtype().unwrap(), Dtype::F16);
    assert_eq!(back.tensor_shape().unwrap(), vec![3, 1]);
    assert_eq!(back.tensor_data().unwrap(), vec![1u8, 2, 3, 4, 5, 6]);
    assert_eq!(back.mask_data().unwrap(), Some((Dtype::F32, vec![1u64, 3], vec![1u8, 1, 0])));
    assert!(back.is_terminal().unwrap());
}

#[test]
fn request_layout_is_little_endian() {
    let req = ForwardPassRequest::build(&[], 2, 0x0102, Dtype::F32, &[5], &[7u8], None).unwrap();
    let bytes = req.into_bytes();
    let mut expected: Vec<u8> = Vec::new();
    expected.extend_from_slice(&[2, 0, 0, 0]);
    expected.extend_from_slice(&[2, 1, 0, 0, 0, 0, 0, 0]);
    expected.extend_from_slice(&[0, 0, 0, 0]);
    expected.extend_from_slice(&Dtype::F32.code().to_le_bytes());
    expected.extend_from_slice(&[1, 0, 0, 0]);
    expected.extend_from_slice(&[5, 0, 0, 0, 0, 0, 0, 0]);
    expected.extend_from_slice(&[1, 0, 0, 0, 0, 0, 0, 0]);
    expected.push(7);
    expected.push(0);
    assert_eq!(bytes, expected);
}

#[test]
fn request_with_empty_route_is_terminal_at_hop_zero() {
    let req = ForwardPassRequest::build(&[], 0, 1, Dtype::F32, &[], &[], None).unwrap();
    assert!(req.is_terminal().unwrap());
    let req = ForwardPassRequest::build(&[], 1, 1, Dtype::F32, &[], &[], None).unwrap();
    assert!(!req.is_terminal().unwrap());
}

#[test]
fn malformed_messages_are_refused() {
    assert!(matches!(ForwardPassRequest::from_bytes(vec![]), Err(ProtocolError::Malformed)));
    assert!(matches!(ForwardPassResponse::from_bytes(vec![1, 2, 3]), Err(ProtocolError::Malformed)));
    let req = ForwardPassRequest::build(&[], 0, 1, Dtype::F32, &[1], &[0u8; 4], None).unwrap();
    let mut bytes = req.into_bytes();
    bytes.push(0);
    assert!(matches!(ForwardPassRequest::from_bytes(bytes), Err(ProtocolError::Malformed)));
    let res = ForwardPassResponse::build(1, Dtype::F32, &[1], &[0u8; 4]).unwrap();
    let mut bytes = res.into_bytes();
    bytes.pop();
    assert!(matches!(ForwardPassResponse::from_bytes(bytes), Err(ProtocolError::Malformed)));
}

#[test]
fn response_bytes_read_back_as_the_response() {
    let res = ForwardPassResponse::build(42, Dtype::BF16, &[2, 2], &[1u8, 2, 3, 4, 5, 6, 7, 8]).unwrap();
    let bytes = res.into_bytes();
    assert_eq!(&bytes[0..8], &[42u8, 0, 0, 0, 0, 0, 0, 0]);
    let back = ForwardPassResponse::from_bytes(bytes).unwrap();
    assert_eq!(back.request_id().unwrap(), 42);
    assert_eq!(back.tensor_dtype().unwrap(), Dtype::BF16);
    assert_eq!(back.tensor_shape().unwrap(), vec![2, 2]);
    assert_eq!(back.tensor_data().unwrap(), vec![1u8, 2, 3, 4, 5, 6, 7, 8]);
}

#[test]
fn response_with_unknown_dtype_reads_but_has_no_type() {
    let res = ForwardPassResponse::build(3, Dtype::F32, &[], &[]).unwrap();
    let mut bytes = res.into_bytes();
    bytes[8] = 0x7f;
    let back = ForwardPassResponse::from_bytes(bytes).unwrap();
    assert_eq!(back.tensor_dtype(), Err(ProtocolError::UnknownDtype));
    assert_eq!(back.request_id(), Ok(3));
}

#[test]
fn dtype_sizes_and_schema_round_trip() {
    assert_eq!(Dtype::F16.element_size(), 2);
    assert_eq!(Dtype::BF16.element_size(), 2);
    assert_eq!(Dtype::F32.element_size(), 4);
    for d in [Dtype::F16, Dtype::BF16, Dtype::F32] {
        assert_eq!(Dtype::from_capnp(d.to_capnp()), d);
        assert_eq!(Dtype::from_code(d.code()), Ok(d));
        assert_eq!(Dtype::from_capnp_res(Ok(d.to_capnp())), Ok(d));
    }
    assert_eq!(Dtype::BF16.to_capnp(), SchemaDtype::Bf16);
    assert_eq!(Dtype::from_capnp(SchemaDtype::F16), Dtype::F16);
    assert_eq!(Dtype::from_capnp_res(Err(17)), Err(ProtocolError::UnknownDtype));
    assert_eq!(Dtype::from_code(3), Err(ProtocolError::UnknownDtype));
}

#[test]
fn frame_header_is_big_endian_length() {
    assert_eq!(frame_header(0x0102_0304), [1, 2, 3, 4]);
    assert_eq!(frame_length([0, 0, 1, 0]), 256);
    assert_eq!(frame_length(frame_header(123_456)), 123_456);
    assert_eq!(frame(&[9, 8]), vec![0, 0, 0, 2, 9, 8]);
}

#[test]
fn protocol_name() {
    let p = ForwardPassProtocol;
    assert_eq!(p.name(), "/inference/tensor/1.0.0");
    assert_eq!(AsRef::<str>::as_ref(&p), "/inference/tensor/1.0.0");
}

#[test]
fn peer_keys_read_back_and_print_in_base58() {
    let id = libp2p::PeerId::random();
    let key = PeerKey::from_bytes(id.to_bytes()).unwrap();
    assert_eq!(key.to_bytes(), id.to_bytes());
    assert_eq!(key.to_base58(), id.to_base58());
    assert_eq!(key.to_base58(), id.to_string());
    assert!(PeerKey::from_bytes(vec![1, 2, 3]).is_none());
    assert!(key.same(&key.clone()));
}
