//! The keys under which layers, worker addresses and server descriptions
//! are stored in the distributed hash table.
//!
//! A layer is announced under `layer_` and its number written with at least
//! three digits; a worker's address for a layer under `addr_`, the
//! lowercase hexadecimal of its peer bytes, `_` and the layer as before; its
//! description under `server_info_` and its base-58 peer text.
use vstd::prelude::*;
use libp2p::kad::RecordKey;
use crate::peer::{peer_id_base58, PeerKey};
use crate::text::{decimal_bytes_3, hex_bytes, push_decimal_3, push_hex};

verus! {

#[verifier::external_type_specification]
#[verifier::external_body]
pub struct ExRecordKey(RecordKey);

/// The bytes that a `libp2p::kad::RecordKey` holds: what its `to_vec` and
/// `as_ref` give.
pub uninterp spec fn record_key_bytes(key: RecordKey) -> Seq<u8>;

/// Calls `libp2p::kad::RecordKey::new`, which copies `bytes` into the new
/// key (`Key(Bytes::copy_from_slice(key.as_ref()))`): the key holds exactly
/// those bytes.
#[verifier::external_body]
fn record_key(bytes: &[u8]) -> (r: RecordKey)
    ensures
        record_key_bytes(r) == bytes@,
{
    RecordKey::new(&bytes)
}

/// Appends the bytes of `s`.
fn push_str(buf: &mut Vec<u8>, s: &str)
    ensures
        final(buf)@ == old(buf)@ + vstd::utf8::encode_utf8(s@),
{
    let b = s.as_bytes();
    let ghost start = buf@;
    let mut i: usize = 0;
    while i < b.len()
        invariant
            i <= b@.len(),
            b@ == vstd::utf8::encode_utf8(s@),
            buf@ == start + b@.take(i as int),
        decreases b@.len() - i,
    {
        buf.push(b[i]);
        assert(buf@ =~= start + b@.take(i + 1));
        i = i + 1;
    }
    assert(b@.take(i as int) =~= b@);
}

/// The bytes of the key of `layer`.
pub open spec fn layer_key_spec(layer: u32) -> Seq<u8> {
    vstd::utf8::encode_utf8("layer_"@) + decimal_bytes_3(layer as nat)
}

/// The bytes of the key of the address of worker `peer` for `layer`.
pub open spec fn layer_addr_key_spec(layer: u32, peer: Seq<u8>) -> Seq<u8> {
    vstd::utf8::encode_utf8("addr_"@) + hex_bytes(peer) + vstd::utf8::encode_utf8("_"@) + decimal_bytes_3(layer as nat)
}

/// The bytes of the key of the description of worker `peer`.
pub open spec fn server_info_key_spec(peer: Seq<u8>) -> Seq<u8> {
    vstd::utf8::encode_utf8("server_info_"@) + vstd::utf8::encode_utf8(peer_id_base58(peer))
}

/// The bytes of the key under which the providers of `layer` announce it.
pub fn layer_key_bytes(layer: u32) -> (r: Vec<u8>)
    ensures
        r@ == layer_key_spec(layer),
{
    let mut buf: Vec<u8> = Vec::new();
    push_str(&mut buf, "layer_");
    push_decimal_3(&mut buf, layer as u64);
    assert(buf@ =~= layer_key_spec(layer));
    buf
}

/// The key under which the providers of `layer` announce it.
pub fn layer_key(layer: u32) -> (r: RecordKey)
    ensures
        record_key_bytes(r) == layer_key_spec(layer),
{
    let bytes = layer_key_bytes(layer);
    record_key(bytes.as_slice())
}

/// The bytes of the key under which worker `peer_id` stores its address
/// for `layer`.
pub fn layer_addr_key_bytes(layer: u32, peer_id: &PeerKey) -> (r: Vec<u8>)
    ensures
        r@ == layer_addr_key_spec(layer, peer_id@),
{
    let mut buf: Vec<u8> = Vec::new();
    push_str(&mut buf, "addr_");
    let peer = peer_id.to_bytes();
    push_hex(&mut buf, peer.as_slice());
    push_str(&mut buf, "_");
    push_decimal_3(&mut buf, layer as u64);
    assert(buf@ =~= layer_addr_key_spec(layer, peer_id@));
    buf
}

/// The key under which worker `peer_id` stores its address for `layer`.
pub fn layer_addr_key(layer: u32, peer_id: &PeerKey) -> (r: RecordKey)
    ensures
        record_key_bytes(r) == layer_addr_key_spec(layer, peer_id@),
{
    let bytes = layer_addr_key_bytes(layer, peer_id);
    record_key(bytes.as_slice())
}

/// The bytes of the key under which worker `peer_id` stores its description.
pub fn server_info_key_bytes(peer_id: &PeerKey) -> (r: Vec<u8>)
    ensures
        r@ == server_info_key_spec(peer_id@),
{
    let mut buf: Vec<u8> = Vec::new();
    push_str(&mut buf, "server_info_");
    let name = peer_id.to_base58();
    push_str(&mut buf, name.as_str());
    assert(buf@ =~= server_info_key_spec(peer_id@));
    buf
}

/// The key under which worker `peer_id` stores its description.
pub fn server_info_key(peer_id: &PeerKey) -> (r: RecordKey)
    ensures
        record_key_bytes(r) == server_info_key_spec(peer_id@),
{
    let bytes = server_info_key_bytes(peer_id);
    record_key(bytes.as_slice())
}

} // verus!
