//! A forward pass travelling along a route of workers.
//!
//! On the wire a request is its hop index (4 bytes), its request id (8
//! bytes), the number of route entries (4 bytes), the route entries, the
//! tensor, and a mask flag (1 byte: 0 for none, 1 for a mask tensor that
//! follows). Nothing may follow.
use vstd::prelude::*;
use crate::dtype::{code_of_dtype, dtype_of_code, Dtype, ProtocolError};
use crate::message::{
    lemma_dec_blobs_fit, lemma_dec_tensor_fits, blobs_fit, dec_blobs, dec_tensor, decode_blobs, decode_tensor, enc_blob, enc_blobs, enc_tensor,
    encode_tensor, lemma_dec_blobs_roundtrip, lemma_dec_tensor_roundtrip, lemma_enc_blobs_push,
    tensor_fits, TensorModel, TensorPayload,
};
use crate::peer::{is_peer_id_encoding, peers_are_valid, PeerKey, MAX_PEER_ID_LEN};
use crate::wire::{
    le_bytes, lemma_le_value_bound, lemma_pow256_facts, lemma_take_le_encoded, pow256, push_bytes,
    push_le, read_le, take_le,
};

verus! {

/// What a request holds.
pub struct RequestModel {
    pub route: Seq<Seq<u8>>,
    pub hop_index: u32,
    pub request_id: u64,
    pub tensor: TensorModel,
    pub mask: Option<TensorModel>,
}

/// Whether every length of `m` fits its length field.
pub open spec fn request_fits(m: RequestModel) -> bool {
    &&& m.route.len() < pow256(4)
    &&& blobs_fit(m.route)
    &&& tensor_fits(m.tensor)
    &&& m.mask matches Some(t) ==> tensor_fits(t)
}

/// Whether a request whose route has `n` entries, with the given tensor and
/// mask, fits its length fields; every peer encoding fits its own.
pub open spec fn parts_fit(n: nat, tensor: TensorModel, mask: Option<TensorModel>) -> bool {
    &&& n < pow256(4)
    &&& tensor_fits(tensor)
    &&& mask matches Some(t) ==> tensor_fits(t)
}

/// Whether every route entry is at most as long as a peer encoding can be.
pub open spec fn route_entries_bounded(route: Seq<Seq<u8>>) -> bool {
    forall|i: int| 0 <= i < route.len() ==> (#[trigger] route[i]).len() <= MAX_PEER_ID_LEN
}

/// A request whose route entries are peer encodings fits exactly when its
/// route length, tensor and mask do.
pub proof fn lemma_peer_route_fits(m: RequestModel)
    requires
        route_entries_bounded(m.route),
    ensures
        request_fits(m) == parts_fit(m.route.len(), m.tensor, m.mask),
{
    crate::wire::lemma_pow256_facts();
    assert(blobs_fit(m.route));
}

pub open spec fn enc_mask(mask: Option<TensorModel>) -> Seq<u8> {
    match mask {
        None => seq![0u8],
        Some(t) => seq![1u8] + enc_tensor(t),
    }
}

/// The bytes of a request.
pub open spec fn enc_request(m: RequestModel) -> Seq<u8> {
    le_bytes(m.hop_index as nat, 4) + le_bytes(m.request_id as nat, 8) + le_bytes(m.route.len(), 4)
        + enc_blobs(m.route) + enc_tensor(m.tensor) + enc_mask(m.mask)
}

/// The mask that the bytes `s` hold after the tensor, if they are well formed.
pub open spec fn dec_mask(s: Seq<u8>) -> Option<Option<TensorModel>> {
    match take_le(s, 1) {
        None => None,
        Some((flag, r)) => if flag == 0 {
            if r.len() == 0 {
                Some(None)
            } else {
                None
            }
        } else if flag == 1 {
            match dec_tensor(r) {
                Some((t, r2)) => if r2.len() == 0 {
                    Some(Some(t))
                } else {
                    None
                },
                None => None,
            }
        } else {
            None
        },
    }
}

/// The request that the bytes `s` hold, if they are well formed.
pub open spec fn dec_request(s: Seq<u8>) -> Option<RequestModel> {
    match take_le(s, 4) {
        None => None,
        Some((hop, r1)) => match take_le(r1, 8) {
            None => None,
            Some((rid, r2)) => match take_le(r2, 4) {
                None => None,
                Some((n, r3)) => match dec_blobs(r3, n) {
                    None => None,
                    Some((route, r4)) => match dec_tensor(r4) {
                        None => None,
                        Some((tensor, r5)) => match dec_mask(r5) {
                            None => None,
                            Some(mask) => Some(
                                RequestModel {
                                    route,
                                    hop_index: hop as u32,
                                    request_id: rid as u64,
                                    tensor,
                                    mask,
                                },
                            ),
                        },
                    },
                },
            },
        },
    }
}

/// Whether every route entry encodes a peer.
pub open spec fn route_is_valid(route: Seq<Seq<u8>>) -> bool {
    forall|i: int| 0 <= i < route.len() ==> is_peer_id_encoding(#[trigger] route[i])
}

/// Whether the hop index names the last worker of the route.
pub open spec fn spec_is_terminal(m: RequestModel) -> bool {
    m.hop_index as int == if m.route.len() == 0 {
        0
    } else {
        m.route.len() - 1
    }
}

/// The model of a request built from the given parts.
pub open spec fn built_request(
    route: Seq<PeerKey>,
    hop_index: u32,
    request_id: u64,
    dtype: Dtype,
    shape: Seq<u64>,
    data: Seq<u8>,
    mask: Option<(Dtype, Seq<u64>, Seq<u8>)>,
) -> RequestModel {
    RequestModel {
        route: route.map_values(|p: PeerKey| p@),
        hop_index,
        request_id,
        tensor: TensorModel { dtype: code_of_dtype(dtype), shape, data },
        mask: match mask {
            None => None,
            Some((d, s, b)) => Some(TensorModel { dtype: code_of_dtype(d), shape: s, data: b }),
        },
    }
}

/// Reading back the bytes of a request gives the request.
pub proof fn lemma_request_roundtrip(m: RequestModel)
    requires
        request_fits(m),
    ensures
        dec_request(enc_request(m)) == Some(m),
{
    lemma_pow256_facts();
    let r5 = enc_mask(m.mask);
    let r4 = enc_tensor(m.tensor) + r5;
    let r3 = enc_blobs(m.route) + r4;
    let r2 = le_bytes(m.route.len(), 4) + r3;
    let r1 = le_bytes(m.request_id as nat, 8) + r2;
    assert(enc_request(m) =~= le_bytes(m.hop_index as nat, 4) + r1);
    lemma_take_le_encoded(m.hop_index as nat, 4, r1);
    lemma_take_le_encoded(m.request_id as nat, 8, r2);
    lemma_take_le_encoded(m.route.len(), 4, r3);
    lemma_dec_blobs_roundtrip(m.route, r4);
    lemma_dec_tensor_roundtrip(m.tensor, r5);
    match m.mask {
        None => {
            assert(take_le(r5, 1) == Some((0nat, Seq::<u8>::empty()))) by {
                assert(r5.take(1) =~= seq![0u8]);
                assert(r5.skip(1) =~= Seq::<u8>::empty());
                reveal_with_fuel(crate::wire::le_value, 2);
            }
        },
        Some(t) => {
            let rest = enc_tensor(t);
            assert(take_le(r5, 1) == Some((1nat, rest))) by {
                assert(r5.take(1) =~= seq![1u8]);
                assert(r5.skip(1) =~= rest);
                reveal_with_fuel(crate::wire::le_value, 2);
            }
            lemma_dec_tensor_roundtrip(t, Seq::<u8>::empty());
            assert(rest + Seq::<u8>::empty() =~= rest);
        },
    }
}

/// Every request that bytes hold fits its length fields.
pub proof fn lemma_decoded_request_fits(s: Seq<u8>)
    requires
        dec_request(s) is Some,
    ensures
        request_fits(dec_request(s).unwrap()),
{
    lemma_pow256_facts();
    let (hop, r1) = take_le(s, 4).unwrap();
    let (rid, r2) = take_le(r1, 8).unwrap();
    let (n, r3) = take_le(r2, 4).unwrap();
    lemma_le_value_bound(r2.take(4));
    lemma_dec_blobs_fit(r3, n);
    let (route, r4) = dec_blobs(r3, n).unwrap();
    lemma_dec_tensor_fits(r4);
    let (tensor, r5) = dec_tensor(r4).unwrap();
    let (flag, r6) = take_le(r5, 1).unwrap();
    if flag == 1 {
        lemma_dec_tensor_fits(r6);
    }
}

/// A forward-pass request: its bytes and what they hold.
#[derive(Debug)]
pub struct ForwardPassRequest {
    bytes: Vec<u8>,
    route: Vec<Vec<u8>>,
    hop_index: u32,
    request_id: u64,
    tensor: TensorPayload,
    mask: Option<TensorPayload>,
}

pub open spec fn mask_view(m: Option<TensorPayload>) -> Option<TensorModel> {
    match m {
        None => None,
        Some(t) => Some(t@),
    }
}

impl View for ForwardPassRequest {
    type V = RequestModel;

    closed spec fn view(&self) -> RequestModel {
        RequestModel {
            route: self.route@.map_values(|v: Vec<u8>| v@),
            hop_index: self.hop_index,
            request_id: self.request_id,
            tensor: self.tensor@,
            mask: mask_view(self.mask),
        }
    }
}

/// Copies the parts of a mask tensor out.
fn mask_parts(t: &TensorPayload) -> (r: Result<(Dtype, Vec<u64>, Vec<u8>), ProtocolError>)
    ensures
        match dtype_of_code(t@.dtype) {
            Some(d) => r matches Ok((rd, rs, rb)) && rd == d && rs@ == t@.shape && rb@ == t@.data,
            None => r == Err::<(Dtype, Vec<u64>, Vec<u8>), ProtocolError>(
                ProtocolError::UnknownDtype,
            ),
        },
{
    let d = Dtype::from_code(t.dtype_code)?;
    Ok((d, t.shape.clone(), t.data.clone()))
}

impl ForwardPassRequest {
    #[verifier::type_invariant]
    spec fn inv(self) -> bool {
        dec_request(self.bytes@) == Some(self@)
    }

    /// The bytes of this request.
    pub closed spec fn encoded(&self) -> Seq<u8> {
        self.bytes@
    }

    /// Every request fits its length fields, so it can be built again.
    pub fn fits(&self)
        ensures
            request_fits(self@),
    {
        proof {
            use_type_invariant(self);
            lemma_decoded_request_fits(self.bytes@);
        }
    }

    /// Reads a request from its bytes.
    pub fn from_bytes(bytes: Vec<u8>) -> (r: Result<Self, ProtocolError>)
        ensures
            match dec_request(bytes@) {
                Some(m) => r matches Ok(req) && req@ == m && req.encoded() == bytes@,
                None => r matches Err(e) && e == ProtocolError::Malformed,
            },
    {
        proof {
            lemma_pow256_facts();
        }
        let b = bytes.as_slice();
        let (hop, p1) = match read_le(b, 0, 4) {
            None => return Err(ProtocolError::Malformed),
            Some(x) => x,
        };
        assert(b@.skip(0) =~= b@);
        let (rid, p2) = match read_le(b, p1, 8) {
            None => return Err(ProtocolError::Malformed),
            Some(x) => x,
        };
        let (n, p3) = match read_le(b, p2, 4) {
            None => return Err(ProtocolError::Malformed),
            Some(x) => x,
        };
        let (route, p4) = match decode_blobs(b, p3, n) {
            None => return Err(ProtocolError::Malformed),
            Some(x) => x,
        };
        let (tensor, p5) = match decode_tensor(b, p4) {
            None => return Err(ProtocolError::Malformed),
            Some(x) => x,
        };
        let (flag, p6) = match read_le(b, p5, 1) {
            None => return Err(ProtocolError::Malformed),
            Some(x) => x,
        };
        proof {
            lemma_le_value_bound(b@.take(4));
            lemma_le_value_bound(b@.skip(p1 as int).take(8));
        }
        let mask = if flag == 0 {
            if p6 != b.len() {
                return Err(ProtocolError::Malformed);
            }
            None
        } else if flag == 1 {
            let (m, p7) = match decode_tensor(b, p6) {
                None => return Err(ProtocolError::Malformed),
                Some(x) => x,
            };
            if p7 != b.len() {
                return Err(ProtocolError::Malformed);
            }
            Some(m)
        } else {
            return Err(ProtocolError::Malformed);
        };
        Ok(ForwardPassRequest { bytes, route, hop_index: hop as u32, request_id: rid, tensor, mask })
    }

    fn build_bytes(
        route: &[PeerKey],
        hop_index: u32,
        request_id: u64,
        dtype: Dtype,
        shape: &[u64],
        data: &[u8],
        mask: Option<(Dtype, &[u64], &[u8])>,
    ) -> (r: Result<Vec<u8>, ProtocolError>)
        ensures
            ({
                let m = built_request(
                    route@,
                    hop_index,
                    request_id,
                    dtype,
                    shape@,
                    data@,
                    match mask {
                        None => None,
                        Some((d, s, b)) => Some((d, s@, b@)),
                    },
                );
                &&& request_fits(m) ==> (r matches Ok(b) && b@ == enc_request(m))
                &&& !request_fits(m) ==> (r matches Err(e) && e == ProtocolError::TooLarge)
            }),
    {
        let ghost gmask = match mask {
            None => None,
            Some((d, s, b)) => Some((d, s@, b@)),
        };
        let ghost m = built_request(
            route@,
            hop_index,
            request_id,
            dtype,
            shape@,
            data@,
            gmask,
        );
        proof {
            lemma_pow256_facts();
        }
        if route.len() > 0xffff_ffff || shape.len() > 0xffff_ffff {
            return Err(ProtocolError::TooLarge);
        }
        match mask {
            Some((_, ms, _)) => {
                if ms.len() > 0xffff_ffff {
                    return Err(ProtocolError::TooLarge);
                }
            },
            None => {},
        }
        let mut buf: Vec<u8> = Vec::new();
        push_le(&mut buf, hop_index as u64, 4);
        push_le(&mut buf, request_id, 8);
        push_le(&mut buf, route.len() as u64, 4);
        let ghost head = buf@;
        let ghost peers = route@.map_values(|p: PeerKey| p@);
        let mut i: usize = 0;
        while i < route.len()
            invariant
                i <= route@.len(),
                peers == route@.map_values(|p: PeerKey| p@),
                blobs_fit(peers.take(i as int)),
                buf@ == head + enc_blobs(peers.take(i as int)),
                pow256(4) == 0x1_0000_0000,
            decreases route@.len() - i,
        {
            let b = route[i].as_bytes();
            if b.len() > 0xffff_ffff {
                assert(!blobs_fit(peers)) by {
                    assert(peers[i as int] == b@);
                }
                return Err(ProtocolError::TooLarge);
            }
            proof {
                lemma_enc_blobs_push(peers.take(i as int), peers[i as int]);
                assert(peers.take(i + 1) =~= peers.take(i as int).push(peers[i as int]));
            }
            push_le(&mut buf, b.len() as u64, 4);
            push_bytes(&mut buf, b);
            assert(buf@ =~= head + enc_blobs(peers.take(i + 1)));
            i = i + 1;
        }
        assert(peers.take(route@.len() as int) =~= peers);
        encode_tensor(&mut buf, dtype.code(), shape, data);
        match mask {
            None => {
                buf.push(0u8);
            },
            Some((md, ms, mb)) => {
                buf.push(1u8);
                encode_tensor(&mut buf, md.code(), ms, mb);
            },
        }
        assert(buf@ =~= enc_request(m));
        assert(data@.len() == data.len() && data.len() <= usize::MAX);
        assert(request_fits(m)) by {
            match mask {
                Some((_, _, mb)) => {
                    assert(mb@.len() == mb.len() && mb.len() <= usize::MAX);
                },
                None => {},
            }
        }
        Ok(buf)
    }

    /// Builds a request; `TooLarge` when a list does not fit its length field.
    pub fn build(
        route: &[PeerKey],
        hop_index: u32,
        request_id: u64,
        dtype: Dtype,
        shape: &[u64],
        data: &[u8],
        mask: Option<(Dtype, &[u64], &[u8])>,
    ) -> (r: Result<Self, ProtocolError>)
        ensures
            ({
                let m = built_request(
                    route@,
                    hop_index,
                    request_id,
                    dtype,
                    shape@,
                    data@,
                    match mask {
                        None => None,
                        Some((d, s, b)) => Some((d, s@, b@)),
                    },
                );
                &&& route_is_valid(m.route)
                &&& request_fits(m) == parts_fit(route@.len(), m.tensor, m.mask)
                &&& request_fits(m) ==> (r matches Ok(req) && req@ == m && req.encoded()
                    == enc_request(m))
                &&& !request_fits(m) ==> (r matches Err(e) && e == ProtocolError::TooLarge)
            }),
    {
        peers_are_valid(route);
        proof {
            let m = built_request(
                route@,
                hop_index,
                request_id,
                dtype,
                shape@,
                data@,
                match mask {
                    None => None,
                    Some((d, s, b)) => Some((d, s@, b@)),
                },
            );
            assert forall|i: int| 0 <= i < m.route.len() implies is_peer_id_encoding(
                #[trigger] m.route[i],
            ) && m.route[i].len() <= MAX_PEER_ID_LEN by {
                assert(m.route[i] == route@[i]@);
            }
            lemma_peer_route_fits(m);
        }
        let bytes = Self::build_bytes(route, hop_index, request_id, dtype, shape, data, mask)?;
        let ghost m = built_request(
            route@,
            hop_index,
            request_id,
            dtype,
            shape@,
            data@,
            match mask {
                None => None,
                Some((d, s, b)) => Some((d, s@, b@)),
            },
        );
        proof {
            lemma_request_roundtrip(m);
        }
        Self::from_bytes(bytes)
    }

    /// The bytes of this request.
    pub fn into_bytes(self) -> (r: Vec<u8>)
        ensures
            r@ == self.encoded(),
            dec_request(r@) == Some(self@),
    {
        proof {
            use_type_invariant(&self);
        }
        self.bytes
    }

    /// The workers of the route; `InvalidPeerId` when an entry encodes no peer.
    pub fn route(&self) -> (r: Result<Vec<PeerKey>, ProtocolError>)
        ensures
            route_is_valid(self@.route) ==> (r matches Ok(peers) && peers@.map_values(
                |p: PeerKey| p@,
            ) == self@.route),
            !route_is_valid(self@.route) ==> (r matches Err(e) && e == ProtocolError::InvalidPeerId),
    {
        let ghost entries = self@.route;
        let mut peers: Vec<PeerKey> = Vec::new();
        let mut i: usize = 0;
        while i < self.route.len()
            invariant
                i <= self.route@.len(),
                entries == self.route@.map_values(|v: Vec<u8>| v@),
                peers@.map_values(|p: PeerKey| p@) == entries.take(i as int),
                route_is_valid(entries.take(i as int)),
            decreases self.route@.len() - i,
        {
            let c = self.route[i].clone();
            assert(c@ =~= entries[i as int]);
            match PeerKey::from_bytes(c) {
                None => {
                    assert(!route_is_valid(entries)) by {
                        assert(entries[i as int] == self.route@[i as int]@);
                    }
                    return Err(ProtocolError::InvalidPeerId);
                },
                Some(p) => {
                    let ghost before = peers@;
                    peers.push(p);
                    assert(peers@.map_values(|p: PeerKey| p@) =~= entries.take(i + 1)) by {
                        assert(peers@ =~= before.push(p));
                        assert(before.map_values(|p: PeerKey| p@) =~= entries.take(i as int));
                        assert(peers@.map_values(|p: PeerKey| p@) =~= before.map_values(
                            |p: PeerKey| p@,
                        ).push(p@));
                    }
                    assert(route_is_valid(entries.take(i + 1))) by {
                        assert forall|j: int| 0 <= j < i + 1 implies is_peer_id_encoding(
                            #[trigger] entries.take(i + 1)[j],
                        ) by {
                            if j < i {
                                assert(entries.take(i + 1)[j] == entries.take(i as int)[j]);
                            }
                        }
                    }
                },
            }
            i = i + 1;
        }
        assert(entries.take(entries.len() as int) =~= entries);
        Ok(peers)
    }

    pub fn hop_index(&self) -> (r: Result<u32, ProtocolError>)
        ensures
            r == Ok::<u32, ProtocolError>(self@.hop_index),
    {
        Ok(self.hop_index)
    }

    pub fn request_id(&self) -> (r: Result<u64, ProtocolError>)
        ensures
            r == Ok::<u64, ProtocolError>(self@.request_id),
    {
        Ok(self.request_id)
    }

    /// Whether this hop is the last of the route; `InvalidPeerId` when the
    /// route does not read.
    pub fn is_terminal(&self) -> (r: Result<bool, ProtocolError>)
        ensures
            route_is_valid(self@.route) ==> r == Ok::<bool, ProtocolError>(
                spec_is_terminal(self@),
            ),
            !route_is_valid(self@.route) ==> r == Err::<bool, ProtocolError>(
                ProtocolError::InvalidPeerId,
            ),
    {
        let route = self.route()?;
        assert(route@.len() == self@.route.len());
        Ok(self.hop_index as usize == route.len().saturating_sub(1))
    }

    /// The element type of the tensor; `UnknownDtype` for a number outside the schema.
    pub fn tensor_dtype(&self) -> (r: Result<Dtype, ProtocolError>)
        ensures
            match dtype_of_code(self@.tensor.dtype) {
                Some(d) => r == Ok::<Dtype, ProtocolError>(d),
                None => r == Err::<Dtype, ProtocolError>(ProtocolError::UnknownDtype),
            },
    {
        Dtype::from_code(self.tensor.dtype_code)
    }

    pub fn tensor_shape(&self) -> (r: Result<Vec<u64>, ProtocolError>)
        ensures
            r matches Ok(s) && s@ == self@.tensor.shape,
    {
        Ok(self.tensor.shape.clone())
    }

    pub fn tensor_data(&self) -> (r: Result<Vec<u8>, ProtocolError>)
        ensures
            r matches Ok(d) && d@ == self@.tensor.data,
    {
        Ok(self.tensor.data.clone())
    }

    /// The mask, if the request has one; `UnknownDtype` for a mask whose
    /// element type is outside the schema.
    pub fn mask_data(&self) -> (r: Result<Option<(Dtype, Vec<u64>, Vec<u8>)>, ProtocolError>)
        ensures
            match self@.mask {
                None => r matches Ok(None),
                Some(t) => match dtype_of_code(t.dtype) {
                    Some(d) => r matches Ok(Some((rd, rs, rb))) && rd == d && rs@ == t.shape
                        && rb@ == t.data,
                    None => r matches Err(e) && e == ProtocolError::UnknownDtype,
                },
            },
    {
        match &self.mask {
            None => Ok(None),
            Some(t) => {
                let parts = mask_parts(t)?;
                Ok(Some(parts))
            },
        }
    }
}

} // verus!
