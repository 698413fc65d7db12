//! The answer to a forward pass.
//!
//! On the wire a response is its request id (8 bytes) followed by the
//! tensor. Nothing may follow.
use vstd::prelude::*;
use crate::dtype::{code_of_dtype, dtype_of_code, Dtype, ProtocolError};
use crate::message::{
    dec_tensor, decode_tensor, enc_tensor, encode_tensor, lemma_dec_tensor_roundtrip, tensor_fits,
    TensorModel, TensorPayload,
};
use crate::wire::{le_bytes, lemma_pow256_facts, lemma_take_le_encoded, pow256, push_le, read_le, take_le};

verus! {

/// What a response holds.
pub struct ResponseModel {
    pub request_id: u64,
    pub tensor: TensorModel,
}

/// The bytes of a response.
pub open spec fn enc_response(m: ResponseModel) -> Seq<u8> {
    le_bytes(m.request_id as nat, 8) + enc_tensor(m.tensor)
}

/// The response that the bytes `s` hold, if they are well formed.
pub open spec fn dec_response(s: Seq<u8>) -> Option<ResponseModel> {
    match take_le(s, 8) {
        None => None,
        Some((rid, r1)) => match dec_tensor(r1) {
            None => None,
            Some((tensor, r2)) => if r2.len() == 0 {
                Some(ResponseModel { request_id: rid as u64, tensor })
            } else {
                None
            },
        },
    }
}

/// The model of a response built from the given parts.
pub open spec fn built_response(request_id: u64, dtype: Dtype, shape: Seq<u64>, data: Seq<u8>) -> ResponseModel {
    ResponseModel {
        request_id,
        tensor: TensorModel { dtype: code_of_dtype(dtype), shape, data },
    }
}

/// Reading back the bytes of a response gives the response.
pub proof fn lemma_response_roundtrip(m: ResponseModel)
    requires
        tensor_fits(m.tensor),
    ensures
        dec_response(enc_response(m)) == Some(m),
{
    lemma_pow256_facts();
    lemma_take_le_encoded(m.request_id as nat, 8, enc_tensor(m.tensor));
    lemma_dec_tensor_roundtrip(m.tensor, Seq::<u8>::empty());
    assert(enc_tensor(m.tensor) + Seq::<u8>::empty() =~= enc_tensor(m.tensor));
}

/// A forward-pass response: its bytes and what they hold.
#[derive(Debug)]
pub struct ForwardPassResponse {
    bytes: Vec<u8>,
    request_id: u64,
    tensor: TensorPayload,
}

impl View for ForwardPassResponse {
    type V = ResponseModel;

    closed spec fn view(&self) -> ResponseModel {
        ResponseModel { request_id: self.request_id, tensor: self.tensor@ }
    }
}

impl ForwardPassResponse {
    #[verifier::type_invariant]
    spec fn inv(self) -> bool {
        dec_response(self.bytes@) == Some(self@)
    }

    /// The bytes of this response.
    pub closed spec fn encoded(&self) -> Seq<u8> {
        self.bytes@
    }

    /// Reads a response from its bytes.
    pub fn from_bytes(bytes: Vec<u8>) -> (r: Result<Self, ProtocolError>)
        ensures
            match dec_response(bytes@) {
                Some(m) => r matches Ok(res) && res@ == m && res.encoded() == bytes@,
                None => r matches Err(e) && e == ProtocolError::Malformed,
            },
    {
        proof {
            lemma_pow256_facts();
        }
        let b = bytes.as_slice();
        assert(b@.skip(0) =~= b@);
        let (rid, p1) = match read_le(b, 0, 8) {
            None => return Err(ProtocolError::Malformed),
            Some(x) => x,
        };
        let (tensor, p2) = match decode_tensor(b, p1) {
            None => return Err(ProtocolError::Malformed),
            Some(x) => x,
        };
        if p2 != b.len() {
            return Err(ProtocolError::Malformed);
        }
        Ok(ForwardPassResponse { bytes, request_id: rid, tensor })
    }

    /// Builds a response; `TooLarge` when the shape does not fit its length field.
    pub fn build(request_id: u64, dtype: Dtype, shape: &[u64], data: &[u8]) -> (r: Result<
        Self,
        ProtocolError,
    >)
        ensures
            ({
                let m = built_response(request_id, dtype, shape@, data@);
                &&& tensor_fits(m.tensor) ==> (r matches Ok(res) && res@ == m && res.encoded()
                    == enc_response(m))
                &&& !tensor_fits(m.tensor) ==> (r matches Err(e) && e == ProtocolError::TooLarge)
            }),
    {
        let ghost m = built_response(request_id, dtype, shape@, data@);
        proof {
            lemma_pow256_facts();
        }
        if shape.len() > 0xffff_ffff {
            return Err(ProtocolError::TooLarge);
        }
        let mut bytes: Vec<u8> = Vec::new();
        push_le(&mut bytes, request_id, 8);
        encode_tensor(&mut bytes, dtype.code(), shape, data);
        assert(bytes@ =~= enc_response(m));
        assert(data@.len() == data.len() && data.len() <= usize::MAX);
        proof {
            lemma_response_roundtrip(m);
        }
        Self::from_bytes(bytes)
    }

    /// The bytes of this response.
    pub fn into_bytes(self) -> (r: Vec<u8>)
        ensures
            r@ == self.encoded(),
            dec_response(r@) == Some(self@),
    {
        proof {
            use_type_invariant(&self);
        }
        self.bytes
    }

    pub fn request_id(&self) -> (r: Result<u64, ProtocolError>)
        ensures
            r == Ok::<u64, ProtocolError>(self@.request_id),
    {
        Ok(self.request_id)
    }

    /// The element type of the tensor; `UnknownDtype` for a number outside the schema.
    pub fn tensor_dtype(&self) -> (r: Result<Dtype, ProtocolError>)
        ensures
            match dtype_of_code(self@.tensor.dtype) {
                Some(d) => r == Ok::<Dtype, ProtocolError>(d),
                None => r == Err::<Dtype, ProtocolError>(ProtocolError::UnknownDtype),
            },
    {
        Dtype::from_code(self.tensor.dtype_code)
    }

    pub fn tensor_shape(&self) -> (r: Result<Vec<u64>, ProtocolError>)
        ensures
            r matches Ok(s) && s@ == self@.tensor.shape,
    {
        Ok(self.tensor.shape.clone())
    }

    pub fn tensor_data(&self) -> (r: Result<Vec<u8>, ProtocolError>)
        ensures
            r matches Ok(d) && d@ == self@.tensor.data,
    {
        Ok(self.tensor.data.clone())
    }
}

} // verus!
