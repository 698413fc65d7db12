//! Passing a request on to the next worker of its route.
use vstd::prelude::*;
use crate::dtype::{code_of_dtype, dtype_of_code, Dtype, ProtocolError};
use crate::message::TensorModel;
use crate::peer::PeerKey;
use crate::request::{route_is_valid, spec_is_terminal, ForwardPassRequest, RequestModel};
use crate::wire::{lemma_pow256_facts, pow256};

verus! {

/// The request that the next worker receives: the same request one hop further.
pub open spec fn advanced(m: RequestModel) -> RequestModel {
    RequestModel { hop_index: (m.hop_index + 1) as u32, ..m }
}

/// The request `k` hops further along its route.
pub open spec fn advanced_by(m: RequestModel, k: nat) -> RequestModel {
    RequestModel { hop_index: (m.hop_index + k) as u32, ..m }
}

/// Passed on hop by hop from hop 0, a request reaches the last worker of its
/// route after one hop fewer than the route has workers: at every earlier
/// hop it is not terminal and has a successor, and passing it on gives the
/// request one hop further; at the last hop it is terminal.
pub proof fn lemma_route_reaches_end(m: RequestModel, k: nat)
    requires
        m.hop_index == 0,
        0 < m.route.len() < pow256(4),
        k < m.route.len(),
    ensures
        k + 1 < m.route.len() ==> {
            &&& !spec_is_terminal(advanced_by(m, k))
            &&& advanced_by(m, k).hop_index + 1 < m.route.len()
            &&& advanced(advanced_by(m, k)) == advanced_by(m, k + 1)
        },
        k + 1 == m.route.len() ==> spec_is_terminal(advanced_by(m, k)),
{
    lemma_pow256_facts();
}

/// Whether the element types of the tensor and of the mask are in the schema.
pub open spec fn dtypes_known(m: RequestModel) -> bool {
    &&& dtype_of_code(m.tensor.dtype) is Some
    &&& m.mask matches Some(t) ==> dtype_of_code(t.dtype) is Some
}

/// The next worker and the request to send it.
///
/// A route that does not read gives `InvalidPeerId`; an element type outside
/// the schema gives `UnknownDtype`. The caller names a hop that has a
/// successor on the route.
pub fn build_next_request(request: &ForwardPassRequest) -> (r: Result<
    (PeerKey, ForwardPassRequest),
    ProtocolError,
>)
    requires
        route_is_valid(request@.route) ==> request@.hop_index + 1 < request@.route.len(),
    ensures
        !route_is_valid(request@.route) ==> (r matches Err(e) && e == ProtocolError::InvalidPeerId),
        route_is_valid(request@.route) && !dtypes_known(request@) ==> (r matches Err(e) && e
            == ProtocolError::UnknownDtype),
        route_is_valid(request@.route) && dtypes_known(request@) ==> (r matches Ok((peer, next))
            && peer@ == request@.route[request@.hop_index + 1] && next@ == advanced(request@)),
{
    request.fits();
    let route = request.route()?;
    let hop_index = request.hop_index()?;
    proof {
        lemma_pow256_facts();
        assert(route@.len() == request@.route.len());
    }
    let next_index = hop_index + 1;
    let next_peer = route[next_index as usize].clone();
    assert(next_peer@ == route@.map_values(|p: PeerKey| p@)[next_index as int]);
    let mask = request.mask_data()?;
    let dtype = request.tensor_dtype()?;
    let shape = request.tensor_shape()?;
    let data = request.tensor_data()?;
    let rid = request.request_id()?;
    let mask_ref = match &mask {
        None => None,
        Some((md, ms, mb)) => Some((*md, ms.as_slice(), mb.as_slice())),
    };
    let next = ForwardPassRequest::build(
        route.as_slice(),
        next_index,
        rid,
        dtype,
        shape.as_slice(),
        data.as_slice(),
        mask_ref,
    )?;
    proof {
        let m = request@;
        assert(code_of_dtype(dtype) == m.tensor.dtype);
        match m.mask {
            Some(t) => {
                assert(code_of_dtype(dtype_of_code(t.dtype).unwrap()) == t.dtype);
            },
            None => {},
        }
        assert(next@ =~= advanced(m));
    }
    Ok((next_peer, next))
}

} // verus!
