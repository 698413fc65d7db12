//! The decisions of a worker: announce its layers once it has joined the
//! network, answer the last hop of a route, pass the other hops on to the
//! next worker, and relay the answers back to whoever asked.
//!
//! The network loop lives outside the library: it hands each event to
//! [`WorkerState::step`] and performs the actions that come back, in order.
use vstd::prelude::*;
use std::collections::HashMap;
use crate::dtype::{code_of_dtype, dtype_of_code, Dtype, ProtocolError};
use crate::message::TensorModel;
use crate::peer::PeerKey;
use crate::request::{request_fits, route_is_valid, spec_is_terminal, ForwardPassRequest, RequestModel};
use crate::response::{ForwardPassResponse, ResponseModel};
use crate::routing::{advanced, build_next_request, dtypes_known};

verus! {

broadcast use vstd::std_specs::hash::group_hash_axioms;

/// An empty tensor of 32-bit floats answering request `rid`.
pub open spec fn empty_response(rid: u64) -> ResponseModel {
    ResponseModel {
        request_id: rid,
        tensor: TensorModel { dtype: code_of_dtype(Dtype::F32), shape: Seq::empty(), data: Seq::empty() },
    }
}

/// The request's own tensor, sent back unchanged under id `rid`.
pub open spec fn echoed(rid: u64, m: RequestModel) -> ResponseModel {
    ResponseModel { request_id: rid, tensor: m.tensor }
}

/// The output `out` of a computation, as a flat tensor of `len / 4`
/// elements in the element type of request `m` (32-bit floats when that
/// type is unknown), answering request `rid`.
pub open spec fn computed(rid: u64, m: RequestModel, out: Seq<u8>) -> ResponseModel {
    ResponseModel {
        request_id: rid,
        tensor: TensorModel {
            dtype: match dtype_of_code(m.tensor.dtype) {
                Some(d) => code_of_dtype(d),
                None => code_of_dtype(Dtype::F32),
            },
            shape: seq![(out.len() / 4) as u64],
            data: out,
        },
    }
}

/// The answer of a worker without a compute engine to the last hop of a
/// route: the tensor of the request, unchanged, under id `rid`.
/// `UnknownDtype` when the element type of the tensor is outside the schema.
pub fn echo_response(rid: u64, request: &ForwardPassRequest) -> (r: Result<
    ForwardPassResponse,
    ProtocolError,
>)
    ensures
        dtype_of_code(request@.tensor.dtype) is None ==> r == Err::<ForwardPassResponse, ProtocolError>(
            ProtocolError::UnknownDtype,
        ),
        dtype_of_code(request@.tensor.dtype) is Some ==> (r matches Ok(res) && res@ == echoed(
            rid,
            request@,
        )),
{
    request.fits();
    let dtype = request.tensor_dtype()?;
    let shape = request.tensor_shape()?;
    let data = request.tensor_data()?;
    let r = ForwardPassResponse::build(rid, dtype, shape.as_slice(), data.as_slice());
    assert(code_of_dtype(dtype) == request@.tensor.dtype);
    r
}

/// An empty tensor of 32-bit floats answering request `rid`.
fn empty_answer(rid: u64) -> (r: ForwardPassResponse)
    ensures
        r@ == empty_response(rid),
{
    proof {
        crate::wire::lemma_pow256_facts();
    }
    let shape: Vec<u64> = Vec::new();
    let data: Vec<u8> = Vec::new();
    match ForwardPassResponse::build(rid, Dtype::F32, shape.as_slice(), data.as_slice()) {
        Ok(r) => {
            assert(r@ =~= empty_response(rid));
            r
        },
        Err(_) => {
            assert(false);
            ForwardPassResponse::build(rid, Dtype::F32, shape.as_slice(), data.as_slice()).unwrap()
        },
    }
}

/// The answer of a worker with a compute engine to the last hop of a route:
/// the `output` of the computation as a flat tensor of `len / 4` elements, in
/// the element type of the request (32-bit floats when that type is
/// unknown); an empty tensor of 32-bit floats when the computation failed.
pub fn compute_response(rid: u64, request: &ForwardPassRequest, output: Option<Vec<u8>>) -> (r:
    ForwardPassResponse)
    ensures
        match output {
            Some(out) => r@ == computed(rid, request@, out@),
            None => r@ == empty_response(rid),
        },
{
    proof {
        crate::wire::lemma_pow256_facts();
    }
    match output {
        None => empty_answer(rid),
        Some(out) => {
            let dtype = match request.tensor_dtype() {
                Ok(d) => d,
                Err(_) => Dtype::F32,
            };
            let n: u64 = out.len() as u64 / 4;
            let shape: Vec<u64> = vec![n];
            assert(out@.len() == out.len());
            assert(shape@ =~= seq![(out@.len() / 4) as u64]);
            assert(code_of_dtype(dtype) == match dtype_of_code(request@.tensor.dtype) {
                Some(d) => code_of_dtype(d),
                None => code_of_dtype(Dtype::F32),
            });
            match ForwardPassResponse::build(rid, dtype, shape.as_slice(), out.as_slice()) {
                Ok(resp) => {
                    assert(resp@ =~= computed(rid, request@, out@));
                    resp
                },
                Err(_) => empty_answer(rid),
            }
        },
    }
}

/// The signal sent back when passing a request on failed: an empty tensor
/// of 32-bit floats under request id 0.
pub fn failure_response() -> (r: ForwardPassResponse)
    ensures
        r@ == empty_response(0),
{
    empty_answer(0)
}

/// What the network reports to a worker.
#[derive(Debug)]
pub enum WorkerEvent {
    /// An event of the distributed hash table; `new_peer` when the routing
    /// table gained a peer.
    Kad { new_peer: bool },
    /// A connection to `peer` was established.
    ConnectionEstablished { peer: PeerKey },
    /// A forward pass arrived, to be answered on `channel`.
    Request { channel: u64, request: ForwardPassRequest },
    /// The answer to the request passed on under `token` arrived.
    Response { token: u64, response: ForwardPassResponse },
    /// Passing on the request under `token` failed.
    OutboundFailure { token: u64 },
    /// Anything else.
    Other,
}

/// What the worker asks the network to do.
#[derive(Debug)]
pub enum WorkerAction {
    /// Announce the layers `start..=end` as provided by this worker.
    AnnounceLayers { start: u32, end: u32 },
    /// Add the address of the peer just connected and start bootstrapping through it.
    AddBootstrapAddr { peer: PeerKey },
    /// Answer on `channel` with `response`.
    SendResponse { channel: u64, response: ForwardPassResponse },
    /// Send `request` to `peer`, reporting its outcome under `token`.
    SendRequest { token: u64, peer: PeerKey, request: ForwardPassRequest },
    /// Run the loaded layers on the last hop of `request`, then answer on
    /// `channel` with [`compute_response`] for `request_id`.
    Compute { channel: u64, request_id: u64, request: ForwardPassRequest },
    /// Stop the worker with `error`.
    Stop { error: ProtocolError },
}

/// The content of a `WorkerEvent`.
pub enum WorkerEventModel {
    Kad(bool),
    Connected(Seq<u8>),
    Request(u64, RequestModel),
    Response(u64, ResponseModel),
    Failure(u64),
    Other,
}

/// The content of a `WorkerAction`.
pub enum WorkerActionModel {
    Announce(u32, u32),
    AddBootstrapAddr(Seq<u8>),
    SendResponse(u64, ResponseModel),
    SendRequest(u64, Seq<u8>, RequestModel),
    Compute(u64, u64, RequestModel),
    Stop(ProtocolError),
}

impl View for WorkerEvent {
    type V = WorkerEventModel;

    open spec fn view(&self) -> WorkerEventModel {
        match self {
            WorkerEvent::Kad { new_peer } => WorkerEventModel::Kad(*new_peer),
            WorkerEvent::ConnectionEstablished { peer } => WorkerEventModel::Connected(peer@),
            WorkerEvent::Request { channel, request } => WorkerEventModel::Request(*channel, request@),
            WorkerEvent::Response { token, response } => WorkerEventModel::Response(*token, response@),
            WorkerEvent::OutboundFailure { token } => WorkerEventModel::Failure(*token),
            WorkerEvent::Other => WorkerEventModel::Other,
        }
    }
}

impl View for WorkerAction {
    type V = WorkerActionModel;

    open spec fn view(&self) -> WorkerActionModel {
        match self {
            WorkerAction::AnnounceLayers { start, end } => WorkerActionModel::Announce(*start, *end),
            WorkerAction::AddBootstrapAddr { peer } => WorkerActionModel::AddBootstrapAddr(peer@),
            WorkerAction::SendResponse { channel, response } => WorkerActionModel::SendResponse(
                *channel,
                response@,
            ),
            WorkerAction::SendRequest { token, peer, request } => WorkerActionModel::SendRequest(
                *token,
                peer@,
                request@,
            ),
            WorkerAction::Compute { channel, request_id, request } => WorkerActionModel::Compute(
                *channel,
                *request_id,
                request@,
            ),
            WorkerAction::Stop { error } => WorkerActionModel::Stop(*error),
        }
    }
}

pub open spec fn worker_action_views(s: Seq<WorkerAction>) -> Seq<WorkerActionModel> {
    s.map_values(|a: WorkerAction| a@)
}

/// The state of a worker.
pub struct WorkerModel {
    pub start_layer: u32,
    pub end_layer: u32,
    pub compute: bool,
    pub bootstrapped: bool,
    pub bootstrap_triggered: bool,
    pub layers_announced: bool,
    pub pending: Map<u64, u64>,
    pub next_token: u64,
    pub stopped: bool,
}

/// The token after `t`.
pub open spec fn following(t: u64) -> u64 {
    if t == u64::MAX {
        0
    } else {
        (t + 1) as u64
    }
}

/// Whether the worker can take event `e`: a request that is not at the
/// last hop of a route that reads names a hop that has a successor.
pub open spec fn worker_can_take(e: WorkerEventModel) -> bool {
    match e {
        WorkerEventModel::Request(_, m) => route_is_valid(m.route) && !spec_is_terminal(m)
            ==> m.hop_index + 1 < m.route.len(),
        _ => true,
    }
}

/// What a worker does with request `m`, to be answered on `ch`.
pub open spec fn on_request(s: WorkerModel, ch: u64, m: RequestModel) -> (
    WorkerModel,
    Seq<WorkerActionModel>,
) {
    let rid = m.request_id;
    if route_is_valid(m.route) && spec_is_terminal(m) {
        if dtype_of_code(m.tensor.dtype) is None {
            (
                WorkerModel { stopped: true, ..s },
                seq![WorkerActionModel::Stop(ProtocolError::UnknownDtype)],
            )
        } else if s.compute {
            (s, seq![WorkerActionModel::Compute(ch, rid, m)])
        } else {
            (s, seq![WorkerActionModel::SendResponse(ch, echoed(rid, m))])
        }
    } else if route_is_valid(m.route) && dtypes_known(m) {
        (
            WorkerModel {
                pending: s.pending.insert(s.next_token, ch),
                next_token: following(s.next_token),
                ..s
            },
            seq![
                WorkerActionModel::SendRequest(
                    s.next_token,
                    m.route[m.hop_index + 1],
                    advanced(m),
                ),
            ],
        )
    } else {
        (s, Seq::empty())
    }
}

/// The state and actions that follow event `e`.
pub open spec fn worker_step(s: WorkerModel, e: WorkerEventModel) -> (
    WorkerModel,
    Seq<WorkerActionModel>,
) {
    if s.stopped {
        (s, Seq::empty())
    } else {
        match e {
            WorkerEventModel::Kad(new_peer) => {
                let s1 = if !s.bootstrapped && new_peer {
                    WorkerModel { bootstrapped: true, ..s }
                } else {
                    s
                };
                if s1.bootstrapped && !s1.layers_announced {
                    (
                        WorkerModel { layers_announced: true, ..s1 },
                        seq![WorkerActionModel::Announce(s.start_layer, s.end_layer)],
                    )
                } else {
                    (s1, Seq::empty())
                }
            },
            WorkerEventModel::Connected(p) => if !s.bootstrap_triggered {
                (
                    WorkerModel { bootstrap_triggered: true, ..s },
                    seq![WorkerActionModel::AddBootstrapAddr(p)],
                )
            } else {
                (s, Seq::empty())
            },
            WorkerEventModel::Request(ch, m) => on_request(s, ch, m),
            WorkerEventModel::Response(t, r) => if s.pending.contains_key(t) {
                (
                    WorkerModel { pending: s.pending.remove(t), ..s },
                    seq![WorkerActionModel::SendResponse(s.pending[t], r)],
                )
            } else {
                (s, Seq::empty())
            },
            WorkerEventModel::Failure(t) => if s.pending.contains_key(t) {
                (
                    WorkerModel { pending: s.pending.remove(t), ..s },
                    seq![WorkerActionModel::SendResponse(s.pending[t], empty_response(0))],
                )
            } else {
                (s, Seq::empty())
            },
            WorkerEventModel::Other => (s, Seq::empty()),
        }
    }
}

/// A worker announces its layers once, after it has joined the network: an
/// announcement names its own layers, and a worker that has announced them
/// never announces again.
pub proof fn lemma_announce_once(s: WorkerModel, e: WorkerEventModel, i: int)
    requires
        0 <= i < worker_step(s, e).1.len(),
    ensures
        worker_step(s, e).1[i] is Announce ==> {
            &&& !s.layers_announced
            &&& worker_step(s, e).1[i] == WorkerActionModel::Announce(s.start_layer, s.end_layer)
            &&& worker_step(s, e).0.bootstrapped
            &&& worker_step(s, e).0.layers_announced
        },
        s.layers_announced ==> worker_step(s, e).0.layers_announced,
{
}

/// Without a compute engine, the last worker of a route sends the tensor of
/// the request back unchanged, under the request's id, on the channel the
/// request came in on.
pub proof fn lemma_echo_mirrors(s: WorkerModel, ch: u64, m: RequestModel)
    requires
        !s.stopped,
        !s.compute,
        route_is_valid(m.route),
        spec_is_terminal(m),
        dtype_of_code(m.tensor.dtype) is Some,
    ensures
        worker_step(s, WorkerEventModel::Request(ch, m)) == (s, seq![
            WorkerActionModel::SendResponse(
                ch,
                ResponseModel { request_id: m.request_id, tensor: m.tensor },
            ),
        ]),
{
}

/// A worker that is not the last of a route passes the request on to the
/// next worker of the route, one hop further and otherwise unchanged, and
/// remembers to answer the request's channel when the reply comes back.
pub proof fn lemma_forward(s: WorkerModel, ch: u64, m: RequestModel)
    requires
        !s.stopped,
        route_is_valid(m.route),
        !spec_is_terminal(m),
        m.hop_index + 1 < m.route.len(),
        request_fits(m),
        dtypes_known(m),
    ensures
        ({
            let (t, acts) = worker_step(s, WorkerEventModel::Request(ch, m));
            &&& acts == seq![
                WorkerActionModel::SendRequest(s.next_token, m.route[m.hop_index + 1], advanced(m)),
            ]
            &&& advanced(m).hop_index == m.hop_index + 1
            &&& advanced(m).route == m.route
            &&& advanced(m).request_id == m.request_id
            &&& advanced(m).tensor == m.tensor
            &&& advanced(m).mask == m.mask
            &&& t.pending == s.pending.insert(s.next_token, ch)
        }),
{
    crate::wire::lemma_pow256_facts();
}

/// Whether every forward the worker waits on is under a token below the
/// next one it will issue.
pub open spec fn tokens_below_next(s: WorkerModel) -> bool {
    forall|t: u64| #[trigger] s.pending.contains_key(t) ==> t < s.next_token
}

/// A worker issues each forward under a token that no pending forward holds,
/// and keeps every pending token below the next one, as long as the tokens
/// have not run out.
pub proof fn lemma_tokens_fresh(s: WorkerModel, e: WorkerEventModel)
    requires
        tokens_below_next(s),
        s.next_token < u64::MAX,
    ensures
        tokens_below_next(worker_step(s, e).0),
        worker_step(s, e).0.next_token >= s.next_token,
        forall|i: int|
            0 <= i < worker_step(s, e).1.len() ==> (#[trigger] worker_step(s, e).1[i] matches WorkerActionModel::SendRequest(
                t,
                _,
                _,
            ) ==> !s.pending.contains_key(t) && worker_step(s, e).0.pending.contains_key(t)),
{
}

/// Two requests passed on one after the other go out under different
/// tokens, and the reply to the first goes back, unchanged, on the channel
/// the first came in on.
pub proof fn lemma_two_forwards_relay(
    s: WorkerModel,
    ch1: u64,
    m1: RequestModel,
    ch2: u64,
    m2: RequestModel,
    r: ResponseModel,
)
    requires
        !s.stopped,
        tokens_below_next(s),
        s.next_token < u64::MAX - 1,
        route_is_valid(m1.route),
        !spec_is_terminal(m1),
        dtypes_known(m1),
        route_is_valid(m2.route),
        !spec_is_terminal(m2),
        dtypes_known(m2),
    ensures
        ({
            let (s1, a1) = worker_step(s, WorkerEventModel::Request(ch1, m1));
            let (s2, a2) = worker_step(s1, WorkerEventModel::Request(ch2, m2));
            &&& a1.len() == 1
            &&& a2.len() == 1
            &&& a1[0] matches WorkerActionModel::SendRequest(t1, _, _)
            &&& a2[0] matches WorkerActionModel::SendRequest(t2, _, _)
            &&& a1[0]->SendRequest_0 != a2[0]->SendRequest_0
            &&& worker_step(s2, WorkerEventModel::Response(a1[0]->SendRequest_0, r)).1 == seq![
                WorkerActionModel::SendResponse(ch1, r),
            ]
            &&& worker_step(s2, WorkerEventModel::Response(a2[0]->SendRequest_0, r)).1 == seq![
                WorkerActionModel::SendResponse(ch2, r),
            ]
        }),
{
}

/// The reply to a request a worker passed on goes back, unchanged, on the
/// channel the request came in on, and only once; a failure to pass it on
/// is answered there with an empty tensor under id 0. Anything that answers
/// no pending request is dropped.
pub proof fn lemma_relay(s: WorkerModel, t: u64, r: ResponseModel)
    requires
        !s.stopped,
    ensures
        s.pending.contains_key(t) ==> worker_step(s, WorkerEventModel::Response(t, r)) == (
        WorkerModel { pending: s.pending.remove(t), ..s }, seq![WorkerActionModel::SendResponse(s.pending[t], r)]),
        s.pending.contains_key(t) ==> worker_step(s, WorkerEventModel::Failure(t)) == (
        WorkerModel { pending: s.pending.remove(t), ..s }, seq![WorkerActionModel::SendResponse(s.pending[t], empty_response(0))]),
        !s.pending.contains_key(t) ==> worker_step(s, WorkerEventModel::Response(t, r)) == (s, Seq::<WorkerActionModel>::empty()),
        !s.pending.contains_key(t) ==> worker_step(s, WorkerEventModel::Failure(t)) == (s, Seq::<WorkerActionModel>::empty()),
        !worker_step(s, WorkerEventModel::Response(t, r)).0.pending.contains_key(t),
{
}

/// A worker that has stopped stays stopped and does nothing more.
pub proof fn lemma_stopped(s: WorkerModel, e: WorkerEventModel)
    requires
        s.stopped,
    ensures
        worker_step(s, e) == (s, Seq::<WorkerActionModel>::empty()),
{
}

/// The state of a worker serving layers `start_layer..=end_layer`.
pub struct WorkerState {
    start_layer: u32,
    end_layer: u32,
    compute: bool,
    bootstrapped: bool,
    bootstrap_triggered: bool,
    layers_announced: bool,
    pending_forwards: HashMap<u64, u64>,
    next_token: u64,
    stopped: bool,
}

impl View for WorkerState {
    type V = WorkerModel;

    closed spec fn view(&self) -> WorkerModel {
        WorkerModel {
            start_layer: self.start_layer,
            end_layer: self.end_layer,
            compute: self.compute,
            bootstrapped: self.bootstrapped,
            bootstrap_triggered: self.bootstrap_triggered,
            layers_announced: self.layers_announced,
            pending: self.pending_forwards@,
            next_token: self.next_token,
            stopped: self.stopped,
        }
    }
}

impl WorkerState {
    /// A worker serving layers `start_layer..=end_layer`, with a compute
    /// engine when `compute`, else echoing the last hop back.
    pub fn new(start_layer: u32, end_layer: u32, compute: bool) -> (r: WorkerState)
        ensures
            r@ == (WorkerModel {
                start_layer,
                end_layer,
                compute,
                bootstrapped: false,
                bootstrap_triggered: false,
                layers_announced: false,
                pending: Map::empty(),
                next_token: 0,
                stopped: false,
            }),
    {
        WorkerState {
            start_layer,
            end_layer,
            compute,
            bootstrapped: false,
            bootstrap_triggered: false,
            layers_announced: false,
            pending_forwards: HashMap::new(),
            next_token: 0,
            stopped: false,
        }
    }

    /// Whether the worker has stopped.
    pub fn is_stopped(&self) -> (r: bool)
        ensures
            r == self@.stopped,
    {
        self.stopped
    }

    /// Handles one event, giving the actions to perform in order.
    pub fn step(&mut self, event: WorkerEvent) -> (actions: Vec<WorkerAction>)
        requires
            worker_can_take(event@),
        ensures
            (final(self)@, worker_action_views(actions@)) == worker_step(old(self)@, event@),
    {
        let ghost s0 = self@;
        let ghost e = event@;
        let mut actions: Vec<WorkerAction> = Vec::new();
        if self.stopped {
            assert(worker_action_views(actions@) =~= Seq::<WorkerActionModel>::empty());
            return actions;
        }
        match event {
            WorkerEvent::Kad { new_peer } => {
                if !self.bootstrapped && new_peer {
                    self.bootstrapped = true;
                }
                if self.bootstrapped && !self.layers_announced {
                    self.layers_announced = true;
                    actions.push(
                        WorkerAction::AnnounceLayers { start: self.start_layer, end: self.end_layer },
                    );
                    assert(worker_action_views(actions@) =~= seq![
                        WorkerActionModel::Announce(s0.start_layer, s0.end_layer),
                    ]);
                } else {
                    assert(worker_action_views(actions@) =~= Seq::<WorkerActionModel>::empty());
                }
            },
            WorkerEvent::ConnectionEstablished { peer } => {
                if !self.bootstrap_triggered {
                    self.bootstrap_triggered = true;
                    let ghost pv = peer@;
                    actions.push(WorkerAction::AddBootstrapAddr { peer });
                    assert(worker_action_views(actions@) =~= seq![
                        WorkerActionModel::AddBootstrapAddr(pv),
                    ]);
                } else {
                    assert(worker_action_views(actions@) =~= Seq::<WorkerActionModel>::empty());
                }
            },
            WorkerEvent::Request { channel, request } => {
                self.on_request(channel, request, &mut actions);
                assert((self@, worker_action_views(actions@)) == worker_step(s0, e));
            },
            WorkerEvent::Response { token, response } => {
                match self.pending_forwards.remove(&token) {
                    Some(ch) => {
                        assert(s0.pending.contains_key(token) && s0.pending[token] == ch);
                        assert(self.pending_forwards@ =~= s0.pending.remove(token));
                        let ghost rv = response@;
                        actions.push(WorkerAction::SendResponse { channel: ch, response });
                        assert(worker_action_views(actions@) =~= seq![
                            WorkerActionModel::SendResponse(s0.pending[token], rv),
                        ]);
                    },
                    None => {
                        assert(!s0.pending.contains_key(token));
                        assert(self.pending_forwards@ =~= s0.pending);
                        assert(worker_action_views(actions@) =~= Seq::<WorkerActionModel>::empty());
                    },
                }
                assert((self@, worker_action_views(actions@)) == worker_step(s0, e));
            },
            WorkerEvent::OutboundFailure { token } => {
                match self.pending_forwards.remove(&token) {
                    Some(ch) => {
                        assert(s0.pending.contains_key(token) && s0.pending[token] == ch);
                        assert(self.pending_forwards@ =~= s0.pending.remove(token));
                        actions.push(
                            WorkerAction::SendResponse { channel: ch, response: failure_response() },
                        );
                        assert(worker_action_views(actions@) =~= seq![
                            WorkerActionModel::SendResponse(s0.pending[token], empty_response(0)),
                        ]);
                    },
                    None => {
                        assert(!s0.pending.contains_key(token));
                        assert(self.pending_forwards@ =~= s0.pending);
                        assert(worker_action_views(actions@) =~= Seq::<WorkerActionModel>::empty());
                    },
                }
            },
            WorkerEvent::Other => {
                assert(worker_action_views(actions@) =~= Seq::<WorkerActionModel>::empty());
            },
        }
        actions
    }

    /// Answers the last hop of a route, or passes the request on to the next
    /// worker; the actions go to `actions`.
    fn on_request(&mut self, channel: u64, request: ForwardPassRequest, actions: &mut Vec<WorkerAction>)
        requires
            old(actions)@.len() == 0,
            !old(self)@.stopped,
            worker_can_take(WorkerEventModel::Request(channel, request@)),
        ensures
            (final(self)@, worker_action_views(final(actions)@)) == on_request(
                old(self)@,
                channel,
                request@,
            ),
    {
        let ghost s0 = self@;
        let ghost m = request@;
        let rid = match request.request_id() {
            Ok(x) => x,
            Err(_) => 0,
        };
        let is_terminal = match request.is_terminal() {
            Ok(b) => b,
            Err(_) => false,
        };
        if is_terminal {
            if self.compute {
                if request.tensor_dtype().is_err() {
                    self.stopped = true;
                    actions.push(WorkerAction::Stop { error: ProtocolError::UnknownDtype });
                    assert(worker_action_views(actions@) =~= seq![
                        WorkerActionModel::Stop(ProtocolError::UnknownDtype),
                    ]);
                    return;
                }
                actions.push(WorkerAction::Compute { channel, request_id: rid, request });
                assert(worker_action_views(actions@) =~= seq![
                    WorkerActionModel::Compute(channel, rid, m),
                ]);
            } else {
                match echo_response(rid, &request) {
                    Ok(resp) => {
                        let ghost rv = resp@;
                        actions.push(WorkerAction::SendResponse { channel, response: resp });
                        assert(worker_action_views(actions@) =~= seq![
                            WorkerActionModel::SendResponse(channel, rv),
                        ]);
                    },
                    Err(e) => {
                        self.stopped = true;
                        actions.push(WorkerAction::Stop { error: e });
                        assert(worker_action_views(actions@) =~= seq![WorkerActionModel::Stop(e)]);
                    },
                }
            }
        } else {
            match build_next_request(&request) {
                Ok((peer, next)) => {
                    let token = self.next_token;
                    self.pending_forwards.insert(token, channel);
                    self.next_token = if token == u64::MAX {
                        0
                    } else {
                        token + 1
                    };
                    let ghost pv = peer@;
                    let ghost nv = next@;
                    actions.push(WorkerAction::SendRequest { token, peer, request: next });
                    assert(worker_action_views(actions@) =~= seq![
                        WorkerActionModel::SendRequest(token, pv, nv),
                    ]);
                },
                Err(_) => {
                    assert(worker_action_views(actions@) =~= Seq::<WorkerActionModel>::empty());
                },
            }
        }
    }
}

} // verus!
