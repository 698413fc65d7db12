//! The decisions of a client: find a provider for every layer, send the
//! forward pass along the chain, and fail over to other providers.
//!
//! The network loop lives outside the library: it hands each event to
//! [`ClientState::step`] and performs the actions that come back, in order.
use vstd::prelude::*;
use std::collections::HashMap;
use crate::dtype::{code_of_dtype, Dtype, ProtocolError};
use crate::message::TensorModel;
use crate::peer::{contains_peer, PeerKey};
use crate::provider_cache::{providers_of, without, CacheView, ProviderCache};
use crate::request::{parts_fit, ForwardPassRequest, RequestModel};
use crate::wire::{lemma_pow256_facts, pow256};
use crate::response::{ForwardPassResponse, ResponseModel};

verus! {

broadcast use vstd::std_specs::hash::group_hash_axioms;

/// How often a failed forward pass is retried before the client gives up.
pub const MAX_RETRIES: u32 = 3;

/// How long, in seconds, a provider found by the client stays in its cache.
pub const PROVIDER_TTL_SECS: u64 = 60;

/// Why a client gave up.
#[derive(Debug, Clone, Copy, PartialEq, Eq, Structural)]
pub enum ClientError {
    /// Forwarding failed again after this many retries.
    OutboundFailed { retries: u32 },
    /// The request could not be built.
    Build(ProtocolError),
}

/// What the network reports to a client.
#[derive(Debug)]
pub enum ClientEvent {
    /// A connection to `peer` was established.
    ConnectionEstablished { peer: PeerKey },
    /// The routing table changed; `is_new_peer` when it gained a peer.
    RoutingUpdated { is_new_peer: bool },
    /// The provider query numbered `token` found `providers`.
    ProvidersFound { token: u64, providers: Vec<PeerKey> },
    /// The provider query numbered `token` ended with nothing more.
    ProvidersFinished { token: u64 },
    /// Any other event of the distributed hash table.
    OtherKad,
    /// The answer to the forward pass arrived.
    Response { response: ForwardPassResponse },
    /// Sending a request to `peer` failed.
    OutboundFailure { peer: PeerKey },
    /// Anything else.
    Other,
}

/// What the client asks the network to do.
#[derive(Debug)]
pub enum ClientAction {
    /// Add the address of the peer just connected and start bootstrapping through it.
    AddBootstrapAddr { peer: PeerKey },
    /// Look up the providers of `layer`, reporting back under `token`.
    FindProviders { layer: u32, token: u64 },
    /// Send `request` to `peer`.
    SendRequest { peer: PeerKey, request: ForwardPassRequest },
    /// Stop with this result.
    Finish { result: Result<ForwardPassResponse, ClientError> },
}

/// The content of a `ClientEvent`.
pub enum EventModel {
    Connected(Seq<u8>),
    Routing(bool),
    Found(u64, Seq<Seq<u8>>),
    QueryDone(u64),
    OtherKad,
    Response(ResponseModel),
    Failure(Seq<u8>),
    Other,
}

/// The content of a `ClientAction`.
pub enum ActionModel {
    AddBootstrapAddr(Seq<u8>),
    FindProviders(u32, u64),
    SendRequest(Seq<u8>, RequestModel),
    FinishOk(ResponseModel),
    FinishErr(ClientError),
}

impl View for ClientEvent {
    type V = EventModel;

    open spec fn view(&self) -> EventModel {
        match self {
            ClientEvent::ConnectionEstablished { peer } => EventModel::Connected(peer@),
            ClientEvent::RoutingUpdated { is_new_peer } => EventModel::Routing(*is_new_peer),
            ClientEvent::ProvidersFound { token, providers } => EventModel::Found(
                *token,
                key_views(providers@),
            ),
            ClientEvent::ProvidersFinished { token } => EventModel::QueryDone(*token),
            ClientEvent::OtherKad => EventModel::OtherKad,
            ClientEvent::Response { response } => EventModel::Response(response@),
            ClientEvent::OutboundFailure { peer } => EventModel::Failure(peer@),
            ClientEvent::Other => EventModel::Other,
        }
    }
}

impl View for ClientAction {
    type V = ActionModel;

    open spec fn view(&self) -> ActionModel {
        match self {
            ClientAction::AddBootstrapAddr { peer } => ActionModel::AddBootstrapAddr(peer@),
            ClientAction::FindProviders { layer, token } => ActionModel::FindProviders(
                *layer,
                *token,
            ),
            ClientAction::SendRequest { peer, request } => ActionModel::SendRequest(
                peer@,
                request@,
            ),
            ClientAction::Finish { result } => match result {
                Ok(r) => ActionModel::FinishOk(r@),
                Err(e) => ActionModel::FinishErr(*e),
            },
        }
    }
}

pub open spec fn action_views(s: Seq<ClientAction>) -> Seq<ActionModel> {
    s.map_values(|a: ClientAction| a@)
}

/// The state of a client.
pub struct ClientModel {
    pub layers: Seq<u32>,
    pub payload: Seq<u8>,
    pub bootstrapped: bool,
    pub bootstrap_triggered: bool,
    pub queries_sent: bool,
    pub providers: Map<u32, Seq<u8>>,
    pub pending: Map<u64, u32>,
    pub chain_built: bool,
    pub cache: CacheView,
    pub failed: Set<Seq<u8>>,
    pub retry_count: u32,
    pub current_chain: Seq<Seq<u8>>,
    pub next_token: u64,
    pub finished: bool,
}

/// The token after `t`.
pub open spec fn next_token(t: u64) -> u64 {
    if t == u64::MAX {
        0
    } else {
        (t + 1) as u64
    }
}

/// The token `i` places after `t`.
pub open spec fn token_after(t: u64, i: nat) -> u64
    decreases i,
{
    if i == 0 {
        t
    } else {
        next_token(token_after(t, (i - 1) as nat))
    }
}

/// The pending queries after one is started for each of `layers`, numbered
/// from `t` on.
pub open spec fn queries_for(pending: Map<u64, u32>, layers: Seq<u32>, t: u64) -> Map<u64, u32>
    decreases layers.len(),
{
    if layers.len() == 0 {
        pending
    } else {
        queries_for(pending, layers.drop_last(), t).insert(
            token_after(t, (layers.len() - 1) as nat),
            layers.last(),
        )
    }
}

/// The first provider of `found` that has not failed.
pub open spec fn first_unfailed(found: Seq<Seq<u8>>, failed: Set<Seq<u8>>) -> Option<Seq<u8>>
    decreases found.len(),
{
    if found.len() == 0 {
        None
    } else if !failed.contains(found[0]) {
        Some(found[0])
    } else {
        first_unfailed(found.drop_first(), failed)
    }
}

/// The cache after dropping `p` from each of `layers` in turn.
pub open spec fn evict_all(c: CacheView, layers: Seq<u32>, p: Seq<u8>) -> CacheView
    decreases layers.len(),
{
    if layers.len() == 0 {
        c
    } else {
        let c1 = evict_all(c, layers.drop_last(), p);
        let l = layers.last();
        if c1.contains_key(l) {
            c1.insert(l, without(c1[l], p))
        } else {
            c1
        }
    }
}

/// The request a client sends along `chain`: hop 0, request 1, its payload
/// as a `1 x n` tensor of 32-bit floats, no mask.
pub open spec fn client_request(chain: Seq<Seq<u8>>, payload: Seq<u8>) -> RequestModel {
    RequestModel {
        route: chain,
        hop_index: 0,
        request_id: 1,
        tensor: TensorModel {
            dtype: code_of_dtype(Dtype::F32),
            shape: seq![1u64, (payload.len() / 4) as u64],
            data: payload,
        },
        mask: None,
    }
}

/// Whether the client has a provider for every layer and nothing pending.
pub open spec fn chain_ready(s: ClientModel) -> bool {
    &&& !s.chain_built
    &&& s.bootstrapped
    &&& s.pending.is_empty()
    &&& s.layers.len() > 0
    &&& forall|i: int| 0 <= i < s.layers.len() ==> s.providers.contains_key(#[trigger] s.layers[i])
}

/// The chain of providers, one per layer.
pub open spec fn chain_of(s: ClientModel) -> Seq<Seq<u8>> {
    s.layers.map_values(|l: u32| s.providers[l])
}

/// What follows every event of the distributed hash table: the queries are
/// started once bootstrapped, and the request is sent once every layer has
/// a provider.
pub open spec fn after_kad(s: ClientModel) -> (ClientModel, Seq<ActionModel>) {
    let (s1, a1) = if s.bootstrapped && !s.queries_sent {
        (
            ClientModel {
                queries_sent: true,
                pending: queries_for(s.pending, s.layers, s.next_token),
                next_token: token_after(s.next_token, s.layers.len()),
                ..s
            },
            Seq::new(
                s.layers.len(),
                |i: int| ActionModel::FindProviders(s.layers[i], token_after(s.next_token, i as nat)),
            ),
        )
    } else {
        (s, Seq::empty())
    };
    if chain_ready(s1) {
        let chain = chain_of(s1);
        let m = client_request(chain, s1.payload);
        if parts_fit(chain.len(), m.tensor, m.mask) {
            (
                ClientModel { current_chain: chain, chain_built: true, ..s1 },
                a1.push(ActionModel::SendRequest(chain[0], m)),
            )
        } else {
            (
                ClientModel { finished: true, ..s1 },
                a1.push(ActionModel::FinishErr(ClientError::Build(ProtocolError::TooLarge))),
            )
        }
    } else {
        (s1, a1)
    }
}

/// The state after a query reports `found`, the first unfailed provider
/// having been cached at `now`.
pub open spec fn on_found(s: ClientModel, token: u64, found: Seq<Seq<u8>>, now: u128) -> ClientModel {
    if s.pending.contains_key(token) {
        let l = s.pending[token];
        let s1 = match first_unfailed(found, s.failed) {
            Some(p) => ClientModel {
                providers: s.providers.insert(l, p),
                cache: s.cache.insert(l, providers_of(s.cache, l).push((p, now))),
                ..s
            },
            None => s,
        };
        ClientModel { pending: s1.pending.remove(token), ..s1 }
    } else {
        s
    }
}

/// The state after a failure that is retried: the peer is marked failed and
/// dropped from the cache, and the providers are looked up again.
pub open spec fn on_failure(s: ClientModel, p: Seq<u8>) -> ClientModel {
    ClientModel {
        retry_count: (s.retry_count + 1) as u32,
        failed: s.failed.insert(p),
        cache: evict_all(s.cache, s.layers, p),
        providers: Map::empty(),
        queries_sent: false,
        chain_built: false,
        current_chain: Seq::empty(),
        ..s
    }
}

/// The state and actions that follow event `e`; `now` is when a provider
/// found by it is cached.
pub open spec fn client_step(s: ClientModel, e: EventModel, now: u128) -> (
    ClientModel,
    Seq<ActionModel>,
) {
    if s.finished {
        (s, Seq::empty())
    } else {
        match e {
            EventModel::Connected(p) => if !s.bootstrap_triggered {
                (
                    ClientModel { bootstrap_triggered: true, ..s },
                    seq![ActionModel::AddBootstrapAddr(p)],
                )
            } else {
                (s, Seq::empty())
            },
            EventModel::Routing(is_new) => after_kad(
                if is_new && !s.bootstrapped {
                    ClientModel { bootstrapped: true, ..s }
                } else {
                    s
                },
            ),
            EventModel::Found(token, found) => after_kad(on_found(s, token, found, now)),
            EventModel::QueryDone(token) => after_kad(
                if s.pending.contains_key(token) {
                    ClientModel { pending: s.pending.remove(token), ..s }
                } else {
                    s
                },
            ),
            EventModel::OtherKad => after_kad(s),
            EventModel::Response(r) => (
                ClientModel { finished: true, ..s },
                seq![ActionModel::FinishOk(r)],
            ),
            EventModel::Failure(p) => if s.retry_count >= MAX_RETRIES {
                (
                    ClientModel { finished: true, ..s },
                    seq![ActionModel::FinishErr(ClientError::OutboundFailed { retries: s.retry_count })],
                )
            } else {
                (on_failure(s, p), Seq::empty())
            },
            EventModel::Other => (s, Seq::empty()),
        }
    }
}

/// What holds of every state a client reaches: retries stay within the
/// bound, and no provider it holds has failed.
pub open spec fn client_wf(s: ClientModel) -> bool {
    &&& s.retry_count <= MAX_RETRIES
    &&& forall|l: u32| #[trigger] s.providers.contains_key(l) ==> !s.failed.contains(s.providers[l])
}

/// The state of a client.
pub struct ClientState {
    layers: Vec<u32>,
    payload: Vec<u8>,
    bootstrapped: bool,
    bootstrap_triggered: bool,
    queries_sent: bool,
    providers: HashMap<u32, PeerKey>,
    pending_queries: HashMap<u64, u32>,
    chain_built: bool,
    provider_cache: ProviderCache,
    failed_peers: Vec<PeerKey>,
    retry_count: u32,
    current_chain: Vec<PeerKey>,
    next_token: u64,
    finished: bool,
}

pub open spec fn key_views(s: Seq<PeerKey>) -> Seq<Seq<u8>> {
    s.map_values(|p: PeerKey| p@)
}

impl View for ClientState {
    type V = ClientModel;

    closed spec fn view(&self) -> ClientModel {
        ClientModel {
            layers: self.layers@,
            payload: self.payload@,
            bootstrapped: self.bootstrapped,
            bootstrap_triggered: self.bootstrap_triggered,
            queries_sent: self.queries_sent,
            providers: self.providers@.map_values(|p: PeerKey| p@),
            pending: self.pending_queries@,
            chain_built: self.chain_built,
            cache: self.provider_cache@,
            failed: key_views(self.failed_peers@).to_set(),
            retry_count: self.retry_count,
            current_chain: key_views(self.current_chain@),
            next_token: self.next_token,
            finished: self.finished,
        }
    }
}

/// The first provider of `found` that has not failed.
fn first_unfailed_of(found: &Vec<PeerKey>, failed: &Vec<PeerKey>) -> (r: Option<PeerKey>)
    ensures
        match first_unfailed(key_views(found@), key_views(failed@).to_set()) {
            None => r is None,
            Some(p) => r matches Some(x) && x@ == p,
        },
{
    let ghost fs = key_views(failed@).to_set();
    assert(key_views(found@).skip(0) =~= key_views(found@));
    let mut i: usize = 0;
    while i < found.len()
        invariant
            i <= found@.len(),
            fs == key_views(failed@).to_set(),
            first_unfailed(key_views(found@), fs) == first_unfailed(
                key_views(found@).skip(i as int),
                fs,
            ),
        decreases found@.len() - i,
    {
        let ghost rest = key_views(found@).skip(i as int);
        assert(rest[0] == found@[i as int]@);
        assert(rest.drop_first() =~= key_views(found@).skip(i + 1));
        let is_failed = contains_peer(failed.as_slice(), &found[i]);
        assert(is_failed == fs.contains(found@[i as int]@)) by {
            if is_failed {
                let j = choose|j: int| 0 <= j < failed@.len() && (#[trigger] failed@[j])@ == found@[i as int]@;
                assert(key_views(failed@)[j] == found@[i as int]@);
            }
            if fs.contains(found@[i as int]@) {
                let j = choose|j: int| 0 <= j < key_views(failed@).len() && key_views(failed@)[j] == found@[i as int]@;
                assert(failed@[j]@ == found@[i as int]@);
            }
        }
        if !is_failed {
            return Some(found[i].clone());
        }
        i = i + 1;
    }
    assert(key_views(found@).skip(i as int) =~= Seq::<Seq<u8>>::empty());
    None
}

impl ClientState {
    /// How long, in nanoseconds, the providers the client caches stay fresh.
    pub closed spec fn cache_ttl(&self) -> u128 {
        self.provider_cache.ttl()
    }

    /// A client that will look up `layers` and send `payload` through them.
    pub fn new(layers: Vec<u32>, payload: Vec<u8>) -> (r: ClientState)
        ensures
            r.cache_ttl() == PROVIDER_TTL_SECS * 1_000_000_000,
            r@.layers == layers@,
            r@.payload == payload@,
            !r@.bootstrapped && !r@.bootstrap_triggered && !r@.queries_sent,
            r@.providers == Map::<u32, Seq<u8>>::empty(),
            r@.pending == Map::<u64, u32>::empty(),
            !r@.chain_built,
            r@.cache == CacheView::empty(),
            r@.failed == Set::<Seq<u8>>::empty(),
            r@.retry_count == 0,
            r@.current_chain == Seq::<Seq<u8>>::empty(),
            r@.next_token == 0,
            !r@.finished,
            client_wf(r@),
    {
        let r = ClientState {
            layers,
            payload,
            bootstrapped: false,
            bootstrap_triggered: false,
            queries_sent: false,
            providers: HashMap::new(),
            pending_queries: HashMap::new(),
            chain_built: false,
            provider_cache: ProviderCache::new(PROVIDER_TTL_SECS as u128 * 1_000_000_000),
            failed_peers: Vec::new(),
            retry_count: 0,
            current_chain: Vec::new(),
            next_token: 0,
            finished: false,
        };
        assert(r@.providers =~= Map::<u32, Seq<u8>>::empty());
        assert(key_views(r.failed_peers@) =~= Seq::<Seq<u8>>::empty());
        assert(r@.failed =~= Set::<Seq<u8>>::empty());
        assert(r@.current_chain =~= Seq::<Seq<u8>>::empty());
        r
    }

    /// Whether the client has stopped.
    pub fn is_finished(&self) -> (r: bool)
        ensures
            r == self@.finished,
    {
        self.finished
    }

    /// Handles one event, giving the actions to perform in order.
    pub fn step(&mut self, event: ClientEvent) -> (actions: Vec<ClientAction>)
        ensures
            exists|now: u128|
                (final(self)@, action_views(actions@)) == client_step(old(self)@, event@, now),
            final(self).cache_ttl() == old(self).cache_ttl(),
    {
        let ghost s0 = self@;
        let ghost e = event@;
        let mut actions: Vec<ClientAction> = Vec::new();
        if self.finished {
            assert(action_views(actions@) =~= Seq::<ActionModel>::empty());
            assert((self@, action_views(actions@)) == client_step(s0, e, 0));
            return actions;
        }
        match event {
            ClientEvent::ConnectionEstablished { peer } => {
                if !self.bootstrap_triggered {
                    self.bootstrap_triggered = true;
                    let ghost pv = peer@;
                    actions.push(ClientAction::AddBootstrapAddr { peer });
                    assert(action_views(actions@) =~= seq![ActionModel::AddBootstrapAddr(pv)]);
                } else {
                    assert(action_views(actions@) =~= Seq::<ActionModel>::empty());
                }
                assert((self@, action_views(actions@)) == client_step(s0, e, 0));
            },
            ClientEvent::RoutingUpdated { is_new_peer } => {
                if is_new_peer && !self.bootstrapped {
                    self.bootstrapped = true;
                }
                self.after_kad(&mut actions);
                assert((self@, action_views(actions@)) == client_step(s0, e, 0));
            },
            ClientEvent::ProvidersFound { token, providers } => {
                let now = self.on_found(token, &providers);
                self.after_kad(&mut actions);
                assert((self@, action_views(actions@)) == client_step(s0, e, now@));
            },
            ClientEvent::ProvidersFinished { token } => {
                if self.pending_queries.contains_key(&token) {
                    self.pending_queries.remove(&token);
                }
                self.after_kad(&mut actions);
                assert((self@, action_views(actions@)) == client_step(s0, e, 0));
            },
            ClientEvent::OtherKad => {
                self.after_kad(&mut actions);
                assert((self@, action_views(actions@)) == client_step(s0, e, 0));
            },
            ClientEvent::Response { response } => {
                self.finished = true;
                let ghost rv = response@;
                actions.push(ClientAction::Finish { result: Ok(response) });
                assert(action_views(actions@) =~= seq![ActionModel::FinishOk(rv)]);
                assert((self@, action_views(actions@)) == client_step(s0, e, 0));
            },
            ClientEvent::OutboundFailure { peer } => {
                if self.retry_count >= MAX_RETRIES {
                    self.finished = true;
                    let err = ClientError::OutboundFailed { retries: self.retry_count };
                    actions.push(ClientAction::Finish { result: Err(err) });
                    assert(action_views(actions@) =~= seq![ActionModel::FinishErr(err)]);
                } else {
                    self.on_failure(peer);
                    assert(action_views(actions@) =~= Seq::<ActionModel>::empty());
                }
                assert((self@, action_views(actions@)) == client_step(s0, e, 0));
            },
            ClientEvent::Other => {
                assert(action_views(actions@) =~= Seq::<ActionModel>::empty());
                assert((self@, action_views(actions@)) == client_step(s0, e, 0));
            },
        }
        actions
    }
}

/// The provider picked from `found` has not failed.
proof fn lemma_first_unfailed(found: Seq<Seq<u8>>, failed: Set<Seq<u8>>)
    ensures
        first_unfailed(found, failed) matches Some(p) ==> !failed.contains(p),
    decreases found.len(),
{
    if found.len() > 0 && failed.contains(found[0]) {
        lemma_first_unfailed(found.drop_first(), failed);
    }
}

/// The entries left after dropping `p` hold no entry of `p`.
proof fn lemma_without_drops(es: Seq<(Seq<u8>, u128)>, p: Seq<u8>)
    ensures
        forall|j: int| 0 <= j < without(es, p).len() ==> (#[trigger] without(es, p)[j]).0 != p,
    decreases es.len(),
{
    if es.len() > 0 {
        let rest = without(es.drop_last(), p);
        lemma_without_drops(es.drop_last(), p);
        assert forall|j: int| 0 <= j < without(es, p).len() implies (#[trigger] without(es, p)[j]).0 != p by {
            if j < rest.len() {
                assert(without(es, p)[j] == rest[j]);
            }
        }
    }
}

/// After `p` is dropped from each of `layers`, none of them holds an entry of `p`.
proof fn lemma_evict_all_drops(c: CacheView, layers: Seq<u32>, p: Seq<u8>)
    ensures
        forall|i: int, j: int|
            0 <= i < layers.len() && 0 <= j < providers_of(evict_all(c, layers, p), layers[i]).len()
                ==> (#[trigger] providers_of(evict_all(c, layers, p), layers[i])[j]).0 != p,
    decreases layers.len(),
{
    if layers.len() > 0 {
        let rest = layers.drop_last();
        let l = layers.last();
        let c1 = evict_all(c, rest, p);
        let c2 = evict_all(c, layers, p);
        lemma_evict_all_drops(c, rest, p);
        if c1.contains_key(l) {
            lemma_without_drops(c1[l], p);
        }
        assert forall|i: int, j: int|
            0 <= i < layers.len() && 0 <= j < providers_of(c2, layers[i]).len() implies (
            #[trigger] providers_of(c2, layers[i])[j]).0 != p by {
            if layers[i] != l {
                assert(rest[i] == layers[i]);
                assert(providers_of(c2, layers[i]) == providers_of(c1, rest[i]));
            }
        }
    }
}

/// What follows an event of the distributed hash table leaves the layers,
/// the payload, the providers, the failed peers and the retries as they were;
/// a request it sends comes last and goes along the providers of the layers.
proof fn lemma_after_kad_keeps(s: ClientModel)
    ensures
        after_kad(s).0.layers == s.layers,
        after_kad(s).0.payload == s.payload,
        after_kad(s).0.providers == s.providers,
        after_kad(s).0.failed == s.failed,
        after_kad(s).0.retry_count == s.retry_count,
        after_kad(s).0.cache == s.cache,
        forall|i: int|
            0 <= i < after_kad(s).1.len() ==> (#[trigger] after_kad(s).1[i] matches ActionModel::SendRequest(p, m) ==> {
                &&& m == client_request(chain_of(s), s.payload)
                &&& p == chain_of(s)[0]
                &&& s.layers.len() > 0
                &&& forall|k: int| 0 <= k < s.layers.len() ==> s.providers.contains_key(#[trigger] s.layers[k])
                &&& after_kad(s).0.chain_built
                &&& after_kad(s).0.current_chain == chain_of(s)
            }),
{
    let (s1, a1) = if s.bootstrapped && !s.queries_sent {
        (
            ClientModel {
                queries_sent: true,
                pending: queries_for(s.pending, s.layers, s.next_token),
                next_token: token_after(s.next_token, s.layers.len()),
                ..s
            },
            Seq::new(
                s.layers.len(),
                |i: int| ActionModel::FindProviders(s.layers[i], token_after(s.next_token, i as nat)),
            ),
        )
    } else {
        (s, Seq::empty())
    };
    assert(forall|i: int| 0 <= i < a1.len() ==> (#[trigger] a1[i]) is FindProviders);
    assert(chain_of(s1) == chain_of(s));
    let acts = after_kad(s).1;
    assert forall|i: int| 0 <= i < acts.len() && #[trigger] acts[i] is SendRequest implies i == a1.len()
        && chain_ready(s1) by {
        if i < a1.len() {
            assert(acts[i] == a1[i]);
        }
    }
}

/// Every event keeps a client within its retry bound, and a client never
/// holds a provider that has failed.
pub proof fn lemma_step_keeps_wf(s: ClientModel, e: EventModel, now: u128)
    requires
        client_wf(s),
    ensures
        client_wf(client_step(s, e, now).0),
{
    match e {
        EventModel::Found(token, found) => {
            lemma_first_unfailed(found, s.failed);
            lemma_after_kad_keeps(on_found(s, token, found, now));
        },
        EventModel::Routing(b) => {
            lemma_after_kad_keeps(
                if b && !s.bootstrapped {
                    ClientModel { bootstrapped: true, ..s }
                } else {
                    s
                },
            );
        },
        EventModel::QueryDone(token) => {
            lemma_after_kad_keeps(
                if s.pending.contains_key(token) {
                    ClientModel { pending: s.pending.remove(token), ..s }
                } else {
                    s
                },
            );
        },
        EventModel::OtherKad => {
            lemma_after_kad_keeps(s);
        },
        _ => {},
    }
}

/// A request that a client sends carries its payload as a `1 x n` tensor of
/// 32-bit floats, from hop 0, along one provider per layer in the order of
/// the layers, none of which has failed; it goes to the first of them.
pub proof fn lemma_sent_request(s: ClientModel, e: EventModel, now: u128, i: int)
    requires
        client_wf(s),
        0 <= i < client_step(s, e, now).1.len(),
    ensures
        client_step(s, e, now).1[i] matches ActionModel::SendRequest(p, m) ==> {
            let t = client_step(s, e, now).0;
            &&& m == client_request(m.route, s.payload)
            &&& m.route.len() == s.layers.len()
            &&& m.route.len() > 0
            &&& p == m.route[0]
            &&& t.chain_built
            &&& t.current_chain == m.route
            &&& forall|k: int|
                0 <= k < m.route.len() ==> m.route[k] == t.providers[s.layers[k]] && !t.failed.contains(
                    #[trigger] m.route[k],
                )
        },
{
    lemma_step_keeps_wf(s, e, now);
    let r = match e {
        EventModel::Found(token, found) => on_found(s, token, found, now),
        EventModel::Routing(b) => if b && !s.bootstrapped {
            ClientModel { bootstrapped: true, ..s }
        } else {
            s
        },
        EventModel::QueryDone(token) => if s.pending.contains_key(token) {
            ClientModel { pending: s.pending.remove(token), ..s }
        } else {
            s
        },
        _ => s,
    };
    lemma_after_kad_keeps(r);
    if !s.finished && client_step(s, e, now).1[i] is SendRequest {
        assert(e is Found || e is Routing || e is QueryDone || e is OtherKad);
        assert(client_step(s, e, now) == after_kad(r));
        let t = client_step(s, e, now).0;
        assert forall|k: int| 0 <= k < chain_of(r).len() implies chain_of(r)[k] == t.providers[s.layers[k]]
            && !t.failed.contains(#[trigger] chain_of(r)[k]) by {
            assert(r.providers.contains_key(r.layers[k]));
        }
    }
}

/// Once the queries have been sent, every layer has a provider and no query
/// is pending, the handling of an event of the distributed hash table sends
/// the request, along one provider per layer in the order of the layers, to
/// the first of them; the route and the payload fit their length fields
/// whenever there are fewer than 2^32 layers.
pub proof fn lemma_chain_sent(s: ClientModel, now: u128)
    requires
        !s.finished,
        s.queries_sent,
        chain_ready(s),
        s.layers.len() < pow256(4),
        s.payload.len() < pow256(8),
    ensures
        after_kad(s) == client_step(s, EventModel::OtherKad, now),
        after_kad(s).1 == seq![
            ActionModel::SendRequest(chain_of(s)[0], client_request(chain_of(s), s.payload)),
        ],
        after_kad(s).0.chain_built,
        after_kad(s).0.current_chain == chain_of(s),
        chain_of(s).len() == s.layers.len(),
{
    lemma_pow256_facts();
    assert(Seq::<ActionModel>::empty().push(
        ActionModel::SendRequest(chain_of(s)[0], client_request(chain_of(s), s.payload)),
    ) =~= seq![ActionModel::SendRequest(chain_of(s)[0], client_request(chain_of(s), s.payload))]);
}

/// The first provider of `found` that has not failed is the one at `k` when
/// every earlier one has failed and that one has not.
proof fn lemma_first_unfailed_at(found: Seq<Seq<u8>>, failed: Set<Seq<u8>>, k: int)
    requires
        0 <= k < found.len(),
        !failed.contains(found[k]),
        forall|j: int| 0 <= j < k ==> failed.contains(#[trigger] found[j]),
    ensures
        first_unfailed(found, failed) == Some(found[k]),
    decreases k,
{
    if k > 0 {
        assert(failed.contains(found[0]));
        let d = found.drop_first();
        assert forall|j: int| 0 <= j < k - 1 implies failed.contains(#[trigger] d[j]) by {
            assert(d[j] == found[j + 1]);
        }
        lemma_first_unfailed_at(d, failed, k - 1);
    }
}

/// When a query for a pending layer reports providers, the client records
/// for that layer the first reported provider that has not failed, whatever
/// providers the other layers have, and leaves the providers of the other
/// layers as they were.
pub proof fn lemma_found_records_first_unfailed(
    s: ClientModel,
    token: u64,
    found: Seq<Seq<u8>>,
    now: u128,
    k: int,
)
    requires
        !s.finished,
        s.pending.contains_key(token),
        0 <= k < found.len(),
        !s.failed.contains(found[k]),
        forall|j: int| 0 <= j < k ==> s.failed.contains(#[trigger] found[j]),
    ensures
        ({
            let t = client_step(s, EventModel::Found(token, found), now).0;
            let l = s.pending[token];
            &&& t.providers.contains_key(l)
            &&& t.providers[l] == found[k]
            &&& forall|l2: u32|
                l2 != l ==> (#[trigger] t.providers.contains_key(l2) == s.providers.contains_key(l2)
                    && (s.providers.contains_key(l2) ==> t.providers[l2] == s.providers[l2]))
        }),
{
    lemma_first_unfailed_at(found, s.failed, k);
}

/// A failure is retried at most `MAX_RETRIES` times. Once the client has
/// retried that often, the next failure stops it with `OutboundFailed`.
/// Before that, a failure marks the peer as failed, drops it from the cache
/// of every layer, forgets the providers and has them looked up again.
pub proof fn lemma_failure(s: ClientModel, p: Seq<u8>, now: u128)
    requires
        client_wf(s),
        !s.finished,
    ensures
        s.retry_count == MAX_RETRIES ==> client_step(s, EventModel::Failure(p), now) == (
        ClientModel { finished: true, ..s }, seq![ActionModel::FinishErr(ClientError::OutboundFailed { retries: MAX_RETRIES })]),
        s.retry_count < MAX_RETRIES ==> ({
            let (t, acts) = client_step(s, EventModel::Failure(p), now);
            &&& acts.len() == 0
            &&& !t.finished
            &&& t.retry_count == s.retry_count + 1
            &&& t.failed == s.failed.insert(p)
            &&& t.providers.is_empty()
            &&& !t.queries_sent
            &&& !t.chain_built
            &&& forall|i: int, j: int|
                0 <= i < s.layers.len() && 0 <= j < providers_of(t.cache, s.layers[i]).len() ==> (
                #[trigger] providers_of(t.cache, s.layers[i])[j]).0 != p
        }),
{
    lemma_evict_all_drops(s.cache, s.layers, p);
}

/// A client that has stopped stays stopped and asks for nothing more; the
/// answer to the forward pass stops it with that answer.
pub proof fn lemma_finish(s: ClientModel, e: EventModel, now: u128, r: ResponseModel)
    ensures
        s.finished ==> client_step(s, e, now) == (s, Seq::<ActionModel>::empty()),
        !s.finished ==> client_step(s, EventModel::Response(r), now) == (
        ClientModel { finished: true, ..s }, seq![ActionModel::FinishOk(r)]),
{
}

impl ClientState {
    /// Records, for the layer of query `token`, the first provider of `found`
    /// that has not failed, and closes the query. Gives the moment at which
    /// the provider was cached.
    fn on_found(&mut self, token: u64, found: &Vec<PeerKey>) -> (now: Ghost<u128>)
        ensures
            final(self)@ == on_found(old(self)@, token, key_views(found@), now@),
            final(self).cache_ttl() == old(self).cache_ttl(),
    {
        let ghost s0 = self@;
        let layer = match self.pending_queries.get(&token) {
            None => {
                return Ghost(0);
            },
            Some(l) => *l,
        };
        let pick = first_unfailed_of(found, &self.failed_peers);
        proof {
            lemma_first_unfailed(key_views(found@), s0.failed);
        }
        let ghost mut now: u128 = 0;
        match pick {
            Some(p) => {
                let ghost pv = p@;
                let p2 = p.clone();
                let ghost before = self.providers@;
                self.providers.insert(layer, p);
                assert(self.providers@.map_values(|q: PeerKey| q@) =~= s0.providers.insert(layer, pv));
                let ghost c0 = self.provider_cache@;
                self.provider_cache.insert(layer, p2);
                proof {
                    now = choose|t: u128|
                        self.provider_cache@ == c0.insert(layer, providers_of(c0, layer).push((pv, t)));
                }
            },
            None => {},
        }
        self.pending_queries.remove(&token);
        Ghost(now)
    }

    /// Marks `peer` as failed, drops it from the cache of every layer, and
    /// forgets the chain so that the providers are looked up again.
    fn on_failure(&mut self, peer: PeerKey)
        requires
            old(self)@.retry_count < MAX_RETRIES,
        ensures
            final(self)@ == on_failure(old(self)@, peer@),
            final(self).cache_ttl() == old(self).cache_ttl(),
    {
        let ghost s0 = self@;
        self.retry_count = self.retry_count + 1;
        self.providers = HashMap::new();
        self.queries_sent = false;
        self.chain_built = false;
        self.current_chain = Vec::new();
        assert(self@.providers =~= Map::<u32, Seq<u8>>::empty());
        assert(self@.current_chain =~= Seq::<Seq<u8>>::empty());
        let ghost s1 = self@;
        let mut i: usize = 0;
        while i < self.layers.len()
            invariant
                i <= self.layers@.len(),
                self.layers@ == s0.layers,
                self.cache_ttl() == old(self).cache_ttl(),
                self@ == (ClientModel {
                    cache: evict_all(s0.cache, s0.layers.take(i as int), peer@),
                    ..s1
                }),
            decreases self.layers@.len() - i,
        {
            let layer = self.layers[i];
            assert(s0.layers.take(i + 1).drop_last() =~= s0.layers.take(i as int));
            self.provider_cache.evict(layer, &peer);
            i = i + 1;
        }
        assert(s0.layers.take(i as int) =~= s0.layers);
        let ghost fv = key_views(self.failed_peers@);
        self.failed_peers.push(peer);
        assert(key_views(self.failed_peers@) =~= fv.push(peer@));
        assert(self@.failed =~= s0.failed.insert(peer@)) by {
            assert(fv.push(peer@).to_set() =~= fv.to_set().insert(peer@)) by {
                broadcast use vstd::seq_lib::group_seq_properties;
            }
        }
    }

    /// Whether every layer has a provider.
    fn every_layer_has_provider(&self) -> (r: bool)
        ensures
            r == forall|i: int| 0 <= i < self@.layers.len() ==> self@.providers.contains_key(#[trigger] self@.layers[i]),
    {
        let mut i: usize = 0;
        while i < self.layers.len()
            invariant
                i <= self.layers@.len(),
                forall|k: int| 0 <= k < i ==> self@.providers.contains_key(#[trigger] self@.layers[k]),
            decreases self.layers@.len() - i,
        {
            if !self.providers.contains_key(&self.layers[i]) {
                assert(!self@.providers.contains_key(self@.layers[i as int]));
                return false;
            }
            i = i + 1;
        }
        true
    }

    /// The provider of each layer, in the order of the layers.
    fn chain(&self) -> (r: Vec<PeerKey>)
        requires
            forall|i: int| 0 <= i < self@.layers.len() ==> self@.providers.contains_key(#[trigger] self@.layers[i]),
        ensures
            key_views(r@) == chain_of(self@),
    {
        let mut out: Vec<PeerKey> = Vec::new();
        let mut i: usize = 0;
        while i < self.layers.len()
            invariant
                i <= self.layers@.len(),
                forall|k: int| 0 <= k < self@.layers.len() ==> self@.providers.contains_key(#[trigger] self@.layers[k]),
                key_views(out@) == chain_of(self@).take(i as int),
            decreases self.layers@.len() - i,
        {
            let l = self.layers[i];
            assert(self@.providers.contains_key(self@.layers[i as int]));
            match self.providers.get(&l) {
                Some(p) => {
                    let ghost before = out@;
                    assert(self.providers@[l] == *p);
                    let q = p.clone();
                    assert(q@ == chain_of(self@)[i as int]);
                    out.push(q);
                    assert(key_views(out@) =~= key_views(before).push(q@));
                    assert(chain_of(self@).take(i + 1) =~= chain_of(self@).take(i as int).push(
                        chain_of(self@)[i as int],
                    ));
                },
                None => {
                    assert(false);
                },
            }
            i = i + 1;
        }
        assert(chain_of(self@).take(i as int) =~= chain_of(self@));
        out
    }

    /// Starts the provider queries once bootstrapped, then sends the request
    /// once every layer has a provider; the actions go to `actions`.
    fn after_kad(&mut self, actions: &mut Vec<ClientAction>)
        requires
            old(actions)@.len() == 0,
        ensures
            (final(self)@, action_views(final(actions)@)) == after_kad(old(self)@),
            final(self).cache_ttl() == old(self).cache_ttl(),
    {
        let ghost s0 = self@;
        if self.bootstrapped && !self.queries_sent {
            self.queries_sent = true;
            let ghost s1 = self@;
            let ghost t0 = self.next_token;
            let mut i: usize = 0;
            while i < self.layers.len()
                invariant
                    i <= self.layers@.len(),
                    self.layers@ == s1.layers,
                    self.cache_ttl() == old(self).cache_ttl(),
                    self@ == (ClientModel {
                        pending: queries_for(s1.pending, s1.layers.take(i as int), t0),
                        next_token: token_after(t0, i as nat),
                        ..s1
                    }),
                    action_views(actions@) == Seq::new(
                        i as nat,
                        |j: int| ActionModel::FindProviders(s1.layers[j], token_after(t0, j as nat)),
                    ),
                decreases self.layers@.len() - i,
            {
                let layer = self.layers[i];
                let token = self.next_token;
                let ghost before = actions@;
                let act = ClientAction::FindProviders { layer, token };
                assert(act@ == ActionModel::FindProviders(s1.layers[i as int], token_after(t0, i as nat)));
                actions.push(act);
                assert(actions@ == before.push(act));
                assert(action_views(actions@) =~= action_views(before).push(act@));
                assert(action_views(actions@) =~= Seq::new(
                    (i + 1) as nat,
                    |j: int| ActionModel::FindProviders(s1.layers[j], token_after(t0, j as nat)),
                ));
                self.pending_queries.insert(token, layer);
                self.next_token = if token == u64::MAX {
                    0
                } else {
                    token + 1
                };
                assert(s1.layers.take(i + 1).drop_last() =~= s1.layers.take(i as int));
                i = i + 1;
            }
            assert(s1.layers.take(i as int) =~= s1.layers);
        } else {
            assert(action_views(actions@) =~= Seq::<ActionModel>::empty());
        }
        let ghost s2 = self@;
        let ghost a2 = action_views(actions@);
        if !self.chain_built && self.bootstrapped && self.pending_queries.is_empty()
            && self.layers.len() > 0 && self.every_layer_has_provider() {
            let chain = self.chain();
            let n: u64 = self.payload.len() as u64 / 4;
            let shape: Vec<u64> = vec![1u64, n];
            assert(shape@ =~= seq![1u64, (s2.payload.len() / 4) as u64]);
            let ghost m = client_request(chain_of(s2), s2.payload);
            assert(chain@.map_values(|p: PeerKey| p@) == key_views(chain@));
            match ForwardPassRequest::build(
                chain.as_slice(),
                0,
                1,
                Dtype::F32,
                shape.as_slice(),
                self.payload.as_slice(),
                None,
            ) {
                Ok(request) => {
                    assert(chain@.len() > 0);
                    let first = chain[0].clone();
                    assert(first@ == chain_of(s2)[0]);
                    let ghost rv = request@;
                    actions.push(ClientAction::SendRequest { peer: first, request });
                    assert(action_views(actions@) =~= a2.push(ActionModel::SendRequest(chain_of(s2)[0], m)));
                    self.current_chain = chain;
                    self.chain_built = true;
                },
                Err(e) => {
                    self.finished = true;
                    let err = ClientError::Build(e);
                    actions.push(ClientAction::Finish { result: Err(err) });
                    assert(action_views(actions@) =~= a2.push(ActionModel::FinishErr(err)));
                },
            }
        }
    }
}

} // verus!
