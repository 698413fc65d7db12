//! What the network knows of its servers and of the blocks they serve.
//!
//! Rates, throughputs and round-trip times are carried as the bit patterns of
//! their `f64` values: the library passes them on and never computes with them.
use vstd::prelude::*;
use crate::peer::PeerKey;

verus! {

/// Life-cycle state of a server, ordered `Offline < Joining < Online`.
#[derive(Debug, Clone, Copy, PartialEq, Eq, Structural)]
pub enum ServerState {
    Offline,
    Joining,
    Online,
}

/// The number of a state: 0, 1 or 2.
pub open spec fn state_rank(s: ServerState) -> u8 {
    match s {
        ServerState::Offline => 0,
        ServerState::Joining => 1,
        ServerState::Online => 2,
    }
}

impl ServerState {
    /// The state numbered `v`, if there is one.
    pub fn from_u8(v: u8) -> (r: Option<ServerState>)
        ensures
            v <= 2 ==> (r matches Some(s) && state_rank(s) == v),
            v > 2 ==> r is None,
    {
        match v {
            0 => Some(ServerState::Offline),
            1 => Some(ServerState::Joining),
            2 => Some(ServerState::Online),
            _ => None,
        }
    }

    /// The number of this state.
    pub fn rank(self) -> (r: u8)
        ensures
            r == state_rank(self),
    {
        match self {
            ServerState::Offline => 0,
            ServerState::Joining => 1,
            ServerState::Online => 2,
        }
    }
}

/// A measured round-trip time to a peer named by its base-58 text.
#[derive(Debug)]
pub struct PingEntry {
    pub peer: String,
    pub rtt_bits: u64,
}

impl Clone for PingEntry {
    fn clone(&self) -> (r: PingEntry)
        ensures
            r == *self,
    {
        PingEntry { peer: self.peer.clone(), rtt_bits: self.rtt_bits }
    }
}

/// What a server announces about itself.
#[derive(Debug)]
pub struct ServerInfo {
    pub state: ServerState,
    pub throughput_bits: u64,
    pub start_block: Option<u32>,
    pub end_block: Option<u32>,
    pub public_name: Option<String>,
    pub version: Option<String>,
    pub network_rps_bits: Option<u64>,
    pub forward_rps_bits: Option<u64>,
    pub inference_rps_bits: Option<u64>,
    pub adapters: Vec<String>,
    pub torch_dtype: Option<String>,
    pub quant_type: Option<String>,
    pub using_relay: Option<bool>,
    pub cache_tokens_left: Option<u32>,
    pub next_pings: Option<Vec<PingEntry>>,
}

/// The content of a `ServerInfo`.
pub struct ServerInfoView {
    pub state: ServerState,
    pub throughput_bits: u64,
    pub start_block: Option<u32>,
    pub end_block: Option<u32>,
    pub public_name: Option<String>,
    pub version: Option<String>,
    pub network_rps_bits: Option<u64>,
    pub forward_rps_bits: Option<u64>,
    pub inference_rps_bits: Option<u64>,
    pub adapters: Seq<String>,
    pub torch_dtype: Option<String>,
    pub quant_type: Option<String>,
    pub using_relay: Option<bool>,
    pub cache_tokens_left: Option<u32>,
    pub next_pings: Option<Seq<PingEntry>>,
}

impl View for ServerInfo {
    type V = ServerInfoView;

    open spec fn view(&self) -> ServerInfoView {
        ServerInfoView {
            state: self.state,
            throughput_bits: self.throughput_bits,
            start_block: self.start_block,
            end_block: self.end_block,
            public_name: self.public_name,
            version: self.version,
            network_rps_bits: self.network_rps_bits,
            forward_rps_bits: self.forward_rps_bits,
            inference_rps_bits: self.inference_rps_bits,
            adapters: self.adapters@,
            torch_dtype: self.torch_dtype,
            quant_type: self.quant_type,
            using_relay: self.using_relay,
            cache_tokens_left: self.cache_tokens_left,
            next_pings: match self.next_pings {
                None => None,
                Some(v) => Some(v@),
            },
        }
    }
}

fn clone_text(o: &Option<String>) -> (r: Option<String>)
    ensures
        r == *o,
{
    match o {
        None => None,
        Some(s) => Some(s.clone()),
    }
}

fn clone_texts(v: &Vec<String>) -> (r: Vec<String>)
    ensures
        r@ == v@,
{
    let r = v.clone();
    assert(r@ =~= v@);
    r
}

fn clone_pings(o: &Option<Vec<PingEntry>>) -> (r: Option<Vec<PingEntry>>)
    ensures
        match (o, r) {
            (None, None) => true,
            (Some(a), Some(b)) => b@ == a@,
            _ => false,
        },
{
    match o {
        None => None,
        Some(v) => {
            let mut out: Vec<PingEntry> = Vec::new();
            let mut i: usize = 0;
            while i < v.len()
                invariant
                    i <= v@.len(),
                    out@ == v@.take(i as int),
                decreases v@.len() - i,
            {
                out.push(v[i].clone());
                assert(out@ =~= v@.take(i + 1));
                i = i + 1;
            }
            assert(v@.take(v@.len() as int) =~= v@);
            Some(out)
        },
    }
}

impl Clone for ServerInfo {
    fn clone(&self) -> (r: ServerInfo)
        ensures
            r@ == self@,
    {
        ServerInfo {
            state: self.state,
            throughput_bits: self.throughput_bits,
            start_block: self.start_block,
            end_block: self.end_block,
            public_name: clone_text(&self.public_name),
            version: clone_text(&self.version),
            network_rps_bits: self.network_rps_bits,
            forward_rps_bits: self.forward_rps_bits,
            inference_rps_bits: self.inference_rps_bits,
            adapters: clone_texts(&self.adapters),
            torch_dtype: clone_text(&self.torch_dtype),
            quant_type: clone_text(&self.quant_type),
            using_relay: self.using_relay,
            cache_tokens_left: self.cache_tokens_left,
            next_pings: clone_pings(&self.next_pings),
        }
    }
}

impl ServerInfo {
    /// A server in `state` with the given throughput and nothing else known.
    pub fn new(state: ServerState, throughput_bits: u64) -> (r: ServerInfo)
        ensures
            r@ == (ServerInfoView {
                state,
                throughput_bits,
                start_block: None,
                end_block: None,
                public_name: None,
                version: None,
                network_rps_bits: None,
                forward_rps_bits: None,
                inference_rps_bits: None,
                adapters: Seq::empty(),
                torch_dtype: None,
                quant_type: None,
                using_relay: None,
                cache_tokens_left: None,
                next_pings: None,
            }),
    {
        ServerInfo {
            state,
            throughput_bits,
            start_block: None,
            end_block: None,
            public_name: None,
            version: None,
            network_rps_bits: None,
            forward_rps_bits: None,
            inference_rps_bits: None,
            adapters: Vec::new(),
            torch_dtype: None,
            quant_type: None,
            using_relay: None,
            cache_tokens_left: None,
            next_pings: None,
        }
    }

    /// The same server, announcing blocks `start` to `end`.
    pub fn with_blocks(self, start: u32, end: u32) -> (r: ServerInfo)
        ensures
            r@ == (ServerInfoView { start_block: Some(start), end_block: Some(end), ..self@ }),
    {
        let mut s = self;
        s.start_block = Some(start);
        s.end_block = Some(end);
        s
    }

    /// The same server, announcing its network, forward and inference rates.
    pub fn with_throughput_info(self, network_bits: u64, forward_bits: u64, inference_bits: u64) -> (r:
        ServerInfo)
        ensures
            r@ == (ServerInfoView {
                network_rps_bits: Some(network_bits),
                forward_rps_bits: Some(forward_bits),
                inference_rps_bits: Some(inference_bits),
                ..self@
            }),
    {
        let mut s = self;
        s.network_rps_bits = Some(network_bits);
        s.forward_rps_bits = Some(forward_bits);
        s.inference_rps_bits = Some(inference_bits);
        s
    }
}

/// The model a swarm serves.
#[derive(Debug)]
pub struct ModelInfo {
    pub num_blocks: u32,
    pub repository: Option<String>,
}

impl Clone for ModelInfo {
    fn clone(&self) -> (r: ModelInfo)
        ensures
            r == *self,
    {
        ModelInfo { num_blocks: self.num_blocks, repository: clone_text(&self.repository) }
    }
}

/// One block of the model and the servers that hold it, each server once.
#[derive(Debug)]
pub struct RemoteModuleInfo {
    uid: String,
    servers: Vec<(PeerKey, ServerInfo)>,
}

/// The content of a `RemoteModuleInfo`.
pub struct ModuleView {
    pub uid: Seq<char>,
    pub servers: Seq<(Seq<u8>, ServerInfoView)>,
}

/// Whether no peer occurs twice among `servers`.
pub open spec fn servers_distinct(servers: Seq<(Seq<u8>, ServerInfoView)>) -> bool {
    forall|i: int, j: int| 0 <= i < j < servers.len() ==> (#[trigger] servers[i]).0 != (#[trigger] servers[j]).0
}

/// The servers after recording `info` for `peer`: the peer's earlier entry
/// is replaced in place, or the peer is added at the end.
pub open spec fn server_inserted(
    servers: Seq<(Seq<u8>, ServerInfoView)>,
    peer: Seq<u8>,
    info: ServerInfoView,
) -> Seq<(Seq<u8>, ServerInfoView)> {
    if exists|i: int| 0 <= i < servers.len() && (#[trigger] servers[i]).0 == peer {
        let i = choose|i: int| 0 <= i < servers.len() && (#[trigger] servers[i]).0 == peer;
        servers.update(i, (peer, info))
    } else {
        servers.push((peer, info))
    }
}

impl View for RemoteModuleInfo {
    type V = ModuleView;

    closed spec fn view(&self) -> ModuleView {
        ModuleView {
            uid: self.uid@,
            servers: self.servers@.map_values(|e: (PeerKey, ServerInfo)| (e.0@, e.1@)),
        }
    }
}

impl RemoteModuleInfo {
    #[verifier::type_invariant]
    spec fn inv(self) -> bool {
        servers_distinct(self@.servers)
    }

    /// The block named `uid`, with no servers.
    pub fn new(uid: String) -> (r: RemoteModuleInfo)
        ensures
            r@.uid == uid@,
            r@.servers.len() == 0,
    {
        let r = RemoteModuleInfo { uid, servers: Vec::new() };
        assert(r@.servers =~= Seq::<(Seq<u8>, ServerInfoView)>::empty());
        r
    }

    /// The name of the block.
    pub fn uid(&self) -> (r: &str)
        ensures
            r@ == self@.uid,
    {
        self.uid.as_str()
    }

    /// The servers of the block, each once.
    pub fn servers(&self) -> (r: &[(PeerKey, ServerInfo)])
        ensures
            r@.map_values(|e: (PeerKey, ServerInfo)| (e.0@, e.1@)) == self@.servers,
            servers_distinct(self@.servers),
    {
        proof {
            use_type_invariant(self);
        }
        self.servers.as_slice()
    }

    /// Records `info` as what `peer` reports for this block, replacing what
    /// it reported before.
    pub fn insert_server(&mut self, peer: PeerKey, info: ServerInfo)
        ensures
            final(self)@.uid == old(self)@.uid,
            final(self)@.servers == server_inserted(old(self)@.servers, peer@, info@),
            servers_distinct(final(self)@.servers),
    {
        proof {
            use_type_invariant(&*self);
        }
        let ghost sv = self@.servers;
        let ghost pv = peer@;
        let ghost iv = info@;
        let mut found: Option<usize> = None;
        let mut i: usize = 0;
        while i < self.servers.len()
            invariant_except_break
                found is None,
            invariant
                i <= self.servers@.len(),
                sv == self@.servers,
                sv.len() == self.servers@.len(),
                pv == peer@,
                forall|k: int| 0 <= k < i ==> (#[trigger] sv[k]).0 != pv,
            ensures
                found matches Some(k) ==> k < sv.len() && sv[k as int].0 == pv,
                found is None ==> forall|k: int| 0 <= k < sv.len() ==> (#[trigger] sv[k]).0 != pv,
            decreases self.servers@.len() - i,
        {
            assert(sv[i as int] == (self.servers@[i as int].0@, self.servers@[i as int].1@));
            if self.servers[i].0.same(&peer) {
                found = Some(i);
                break;
            }
            i = i + 1;
        }
        let mut servers: Vec<(PeerKey, ServerInfo)> = Vec::new();
        std::mem::swap(&mut servers, &mut self.servers);
        assert(servers@.map_values(|e: (PeerKey, ServerInfo)| (e.0@, e.1@)) == sv);
        match found {
            Some(k) => {
                assert(sv[k as int].0 == pv);
                assert(forall|j: int| 0 <= j < sv.len() && (#[trigger] sv[j]).0 == pv ==> j == k) by {
                    assert forall|j: int| 0 <= j < sv.len() && (#[trigger] sv[j]).0 == pv implies j == k by {
                        if j != k {
                            if j < k {
                                assert(sv[j].0 != sv[k as int].0);
                            } else {
                                assert(sv[k as int].0 != sv[j].0);
                            }
                        }
                    }
                }
                servers.set(k, (peer, info));
                assert(servers@.map_values(|e: (PeerKey, ServerInfo)| (e.0@, e.1@)) =~= sv.update(
                    k as int,
                    (pv, iv),
                ));
                assert(server_inserted(sv, pv, iv) == sv.update(k as int, (pv, iv)));
            },
            None => {
                servers.push((peer, info));
                assert(servers@.map_values(|e: (PeerKey, ServerInfo)| (e.0@, e.1@)) =~= sv.push(
                    (pv, iv),
                ));
                assert(!exists|j: int| 0 <= j < sv.len() && (#[trigger] sv[j]).0 == pv);
            },
        }
        self.servers = servers;
    }
}

/// A run of consecutive blocks `start..end` served by one peer.
#[derive(Debug)]
pub struct RemoteSpanInfo {
    pub peer_id: PeerKey,
    pub start: usize,
    pub end: usize,
    pub server_info: ServerInfo,
}

/// The content of a `RemoteSpanInfo`.
pub struct SpanView {
    pub peer: Seq<u8>,
    pub start: nat,
    pub end: nat,
    pub info: ServerInfoView,
}

impl View for RemoteSpanInfo {
    type V = SpanView;

    open spec fn view(&self) -> SpanView {
        SpanView {
            peer: self.peer_id@,
            start: self.start as nat,
            end: self.end as nat,
            info: self.server_info@,
        }
    }
}

impl Clone for RemoteSpanInfo {
    fn clone(&self) -> (r: RemoteSpanInfo)
        ensures
            r@ == self@,
    {
        RemoteSpanInfo {
            peer_id: self.peer_id.clone(),
            start: self.start,
            end: self.end,
            server_info: self.server_info.clone(),
        }
    }
}

impl RemoteSpanInfo {
    /// The number of blocks of the span.
    pub fn length(&self) -> (r: usize)
        requires
            self.start <= self.end,
        ensures
            r == self.end - self.start,
    {
        self.end - self.start
    }
}

} // verus!
