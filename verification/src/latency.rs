//! The graph through which a client looks for its fastest route, and the
//! spans of a route found in it.
//!
//! Node 0 stands for the client before the first block, node 1 for the
//! client after the last; every other node is a peer serving a block. An
//! edge leads from the client to each server of the first block, from each
//! server of the last block back to the client, from a server to itself at
//! the next block while its span goes on, and from a server whose span ends
//! to each server of the next block. The delays along the edges are
//! measured in floating point, so the search for the fastest route happens
//! beside the library; each edge says what its delay is made of.
use vstd::prelude::*;
use crate::peer::{peer_id_base58, PeerKey};
use crate::spans::{covers, lemma_spans_at_cover, span_views, spans_at, spans_containing_block};
use crate::types::{PingEntry, RemoteSpanInfo, ServerInfo, ServerInfoView, ServerState, SpanView};

verus! {

/// A node of the route graph.
#[derive(Debug)]
pub enum RouteNode {
    /// The client, before the first block.
    Start,
    /// The client, after the last block.
    End,
    /// `peer` serving `block`.
    Server { peer: PeerKey, block: usize },
}

/// The content of a `RouteNode`.
pub enum NodeView {
    Start,
    End,
    Server(Seq<u8>, nat),
}

impl View for RouteNode {
    type V = NodeView;

    open spec fn view(&self) -> NodeView {
        match self {
            RouteNode::Start => NodeView::Start,
            RouteNode::End => NodeView::End,
            RouteNode::Server { peer, block } => NodeView::Server(peer@, *block as nat),
        }
    }
}

/// What the delay along an edge is made of.
#[derive(Debug)]
pub enum EdgeKind {
    /// From the client to `peer`: half the round trip between them, plus overhead.
    FromClient { peer: PeerKey },
    /// From `peer` back to the client: half the round trip between them.
    ToClient { peer: PeerKey },
    /// Within a span: one forward pass at the server's inference rate, when it
    /// announced one.
    WithinSpan { inference_rps_bits: Option<u64> },
    /// From the end of `from`'s span to `to`: half the round trip between the
    /// servers, plus overhead; `ping_bits` is the round trip that `from`
    /// announced to `to`, if it did.
    ToNextSpan { from: PeerKey, to: PeerKey, ping_bits: Option<u64> },
}

/// The content of an `EdgeKind`.
pub enum KindView {
    FromClient(Seq<u8>),
    ToClient(Seq<u8>),
    WithinSpan(Option<u64>),
    ToNextSpan(Seq<u8>, Seq<u8>, Option<u64>),
}

impl View for EdgeKind {
    type V = KindView;

    open spec fn view(&self) -> KindView {
        match self {
            EdgeKind::FromClient { peer } => KindView::FromClient(peer@),
            EdgeKind::ToClient { peer } => KindView::ToClient(peer@),
            EdgeKind::WithinSpan { inference_rps_bits } => KindView::WithinSpan(*inference_rps_bits),
            EdgeKind::ToNextSpan { from, to, ping_bits } => KindView::ToNextSpan(from@, to@, *ping_bits),
        }
    }
}

/// An edge of the route graph, between node numbers.
#[derive(Debug)]
pub struct RouteEdge {
    pub from: usize,
    pub to: usize,
    pub kind: EdgeKind,
}

/// The content of a `RouteEdge`.
pub struct EdgeView {
    pub from: nat,
    pub to: nat,
    pub kind: KindView,
}

impl View for RouteEdge {
    type V = EdgeView;

    open spec fn view(&self) -> EdgeView {
        EdgeView { from: self.from as nat, to: self.to as nat, kind: self.kind@ }
    }
}

pub open spec fn node_views(s: Seq<RouteNode>) -> Seq<NodeView> {
    s.map_values(|n: RouteNode| n@)
}

pub open spec fn edge_views(s: Seq<RouteEdge>) -> Seq<EdgeView> {
    s.map_values(|e: RouteEdge| e@)
}

pub open spec fn containing_views(c: Seq<Vec<RemoteSpanInfo>>) -> Seq<Seq<SpanView>> {
    c.map_values(|v: Vec<RemoteSpanInfo>| span_views(v@))
}

/// `acc` with `x` added at the end, unless it is there already.
pub open spec fn add_node(acc: Seq<NodeView>, x: NodeView) -> Seq<NodeView> {
    if acc.contains(x) {
        acc
    } else {
        acc.push(x)
    }
}

/// `acc` with a node added for the peer of each of `spans` at block `b`.
pub open spec fn block_nodes(acc: Seq<NodeView>, spans: Seq<SpanView>, b: nat) -> Seq<NodeView>
    decreases spans.len(),
{
    if spans.len() == 0 {
        acc
    } else {
        add_node(block_nodes(acc, spans.drop_last(), b), NodeView::Server(spans.last().peer, b))
    }
}

/// The nodes of the graph over the servers `c` of each block: the two ends
/// of the client, then each peer at each block it serves, block by block,
/// once each.
pub open spec fn graph_nodes(c: Seq<Seq<SpanView>>) -> Seq<NodeView>
    decreases c.len(),
{
    if c.len() == 0 {
        seq![NodeView::Start, NodeView::End]
    } else {
        block_nodes(graph_nodes(c.drop_last()), c.last(), (c.len() - 1) as nat)
    }
}

/// The number of the node of `peer` at block `b`.
pub open spec fn node_id(nodes: Seq<NodeView>, peer: Seq<u8>, b: nat) -> nat {
    nodes.index_of(NodeView::Server(peer, b)) as nat
}

/// The round trip that `info` announces to the peer named `name`.
pub open spec fn ping_in(pings: Seq<PingEntry>, name: Seq<char>) -> Option<u64>
    decreases pings.len(),
{
    if pings.len() == 0 {
        None
    } else if pings[0].peer@ == name {
        Some(pings[0].rtt_bits)
    } else {
        ping_in(pings.drop_first(), name)
    }
}

/// The round trip that `info` announces to `peer`, if it does.
pub open spec fn announced_ping(info: ServerInfoView, peer: Seq<u8>) -> Option<u64> {
    match info.next_pings {
        Some(pings) => ping_in(pings, peer_id_base58(peer)),
        None => None,
    }
}

/// `ping_in` finds the first entry naming `name`, and nothing when none does.
proof fn lemma_ping_in(pings: Seq<PingEntry>, name: Seq<char>)
    ensures
        (forall|i: int| 0 <= i < pings.len() ==> (#[trigger] pings[i]).peer@ != name) ==> ping_in(
            pings,
            name,
        ) is None,
        forall|i: int|
            0 <= i < pings.len() && (#[trigger] pings[i]).peer@ == name && (forall|j: int|
                0 <= j < i ==> (#[trigger] pings[j]).peer@ != name) ==> ping_in(pings, name) == Some(
                pings[i].rtt_bits,
            ),
    decreases pings.len(),
{
    if pings.len() > 0 {
        let d = pings.drop_first();
        lemma_ping_in(d, name);
        if pings[0].peer@ != name {
            assert forall|i: int|
                0 <= i < pings.len() && (#[trigger] pings[i]).peer@ == name && (forall|j: int|
                    0 <= j < i ==> (#[trigger] pings[j]).peer@ != name) implies ping_in(pings, name)
                == Some(pings[i].rtt_bits) by {
                assert(i > 0);
                assert(d[i - 1] == pings[i]);
                assert forall|j: int| 0 <= j < i - 1 implies (#[trigger] d[j]).peer@ != name by {
                    assert(d[j] == pings[j + 1]);
                }
            }
            if forall|i: int| 0 <= i < pings.len() ==> (#[trigger] pings[i]).peer@ != name {
                assert forall|i: int| 0 <= i < d.len() implies (#[trigger] d[i]).peer@ != name by {
                    assert(d[i] == pings[i + 1]);
                }
            }
        } else {
            assert forall|i: int|
                0 <= i < pings.len() && (#[trigger] pings[i]).peer@ == name && (forall|j: int|
                    0 <= j < i ==> (#[trigger] pings[j]).peer@ != name) implies ping_in(pings, name)
                == Some(pings[i].rtt_bits) by {
                if i > 0 {
                    assert(pings[0].peer@ != name);
                }
            }
        }
    }
}

/// The round trip a server announced to a peer is that of the first entry
/// of its announced pings that names the peer by its base-58 text; there is
/// none when no entry names it, or when the server announced no pings.
pub proof fn lemma_announced_ping(info: ServerInfoView, peer: Seq<u8>)
    ensures
        info.next_pings is None ==> announced_ping(info, peer) is None,
        info.next_pings matches Some(pings) ==> {
            let name = peer_id_base58(peer);
            &&& (forall|i: int| 0 <= i < pings.len() ==> (#[trigger] pings[i]).peer@ != name)
                ==> announced_ping(info, peer) is None
            &&& forall|i: int|
                0 <= i < pings.len() && (#[trigger] pings[i]).peer@ == name && (forall|j: int|
                    0 <= j < i ==> (#[trigger] pings[j]).peer@ != name) ==> announced_ping(info, peer)
                    == Some(pings[i].rtt_bits)
        },
{
    match info.next_pings {
        Some(pings) => lemma_ping_in(pings, peer_id_base58(peer)),
        None => {},
    }
}

/// The edges from the client to the servers `c0` of the first block.
pub open spec fn start_edges(nodes: Seq<NodeView>, c0: Seq<SpanView>) -> Seq<EdgeView> {
    c0.map_values(
        |s: SpanView| EdgeView { from: 0, to: node_id(nodes, s.peer, 0), kind: KindView::FromClient(s.peer) },
    )
}

/// The edges from the servers `cl` of the last block `last` to the client.
pub open spec fn end_edges(nodes: Seq<NodeView>, cl: Seq<SpanView>, last: nat) -> Seq<EdgeView> {
    cl.map_values(
        |s: SpanView| EdgeView { from: node_id(nodes, s.peer, last), to: 1, kind: KindView::ToClient(s.peer) },
    )
}

/// The edges leaving the node of span `s` at block `b`: on along its span,
/// or, where it ends, to every server of the next block.
pub open spec fn span_edges(nodes: Seq<NodeView>, c: Seq<Seq<SpanView>>, b: nat, s: SpanView) -> Seq<
    EdgeView,
> {
    let from = node_id(nodes, s.peer, b);
    (if b + 1 < s.end {
        seq![
            EdgeView {
                from,
                to: node_id(nodes, s.peer, b + 1),
                kind: KindView::WithinSpan(s.info.inference_rps_bits),
            },
        ]
    } else {
        Seq::empty()
    }) + (if b + 1 < c.len() && s.end == b + 1 {
        c[b + 1 as int].map_values(
            |t: SpanView|
                EdgeView {
                    from,
                    to: node_id(nodes, t.peer, b + 1),
                    kind: KindView::ToNextSpan(s.peer, t.peer, announced_ping(s.info, t.peer)),
                },
        )
    } else {
        Seq::empty()
    })
}

/// The edges leaving the nodes of the first `k` spans of block `b`, in order.
pub open spec fn block_edges(nodes: Seq<NodeView>, c: Seq<Seq<SpanView>>, b: nat, k: nat) -> Seq<EdgeView>
    decreases k,
{
    if k == 0 {
        Seq::empty()
    } else {
        block_edges(nodes, c, b, (k - 1) as nat) + span_edges(nodes, c, b, c[b as int][k - 1])
    }
}

/// The edges leaving the servers of the first `b` blocks, block by block.
pub open spec fn inner_edges(nodes: Seq<NodeView>, c: Seq<Seq<SpanView>>, b: nat) -> Seq<EdgeView>
    decreases b,
{
    if b == 0 {
        Seq::empty()
    } else {
        inner_edges(nodes, c, (b - 1) as nat) + block_edges(
            nodes,
            c,
            (b - 1) as nat,
            c[b - 1].len(),
        )
    }
}

/// The edges of the graph over the servers `c` of each block, in the order
/// in which they are tried.
pub open spec fn graph_edges(c: Seq<Seq<SpanView>>) -> Seq<EdgeView> {
    let nodes = graph_nodes(c);
    start_edges(nodes, c[0]) + end_edges(nodes, c[c.len() - 1], (c.len() - 1) as nat) + inner_edges(
        nodes,
        c,
        c.len(),
    )
}

/// The servers of each of the first `n` blocks among `spans`.
pub open spec fn containing_of(spans: Seq<SpanView>, n: nat) -> Seq<Seq<SpanView>> {
    Seq::new(n, |b: int| spans_at(spans, b as nat))
}

proof fn lemma_add_node(acc: Seq<NodeView>, x: NodeView)
    requires
        acc.no_duplicates(),
    ensures
        add_node(acc, x).no_duplicates(),
        add_node(acc, x).contains(x),
        forall|y: NodeView| acc.contains(y) ==> add_node(acc, x).contains(y),
        acc.len() <= add_node(acc, x).len(),
        forall|i: int| 0 <= i < acc.len() ==> add_node(acc, x)[i] == acc[i],
{
    if !acc.contains(x) {
        let r = acc.push(x);
        assert forall|i: int, j: int| 0 <= i < r.len() && 0 <= j < r.len() && i != j implies r[i] != r[j] by {
            if i < acc.len() && j < acc.len() {
            } else if i == acc.len() {
                assert(acc[j] == r[j]);
            } else {
                assert(acc[i] == r[i]);
            }
        }
        assert(r[acc.len() as int] == x);
        assert forall|y: NodeView| acc.contains(y) implies r.contains(y) by {
            let i = choose|i: int| 0 <= i < acc.len() && acc[i] == y;
            assert(r[i] == y);
        }
    }
}

proof fn lemma_block_nodes(acc: Seq<NodeView>, spans: Seq<SpanView>, b: nat)
    requires
        acc.no_duplicates(),
    ensures
        block_nodes(acc, spans, b).no_duplicates(),
        forall|y: NodeView| acc.contains(y) ==> block_nodes(acc, spans, b).contains(y),
        forall|k: int| 0 <= k < spans.len() ==> block_nodes(acc, spans, b).contains(
            NodeView::Server(#[trigger] spans[k].peer, b),
        ),
        acc.len() <= block_nodes(acc, spans, b).len(),
        forall|i: int| 0 <= i < acc.len() ==> block_nodes(acc, spans, b)[i] == acc[i],
    decreases spans.len(),
{
    if spans.len() > 0 {
        let r = block_nodes(acc, spans.drop_last(), b);
        lemma_block_nodes(acc, spans.drop_last(), b);
        lemma_add_node(r, NodeView::Server(spans.last().peer, b));
        assert forall|k: int| 0 <= k < spans.len() implies block_nodes(acc, spans, b).contains(
            NodeView::Server(#[trigger] spans[k].peer, b),
        ) by {
            if k < spans.len() - 1 {
                assert(spans.drop_last()[k] == spans[k]);
            }
        }
    }
}

proof fn lemma_graph_nodes(c: Seq<Seq<SpanView>>)
    ensures
        graph_nodes(c).no_duplicates(),
        graph_nodes(c).len() >= 2,
        graph_nodes(c)[0] == NodeView::Start,
        graph_nodes(c)[1] == NodeView::End,
        forall|b: int, k: int|
            0 <= b < c.len() && 0 <= k < c[b].len() ==> graph_nodes(c).contains(
                NodeView::Server(#[trigger] c[b][k].peer, b as nat),
            ),
    decreases c.len(),
{
    if c.len() == 0 {
        let g = seq![NodeView::Start, NodeView::End];
        assert(g[0] != g[1]);
    } else {
        let d = c.drop_last();
        lemma_graph_nodes(d);
        lemma_block_nodes(graph_nodes(d), c.last(), (c.len() - 1) as nat);
        assert forall|b: int, k: int| 0 <= b < c.len() && 0 <= k < c[b].len() implies graph_nodes(
            c,
        ).contains(NodeView::Server(#[trigger] c[b][k].peer, b as nat)) by {
            if b < c.len() - 1 {
                assert(d[b] == c[b]);
                assert(graph_nodes(d).contains(NodeView::Server(d[b][k].peer, b as nat)));
            } else {
                assert(c.last()[k] == c[b][k]);
            }
        }
    }
}

/// The graph over which the fastest route through `spans` is sought.
#[derive(Debug)]
pub struct RouteGraph {
    /// Node 0 and 1 are the client; the others are servers at blocks.
    pub nodes: Vec<RouteNode>,
    /// The edges, in the order in which they are tried.
    pub edges: Vec<RouteEdge>,
    /// The servers of each block.
    pub containing: Vec<Vec<RemoteSpanInfo>>,
}

/// Where the node of `peer` at `block` stands among `nodes`, if it does.
fn find_node(nodes: &Vec<RouteNode>, peer: &PeerKey, block: usize) -> (r: Option<usize>)
    ensures
        match r {
            Some(i) => i < nodes@.len() && node_views(nodes@)[i as int] == NodeView::Server(
                peer@,
                block as nat,
            ),
            None => !node_views(nodes@).contains(NodeView::Server(peer@, block as nat)),
        },
{
    let mut i: usize = 0;
    while i < nodes.len()
        invariant
            i <= nodes@.len(),
            forall|j: int| 0 <= j < i ==> node_views(nodes@)[j] != NodeView::Server(peer@, block as nat),
        decreases nodes@.len() - i,
    {
        let found = match &nodes[i] {
            RouteNode::Server { peer: q, block: b } => q.same(peer) && *b == block,
            _ => false,
        };
        if found {
            return Some(i);
        }
        i = i + 1;
    }
    None
}

/// The number of the node of `peer` at `block`, which is among `nodes` once.
fn node_index(nodes: &Vec<RouteNode>, peer: &PeerKey, block: usize) -> (r: usize)
    requires
        node_views(nodes@).no_duplicates(),
        node_views(nodes@).contains(NodeView::Server(peer@, block as nat)),
    ensures
        r == node_id(node_views(nodes@), peer@, block as nat),
        r < nodes@.len(),
{
    match find_node(nodes, peer, block) {
        Some(i) => {
            let ghost ns = node_views(nodes@);
            let ghost x = NodeView::Server(peer@, block as nat);
            assert(ns.index_of(x) == i as int) by {
                let j = ns.index_of(x);
                assert(0 <= j < ns.len() && ns[j] == x);
            }
            i
        },
        None => {
            assert(false);
            0
        },
    }
}

/// The nodes of the graph over the servers `containing` of each block.
fn build_nodes(containing: &Vec<Vec<RemoteSpanInfo>>) -> (r: Vec<RouteNode>)
    ensures
        node_views(r@) == graph_nodes(containing_views(containing@)),
{
    let ghost c = containing_views(containing@);
    let mut nodes: Vec<RouteNode> = Vec::new();
    nodes.push(RouteNode::Start);
    nodes.push(RouteNode::End);
    assert(node_views(nodes@) =~= graph_nodes(c.take(0)));
    let mut b: usize = 0;
    while b < containing.len()
        invariant
            b <= containing@.len(),
            c == containing_views(containing@),
            node_views(nodes@) == graph_nodes(c.take(b as int)),
        decreases containing@.len() - b,
    {
        let spans = &containing[b];
        let ghost sv = c[b as int];
        assert(sv == span_views(spans@));
        let ghost base = graph_nodes(c.take(b as int));
        assert(base == block_nodes(base, sv.take(0), b as nat)) by {
            assert(sv.take(0) =~= Seq::<SpanView>::empty());
        }
        let mut k: usize = 0;
        while k < spans.len()
            invariant
                k <= spans@.len(),
                sv == span_views(spans@),
                node_views(nodes@) == block_nodes(base, sv.take(k as int), b as nat),
            decreases spans@.len() - k,
        {
            let peer = &spans[k].peer_id;
            assert(sv.take(k + 1).drop_last() =~= sv.take(k as int));
            assert(sv.take(k + 1).last().peer == peer@);
            let ghost before = node_views(nodes@);
            if find_node(&nodes, peer, b).is_none() {
                nodes.push(RouteNode::Server { peer: peer.clone(), block: b });
                assert(node_views(nodes@) =~= before.push(NodeView::Server(peer@, b as nat)));
            }
            k = k + 1;
        }
        assert(sv.take(k as int) =~= sv);
        assert(c.take(b + 1).drop_last() =~= c.take(b as int));
        assert(c.take(b + 1).last() == sv);
        b = b + 1;
    }
    assert(c.take(b as int) =~= c);
    nodes
}

/// A span that covers block `b` is among the spans at `b`.
proof fn lemma_spans_at_complete(s: Seq<SpanView>, b: nat, i: int)
    requires
        0 <= i < s.len(),
        covers(s[i], b),
    ensures
        spans_at(s, b).contains(s[i]),
    decreases s.len(),
{
    if i < s.len() - 1 {
        lemma_spans_at_complete(s.drop_last(), b, i);
        assert(s.drop_last()[i] == s[i]);
        let r0 = spans_at(s.drop_last(), b);
        let k = choose|k: int| 0 <= k < r0.len() && r0[k] == s[i];
        if covers(s.last(), b) {
            assert(spans_at(s, b)[k] == r0[k]);
        }
    } else {
        assert(spans_at(s, b)[spans_at(s, b).len() - 1] == s.last());
    }
}

/// The round trip that `info` announces to `peer`, if it does.
fn announced_ping_of(info: &ServerInfo, peer: &PeerKey) -> (r: Option<u64>)
    ensures
        r == announced_ping(info@, peer@),
{
    match &info.next_pings {
        None => None,
        Some(pings) => {
            assert(announced_ping(info@, peer@) == ping_in(pings@, peer_id_base58(peer@)));
            let name = peer.to_base58();
            let mut i: usize = 0;
            assert(pings@.skip(0) =~= pings@);
            while i < pings.len()
                invariant
                    i <= pings@.len(),
                    name@ == peer_id_base58(peer@),
                    announced_ping(info@, peer@) == ping_in(pings@, name@),
                    ping_in(pings@, name@) == ping_in(pings@.skip(i as int), name@),
                decreases pings@.len() - i,
            {
                assert(pings@.skip(i as int).drop_first() =~= pings@.skip(i + 1));
                assert(pings@.skip(i as int)[0] == pings@[i as int]);
                if pings[i].peer == name {
                    assert(ping_in(pings@.skip(i as int), name@) == Some(pings@[i as int].rtt_bits));
                    return Some(pings[i].rtt_bits);
                }
                i = i + 1;
            }
            None
        },
    }
}

/// Whether each span at a block that goes on past the next block is also
/// among the servers of the next block.
#[verifier::opaque]
pub open spec fn spans_continue(c: Seq<Seq<SpanView>>) -> bool {
    forall|b: int, k: int|
        0 <= b < c.len() && 0 <= k < c[b].len() && b + 1 < (#[trigger] c[b][k]).end ==> b + 1 < c.len()
            && exists|j: int| 0 <= j < c[b + 1].len() && (#[trigger] c[b + 1][j]).peer == c[b][k].peer
}

/// Whether every edge of `es` joins two of the first `n` nodes.
pub open spec fn edges_within(es: Seq<RouteEdge>, n: nat) -> bool {
    forall|i: int| 0 <= i < es.len() ==> (#[trigger] es[i]).from < n && es[i].to < n
}

/// Whether `ns` are the nodes of the graph over `c`: once each, with a node
/// for every server at every block it serves.
#[verifier::opaque]
pub open spec fn nodes_ready(ns: Seq<NodeView>, c: Seq<Seq<SpanView>>) -> bool {
    &&& ns == graph_nodes(c)
    &&& ns.no_duplicates()
    &&& forall|b: int, j: int|
        0 <= b < c.len() && 0 <= j < c[b].len() ==> ns.contains(
            NodeView::Server(#[trigger] c[b][j].peer, b as nat),
        )
}

/// The number of the node of the `k`-th server at block `b`.
fn server_index(nodes: &Vec<RouteNode>, containing: &Vec<Vec<RemoteSpanInfo>>, b: usize, k: usize) -> (r:
    usize)
    requires
        b < containing@.len(),
        k < containing@[b as int]@.len(),
        nodes_ready(node_views(nodes@), containing_views(containing@)),
    ensures
        r == node_id(
            node_views(nodes@),
            containing_views(containing@)[b as int][k as int].peer,
            b as nat,
        ),
        r < nodes@.len(),
{
    let ghost c = containing_views(containing@);
    proof {
        reveal(nodes_ready);
    }
    assert(c[b as int][k as int] == containing@[b as int]@[k as int]@);
    assert(node_views(nodes@).contains(NodeView::Server(c[b as int][k as int].peer, b as nat)));
    node_index(nodes, &containing[b][k].peer_id, b)
}

/// Appends the edges from the client to the servers of the first block.
fn push_start_edges(edges: &mut Vec<RouteEdge>, nodes: &Vec<RouteNode>, containing: &Vec<Vec<RemoteSpanInfo>>)
    requires
        edges_within(old(edges)@, nodes@.len() as nat),
        nodes@.len() >= 2,
        containing@.len() > 0,
        nodes_ready(node_views(nodes@), containing_views(containing@)),
    ensures
        edges_within(final(edges)@, nodes@.len() as nat),
        edge_views(final(edges)@) == edge_views(old(edges)@) + start_edges(
            node_views(nodes@),
            containing_views(containing@)[0],
        ),
{
    let ghost c = containing_views(containing@);
    let ghost ns = node_views(nodes@);
    let ghost start = edge_views(edges@);
    let ghost c0 = c[0];
    assert(c0 == span_views(containing@[0]@));
    assert(start + start_edges(ns, c0.take(0)) =~= start);
    let mut k: usize = 0;
    while k < containing[0].len()
        invariant
            k <= containing@[0]@.len(),
            c0 == span_views(containing@[0]@),
            c == containing_views(containing@),
            c0 == c[0],
            ns == node_views(nodes@),
            nodes_ready(ns, c),
            containing@.len() > 0,
            nodes@.len() >= 2,
            edges_within(edges@, nodes@.len() as nat),
            edge_views(edges@) == start + start_edges(ns, c0.take(k as int)),
        decreases containing@[0]@.len() - k,
    {
        let to = server_index(nodes, containing, 0, k);
        let peer = containing[0][k].peer_id.clone();
        assert(peer@ == c0[k as int].peer);
        let e = RouteEdge { from: 0, to, kind: EdgeKind::FromClient { peer } };
        let ghost ev = EdgeView { from: 0, to: to as nat, kind: KindView::FromClient(c0[k as int].peer) };
        assert(e@ == ev);
        let ghost before = edges@;
        edges.push(e);
        assert(edge_views(edges@) =~= edge_views(before).push(ev));
        assert(start_edges(ns, c0.take(k + 1)) =~= start_edges(ns, c0.take(k as int)).push(ev));
        assert(edge_views(edges@) =~= start + start_edges(ns, c0.take(k + 1)));
        k = k + 1;
    }
    assert(c0.take(k as int) =~= c0);
}

/// Appends the edges from the servers of the last block to the client.
fn push_end_edges(edges: &mut Vec<RouteEdge>, nodes: &Vec<RouteNode>, containing: &Vec<Vec<RemoteSpanInfo>>)
    requires
        edges_within(old(edges)@, nodes@.len() as nat),
        nodes@.len() >= 2,
        containing@.len() > 0,
        nodes_ready(node_views(nodes@), containing_views(containing@)),
    ensures
        edges_within(final(edges)@, nodes@.len() as nat),
        edge_views(final(edges)@) == edge_views(old(edges)@) + end_edges(
            node_views(nodes@),
            containing_views(containing@)[containing@.len() - 1],
            (containing@.len() - 1) as nat,
        ),
{
    let ghost c = containing_views(containing@);
    let ghost ns = node_views(nodes@);
    let ghost start = edge_views(edges@);
    let last = containing.len() - 1;
    let ghost cl = c[last as int];
    assert(cl == span_views(containing@[last as int]@));
    assert(start + end_edges(ns, cl.take(0), last as nat) =~= start);
    let mut k: usize = 0;
    while k < containing[last].len()
        invariant
            last < containing@.len(),
            k <= containing@[last as int]@.len(),
            cl == span_views(containing@[last as int]@),
            c == containing_views(containing@),
            cl == c[last as int],
            ns == node_views(nodes@),
            nodes_ready(ns, c),
            nodes@.len() >= 2,
            edges_within(edges@, nodes@.len() as nat),
            edge_views(edges@) == start + end_edges(ns, cl.take(k as int), last as nat),
        decreases containing@[last as int]@.len() - k,
    {
        let from = server_index(nodes, containing, last, k);
        let peer = containing[last][k].peer_id.clone();
        assert(peer@ == cl[k as int].peer);
        let e = RouteEdge { from, to: 1, kind: EdgeKind::ToClient { peer } };
        let ghost ev = EdgeView { from: from as nat, to: 1, kind: KindView::ToClient(cl[k as int].peer) };
        assert(e@ == ev);
        let ghost before = edges@;
        edges.push(e);
        assert(edge_views(edges@) =~= edge_views(before).push(ev));
        assert(end_edges(ns, cl.take(k + 1), last as nat) =~= end_edges(ns, cl.take(k as int), last as nat).push(ev));
        assert(edge_views(edges@) =~= start + end_edges(ns, cl.take(k + 1), last as nat));
        k = k + 1;
    }
    assert(cl.take(k as int) =~= cl);
}

/// Appends the edges from the end of the span of the `k`-th server at block
/// `b` to every server of the next block.
fn push_hops(
    edges: &mut Vec<RouteEdge>,
    nodes: &Vec<RouteNode>,
    containing: &Vec<Vec<RemoteSpanInfo>>,
    b: usize,
    k: usize,
    from: usize,
)
    requires
        edges_within(old(edges)@, nodes@.len() as nat),
        b + 1 < containing@.len(),
        k < containing@[b as int]@.len(),
        nodes_ready(node_views(nodes@), containing_views(containing@)),
        from == node_id(node_views(nodes@), containing_views(containing@)[b as int][k as int].peer, b as nat),
        from < nodes@.len(),
    ensures
        edges_within(final(edges)@, nodes@.len() as nat),
        ({
            let c = containing_views(containing@);
            let x = c[b as int][k as int];
            edge_views(final(edges)@) == edge_views(old(edges)@) + c[b + 1].map_values(
                |t: SpanView|
                    EdgeView {
                        from: from as nat,
                        to: node_id(node_views(nodes@), t.peer, (b + 1) as nat),
                        kind: KindView::ToNextSpan(x.peer, t.peer, announced_ping(x.info, t.peer)),
                    },
            )
        }),
{
    let ghost c = containing_views(containing@);
    let ghost ns = node_views(nodes@);
    let ghost x = c[b as int][k as int];
    let n = containing.len();
    let s = &containing[b][k];
    assert(x == s@);
    let ghost start = edge_views(edges@);
    let ghost nv = c[(b + 1) as int];
    let ghost hop = |t: SpanView|
        EdgeView {
            from: from as nat,
            to: node_id(ns, t.peer, (b + 1) as nat),
            kind: KindView::ToNextSpan(x.peer, t.peer, announced_ping(x.info, t.peer)),
        };
    let b1 = b + 1;
    assert(nv == span_views(containing@[b1 as int]@));
    assert(start + nv.take(0).map_values(hop) =~= start);
    let mut j: usize = 0;
    while j < containing[b1].len()
        invariant
            b1 == b + 1,
            b1 < containing@.len(),
            j <= containing@[b1 as int]@.len(),
            nv == span_views(containing@[b1 as int]@),
            c == containing_views(containing@),
            nv == c[(b + 1) as int],
            x == s@,
            ns == node_views(nodes@),
            nodes_ready(ns, c),
            forall|t: SpanView|
                #[trigger] hop(t) == (EdgeView {
                    from: from as nat,
                    to: node_id(ns, t.peer, (b + 1) as nat),
                    kind: KindView::ToNextSpan(x.peer, t.peer, announced_ping(x.info, t.peer)),
                }),
            from < nodes@.len(),
            edges_within(edges@, nodes@.len() as nat),
            edge_views(edges@) == start + nv.take(j as int).map_values(hop),
        decreases containing@[b1 as int]@.len() - j,
    {
        let to = server_index(nodes, containing, b1, j);
        let t = &containing[b1][j];
        assert(nv[j as int] == t@);
        let ping_bits = announced_ping_of(&s.server_info, &t.peer_id);
        let e = RouteEdge {
            from,
            to,
            kind: EdgeKind::ToNextSpan { from: s.peer_id.clone(), to: t.peer_id.clone(), ping_bits },
        };
        assert(e@.from == hop(t@).from);
        assert(e@.to == hop(t@).to);
        assert(s.server_info@ == x.info);
        assert(ping_bits == announced_ping(x.info, t@.peer));
        assert(e@.kind == hop(t@).kind);
        assert(e@ == hop(t@));
        let ghost before = edges@;
        edges.push(e);
        assert(edge_views(edges@) =~= edge_views(before).push(hop(t@)));
        assert(nv.take(j + 1).map_values(hop) =~= nv.take(j as int).map_values(hop).push(hop(t@)));
        assert(edge_views(edges@) =~= start + nv.take(j + 1).map_values(hop));
        j = j + 1;
    }
    assert(nv.take(j as int) =~= nv);
}

/// The span of the `k`-th server at block `b` going on past the next block,
/// its peer has a node at the next block.
proof fn lemma_next_node(ns: Seq<NodeView>, c: Seq<Seq<SpanView>>, b: int, k: int)
    requires
        0 <= b < c.len(),
        0 <= k < c[b].len(),
        b + 1 < c[b][k].end,
        nodes_ready(ns, c),
        spans_continue(c),
    ensures
        b + 1 < c.len(),
        ns.no_duplicates(),
        ns.contains(NodeView::Server(c[b][k].peer, (b + 1) as nat)),
{
    reveal(spans_continue);
    reveal(nodes_ready);
    assert(b + 1 < c.len() && exists|j: int| 0 <= j < c[b + 1].len() && (#[trigger] c[b + 1][j]).peer == c[b][k].peer);
    let j = choose|j: int| 0 <= j < c[b + 1].len() && (#[trigger] c[b + 1][j]).peer == c[b][k].peer;
    assert(ns.contains(NodeView::Server(c[b + 1][j].peer, (b + 1) as nat)));
}

/// Appends the edges leaving the node of the `k`-th server at block `b`.
fn push_span_edges(
    edges: &mut Vec<RouteEdge>,
    nodes: &Vec<RouteNode>,
    containing: &Vec<Vec<RemoteSpanInfo>>,
    b: usize,
    k: usize,
)
    requires
        edges_within(old(edges)@, nodes@.len() as nat),
        b < containing@.len(),
        k < containing@[b as int]@.len(),
        nodes_ready(node_views(nodes@), containing_views(containing@)),
        spans_continue(containing_views(containing@)),
    ensures
        edges_within(final(edges)@, nodes@.len() as nat),
        edge_views(final(edges)@) == edge_views(old(edges)@) + span_edges(
            node_views(nodes@),
            containing_views(containing@),
            b as nat,
            containing_views(containing@)[b as int][k as int],
        ),
{
    let ghost c = containing_views(containing@);
    let ghost ns = node_views(nodes@);
    let ghost x = c[b as int][k as int];
    let n = containing.len();
    let s = &containing[b][k];
    assert(x == s@);
    let ghost head = edge_views(edges@);
    let from = server_index(nodes, containing, b, k);
    let b1 = b + 1;
    let ghost within = if b + 1 < x.end {
        seq![
            EdgeView {
                from: from as nat,
                to: node_id(ns, x.peer, (b + 1) as nat),
                kind: KindView::WithinSpan(x.info.inference_rps_bits),
            },
        ]
    } else {
        Seq::<EdgeView>::empty()
    };
    if b1 < s.end {
        proof {
            lemma_next_node(ns, c, b as int, k as int);
        }
        let to = node_index(nodes, &s.peer_id, b1);
        let e = RouteEdge { from, to, kind: EdgeKind::WithinSpan { inference_rps_bits: s.server_info.inference_rps_bits } };
        let ghost before = edges@;
        edges.push(e);
        assert(edge_views(edges@) =~= edge_views(before).push(e@));
    }
    assert(edge_views(edges@) =~= head + within);
    if b1 < n && s.end == b1 {
        push_hops(edges, nodes, containing, b, k, from);
    }
    assert(edge_views(edges@) =~= head + span_edges(ns, c, b as nat, x));
}

/// The edges of the graph whose nodes are `nodes`, over the servers
/// `containing` of each block.
fn build_edges(nodes: &Vec<RouteNode>, containing: &Vec<Vec<RemoteSpanInfo>>) -> (r: Vec<RouteEdge>)
    requires
        containing@.len() > 0,
        nodes_ready(node_views(nodes@), containing_views(containing@)),
        spans_continue(containing_views(containing@)),
        nodes@.len() >= 2,
    ensures
        edge_views(r@) == graph_edges(containing_views(containing@)),
        edges_within(r@, nodes@.len() as nat),
{
    let ghost c = containing_views(containing@);
    let ghost ns = node_views(nodes@);
    let mut edges: Vec<RouteEdge> = Vec::new();
    push_start_edges(&mut edges, nodes, containing);
    push_end_edges(&mut edges, nodes, containing);
    let ghost pre = edge_views(edges@);
    assert(pre + inner_edges(ns, c, 0) =~= pre);
    let mut b: usize = 0;
    while b < containing.len()
        invariant
            b <= containing@.len(),
            c == containing_views(containing@),
            ns == node_views(nodes@),
            nodes_ready(ns, c),
            spans_continue(c),
            edges_within(edges@, nodes@.len() as nat),
            edge_views(edges@) == pre + inner_edges(ns, c, b as nat),
        decreases containing@.len() - b,
    {
        let ghost mid = edge_views(edges@);
        assert(mid + block_edges(ns, c, b as nat, 0) =~= mid);
        let mut k: usize = 0;
        while k < containing[b].len()
            invariant
                b < containing@.len(),
                k <= containing@[b as int]@.len(),
                c == containing_views(containing@),
                ns == node_views(nodes@),
                nodes_ready(ns, c),
                spans_continue(c),
                edges_within(edges@, nodes@.len() as nat),
                edge_views(edges@) == mid + block_edges(ns, c, b as nat, k as nat),
            decreases containing@[b as int]@.len() - k,
        {
            push_span_edges(&mut edges, nodes, containing, b, k);
            assert(edge_views(edges@) =~= mid + block_edges(ns, c, b as nat, (k + 1) as nat));
            k = k + 1;
        }
        assert(c[b as int].len() == containing@[b as int]@.len());
        assert(edge_views(edges@) =~= pre + inner_edges(ns, c, (b + 1) as nat));
        b = b + 1;
    }
    proof {
        reveal(nodes_ready);
    }
    assert(edge_views(edges@) =~= graph_edges(c));
    edges
}

/// Whether `spans` can be routed over `num_blocks` blocks: a span that
/// starts among the blocks ends by the last of them.
pub open spec fn spans_within(spans: Seq<SpanView>, num_blocks: nat) -> bool {
    forall|i: int| 0 <= i < spans.len() && #[trigger] spans[i].start < num_blocks ==> spans[i].end <= num_blocks
}

proof fn lemma_spans_continue(spans: Seq<SpanView>, n: nat)
    requires
        spans_within(spans, n),
    ensures
        spans_continue(containing_of(spans, n)),
{
    reveal(spans_continue);
    let c = containing_of(spans, n);
    assert forall|b: int, k: int|
        0 <= b < c.len() && 0 <= k < c[b].len() && b + 1 < (#[trigger] c[b][k]).end implies b + 1
        < c.len() && exists|j: int| 0 <= j < c[b + 1].len() && (#[trigger] c[b + 1][j]).peer == c[b][k].peer by {
        lemma_spans_at_cover(spans, b as nat);
        let x = c[b][k];
        assert(spans_at(spans, b as nat)[k] == x);
        assert(covers(x, b as nat) && spans.contains(x));
        let i = choose|i: int| 0 <= i < spans.len() && spans[i] == x;
        assert(spans[i].start < n);
        lemma_spans_at_complete(spans, (b + 1) as nat, i);
        let j = choose|j: int| 0 <= j < spans_at(spans, (b + 1) as nat).len() && #[trigger] spans_at(spans, (b + 1) as nat)[j] == x;
        assert(c[b + 1][j] == x);
    }
}

/// The graph in which the fastest route through `spans` over `num_blocks`
/// blocks is sought; `None` when there are no blocks, or the first or the
/// last block has no server.
pub fn route_graph(spans: &[RemoteSpanInfo], num_blocks: usize) -> (r: Option<RouteGraph>)
    requires
        spans_within(span_views(spans@), num_blocks as nat),
    ensures
        ({
            let c = containing_of(span_views(spans@), num_blocks as nat);
            &&& r is None <==> (num_blocks == 0 || c[0].len() == 0 || c[num_blocks - 1].len() == 0)
            &&& r matches Some(g) ==> {
                &&& containing_views(g.containing@) == c
                &&& node_views(g.nodes@) == graph_nodes(c)
                &&& edge_views(g.edges@) == graph_edges(c)
                &&& edges_within(g.edges@, g.nodes@.len() as nat)
            }
        }),
{
    let ghost sv = span_views(spans@);
    let ghost c = containing_of(sv, num_blocks as nat);
    let containing = spans_containing_block(spans, num_blocks);
    assert(containing_views(containing@) =~= c);
    if containing.len() == 0 || containing[0].len() == 0 || containing[num_blocks - 1].len() == 0 {
        return None;
    }
    let nodes = build_nodes(&containing);
    proof {
        lemma_graph_nodes(c);
        reveal(nodes_ready);
        lemma_spans_continue(sv, num_blocks as nat);
    }
    let edges = build_edges(&nodes, &containing);
    Some(RouteGraph { nodes, edges, containing })
}

/// The run of each peer along consecutive blocks: its peer, its first block
/// and the block after its last, for the peers `peers` of blocks `0, 1, ...`.
pub open spec fn runs(peers: Seq<Seq<u8>>) -> Seq<(Seq<u8>, nat, nat)>
    decreases peers.len(),
{
    if peers.len() == 0 {
        Seq::empty()
    } else {
        let r = runs(peers.drop_last());
        let b = (peers.len() - 1) as nat;
        let p = peers.last();
        if r.len() > 0 && r.last().0 == p {
            r.update(r.len() - 1, (p, r.last().1, b + 1))
        } else {
            r.push((p, b, b + 1))
        }
    }
}

/// What a server announced about itself when the spans say nothing: online,
/// with no throughput.
pub open spec fn unknown_info() -> ServerInfoView {
    ServerInfoView {
        state: ServerState::Online,
        throughput_bits: 0,
        start_block: None,
        end_block: None,
        public_name: None,
        version: None,
        network_rps_bits: None,
        forward_rps_bits: None,
        inference_rps_bits: None,
        adapters: Seq::empty(),
        torch_dtype: None,
        quant_type: None,
        using_relay: None,
        cache_tokens_left: None,
        next_pings: None,
    }
}

/// What the first of `spans` served by `p` says about its server.
pub open spec fn info_of_peer(spans: Seq<SpanView>, p: Seq<u8>) -> ServerInfoView
    decreases spans.len(),
{
    if spans.len() == 0 {
        unknown_info()
    } else if spans[0].peer == p {
        spans[0].info
    } else {
        info_of_peer(spans.drop_first(), p)
    }
}

/// The spans of the runs `r`, each with what the servers of its first block
/// `c` say about its peer.
pub open spec fn run_spans(r: Seq<(Seq<u8>, nat, nat)>, c: Seq<Seq<SpanView>>) -> Seq<SpanView> {
    r.map_values(
        |x: (Seq<u8>, nat, nat)| SpanView { peer: x.0, start: x.1, end: x.2, info: info_of_peer(c[x.1 as int], x.0) },
    )
}

/// The peers that the nodes `path` name, one per block.
pub open spec fn path_peers(ns: Seq<NodeView>, path: Seq<usize>, n: nat) -> Seq<Seq<u8>> {
    Seq::new(
        n,
        |k: int| match ns[path[k] as int] {
            NodeView::Server(p, _) => p,
            _ => Seq::empty(),
        },
    )
}

/// Whether `path` is a route through the nodes `ns` over `n` blocks: a node
/// serving each block in turn, then the client.
pub open spec fn is_route(ns: Seq<NodeView>, path: Seq<usize>, n: nat) -> bool {
    &&& path.len() == n + 1
    &&& path[n as int] == 1
    &&& forall|k: int|
        0 <= k < n ==> (#[trigger] path[k]) < ns.len() && (ns[path[k] as int] matches NodeView::Server(
            _,
            b,
        ) && b == k)
}

/// What the first of `spans` served by `peer` says about its server.
fn info_for(spans: &Vec<RemoteSpanInfo>, peer: &PeerKey) -> (r: ServerInfo)
    ensures
        r@ == info_of_peer(span_views(spans@), peer@),
{
    let ghost sv = span_views(spans@);
    let mut i: usize = 0;
    assert(sv.skip(0) =~= sv);
    while i < spans.len()
        invariant
            i <= spans@.len(),
            sv == span_views(spans@),
            info_of_peer(sv, peer@) == info_of_peer(sv.skip(i as int), peer@),
        decreases spans@.len() - i,
    {
        assert(sv.skip(i as int).drop_first() =~= sv.skip(i + 1));
        assert(sv.skip(i as int)[0] == spans@[i as int]@);
        if spans[i].peer_id.same(peer) {
            return spans[i].server_info.clone();
        }
        i = i + 1;
    }
    let r = ServerInfo::new(ServerState::Online, 0);
    assert(r@ =~= unknown_info());
    r
}

/// The spans of the route `path` through `graph`: each run of one peer along
/// consecutive blocks becomes one span, with what the servers of its first
/// block say about its peer.
pub fn route_spans(graph: &RouteGraph, path: &[usize]) -> (r: Vec<RemoteSpanInfo>)
    requires
        is_route(node_views(graph.nodes@), path@, graph.containing@.len() as nat),
    ensures
        span_views(r@) == run_spans(
            runs(path_peers(node_views(graph.nodes@), path@, graph.containing@.len() as nat)),
            containing_views(graph.containing@),
        ),
{
    let ghost ns = node_views(graph.nodes@);
    let ghost c = containing_views(graph.containing@);
    let n = graph.containing.len();
    let ghost peers = path_peers(ns, path@, n as nat);
    let mut result: Vec<RemoteSpanInfo> = Vec::new();
    assert(peers.take(0) =~= Seq::<Seq<u8>>::empty());
    assert(span_views(result@) =~= run_spans(runs(peers.take(0)), c));
    let mut k: usize = 0;
    while k < n
        invariant
            k <= n,
            n == graph.containing@.len(),
            ns == node_views(graph.nodes@),
            c == containing_views(graph.containing@),
            peers == path_peers(ns, path@, n as nat),
            is_route(ns, path@, n as nat),
            span_views(result@) == run_spans(runs(peers.take(k as int)), c),
            forall|i: int| 0 <= i < result@.len() ==> (#[trigger] result@[i]).start < n,
        decreases n - k,
    {
        let node = path[k];
        assert(path@[k as int] < ns.len());
        let ghost t = peers.take(k + 1);
        assert(t.drop_last() =~= peers.take(k as int));
        let ghost rr = runs(peers.take(k as int));
        match &graph.nodes[node] {
            RouteNode::Server { peer, block } => {
                assert(ns[node as int] == NodeView::Server(peer@, *block as nat));
                assert(t.last() == peer@ && *block == k);
                let len = result.len();
                let same = len > 0 && result[len - 1].peer_id.same(peer);
                assert(span_views(result@).len() == result@.len());
                assert(run_spans(rr, c).len() == rr.len());
                assert(rr.len() == len);
                if same {
                    assert(rr.len() > 0 && rr.last().0 == peer@) by {
                        assert(span_views(result@)[len - 1] == result@[len - 1]@);
                        assert(run_spans(rr, c)[len - 1].peer == rr[len - 1].0);
                    }
                    let ghost full = result@;
                    let mut last = result.pop().unwrap();
                    let ghost old_last = last@;
                    assert(old_last == full[len - 1]@);
                    assert(old_last == run_spans(rr, c)[len - 1]);
                    last.end = *block + 1;
                    let ghost before = result@;
                    assert(before =~= full.drop_last());
                    result.push(last);
                    assert(span_views(result@) =~= run_spans(runs(t), c)) by {
                        assert(runs(t) == rr.update(rr.len() - 1, (peer@, rr.last().1, (k + 1) as nat)));
                        assert(span_views(result@)[len - 1] == run_spans(runs(t), c)[len - 1]);
                        assert forall|i: int| 0 <= i < len - 1 implies span_views(result@)[i] == run_spans(
                            runs(t),
                            c,
                        )[i] by {
                            assert(result@[i] == full[i]);
                            assert(span_views(full)[i] == run_spans(rr, c)[i]);
                        }
                    }
                } else {
                    assert(!(rr.len() > 0 && rr.last().0 == peer@)) by {
                        if len > 0 {
                            assert(span_views(result@)[len - 1] == result@[len - 1]@);
                            assert(run_spans(rr, c)[len - 1].peer == rr[len - 1].0);
                        }
                    }
                    let info = info_for(&graph.containing[k], peer);
                    assert(span_views(graph.containing@[k as int]@) == c[k as int]);
                    let span = RemoteSpanInfo { peer_id: peer.clone(), start: *block, end: *block + 1, server_info: info };
                    let ghost before = result@;
                    result.push(span);
                    assert(span_views(result@) =~= span_views(before).push(span@));
                    assert(span_views(result@) =~= run_spans(runs(t), c));
                }
            },
            _ => {
                assert(false);
            },
        }
        k = k + 1;
    }
    assert(peers.take(k as int) =~= peers);
    result
}

/// The runs of a route cover its blocks from the first to the last, each
/// starting where the one before ends, its peer differing from the peer of
/// the run before.
pub proof fn lemma_runs_chain(peers: Seq<Seq<u8>>)
    ensures
        ({
            let r = runs(peers);
            &&& (r.len() == 0 <==> peers.len() == 0)
            &&& r.len() > 0 ==> r[0].1 == 0 && r.last().2 == peers.len()
            &&& forall|i: int| 0 <= i < r.len() ==> (#[trigger] r[i]).1 < r[i].2
            &&& forall|i: int| 0 <= i < r.len() - 1 ==> (#[trigger] r[i]).2 == r[i + 1].1 && r[i].0 != r[i + 1].0
        }),
    decreases peers.len(),
{
    if peers.len() > 0 {
        let d = peers.drop_last();
        lemma_runs_chain(d);
        let r0 = runs(d);
        let r = runs(peers);
        let p = peers.last();
        let merged = r0.len() > 0 && r0.last().0 == p;
        assert forall|i: int| 0 <= i < r.len() - 1 implies (#[trigger] r[i]).2 == r[i + 1].1 && r[i].0
            != r[i + 1].0 by {
            assert(r[i] == r0[i]);
            if i + 1 < r0.len() - 1 || (i + 1 < r0.len() && !merged) {
                assert(r[i + 1] == r0[i + 1]);
            }
        }
        assert forall|i: int| 0 <= i < r.len() implies (#[trigger] r[i]).1 < r[i].2 by {
            if i < r0.len() - 1 || (i < r0.len() && !merged) {
                assert(r[i] == r0[i]);
            }
        }
        if r0.len() > 0 {
            assert(r[0].1 == r0[0].1);
        }
    }
}

/// The peer of every block of a route is the peer of the run that covers it.
pub proof fn lemma_runs_cover(peers: Seq<Seq<u8>>, k: int)
    requires
        0 <= k < peers.len(),
    ensures
        exists|i: int| 0 <= i < runs(peers).len() && runs(peers)[i].1 <= k < runs(peers)[i].2 && #[trigger] runs(peers)[i].0 == peers[k],
    decreases peers.len(),
{
    let d = peers.drop_last();
    let r0 = runs(d);
    let r = runs(peers);
    let p = peers.last();
    let b = peers.len() - 1;
    if k < b {
        lemma_runs_cover(d, k);
        assert(d[k] == peers[k]);
        let i = choose|i: int| 0 <= i < r0.len() && r0[i].1 <= k < r0[i].2 && #[trigger] r0[i].0 == d[k];
        lemma_runs_chain(d);
        assert(r[i].1 == r0[i].1 && r[i].0 == r0[i].0 && r[i].2 >= r0[i].2);
        assert(r[i].0 == peers[k]);
    } else {
        lemma_runs_chain(d);
        let i = r.len() - 1;
        if r0.len() > 0 {
            assert(r0[r0.len() - 1].1 < r0[r0.len() - 1].2);
        }
        assert(r[i].0 == p && r[i].2 == b + 1 && r[i].1 <= b);
        assert(r[i].0 == peers[k]);
    }
}

/// The nodes met following `prev` back from `cur`, `cur` first, up to the
/// node that has no predecessor, which is left out; `None` when that takes
/// more than `fuel` steps or leads outside `prev`.
pub open spec fn trace(prev: Seq<Option<usize>>, cur: nat, fuel: nat) -> Option<Seq<usize>>
    decreases fuel,
{
    if cur >= prev.len() {
        None
    } else {
        match prev[cur as int] {
            None => Some(Seq::empty()),
            Some(p) => if fuel == 0 {
                None
            } else {
                match trace(prev, p as nat, (fuel - 1) as nat) {
                    None => None,
                    Some(rest) => Some(seq![cur as usize] + rest),
                }
            },
        }
    }
}

/// The route that the predecessors `prev` give back from the client's end
/// (node 1), in the order it is travelled: every node on it but the first,
/// which has no predecessor. `None` when following the predecessors leaves
/// the nodes or does not end within as many steps as there are nodes.
pub fn trace_route(prev: &[Option<usize>]) -> (r: Option<Vec<usize>>)
    ensures
        r is Some <==> trace(prev@, 1, prev@.len()) is Some,
        r matches Some(v) ==> v@ == trace(prev@, 1, prev@.len()).unwrap().reverse(),
{
    let ghost t0 = trace(prev@, 1, prev@.len());
    let mut back: Vec<usize> = Vec::new();
    let mut cur: usize = 1;
    let mut fuel: usize = prev.len();
    while cur < prev.len() && prev[cur].is_some() && fuel > 0
        invariant
            fuel <= prev@.len(),
            t0 == trace(prev@, 1, prev@.len()),
            t0 is Some <==> trace(prev@, cur as nat, fuel as nat) is Some,
            t0 is Some ==> t0.unwrap() == back@ + trace(prev@, cur as nat, fuel as nat).unwrap(),
        decreases fuel,
    {
        let p = prev[cur].unwrap();
        let ghost before = back@;
        back.push(cur);
        proof {
            let rest = trace(prev@, p as nat, (fuel - 1) as nat);
            if rest is Some {
                assert(trace(prev@, cur as nat, fuel as nat).unwrap() == seq![cur as usize]
                    + rest.unwrap());
                assert(back@ + rest.unwrap() =~= before + (seq![cur as usize] + rest.unwrap()));
            }
        }
        cur = p;
        fuel = fuel - 1;
    }
    if cur >= prev.len() {
        return None;
    }
    if prev[cur].is_some() {
        return None;
    }
    let ghost full = t0.unwrap();
    assert(trace(prev@, cur as nat, fuel as nat).unwrap() =~= Seq::<usize>::empty());
    assert(back@ =~= full);
    let mut out: Vec<usize> = Vec::new();
    let mut i: usize = back.len();
    while i > 0
        invariant
            i <= back@.len(),
            back@ == full,
            out@ =~= back@.subrange(i as int, back@.len() as int).reverse(),
        decreases i,
    {
        i = i - 1;
        out.push(back[i]);
        assert(out@ =~= back@.subrange(i as int, back@.len() as int).reverse());
    }
    assert(back@.subrange(0, back@.len() as int) =~= back@);
    Some(out)
}

/// The block of node `x`, or -1 for the client.
pub open spec fn block_of(x: NodeView) -> int {
    match x {
        NodeView::Server(_, b) => b as int,
        _ => -1,
    }
}

/// Whether edge `e` of the nodes `ns` leads from the client to a server of
/// the first block, from a server of the last of `n` blocks back to the
/// client, or from a server of one block to a server of the next.
pub open spec fn edge_advances(ns: Seq<NodeView>, e: EdgeView, n: nat) -> bool {
    &&& e.from < ns.len()
    &&& e.to < ns.len()
    &&& {
        ||| e.from == 0 && ns[e.to as int] is Server && block_of(ns[e.to as int]) == 0
        ||| e.to == 1 && ns[e.from as int] is Server && block_of(ns[e.from as int]) + 1 == n
        ||| ns[e.from as int] is Server && ns[e.to as int] is Server && block_of(ns[e.to as int])
            == block_of(ns[e.from as int]) + 1
    }
}

/// Every server node of the graph over `c` serves one of its blocks.
proof fn lemma_graph_node_blocks(c: Seq<Seq<SpanView>>)
    ensures
        forall|i: int|
            0 <= i < graph_nodes(c).len() ==> block_of(#[trigger] graph_nodes(c)[i]) < c.len(),
    decreases c.len(),
{
    if c.len() > 0 {
        let d = c.drop_last();
        lemma_graph_node_blocks(d);
        lemma_block_node_blocks(graph_nodes(d), c.last(), (c.len() - 1) as nat, c.len());
    }
}

proof fn lemma_block_node_blocks(acc: Seq<NodeView>, spans: Seq<SpanView>, b: nat, n: nat)
    requires
        b < n,
        forall|i: int| 0 <= i < acc.len() ==> block_of(#[trigger] acc[i]) < n,
    ensures
        forall|i: int|
            0 <= i < block_nodes(acc, spans, b).len() ==> block_of(#[trigger] block_nodes(acc, spans, b)[i]) < n,
    decreases spans.len(),
{
    if spans.len() > 0 {
        let r = block_nodes(acc, spans.drop_last(), b);
        lemma_block_node_blocks(acc, spans.drop_last(), b, n);
        let x = NodeView::Server(spans.last().peer, b);
        if !r.contains(x) {
            assert forall|i: int| 0 <= i < r.push(x).len() implies block_of(#[trigger] r.push(x)[i]) < n by {
                if i < r.len() {
                    assert(r.push(x)[i] == r[i]);
                }
            }
        }
    }
}

/// The node numbered by `node_id` is the node it numbers.
proof fn lemma_node_id(ns: Seq<NodeView>, p: Seq<u8>, b: nat)
    requires
        ns.contains(NodeView::Server(p, b)),
    ensures
        node_id(ns, p, b) < ns.len(),
        ns[node_id(ns, p, b) as int] == NodeView::Server(p, b),
{
}

/// The edges leaving the `k`-th server at block `b` advance by one block.
proof fn lemma_span_edges_advance(c: Seq<Seq<SpanView>>, b: int, k: int)
    requires
        0 <= b < c.len(),
        0 <= k < c[b].len(),
        spans_continue(c),
    ensures
        forall|i: int|
            0 <= i < span_edges(graph_nodes(c), c, b as nat, c[b][k]).len() ==> edge_advances(
                graph_nodes(c),
                #[trigger] span_edges(graph_nodes(c), c, b as nat, c[b][k])[i],
                c.len(),
            ),
{
    let ns = graph_nodes(c);
    let x = c[b][k];
    lemma_graph_nodes(c);
    lemma_node_id(ns, x.peer, b as nat);
    let es = span_edges(ns, c, b as nat, x);
    let within = if b + 1 < x.end {
        seq![
            EdgeView {
                from: node_id(ns, x.peer, b as nat),
                to: node_id(ns, x.peer, (b + 1) as nat),
                kind: KindView::WithinSpan(x.info.inference_rps_bits),
            },
        ]
    } else {
        Seq::<EdgeView>::empty()
    };
    if b + 1 < x.end {
        reveal(nodes_ready);
        lemma_next_node(ns, c, b, k);
        lemma_node_id(ns, x.peer, (b + 1) as nat);
    }
    assert forall|i: int| 0 <= i < es.len() implies edge_advances(ns, #[trigger] es[i], c.len()) by {
        if i < within.len() {
            assert(es[i] == within[i]);
        } else {
            let j = i - within.len();
            assert(b + 1 < c.len() && x.end == b + 1);
            assert(ns.contains(NodeView::Server(c[b + 1][j].peer, (b + 1) as nat)));
            lemma_node_id(ns, c[b + 1][j].peer, (b + 1) as nat);
        }
    }
}

proof fn lemma_block_edges_advance(c: Seq<Seq<SpanView>>, b: int, k: nat)
    requires
        0 <= b < c.len(),
        k <= c[b].len(),
        spans_continue(c),
    ensures
        forall|i: int|
            0 <= i < block_edges(graph_nodes(c), c, b as nat, k).len() ==> edge_advances(
                graph_nodes(c),
                #[trigger] block_edges(graph_nodes(c), c, b as nat, k)[i],
                c.len(),
            ),
    decreases k,
{
    if k > 0 {
        let ns = graph_nodes(c);
        let a = block_edges(ns, c, b as nat, (k - 1) as nat);
        let e = span_edges(ns, c, b as nat, c[b][k - 1]);
        lemma_block_edges_advance(c, b, (k - 1) as nat);
        lemma_span_edges_advance(c, b, k - 1);
        assert forall|i: int| 0 <= i < (a + e).len() implies edge_advances(ns, #[trigger] (a + e)[i], c.len()) by {
            if i < a.len() {
                assert((a + e)[i] == a[i]);
            } else {
                assert((a + e)[i] == e[i - a.len()]);
            }
        }
    }
}

proof fn lemma_inner_edges_advance(c: Seq<Seq<SpanView>>, b: nat)
    requires
        b <= c.len(),
        spans_continue(c),
    ensures
        forall|i: int|
            0 <= i < inner_edges(graph_nodes(c), c, b).len() ==> edge_advances(
                graph_nodes(c),
                #[trigger] inner_edges(graph_nodes(c), c, b)[i],
                c.len(),
            ),
    decreases b,
{
    if b > 0 {
        let ns = graph_nodes(c);
        let a = inner_edges(ns, c, (b - 1) as nat);
        let e = block_edges(ns, c, (b - 1) as nat, c[b - 1].len());
        lemma_inner_edges_advance(c, (b - 1) as nat);
        lemma_block_edges_advance(c, b - 1, c[b - 1].len());
        assert forall|i: int| 0 <= i < (a + e).len() implies edge_advances(ns, #[trigger] (a + e)[i], c.len()) by {
            if i < a.len() {
                assert((a + e)[i] == a[i]);
            } else {
                assert((a + e)[i] == e[i - a.len()]);
            }
        }
    }
}

/// Every edge of the graph leads from the client to a server of the first
/// block, from a server of the last block back to the client, or from a
/// server of one block to a server of the next.
pub proof fn lemma_edges_advance(c: Seq<Seq<SpanView>>)
    requires
        c.len() > 0,
        spans_continue(c),
    ensures
        forall|i: int|
            0 <= i < graph_edges(c).len() ==> edge_advances(graph_nodes(c), #[trigger] graph_edges(c)[i], c.len()),
{
    let ns = graph_nodes(c);
    let n = c.len();
    lemma_graph_nodes(c);
    let s = start_edges(ns, c[0]);
    let e = end_edges(ns, c[n - 1], (n - 1) as nat);
    let m = inner_edges(ns, c, n);
    lemma_inner_edges_advance(c, n);
    assert forall|i: int| 0 <= i < s.len() implies edge_advances(ns, #[trigger] s[i], n) by {
        assert(ns.contains(NodeView::Server(c[0][i].peer, 0)));
        lemma_node_id(ns, c[0][i].peer, 0);
    }
    assert forall|i: int| 0 <= i < e.len() implies edge_advances(ns, #[trigger] e[i], n) by {
        assert(ns.contains(NodeView::Server(c[n - 1][i].peer, (n - 1) as nat)));
        lemma_node_id(ns, c[n - 1][i].peer, (n - 1) as nat);
    }
    assert forall|i: int| 0 <= i < graph_edges(c).len() implies edge_advances(ns, #[trigger] graph_edges(c)[i], n) by {
        if i < s.len() {
            assert(graph_edges(c)[i] == s[i]);
        } else if i < s.len() + e.len() {
            assert(graph_edges(c)[i] == e[i - s.len()]);
        } else {
            assert(graph_edges(c)[i] == m[i - s.len() - e.len()]);
        }
    }
}

/// Whether consecutive nodes of the walk `w` are joined by edges of `es`.
pub open spec fn walk_along(es: Seq<EdgeView>, w: Seq<usize>) -> bool {
    forall|j: int|
        #![trigger w[j]]
        0 <= j < w.len() - 1 ==> exists|i: int|
            0 <= i < es.len() && (#[trigger] es[i]).from == w[j] && es[i].to == w[j + 1]
}

/// A walk along the edges of the graph from the client's start to its end
/// passes one server per block, in order: without its first node it is a
/// route, whose spans `route_spans` gives.
pub proof fn lemma_walk_is_route(c: Seq<Seq<SpanView>>, w: Seq<usize>)
    requires
        c.len() > 0,
        spans_continue(c),
        w.len() >= 2,
        w[0] == 0,
        w.last() == 1,
        walk_along(graph_edges(c), w),
    ensures
        is_route(graph_nodes(c), w.drop_first(), c.len()),
{
    let ns = graph_nodes(c);
    let n = c.len();
    let es = graph_edges(c);
    lemma_graph_nodes(c);
    lemma_graph_node_blocks(c);
    lemma_edges_advance(c);
    // Every node after the first is a server of the block before its place,
    // until the walk reaches the client's end after the last block.
    assert forall|j: int| 1 <= j < w.len() implies (#[trigger] w[j]) < ns.len() && (
    (ns[w[j] as int] is Server && block_of(ns[w[j] as int]) == j - 1) || (w[j] == 1 && j == n + 1)) by {
        lemma_walk_prefix(c, w, j);
    }
    assert(w[w.len() - 1] == 1);
    assert(!(ns[1] is Server));
    assert(w.len() - 1 == n + 1);
    let path = w.drop_first();
    assert forall|k: int| 0 <= k < n implies (#[trigger] path[k]) < ns.len() && (ns[path[k] as int] matches NodeView::Server(
        _,
        b,
    ) && b == k) by {
        assert(path[k] == w[k + 1]);
        if w[k + 1] == 1 {
            assert(k + 1 == n + 1);
        }
    }
}

proof fn lemma_walk_prefix(c: Seq<Seq<SpanView>>, w: Seq<usize>, j: int)
    requires
        c.len() > 0,
        spans_continue(c),
        w.len() >= 2,
        w[0] == 0,
        walk_along(graph_edges(c), w),
        1 <= j < w.len(),
        forall|i: int|
            0 <= i < graph_edges(c).len() ==> edge_advances(graph_nodes(c), #[trigger] graph_edges(c)[i], c.len()),
        forall|i: int| 0 <= i < graph_nodes(c).len() ==> block_of(#[trigger] graph_nodes(c)[i]) < c.len(),
        graph_nodes(c)[0] == NodeView::Start,
        graph_nodes(c)[1] == NodeView::End,
    ensures
        w[j] < graph_nodes(c).len(),
        (graph_nodes(c)[w[j] as int] is Server && block_of(graph_nodes(c)[w[j] as int]) == j - 1) || (w[j] == 1
            && j == c.len() + 1),
    decreases j,
{
    let ns = graph_nodes(c);
    let es = graph_edges(c);
    let i = choose|i: int| 0 <= i < es.len() && (#[trigger] es[i]).from == w[j - 1] && es[i].to == w[j];
    assert(edge_advances(ns, es[i], c.len()));
    if j > 1 {
        lemma_walk_prefix(c, w, j - 1);
        if w[j - 1] == 1 {
            assert(false);
        }
    }
}

} // verus!
