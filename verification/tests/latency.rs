use inferencemesh::latency::{route_graph, route_spans, trace_route, EdgeKind, RouteNode};
use inferencemesh::peer::PeerKey;
use inferencemesh::types::{PingEntry, RemoteSpanInfo, ServerInfo, ServerState};

fn random_peer() -> (libp2p::PeerId, PeerKey) {
    let id = libp2p::PeerId::random();
    (id, PeerKey::from_bytes(id.to_bytes()).unwrap())
}

fn span(p: &PeerKey, start: usize, end: usize, info: ServerInfo) -> RemoteSpanInfo {
    RemoteSpanInfo { peer_id: p.clone(), start, end, server_info: info }
}

fn server(node: &RouteNode) -> (PeerKey, usize) {
    match node {
        RouteNode::Server { peer, block } => (peer.clone(), *block),
        other => panic!("not a server: {:?}", other),
    }
}

#[test]
fn route_graph_links_spans_block_by_block() {
    let (_, a) = random_peer();
    let (id_b, b) = random_peer();
    let info_a = ServerInfo {
        next_pings: Some(vec![PingEntry { peer: id_b.to_base58(), rtt_bits: 0.04f64.to_bits() }]),
        ..ServerInfo::new(ServerState::Online, 0).with_throughput_info(1, 2, 100f64.to_bits())
    };
    let spans = vec![span(&a, 0, 2, info_a), span(&b, 1, 3, ServerInfo::new(ServerState::Online, 0))];
    let g = route_graph(&spans, 3).unwrap();
    assert!(matches!(g.nodes[0], RouteNode::Start));
    assert!(matches!(g.nodes[1], RouteNode::End));
    let servers: Vec<(PeerKey, usize)> = g.nodes[2..].iter().map(server).collect();
    assert_eq!(servers, vec![(a.clone(), 0), (a.clone(), 1), (b.clone(), 1), (b.clone(), 2)]);
    let ends: Vec<(usize, usize)> = g.edges.iter().map(|e| (e.from, e.to)).collect();
    assert_eq!(ends, vec![(0, 2), (5, 1), (2, 3), (3, 5), (4, 5)]);
    assert!(matches!(&g.edges[0].kind, EdgeKind::FromClient { peer } if *peer == a));
    assert!(matches!(&g.edges[1].kind, EdgeKind::ToClient { peer } if *peer == b));
    assert!(matches!(g.edges[2].kind, EdgeKind::WithinSpan { inference_rps_bits: Some(r) } if f64::from_bits(r) == 100.0));
    match &g.edges[3].kind {
        EdgeKind::ToNextSpan { from, to, ping_bits } => {
            assert_eq!((from, to), (&a, &b));
            assert_eq!(ping_bits.map(f64::from_bits), Some(0.04));
        }
        other => panic!("unexpected edge {:?}", other),
    }
    assert!(matches!(g.edges[4].kind, EdgeKind::WithinSpan { inference_rps_bits: None }));
    assert_eq!(g.containing.len(), 3);

    let route = route_spans(&g, &[2, 3, 5, 1]);
    let parts: Vec<(PeerKey, usize, usize)> = route.iter().map(|s| (s.peer_id.clone(), s.start, s.end)).collect();
    assert_eq!(parts, vec![(a.clone(), 0, 2), (b.clone(), 2, 3)]);
    assert_eq!(route[0].server_info.inference_rps_bits.map(f64::from_bits), Some(100.0));

    let route = route_spans(&g, &[2, 4, 5, 1]);
    let parts: Vec<(PeerKey, usize, usize)> = route.iter().map(|s| (s.peer_id.clone(), s.start, s.end)).collect();
    assert_eq!(parts, vec![(a.clone(), 0, 1), (b.clone(), 1, 3)]);
}

#[test]
fn route_graph_needs_servers_at_both_ends() {
    let (_, a) = random_peer();
    assert!(route_graph(&[], 0).is_none());
    assert!(route_graph(&[span(&a, 1, 2, ServerInfo::new(ServerState::Online, 0))], 2).is_none());
    assert!(route_graph(&[span(&a, 0, 1, ServerInfo::new(ServerState::Online, 0))], 2).is_none());
    let g = route_graph(&[span(&a, 0, 1, ServerInfo::new(ServerState::Online, 0))], 1).unwrap();
    assert_eq!(g.nodes.len(), 3);
    let ends: Vec<(usize, usize)> = g.edges.iter().map(|e| (e.from, e.to)).collect();
    assert_eq!(ends, vec![(0, 2), (2, 1)]);
}

#[test]
fn route_traced_back_from_the_end() {
    let prev = vec![None, Some(5), Some(0), Some(2), None, Some(3)];
    assert_eq!(trace_route(&prev), Some(vec![2, 3, 5, 1]));
    assert_eq!(trace_route(&[None, None]), Some(Vec::<usize>::new()));
}

#[test]
fn route_not_traced_through_a_cycle_or_out_of_range() {
    assert_eq!(trace_route(&[None, Some(2), Some(1)]), None);
    assert_eq!(trace_route(&[None, Some(7)]), None);
    assert_eq!(trace_route(&[None]), None);
}
