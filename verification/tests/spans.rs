use inferencemesh::peer::PeerKey;
use inferencemesh::spans::{
    compute_spans, make_sequence_max_throughput, online_spans_ordered, spans_by_priority,
    spans_containing_block,
};
use inferencemesh::types::{RemoteModuleInfo, RemoteSpanInfo, ServerInfo, ServerState};

fn random_peer() -> PeerKey {
    PeerKey::from_bytes(libp2p::PeerId::random().to_bytes()).unwrap()
}

fn module(uid: &str, servers: Vec<(PeerKey, ServerInfo)>) -> RemoteModuleInfo {
    let mut m = RemoteModuleInfo::new(uid.to_string());
    for (peer, info) in servers {
        m.insert_server(peer, info);
    }
    m
}

fn span_of<'a>(spans: &'a [RemoteSpanInfo], p: &PeerKey) -> &'a RemoteSpanInfo {
    spans.iter().find(|s| s.peer_id == *p).unwrap()
}

fn span(p: &PeerKey, start: usize, end: usize) -> RemoteSpanInfo {
    RemoteSpanInfo { peer_id: p.clone(), start, end, server_info: ServerInfo::new(ServerState::Online, 0) }
}

#[test]
fn spans_follow_each_peer_over_consecutive_blocks() {
    let a = random_peer();
    let b = random_peer();
    let online = || ServerInfo::new(ServerState::Online, 1);
    let joining = || ServerInfo::new(ServerState::Joining, 1);
    let modules = vec![
        module("m.0", vec![(a.clone(), online())]),
        module("m.1", vec![(a.clone(), online()), (b.clone(), joining())]),
        module("m.2", vec![(a.clone(), online()), (b.clone(), joining())]),
    ];
    let spans = compute_spans(&modules, ServerState::Joining);
    assert_eq!(spans.len(), 2);
    let sa = span_of(&spans, &a);
    assert_eq!((sa.start, sa.end), (0, 3));
    let sb = span_of(&spans, &b);
    assert_eq!((sb.start, sb.end), (1, 3));
    let spans = compute_spans(&modules, ServerState::Online);
    assert_eq!(spans.len(), 1);
    assert!(compute_spans(&[], ServerState::Offline).is_empty());
}

#[test]
fn a_better_state_restarts_the_span() {
    let a = random_peer();
    let modules = vec![
        module("m.0", vec![(a.clone(), ServerInfo::new(ServerState::Joining, 1))]),
        module("m.1", vec![(a.clone(), ServerInfo::new(ServerState::Online, 1))]),
        module("m.2", vec![(a.clone(), ServerInfo::new(ServerState::Joining, 1))]),
    ];
    let spans = compute_spans(&modules, ServerState::Offline);
    let sa = span_of(&spans, &a);
    assert_eq!((sa.start, sa.end), (1, 2));
    assert_eq!(sa.server_info.state, ServerState::Online);
}

#[test]
fn announced_blocks_clamp_the_span() {
    let a = random_peer();
    let info = || ServerInfo::new(ServerState::Online, 1).with_blocks(11, 12);
    let modules = vec![
        module("llama.10", vec![(a.clone(), info())]),
        module("llama.11", vec![(a.clone(), info())]),
        module("llama.12", vec![(a.clone(), info())]),
    ];
    let spans = compute_spans(&modules, ServerState::Online);
    let sa = span_of(&spans, &a);
    assert_eq!((sa.start, sa.end), (1, 2));
}

#[test]
fn spans_containing_each_block() {
    let a = random_peer();
    let b = random_peer();
    let spans = vec![span(&a, 0, 2), span(&b, 1, 5)];
    let c = spans_containing_block(&spans, 3);
    assert_eq!(c.len(), 3);
    assert_eq!(c[0].iter().map(|s| s.peer_id.clone()).collect::<Vec<_>>(), vec![a.clone()]);
    assert_eq!(c[1].iter().map(|s| s.peer_id.clone()).collect::<Vec<_>>(), vec![a.clone(), b.clone()]);
    assert_eq!(c[2].iter().map(|s| s.peer_id.clone()).collect::<Vec<_>>(), vec![b.clone()]);
}

#[test]
fn sequence_takes_the_first_span_at_each_block() {
    let a = random_peer();
    let b = random_peer();
    let spans = vec![span(&a, 0, 2), span(&b, 1, 5)];
    let seq = make_sequence_max_throughput(&spans, 5, 0, 4).unwrap();
    let parts: Vec<(PeerKey, usize, usize)> = seq.iter().map(|s| (s.peer_id.clone(), s.start, s.end)).collect();
    assert_eq!(parts, vec![(a.clone(), 0, 2), (b.clone(), 2, 4)]);
    assert!(make_sequence_max_throughput(&spans, 5, 0, 6).is_none());
    assert!(make_sequence_max_throughput(&[span(&a, 1, 2)], 2, 0, 2).is_none());
    assert_eq!(make_sequence_max_throughput(&spans, 5, 3, 3).unwrap().len(), 0);
}

#[test]
fn spans_by_priority_puts_longest_first() {
    let a = random_peer();
    let b = random_peer();
    let online = || ServerInfo::new(ServerState::Online, 1);
    let modules = vec![
        module("m.0", vec![(b.clone(), online())]),
        module("m.1", vec![(a.clone(), online())]),
        module("m.2", vec![(a.clone(), online())]),
    ];
    assert!(online_spans_ordered(&modules));
    let spans = spans_by_priority(&modules);
    let parts: Vec<(PeerKey, usize, usize)> = spans.iter().map(|s| (s.peer_id.clone(), s.start, s.end)).collect();
    assert_eq!(parts, vec![(a.clone(), 1, 3), (b.clone(), 0, 1)]);
    assert_eq!(spans[0].length(), 2);
}

#[test]
fn module_keeps_each_server_once() {
    let a = random_peer();
    let b = random_peer();
    let mut m = RemoteModuleInfo::new("model.7".to_string());
    assert_eq!(m.uid(), "model.7");
    m.insert_server(a.clone(), ServerInfo::new(ServerState::Joining, 1));
    m.insert_server(b.clone(), ServerInfo::new(ServerState::Online, 2));
    m.insert_server(a.clone(), ServerInfo::new(ServerState::Online, 3));
    let servers = m.servers();
    assert_eq!(servers.len(), 2);
    assert!(servers[0].0 == a);
    assert_eq!(servers[0].1.state, ServerState::Online);
    assert_eq!(servers[0].1.throughput_bits, 3);
    assert!(servers[1].0 == b);
    assert_eq!(servers[1].1.throughput_bits, 2);
}
