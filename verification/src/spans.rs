//! Which peer serves which run of blocks, and routes through them.
use vstd::prelude::*;
use crate::peer::PeerKey;
use crate::text::{chars_of, parse_bounded, parse_unsigned};
use crate::types::{
    state_rank, ModuleView, RemoteModuleInfo, RemoteSpanInfo, ServerInfo, ServerInfoView,
    ServerState, SpanView,
};

verus! {

/// The characters of `s` after its last `c` (all of `s` when it has none).
pub open spec fn after_last(s: Seq<char>, c: char) -> Seq<char>
    decreases s.len(),
{
    if s.len() == 0 {
        s
    } else if s.last() == c {
        Seq::empty()
    } else {
        after_last(s.drop_last(), c).push(s.last())
    }
}

/// The block number that the first block's name ends in, after its last
/// `.`; 0 when there are no blocks or the name does not end in a number.
pub open spec fn uid_offset(modules: Seq<ModuleView>) -> nat {
    if modules.len() == 0 {
        0
    } else {
        match parse_bounded(after_last(modules[0].uid, '.'), usize::MAX as nat) {
            Some(v) => v,
            None => 0,
        }
    }
}

/// `a - b`, or 0 when `b` is larger.
pub open spec fn sat_sub(a: u32, b: u32) -> nat {
    if a >= b {
        (a - b) as nat
    } else {
        0
    }
}

pub open spec fn min_nat(a: nat, b: nat) -> nat {
    if a <= b {
        a
    } else {
        b
    }
}

pub open spec fn max_nat(a: nat, b: nat) -> nat {
    if a >= b {
        a
    } else {
        b
    }
}

/// The spans after `peer` is seen serving block `b` with `info`: a new peer
/// starts a one-block span; a higher state restarts the span at `b`; the
/// same state extends it to `b`; a lower state leaves it. Announced block
/// bounds, shifted down by `offset`, then clip the span, and the end never
/// passes `n`.
pub open spec fn span_update(
    m: Map<Seq<u8>, SpanView>,
    b: nat,
    peer: Seq<u8>,
    info: ServerInfoView,
    offset: nat,
    n: nat,
) -> Map<Seq<u8>, SpanView> {
    let e0 = if m.contains_key(peer) {
        m[peer]
    } else {
        SpanView { peer, start: b, end: b + 1, info }
    };
    let e1 = if state_rank(e0.info.state) < state_rank(info.state) {
        SpanView { start: b, end: b + 1, info, ..e0 }
    } else if e0.info.state == info.state {
        SpanView { end: b + 1, ..e0 }
    } else {
        e0
    };
    let off = (offset as u64 % 0x1_0000_0000) as u32;
    let e2 = match (info.start_block, info.end_block) {
        (Some(sb), Some(eb)) => SpanView {
            start: max_nat(e1.start, sat_sub(sb, off)),
            end: min_nat(e1.end, min_nat(sat_sub(eb, off), n)),
            ..e1
        },
        _ => e1,
    };
    m.insert(peer, e2)
}

/// The spans after the servers of block `b`, in order, those below `min_rank` skipped.
pub open spec fn module_step(
    m: Map<Seq<u8>, SpanView>,
    b: nat,
    servers: Seq<(Seq<u8>, ServerInfoView)>,
    min_rank: u8,
    offset: nat,
    n: nat,
) -> Map<Seq<u8>, SpanView>
    decreases servers.len(),
{
    if servers.len() == 0 {
        m
    } else {
        let m1 = module_step(m, b, servers.drop_last(), min_rank, offset, n);
        let (p, info) = servers.last();
        if state_rank(info.state) < min_rank {
            m1
        } else {
            span_update(m1, b, p, info, offset, n)
        }
    }
}

/// The spans after the first `k` blocks.
pub open spec fn spans_after(modules: Seq<ModuleView>, k: nat, min_rank: u8, offset: nat) -> Map<
    Seq<u8>,
    SpanView,
>
    decreases k,
{
    if k == 0 {
        Map::empty()
    } else {
        module_step(
            spans_after(modules, (k - 1) as nat, min_rank, offset),
            (k - 1) as nat,
            modules[k - 1].servers,
            min_rank,
            offset,
            modules.len(),
        )
    }
}

/// The span of every peer that serves a block in at least `min_state`.
pub open spec fn spec_compute_spans(modules: Seq<ModuleView>, min_state: ServerState) -> Map<
    Seq<u8>,
    SpanView,
> {
    spans_after(modules, modules.len(), state_rank(min_state), uid_offset(modules))
}

/// The map from peer to span that a list of spans stands for.
pub open spec fn spans_map(s: Seq<SpanView>) -> Map<Seq<u8>, SpanView>
    decreases s.len(),
{
    if s.len() == 0 {
        Map::empty()
    } else {
        spans_map(s.drop_last()).insert(s.last().peer, s.last())
    }
}

/// Whether no peer has two spans in `s`.
pub open spec fn distinct_peers(s: Seq<SpanView>) -> bool {
    forall|i: int, j: int| 0 <= i < j < s.len() ==> s[i].peer != s[j].peer
}

pub open spec fn span_views(s: Seq<RemoteSpanInfo>) -> Seq<SpanView> {
    s.map_values(|x: RemoteSpanInfo| x@)
}

pub open spec fn module_views(s: Seq<RemoteModuleInfo>) -> Seq<ModuleView> {
    s.map_values(|x: RemoteModuleInfo| x@)
}

proof fn lemma_spans_map_index(s: Seq<SpanView>, i: int)
    requires
        distinct_peers(s),
        0 <= i < s.len(),
    ensures
        spans_map(s).contains_key(s[i].peer),
        spans_map(s)[s[i].peer] == s[i],
    decreases s.len(),
{
    if i < s.len() - 1 {
        lemma_spans_map_index(s.drop_last(), i);
    }
}

proof fn lemma_spans_map_absent(s: Seq<SpanView>, p: Seq<u8>)
    requires
        forall|i: int| 0 <= i < s.len() ==> s[i].peer != p,
    ensures
        !spans_map(s).contains_key(p),
    decreases s.len(),
{
    if s.len() > 0 {
        lemma_spans_map_absent(s.drop_last(), p);
    }
}

proof fn lemma_spans_map_update(s: Seq<SpanView>, i: int, x: SpanView)
    requires
        distinct_peers(s),
        0 <= i < s.len(),
        x.peer == s[i].peer,
    ensures
        spans_map(s.update(i, x)) == spans_map(s).insert(x.peer, x),
        distinct_peers(s.update(i, x)),
    decreases s.len(),
{
    let t = s.update(i, x);
    if i == s.len() - 1 {
        assert(t.drop_last() =~= s.drop_last());
        assert(spans_map(t) =~= spans_map(s).insert(x.peer, x));
    } else {
        assert(t.drop_last() =~= s.drop_last().update(i, x));
        lemma_spans_map_update(s.drop_last(), i, x);
        assert(s.last().peer != x.peer);
        assert(spans_map(t) =~= spans_map(s).insert(x.peer, x));
    }
}

/// The text after the last `c` in `s`.
fn after_last_of(s: &[char], c: char) -> (r: &[char])
    ensures
        r@ == after_last(s@, c),
{
    let mut start: usize = 0;
    let mut i: usize = 0;
    while i < s.len()
        invariant
            start <= i <= s@.len(),
            after_last(s@.take(i as int), c) == s@.subrange(start as int, i as int),
        decreases s@.len() - i,
    {
        let ghost t = s@.take(i + 1);
        assert(t.drop_last() =~= s@.take(i as int));
        if s[i] == c {
            start = i + 1;
            assert(s@.subrange(start as int, i + 1) =~= Seq::<char>::empty());
        } else {
            assert(s@.subrange(start as int, i + 1) =~= s@.subrange(start as int, i as int).push(
                s@[i as int],
            ));
        }
        i = i + 1;
    }
    assert(s@.take(s@.len() as int) =~= s@);
    &s[start..s.len()]
}

/// The block number at the end of the first block's name, or 0.
fn block_offset(module_infos: &[RemoteModuleInfo]) -> (r: usize)
    ensures
        r as nat == uid_offset(module_views(module_infos@)),
{
    if module_infos.len() == 0 {
        return 0;
    }
    let cs = chars_of(module_infos[0].uid());
    let tail = after_last_of(cs.as_slice(), '.');
    match parse_unsigned(tail, usize::MAX as u64) {
        Some(v) => v as usize,
        None => 0,
    }
}

/// Where `peer` stands in `spans`, if it does.
fn find_span(spans: &Vec<RemoteSpanInfo>, peer: &PeerKey) -> (r: Option<usize>)
    ensures
        match r {
            Some(i) => i < spans@.len() && spans@[i as int].peer_id@ == peer@,
            None => forall|i: int| 0 <= i < spans@.len() ==> spans@[i].peer_id@ != peer@,
        },
{
    let mut i: usize = 0;
    while i < spans.len()
        invariant
            i <= spans@.len(),
            forall|j: int| 0 <= j < i ==> spans@[j].peer_id@ != peer@,
        decreases spans@.len() - i,
    {
        if spans[i].peer_id.same(peer) {
            return Some(i);
        }
        i = i + 1;
    }
    None
}

/// Applies `span_update` to the list of spans.
fn update_spans(
    spans: &mut Vec<RemoteSpanInfo>,
    b: usize,
    peer: &PeerKey,
    info: &ServerInfo,
    offset: usize,
    n: usize,
)
    requires
        b < n,
        distinct_peers(span_views(old(spans)@)),
        forall|i: int| 0 <= i < old(spans)@.len() ==> old(spans)@[i].end <= n,
    ensures
        distinct_peers(span_views(final(spans)@)),
        spans_map(span_views(final(spans)@)) == span_update(
            spans_map(span_views(old(spans)@)),
            b as nat,
            peer@,
            info@,
            offset as nat,
            n as nat,
        ),
        forall|i: int| 0 <= i < final(spans)@.len() ==> final(spans)@[i].end <= n,
{
    let ghost views = span_views(spans@);
    let ghost m = spans_map(views);
    let idx = match find_span(spans, peer) {
        Some(i) => i,
        None => {
            proof {
                assert forall|i: int| 0 <= i < views.len() implies views[i].peer != peer@ by {}
                lemma_spans_map_absent(views, peer@);
            }
            spans.push(
                RemoteSpanInfo {
                    peer_id: peer.clone(),
                    start: b,
                    end: b + 1,
                    server_info: info.clone(),
                },
            );
            proof {
                let v2 = span_views(spans@);
                assert(v2 =~= views.push(spans@[views.len() as int]@));
                assert(v2.drop_last() =~= views);
                lemma_spans_map_index(v2, views.len() as int);
            }
            (spans.len() - 1) as usize
        },
    };
    let ghost mid = span_views(spans@);
    proof {
        lemma_spans_map_index(mid, idx as int);
    }
    let mut e = spans[idx].clone();
    if e.server_info.state.rank() < info.state.rank() {
        e.start = b;
        e.end = b + 1;
        e.server_info = info.clone();
    } else if e.server_info.state == info.state {
        e.end = b + 1;
    }
    let off = (offset as u64 % 0x1_0000_0000) as u32;
    match (info.start_block, info.end_block) {
        (Some(sb), Some(eb)) => {
            let lo = sb.saturating_sub(off) as usize;
            let hi = eb.saturating_sub(off) as usize;
            if lo > e.start {
                e.start = lo;
            }
            let cap = if hi < n {
                hi
            } else {
                n
            };
            if cap < e.end {
                e.end = cap;
            }
        },
        _ => {},
    }
    let ghost ev = e@;
    spans.set(idx, e);
    proof {
        lemma_spans_map_update(mid, idx as int, ev);
        assert(span_views(spans@) =~= mid.update(idx as int, ev));
        assert(spans_map(mid).insert(peer@, ev) =~= span_update(
            m,
            b as nat,
            peer@,
            info@,
            offset as nat,
            n as nat,
        ));
    }
}

/// The span of every peer serving some block in at least `min_state`, one
/// span per peer.
pub fn compute_spans(module_infos: &[RemoteModuleInfo], min_state: ServerState) -> (r: Vec<
    RemoteSpanInfo,
>)
    ensures
        distinct_peers(span_views(r@)),
        spans_map(span_views(r@)) == spec_compute_spans(module_views(module_infos@), min_state),
{
    let ghost modules = module_views(module_infos@);
    let mut spans: Vec<RemoteSpanInfo> = Vec::new();
    if module_infos.len() == 0 {
        assert(spans_map(span_views(spans@)) =~= spec_compute_spans(modules, min_state));
        return spans;
    }
    let offset = block_offset(module_infos);
    let n = module_infos.len();
    let min_rank = min_state.rank();
    let mut b: usize = 0;
    while b < n
        invariant
            n == module_infos@.len(),
            modules == module_views(module_infos@),
            b <= n,
            offset as nat == uid_offset(modules),
            min_rank == state_rank(min_state),
            distinct_peers(span_views(spans@)),
            forall|i: int| 0 <= i < spans@.len() ==> spans@[i].end <= n,
            spans_map(span_views(spans@)) == spans_after(
                modules,
                b as nat,
                min_rank,
                offset as nat,
            ),
        decreases n - b,
    {
        let servers = module_infos[b].servers();
        let ghost sv = modules[b as int].servers;
        let ghost before = spans_map(span_views(spans@));
        let mut j: usize = 0;
        while j < servers.len()
            invariant
                b < n,
                sv == servers@.map_values(|e: (PeerKey, ServerInfo)| (e.0@, e.1@)),
                j <= servers@.len(),
                distinct_peers(span_views(spans@)),
                forall|i: int| 0 <= i < spans@.len() ==> spans@[i].end <= n,
                spans_map(span_views(spans@)) == module_step(
                    before,
                    b as nat,
                    sv.take(j as int),
                    min_rank,
                    offset as nat,
                    n as nat,
                ),
            decreases servers@.len() - j,
        {
            let (peer, info) = &servers[j];
            proof {
                let t = sv.take(j + 1);
                assert(t.drop_last() =~= sv.take(j as int));
                assert(t.last() == (peer@, info@));
            }
            if info.state.rank() >= min_rank {
                update_spans(&mut spans, b, peer, info, offset, n);
            }
            j = j + 1;
        }
        assert(sv.take(sv.len() as int) =~= sv);
        b = b + 1;
    }
    spans
}


/// Whether span `s` covers block `b`.
pub open spec fn covers(s: SpanView, b: nat) -> bool {
    s.start <= b < s.end
}

/// The spans of `s` that cover block `b`, in order.
pub open spec fn spans_at(s: Seq<SpanView>, b: nat) -> Seq<SpanView>
    decreases s.len(),
{
    if s.len() == 0 {
        Seq::empty()
    } else if covers(s.last(), b) {
        spans_at(s.drop_last(), b).push(s.last())
    } else {
        spans_at(s.drop_last(), b)
    }
}

pub(crate) proof fn lemma_spans_at_cover(s: Seq<SpanView>, b: nat)
    ensures
        forall|k: int| 0 <= k < spans_at(s, b).len() ==> covers(#[trigger] spans_at(s, b)[k], b)
            && s.contains(spans_at(s, b)[k]),
    decreases s.len(),
{
    if s.len() > 0 {
        lemma_spans_at_cover(s.drop_last(), b);
        let r = spans_at(s, b);
        let r0 = spans_at(s.drop_last(), b);
        assert forall|k: int| 0 <= k < r.len() implies covers(#[trigger] r[k], b) && s.contains(
            r[k],
        ) by {
            if k < r0.len() {
                assert(r[k] == r0[k]);
                let j = choose|j: int| 0 <= j < s.drop_last().len() && s.drop_last()[j] == r0[k];
                assert(s[j] == r0[k]);
            } else {
                assert(r[k] == s.last());
                assert(s[s.len() - 1] == s.last());
            }
        }
    }
}

/// For each block below `num_blocks`, the spans that cover it, in order.
pub fn spans_containing_block(spans: &[RemoteSpanInfo], num_blocks: usize) -> (r: Vec<
    Vec<RemoteSpanInfo>,
>)
    ensures
        r@.len() == num_blocks,
        forall|b: int|
            0 <= b < num_blocks ==> span_views((#[trigger] r@[b])@) == spans_at(
                span_views(spans@),
                b as nat,
            ),
{
    let ghost all = span_views(spans@);
    let mut result: Vec<Vec<RemoteSpanInfo>> = Vec::new();
    let mut b: usize = 0;
    while b < num_blocks
        invariant
            b <= num_blocks,
            all == span_views(spans@),
            result@.len() == b,
            forall|k: int|
                0 <= k < b ==> span_views((#[trigger] result@[k])@) == spans_at(all, k as nat),
        decreases num_blocks - b,
    {
        let mut here: Vec<RemoteSpanInfo> = Vec::new();
        let mut i: usize = 0;
        while i < spans.len()
            invariant
                i <= spans@.len(),
                all == span_views(spans@),
                span_views(here@) == spans_at(all.take(i as int), b as nat),
            decreases spans@.len() - i,
        {
            let ghost t = all.take(i + 1);
            assert(t.drop_last() =~= all.take(i as int));
            assert(t.last() == spans@[i as int]@);
            if spans[i].start <= b && b < spans[i].end {
                let c = spans[i].clone();
                let ghost before = here@;
                here.push(c);
                assert(span_views(here@) =~= span_views(before).push(c@));
            }
            i = i + 1;
        }
        assert(all.take(spans@.len() as int) =~= all);
        let ghost prev = result@;
        result.push(here);
        assert forall|k: int| 0 <= k < b + 1 implies span_views((#[trigger] result@[k])@) == spans_at(
            all,
            k as nat,
        ) by {
            if k < b {
                assert(result@[k] == prev[k]);
            }
        }
        b = b + 1;
    }
    result
}

/// The spans of a route from block `cur` to block `end`: at each block the
/// first span covering it is taken as far as it reaches (but not past
/// `end`); `None` when a block is covered by no span.
pub open spec fn sequence_from(spans: Seq<SpanView>, num_blocks: nat, cur: nat, end: nat) -> Option<
    Seq<SpanView>,
>
    decreases end - cur,
{
    if cur >= end {
        Some(Seq::empty())
    } else if cur >= num_blocks || spans_at(spans, cur).len() == 0 {
        None
    } else {
        let c = spans_at(spans, cur)[0];
        let e = min_nat(c.end, end);
        if e <= cur {
            None
        } else {
            match sequence_from(spans, num_blocks, e, end) {
                None => None,
                Some(rest) => Some(seq![SpanView { peer: c.peer, start: cur, end: e, info: c.info }] + rest),
            }
        }
    }
}

/// `o` with `acc` put in front of the list it gives.
pub open spec fn prefixed(acc: Seq<SpanView>, o: Option<Seq<SpanView>>) -> Option<Seq<SpanView>> {
    match o {
        None => None,
        Some(r) => Some(acc + r),
    }
}

/// Whether `r` is a run of spans that together cover `start..end` exactly,
/// each starting where the one before ends.
pub open spec fn chains(r: Seq<SpanView>, start: nat, end: nat) -> bool {
    &&& (r.len() == 0 <==> start >= end)
    &&& r.len() > 0 ==> r[0].start == start && r.last().end == end
    &&& forall|i: int| 0 <= i < r.len() ==> (#[trigger] r[i]).start < r[i].end
    &&& forall|i: int| 0 <= i < r.len() - 1 ==> #[trigger] joined(r, i)
}

/// Whether span `i` of `r` ends where span `i + 1` starts.
pub open spec fn joined(r: Seq<SpanView>, i: int) -> bool {
    r[i].end == r[i + 1].start
}

/// Whether `x` lies inside a span of the same peer in `spans`.
pub open spec fn piece_inside(x: SpanView, spans: Seq<SpanView>) -> bool {
    exists|j: int|
        0 <= j < spans.len() && spans[j].peer == x.peer && spans[j].start <= x.start && x.end
            <= #[trigger] spans[j].end
}

/// Whether every span of `r` lies inside a span of the same peer in `spans`.
pub open spec fn pieces_inside(r: Seq<SpanView>, spans: Seq<SpanView>) -> bool {
    forall|i: int| 0 <= i < r.len() ==> piece_inside(#[trigger] r[i], spans)
}

proof fn lemma_chains_cons(head: SpanView, rest: Seq<SpanView>, e: nat, end: nat)
    requires
        chains(rest, e, end),
        head.start < head.end,
        head.end == e,
        e <= end,
    ensures
        chains(seq![head] + rest, head.start, end),
{
    let r = seq![head] + rest;
    assert forall|i: int| 0 <= i < r.len() implies (#[trigger] r[i]).start < r[i].end by {
        if i > 0 {
            assert(r[i] == rest[i - 1]);
        }
    }
    assert forall|i: int| 0 <= i < r.len() - 1 implies #[trigger] joined(r, i) by {
        assert(r[i + 1] == rest[i]);
        if i > 0 {
            assert(r[i] == rest[i - 1]);
            assert(joined(rest, i - 1));
        }
    }
    if rest.len() > 0 {
        assert(r.last() == rest.last());
    }
}

proof fn lemma_inside_cons(head: SpanView, rest: Seq<SpanView>, spans: Seq<SpanView>)
    requires
        pieces_inside(rest, spans),
        piece_inside(head, spans),
    ensures
        pieces_inside(seq![head] + rest, spans),
{
    let r = seq![head] + rest;
    assert forall|i: int| 0 <= i < r.len() implies piece_inside(#[trigger] r[i], spans) by {
        if i > 0 {
            assert(r[i] == rest[i - 1]);
        }
    }
}

/// A route built by `sequence_from` covers its blocks one after another, and
/// each of its spans lies inside a span of the same peer.
pub proof fn lemma_sequence_chains(spans: Seq<SpanView>, num_blocks: nat, cur: nat, end: nat)
    requires
        sequence_from(spans, num_blocks, cur, end) is Some,
    ensures
        chains(sequence_from(spans, num_blocks, cur, end).unwrap(), cur, end),
        pieces_inside(sequence_from(spans, num_blocks, cur, end).unwrap(), spans),
    decreases end - cur,
{
    if cur < end {
        let c = spans_at(spans, cur)[0];
        let e = min_nat(c.end, end);
        lemma_sequence_chains(spans, num_blocks, e, end);
        let rest = sequence_from(spans, num_blocks, e, end).unwrap();
        let head = SpanView { peer: c.peer, start: cur, end: e, info: c.info };
        assert(seq![head] + rest == sequence_from(spans, num_blocks, cur, end).unwrap());
        lemma_spans_at_cover(spans, cur);
        assert(covers(spans_at(spans, cur)[0], cur) && spans.contains(c));
        let jc = choose|j: int| 0 <= j < spans.len() && spans[j] == c;
        assert(piece_inside(head, spans)) by {
            assert(spans[jc].peer == head.peer && spans[jc].start <= head.start && head.end
                <= spans[jc].end);
        }
        lemma_chains_cons(head, rest, e, end);
        lemma_inside_cons(head, rest, spans);
    } else {
        assert(sequence_from(spans, num_blocks, cur, end).unwrap() =~= Seq::<SpanView>::empty());
    }
}

/// Whether the span at `k` is the first of `spans`, in input order, to
/// cover block `b`.
pub open spec fn first_cover(spans: Seq<SpanView>, b: nat, k: int) -> bool {
    &&& 0 <= k < spans.len()
    &&& covers(spans[k], b)
    &&& forall|j: int| 0 <= j < k ==> !covers(#[trigger] spans[j], b)
}

proof fn lemma_spans_at_none(s: Seq<SpanView>, b: nat)
    ensures
        spans_at(s, b).len() == 0 ==> forall|j: int| 0 <= j < s.len() ==> !covers(#[trigger] s[j], b),
    decreases s.len(),
{
    if s.len() > 0 {
        lemma_spans_at_none(s.drop_last(), b);
        if spans_at(s, b).len() == 0 {
            assert forall|j: int| 0 <= j < s.len() implies !covers(#[trigger] s[j], b) by {
                if j < s.len() - 1 {
                    assert(s[j] == s.drop_last()[j]);
                }
            }
        }
    }
}

/// The first span that `spans_at` gives is the first of the input to cover
/// the block.
proof fn lemma_spans_at_first(s: Seq<SpanView>, b: nat)
    requires
        spans_at(s, b).len() > 0,
    ensures
        exists|k: int| first_cover(s, b, k) && spans_at(s, b)[0] == s[k],
    decreases s.len(),
{
    let d = s.drop_last();
    if spans_at(d, b).len() > 0 {
        lemma_spans_at_first(d, b);
        let k = choose|k: int| first_cover(d, b, k) && spans_at(d, b)[0] == d[k];
        assert(s[k] == d[k]);
        assert forall|j: int| 0 <= j < k implies !covers(#[trigger] s[j], b) by {
            assert(s[j] == d[j]);
        }
        assert(first_cover(s, b, k));
    } else {
        lemma_spans_at_none(d, b);
        let k = s.len() - 1;
        assert forall|j: int| 0 <= j < k implies !covers(#[trigger] s[j], b) by {
            assert(s[j] == d[j]);
        }
        assert(first_cover(s, b, k));
    }
}

/// Each piece of a route carries the peer and server of the first span, in
/// input order, that covers the block the piece starts at, and reaches as
/// far as that span does, but not past the end of the route.
pub proof fn lemma_sequence_first_cover(spans: Seq<SpanView>, num_blocks: nat, cur: nat, end: nat)
    requires
        sequence_from(spans, num_blocks, cur, end) is Some,
    ensures
        ({
            let v = sequence_from(spans, num_blocks, cur, end).unwrap();
            forall|i: int|
                #![trigger v[i]]
                0 <= i < v.len() ==> exists|k: int|
                    #[trigger] first_cover(spans, v[i].start, k) && v[i].peer == spans[k].peer
                        && v[i].info == spans[k].info && v[i].end == min_nat(spans[k].end, end)
        }),
    decreases end - cur,
{
    if cur < end {
        let c = spans_at(spans, cur)[0];
        let e = min_nat(c.end, end);
        lemma_sequence_first_cover(spans, num_blocks, e, end);
        lemma_spans_at_first(spans, cur);
        let k0 = choose|k: int| first_cover(spans, cur, k) && spans_at(spans, cur)[0] == spans[k];
        let rest = sequence_from(spans, num_blocks, e, end).unwrap();
        let head = SpanView { peer: c.peer, start: cur, end: e, info: c.info };
        let v = sequence_from(spans, num_blocks, cur, end).unwrap();
        assert(v == seq![head] + rest);
        assert forall|i: int| #![trigger v[i]] 0 <= i < v.len() implies exists|k: int|
            #[trigger] first_cover(spans, v[i].start, k) && v[i].peer == spans[k].peer && v[i].info
                == spans[k].info && v[i].end == min_nat(spans[k].end, end) by {
            if i == 0 {
                assert(v[0] == head);
                assert(first_cover(spans, v[0].start, k0));
            } else {
                assert(v[i] == rest[i - 1]);
            }
        }
    }
}

/// The route from block `start_index` to block `end_index` that takes, at
/// each block, the first span covering it as far as it reaches.
pub fn make_sequence_max_throughput(
    spans: &[RemoteSpanInfo],
    num_blocks: usize,
    start_index: usize,
    end_index: usize,
) -> (r: Option<Vec<RemoteSpanInfo>>)
    ensures
        match sequence_from(span_views(spans@), num_blocks as nat, start_index as nat, end_index as nat) {
            None => r is None,
            Some(v) => r matches Some(x) && span_views(x@) == v,
        },
{
    let ghost all = span_views(spans@);
    let containing = spans_containing_block(spans, num_blocks);
    let mut result: Vec<RemoteSpanInfo> = Vec::new();
    let mut current_index = start_index;
    while current_index < end_index
        invariant
            all == span_views(spans@),
            containing@.len() == num_blocks,
            forall|b: int|
                0 <= b < num_blocks ==> span_views((#[trigger] containing@[b])@) == spans_at(all, b as nat),
            sequence_from(all, num_blocks as nat, start_index as nat, end_index as nat) == prefixed(
                span_views(result@),
                sequence_from(all, num_blocks as nat, current_index as nat, end_index as nat),
            ),
        decreases end_index - current_index,
    {
        if current_index >= containing.len() || containing[current_index].len() == 0 {
            assert(span_views(containing@[current_index as int]@).len() == containing@[current_index as int]@.len());
            return None;
        }
        let chosen = &containing[current_index][0];
        proof {
            lemma_spans_at_cover(all, current_index as nat);
            assert(span_views(containing@[current_index as int]@)[0] == chosen@);
        }
        let span_end = if chosen.end < end_index {
            chosen.end
        } else {
            end_index
        };
        let piece = RemoteSpanInfo {
            peer_id: chosen.peer_id.clone(),
            start: current_index,
            end: span_end,
            server_info: chosen.server_info.clone(),
        };
        let ghost before = span_views(result@);
        result.push(piece);
        proof {
            assert(span_views(result@) =~= before.push(piece@));
            match sequence_from(all, num_blocks as nat, span_end as nat, end_index as nat) {
                None => {},
                Some(rest) => {
                    assert(before + (seq![piece@] + rest) =~= before.push(piece@) + rest);
                },
            }
        }
        current_index = span_end;
    }
    assert(span_views(result@) + Seq::<SpanView>::empty() =~= span_views(result@));
    Some(result)
}


/// Whether every span of `m` starts no later than it ends.
pub open spec fn spans_ordered(m: Map<Seq<u8>, SpanView>) -> bool {
    forall|p: Seq<u8>| #[trigger] m.contains_key(p) ==> m[p].start <= m[p].end
}

/// Whether the spans of `s` come longest first.
pub open spec fn longest_first(s: Seq<SpanView>) -> bool {
    forall|a: int, b: int|
        0 <= a < b < s.len() ==> (#[trigger] s[a]).end - s[a].start >= (#[trigger] s[b]).end
            - s[b].start
}

/// Whether `x` is one of the spans of `s`.
pub open spec fn has_span(s: Seq<SpanView>, x: SpanView) -> bool {
    exists|k: int| 0 <= k < s.len() && #[trigger] s[k] == x
}

proof fn lemma_same_members(a: Seq<SpanView>, b: Seq<SpanView>)
    requires
        distinct_peers(a),
        distinct_peers(b),
        forall|i: int| 0 <= i < a.len() ==> has_span(b, #[trigger] a[i]),
        forall|i: int| 0 <= i < b.len() ==> has_span(a, #[trigger] b[i]),
    ensures
        spans_map(a) == spans_map(b),
{
    assert forall|p: Seq<u8>| #[trigger] spans_map(a).contains_key(p) implies spans_map(b).contains_key(
        p,
    ) && spans_map(b)[p] == spans_map(a)[p] by {
        if forall|i: int| 0 <= i < a.len() ==> a[i].peer != p {
            lemma_spans_map_absent(a, p);
        }
        let i = choose|i: int| 0 <= i < a.len() && a[i].peer == p;
        lemma_spans_map_index(a, i);
        assert(has_span(b, a[i]));
        let k = choose|k: int| 0 <= k < b.len() && #[trigger] b[k] == a[i];
        lemma_spans_map_index(b, k);
    }
    assert forall|p: Seq<u8>| #[trigger] spans_map(b).contains_key(p) implies spans_map(a).contains_key(
        p,
    ) by {
        if forall|i: int| 0 <= i < b.len() ==> b[i].peer != p {
            lemma_spans_map_absent(b, p);
        }
        let i = choose|i: int| 0 <= i < b.len() && b[i].peer == p;
        assert(has_span(a, b[i]));
        let k = choose|k: int| 0 <= k < a.len() && #[trigger] a[k] == b[i];
        lemma_spans_map_index(a, k);
    }
    assert(spans_map(a) =~= spans_map(b));
}

/// Inserting `xv`, the span at `i` of `src`, after the spans at least as long
/// and before the shorter ones keeps the spans distinct and longest first,
/// and the spans taken from `src` the first `i + 1` of it.
proof fn lemma_insert_by_length(old_out: Seq<SpanView>, pos: int, xv: SpanView, src: Seq<SpanView>, i: int)
    requires
        0 <= pos <= old_out.len(),
        0 <= i < src.len(),
        src[i] == xv,
        distinct_peers(old_out),
        longest_first(old_out),
        forall|k: int| 0 <= k < pos ==> #[trigger] old_out[k].end - old_out[k].start >= xv.end - xv.start,
        forall|k: int| pos <= k < old_out.len() ==> #[trigger] old_out[k].end - old_out[k].start < xv.end - xv.start,
        forall|k: int| 0 <= k < old_out.len() ==> #[trigger] old_out[k].peer != xv.peer,
        forall|k: int| 0 <= k < old_out.len() ==> has_span(src.take(i), #[trigger] old_out[k]),
        forall|j: int| 0 <= j < i ==> has_span(old_out, #[trigger] src[j]),
    ensures
        distinct_peers(old_out.insert(pos, xv)),
        longest_first(old_out.insert(pos, xv)),
        forall|k: int|
            0 <= k < old_out.len() + 1 ==> has_span(src.take(i + 1), #[trigger] old_out.insert(pos, xv)[k]),
        forall|j: int| 0 <= j < i + 1 ==> has_span(old_out.insert(pos, xv), #[trigger] src[j]),
{
    let nv = old_out.insert(pos, xv);
    old_out.insert_ensures(pos, xv);
    assert forall|a: int, b: int| 0 <= a < b < nv.len() implies (#[trigger] nv[a]).peer
        != (#[trigger] nv[b]).peer by {
        if a < pos && b < pos {
            assert(nv[a] == old_out[a] && nv[b] == old_out[b]);
        } else if a < pos && b == pos {
            assert(nv[a] == old_out[a]);
        } else if a < pos {
            assert(nv[a] == old_out[a] && nv[b] == old_out[b - 1]);
        } else if a == pos {
            assert(nv[b] == old_out[b - 1]);
        } else {
            assert(nv[a] == old_out[a - 1] && nv[b] == old_out[b - 1]);
        }
    }
    assert forall|a: int, b: int| 0 <= a < b < nv.len() implies (#[trigger] nv[a]).end
        - nv[a].start >= (#[trigger] nv[b]).end - nv[b].start by {
        if a < pos && b < pos {
            assert(nv[a] == old_out[a] && nv[b] == old_out[b]);
        } else if a < pos && b == pos {
            assert(nv[a] == old_out[a]);
        } else if a < pos {
            assert(nv[a] == old_out[a] && nv[b] == old_out[b - 1]);
        } else if a == pos {
            assert(nv[b] == old_out[b - 1]);
        } else {
            assert(nv[a] == old_out[a - 1] && nv[b] == old_out[b - 1]);
        }
    }
    assert forall|k: int| 0 <= k < nv.len() implies has_span(src.take(i + 1), #[trigger] nv[k]) by {
        if k == pos {
            assert(src.take(i + 1)[i] == xv);
        } else {
            let ok = if k < pos {
                k
            } else {
                k - 1
            };
            assert(nv[k] == old_out[ok]);
            assert(has_span(src.take(i), old_out[ok]));
            let j = choose|j: int| 0 <= j < src.take(i).len() && #[trigger] src.take(i)[j] == old_out[ok];
            assert(src.take(i + 1)[j] == old_out[ok]);
        }
    }
    assert forall|j: int| 0 <= j < i + 1 implies has_span(nv, #[trigger] src[j]) by {
        if j == i {
            assert(nv[pos] == xv);
        } else {
            assert(has_span(old_out, src[j]));
            let k = choose|k: int| 0 <= k < old_out.len() && #[trigger] old_out[k] == src[j];
            if k < pos {
                assert(nv[k] == src[j]);
            } else {
                assert(nv[k + 1] == src[j]);
            }
        }
    }
}

/// The spans of `v`, longest first; spans of equal length keep their order.
fn sort_longest_first(v: &Vec<RemoteSpanInfo>) -> (r: Vec<RemoteSpanInfo>)
    requires
        distinct_peers(span_views(v@)),
        forall|i: int| 0 <= i < v@.len() ==> (#[trigger] v@[i]).start <= v@[i].end,
    ensures
        distinct_peers(span_views(r@)),
        longest_first(span_views(r@)),
        spans_map(span_views(r@)) == spans_map(span_views(v@)),
        forall|i: int| 0 <= i < r@.len() ==> (#[trigger] r@[i]).start <= r@[i].end,
{
    let ghost src = span_views(v@);
    let mut out: Vec<RemoteSpanInfo> = Vec::new();
    let mut i: usize = 0;
    while i < v.len()
        invariant
            i <= v@.len(),
            src == span_views(v@),
            distinct_peers(src),
            forall|j: int| 0 <= j < v@.len() ==> (#[trigger] v@[j]).start <= v@[j].end,
            distinct_peers(span_views(out@)),
            longest_first(span_views(out@)),
            forall|k: int| 0 <= k < out@.len() ==> (#[trigger] out@[k]).start <= out@[k].end,
            forall|k: int|
                0 <= k < out@.len() ==> has_span(src.take(i as int), #[trigger] span_views(out@)[k]),
            forall|j: int| 0 <= j < i ==> has_span(span_views(out@), #[trigger] src[j]),
        decreases v@.len() - i,
    {
        let x = v[i].clone();
        let xl = x.end - x.start;
        let mut pos: usize = 0;
        while pos < out.len() && out[pos].end - out[pos].start >= xl
            invariant
                pos <= out@.len(),
                forall|k: int| 0 <= k < out@.len() ==> (#[trigger] out@[k]).start <= out@[k].end,
                forall|k: int| 0 <= k < pos ==> (#[trigger] out@[k]).end - out@[k].start >= xl,
            decreases out@.len() - pos,
        {
            pos = pos + 1;
        }
        let ghost old_out = span_views(out@);
        let ghost old_exec = out@;
        let ghost xv = x@;
        proof {
            assert(xv == src[i as int]);
            assert forall|k: int| pos <= k < old_out.len() implies #[trigger] old_out[k].end
                - old_out[k].start < xl by {
                assert(old_out[pos as int].end - old_out[pos as int].start < xl);
                if k > pos {
                    assert(old_out[pos as int].end - old_out[pos as int].start >= old_out[k].end
                        - old_out[k].start);
                }
            }
            assert forall|k: int| 0 <= k < old_out.len() implies old_out[k].peer != xv.peer by {
                assert(has_span(src.take(i as int), old_out[k]));
                let j = choose|j: int| 0 <= j < src.take(i as int).len() && #[trigger] src.take(
                    i as int,
                )[j] == old_out[k];
                assert(src[j] == old_out[k]);
            }
        }
        out.insert(pos, x);
        proof {
            assert(span_views(out@) =~= old_out.insert(pos as int, xv));
            lemma_insert_by_length(old_out, pos as int, xv, src, i as int);
            assert(out@ == old_exec.insert(pos as int, x));
            old_exec.insert_ensures(pos as int, x);
            assert forall|k: int| 0 <= k < out@.len() implies (#[trigger] out@[k]).start
                <= out@[k].end by {
                if k < pos {
                    assert(out@[k] == old_exec[k]);
                } else if k > pos {
                    assert(out@[k] == old_exec[k - 1]);
                }
            }
        }
        i = i + 1;
    }
    proof {
        assert(src.take(v@.len() as int) =~= src);
        lemma_same_members(span_views(out@), src);
    }
    out
}

/// Whether every span that the online servers of `module_infos` give
/// starts no later than it ends, which `spans_by_priority` asks of them.
pub fn online_spans_ordered(module_infos: &[RemoteModuleInfo]) -> (r: bool)
    ensures
        r == spans_ordered(spec_compute_spans(module_views(module_infos@), ServerState::Online)),
{
    let spans = compute_spans(module_infos, ServerState::Online);
    let ghost sv = span_views(spans@);
    let mut i: usize = 0;
    while i < spans.len()
        invariant
            i <= spans@.len(),
            sv == span_views(spans@),
            distinct_peers(sv),
            spans_map(sv) == spec_compute_spans(module_views(module_infos@), ServerState::Online),
            forall|k: int| 0 <= k < i ==> (#[trigger] spans@[k]).start <= spans@[k].end,
        decreases spans@.len() - i,
    {
        if spans[i].start > spans[i].end {
            proof {
                lemma_spans_map_index(sv, i as int);
                assert(sv[i as int] == spans@[i as int]@);
                let m = spans_map(sv);
                assert(m.contains_key(sv[i as int].peer));
                assert(m[sv[i as int].peer].start > m[sv[i as int].peer].end);
                assert(!spans_ordered(m));
            }
            return false;
        }
        i = i + 1;
    }
    proof {
        assert forall|p: Seq<u8>| #[trigger] spans_map(sv).contains_key(p) implies spans_map(sv)[p].start
            <= spans_map(sv)[p].end by {
            if forall|k: int| 0 <= k < sv.len() ==> sv[k].peer != p {
                lemma_spans_map_absent(sv, p);
            }
            let k = choose|k: int| 0 <= k < sv.len() && sv[k].peer == p;
            lemma_spans_map_index(sv, k);
            assert(sv[k] == spans@[k]@);
        }
    }
    true
}

/// The spans of the peers serving blocks while online, longest first.
///
/// The caller's blocks give no span that ends before it starts, which
/// `online_spans_ordered` tells.
pub fn spans_by_priority(module_infos: &[RemoteModuleInfo]) -> (r: Vec<RemoteSpanInfo>)
    requires
        spans_ordered(spec_compute_spans(module_views(module_infos@), ServerState::Online)),
    ensures
        distinct_peers(span_views(r@)),
        longest_first(span_views(r@)),
        spans_map(span_views(r@)) == spec_compute_spans(
            module_views(module_infos@),
            ServerState::Online,
        ),
{
    let spans = compute_spans(module_infos, ServerState::Online);
    proof {
        let sv = span_views(spans@);
        assert forall|i: int| 0 <= i < spans@.len() implies (#[trigger] spans@[i]).start
            <= spans@[i].end by {
            lemma_spans_map_index(sv, i);
            assert(sv[i] == spans@[i]@);
        }
    }
    sort_longest_first(&spans)
}

} // verus!
