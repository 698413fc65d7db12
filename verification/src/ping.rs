//! Round-trip times measured to peers, and when each was last measured.
//!
//! A round-trip time is held as the bit pattern of its `f64` value in
//! milliseconds; the library stores and returns it without reading it.
use vstd::prelude::*;
use std::time::Instant;
use crate::clock::{duration_as_nanos, instant_elapsed, instant_now};
use crate::peer::{peer_id_base58, PeerKey};
use crate::provider_cache::age;

verus! {

/// One measurement: the peer, its round-trip time, and when it was taken, in
/// nanoseconds after the aggregator was made.
#[derive(Debug)]
struct PingRecord {
    peer: PeerKey,
    rtt_bits: u64,
    at: u128,
}

impl View for PingRecord {
    type V = (Seq<u8>, u64, u128);

    closed spec fn view(&self) -> (Seq<u8>, u64, u128) {
        (self.peer@, self.rtt_bits, self.at)
    }
}

/// The position of the measurement of peer `p` in `s`, or -1.
pub open spec fn index_of_peer(s: Seq<(Seq<u8>, u64, u128)>, p: Seq<u8>) -> int
    decreases s.len(),
{
    if s.len() == 0 {
        -1
    } else if s.last().0 == p {
        s.len() - 1
    } else {
        index_of_peer(s.drop_last(), p)
    }
}

/// Whether no peer is measured twice in `s`.
pub open spec fn distinct_peers(s: Seq<(Seq<u8>, u64, u128)>) -> bool {
    forall|i: int, j: int| 0 <= i < j < s.len() ==> s[i].0 != s[j].0
}

/// Whether the measurement `e` is older than `max_age` at `now`.
pub open spec fn is_stale(e: (Seq<u8>, u64, u128), max_age: u128, now: u128) -> bool {
    age(now, e.2) > max_age
}

/// The measurements of `s` that are not older than `max_age` at `now`, in order.
pub open spec fn recent(s: Seq<(Seq<u8>, u64, u128)>, max_age: u128, now: u128) -> Seq<
    (Seq<u8>, u64, u128),
>
    decreases s.len(),
{
    if s.len() == 0 {
        Seq::empty()
    } else {
        let rest = recent(s.drop_last(), max_age, now);
        if is_stale(s.last(), max_age, now) {
            rest
        } else {
            rest.push(s.last())
        }
    }
}

/// The measurements after recording `rtt` for `p` at `now`: the peer's
/// earlier measurement is replaced, or a new one is added at the end.
pub open spec fn recorded(s: Seq<(Seq<u8>, u64, u128)>, p: Seq<u8>, rtt: u64, now: u128) -> Seq<
    (Seq<u8>, u64, u128),
> {
    let i = index_of_peer(s, p);
    if i >= 0 {
        s.update(i, (p, rtt, now))
    } else {
        s.push((p, rtt, now))
    }
}

proof fn lemma_index_of_peer(s: Seq<(Seq<u8>, u64, u128)>, p: Seq<u8>)
    ensures
        -1 <= index_of_peer(s, p) < s.len(),
        index_of_peer(s, p) >= 0 ==> s[index_of_peer(s, p)].0 == p,
        index_of_peer(s, p) < 0 ==> forall|k: int| 0 <= k < s.len() ==> s[k].0 != p,
    decreases s.len(),
{
    if s.len() > 0 && s.last().0 != p {
        lemma_index_of_peer(s.drop_last(), p);
        assert forall|k: int| 0 <= k < s.len() && index_of_peer(s, p) < 0 implies s[k].0 != p by {
            if k < s.len() - 1 {
                assert(s[k] == s.drop_last()[k]);
            }
        }
    }
}

proof fn lemma_recorded_distinct(s: Seq<(Seq<u8>, u64, u128)>, p: Seq<u8>, rtt: u64, now: u128)
    requires
        distinct_peers(s),
    ensures
        distinct_peers(recorded(s, p, rtt, now)),
{
    lemma_index_of_peer(s, p);
}

proof fn lemma_recent_distinct(s: Seq<(Seq<u8>, u64, u128)>, max_age: u128, now: u128)
    requires
        distinct_peers(s),
    ensures
        distinct_peers(recent(s, max_age, now)),
        forall|i: int|
            0 <= i < recent(s, max_age, now).len() ==> exists|j: int|
                0 <= j < s.len() && s[j] == #[trigger] recent(s, max_age, now)[i],
    decreases s.len(),
{
    if s.len() > 0 {
        let d = s.drop_last();
        lemma_recent_distinct(d, max_age, now);
        let rest = recent(d, max_age, now);
        assert forall|i: int| 0 <= i < rest.len() implies exists|j: int|
            0 <= j < s.len() && s[j] == #[trigger] rest[i] by {
            let j = choose|j: int| 0 <= j < d.len() && d[j] == rest[i];
            assert(s[j] == d[j]);
        }
        if !is_stale(s.last(), max_age, now) {
            let r = rest.push(s.last());
            assert forall|i: int, j: int| 0 <= i < j < r.len() implies r[i].0 != r[j].0 by {
                if j == rest.len() {
                    let k = choose|k: int| 0 <= k < d.len() && d[k] == rest[i];
                    assert(s[k] == d[k]);
                    assert(s[k].0 != s[s.len() - 1].0);
                }
            }
            assert forall|i: int| 0 <= i < r.len() implies exists|j: int|
                0 <= j < s.len() && s[j] == #[trigger] r[i] by {
                if i < rest.len() {
                    assert(r[i] == rest[i]);
                } else {
                    assert(s[s.len() - 1] == r[i]);
                }
            }
        }
    }
}

/// The measurement last in `s` for a peer is where `index_of_peer` finds it.
proof fn lemma_index_of_last(s: Seq<(Seq<u8>, u64, u128)>, p: Seq<u8>, j: int)
    requires
        0 <= j < s.len(),
        s[j].0 == p,
        forall|k: int| j < k < s.len() ==> s[k].0 != p,
    ensures
        index_of_peer(s, p) == j,
    decreases s.len(),
{
    if j < s.len() - 1 {
        lemma_index_of_last(s.drop_last(), p, j);
    }
}

/// Replacing a measurement by one of another peer leaves where `q` is found.
proof fn lemma_index_update_other(s: Seq<(Seq<u8>, u64, u128)>, i: int, e: (Seq<u8>, u64, u128), q: Seq<u8>)
    requires
        0 <= i < s.len(),
        s[i].0 != q,
        e.0 != q,
    ensures
        index_of_peer(s.update(i, e), q) == index_of_peer(s, q),
    decreases s.len(),
{
    if i < s.len() - 1 {
        assert(s.update(i, e).drop_last() =~= s.drop_last().update(i, e));
        lemma_index_update_other(s.drop_last(), i, e, q);
    } else {
        assert(s.update(i, e).drop_last() =~= s.drop_last());
    }
}

/// Recording a round-trip time for a peer and then asking for it gives that
/// time back; the peers found, and their times, are otherwise unchanged.
pub proof fn lemma_record_then_get(s: Seq<(Seq<u8>, u64, u128)>, p: Seq<u8>, rtt: u64, now: u128, q: Seq<u8>)
    requires
        distinct_peers(s),
    ensures
        ({
            let t = recorded(s, p, rtt, now);
            &&& index_of_peer(t, p) >= 0
            &&& t[index_of_peer(t, p)].1 == rtt
            &&& q != p ==> index_of_peer(t, q) == index_of_peer(s, q)
            &&& q != p && index_of_peer(s, q) >= 0 ==> t[index_of_peer(t, q)] == s[index_of_peer(s, q)]
        }),
{
    lemma_index_of_peer(s, p);
    lemma_index_of_peer(s, q);
    let i = index_of_peer(s, p);
    let e = (p, rtt, now);
    if i >= 0 {
        lemma_index_of_last(s.update(i, e), p, i);
        if q != p {
            lemma_index_update_other(s, i, e, q);
        }
    } else {
        assert(s.push(e).drop_last() =~= s);
    }
}

/// Round-trip times to peers and when each was measured.
#[derive(Debug)]
pub struct PingAggregator {
    records: Vec<PingRecord>,
    epoch: Instant,
}

impl View for PingAggregator {
    type V = Seq<(Seq<u8>, u64, u128)>;

    closed spec fn view(&self) -> Seq<(Seq<u8>, u64, u128)> {
        self.records@.map_values(|r: PingRecord| r@)
    }
}

impl PingAggregator {
    /// No peer is measured twice.
    #[verifier::type_invariant]
    spec fn inv(self) -> bool {
        distinct_peers(self@)
    }

    /// An aggregator with no measurements.
    pub fn new() -> (r: PingAggregator)
        ensures
            r@ == Seq::<(Seq<u8>, u64, u128)>::empty(),
    {
        let r = PingAggregator { records: Vec::new(), epoch: instant_now() };
        assert(r@ =~= Seq::<(Seq<u8>, u64, u128)>::empty());
        r
    }

    /// Nanoseconds since the aggregator was made.
    fn clock(&self) -> u128 {
        duration_as_nanos(&instant_elapsed(&self.epoch))
    }

    /// The position of the measurement of `peer_id`, if there is one.
    fn find(&self, peer_id: &PeerKey) -> (r: Option<usize>)
        ensures
            match r {
                Some(i) => index_of_peer(self@, peer_id@) == i && i < self@.len() && self@[i as int].0
                    == peer_id@,
                None => index_of_peer(self@, peer_id@) < 0,
            },
    {
        proof {
            lemma_index_of_peer(self@, peer_id@);
        }
        let mut i: usize = self.records.len();
        assert(self@.take(i as int) =~= self@);
        while i > 0
            invariant
                i <= self.records@.len(),
                index_of_peer(self@, peer_id@) == index_of_peer(self@.take(i as int), peer_id@),
            decreases i,
        {
            let ghost t = self@.take(i as int);
            assert(t.drop_last() =~= self@.take(i - 1));
            assert(t.last() == self.records@[i - 1]@);
            if self.records[i - 1].peer.same(peer_id) {
                return Some(i - 1);
            }
            i = i - 1;
        }
        None
    }

    /// Records `rtt_bits` as the round-trip time to `peer_id`, measured at
    /// `now` nanoseconds after the aggregator was made.
    pub fn record_rtt_at(&mut self, peer_id: PeerKey, rtt_bits: u64, now: u128)
        ensures
            final(self)@ == recorded(old(self)@, peer_id@, rtt_bits, now),
            distinct_peers(final(self)@),
    {
        proof {
            use_type_invariant(&*self);
            assert(self@.take(self@.len() as int) =~= self@);
            lemma_recorded_distinct(self@, peer_id@, rtt_bits, now);
        }
        let ghost s = self@;
        let ghost pv = peer_id@;
        let rec = PingRecord { peer: peer_id, rtt_bits, at: now };
        let found = self.find(&rec.peer);
        let mut records: Vec<PingRecord> = Vec::new();
        std::mem::swap(&mut records, &mut self.records);
        assert(records@.map_values(|r: PingRecord| r@) == s);
        match found {
            Some(i) => {
                records.set(i, rec);
                assert(records@.map_values(|r: PingRecord| r@) =~= s.update(i as int, (pv, rtt_bits, now)));
            },
            None => {
                records.push(rec);
                assert(records@.map_values(|r: PingRecord| r@) =~= s.push((pv, rtt_bits, now)));
            },
        }
        self.records = records;
    }

    /// Records `rtt_bits` as the round-trip time to `peer_id`, measured now.
    pub fn record_rtt(&mut self, peer_id: PeerKey, rtt_bits: u64)
        ensures
            exists|now: u128| final(self)@ == recorded(old(self)@, peer_id@, rtt_bits, now),
            distinct_peers(final(self)@),
    {
        let now = self.clock();
        self.record_rtt_at(peer_id, rtt_bits, now);
    }

    /// The round-trip time last recorded for `peer_id`.
    pub fn get_rtt(&self, peer_id: &PeerKey) -> (r: Option<u64>)
        ensures
            index_of_peer(self@, peer_id@) >= 0 ==> r == Some(self@[index_of_peer(self@, peer_id@)].1),
            index_of_peer(self@, peer_id@) < 0 ==> r is None,
    {
        proof {
            assert(self@.take(self@.len() as int) =~= self@);
        }
        match self.find(peer_id) {
            Some(i) => Some(self.records[i].rtt_bits),
            None => None,
        }
    }

    /// Each measured peer, named by its base-58 text, with its round-trip time.
    pub fn to_dict(&self) -> (r: Vec<(String, u64)>)
        ensures
            r@.len() == self@.len(),
            forall|i: int|
                0 <= i < r@.len() ==> (#[trigger] r@[i]).0@ == peer_id_base58(self@[i].0) && r@[i].1
                    == self@[i].1,
    {
        let mut out: Vec<(String, u64)> = Vec::new();
        let mut i: usize = 0;
        while i < self.records.len()
            invariant
                i <= self.records@.len(),
                out@.len() == i,
                forall|k: int|
                    0 <= k < i ==> (#[trigger] out@[k]).0@ == peer_id_base58(self@[k].0) && out@[k].1
                        == self@[k].1,
            decreases self.records@.len() - i,
        {
            let name = self.records[i].peer.to_base58();
            out.push((name, self.records[i].rtt_bits));
            i = i + 1;
        }
        out
    }

    /// Whether the measurement of `peer_id` is older than `max_age_nanos` at
    /// `now`; a peer never measured is stale.
    pub fn stale_at(&self, peer_id: &PeerKey, max_age_nanos: u128, now: u128) -> (r: bool)
        ensures
            index_of_peer(self@, peer_id@) >= 0 ==> r == is_stale(
                self@[index_of_peer(self@, peer_id@)],
                max_age_nanos,
                now,
            ),
            index_of_peer(self@, peer_id@) < 0 ==> r,
    {
        proof {
            assert(self@.take(self@.len() as int) =~= self@);
        }
        match self.find(peer_id) {
            Some(i) => {
                let at = self.records[i].at;
                if now >= at {
                    now - at > max_age_nanos
                } else {
                    false
                }
            },
            None => true,
        }
    }

    /// Whether the measurement of `peer_id` is now older than `max_age_nanos`
    /// nanoseconds; a peer never measured is stale.
    pub fn stale(&self, peer_id: &PeerKey, max_age_nanos: u128) -> (r: bool)
        ensures
            index_of_peer(self@, peer_id@) < 0 ==> r,
            index_of_peer(self@, peer_id@) >= 0 ==> exists|now: u128|
                r == is_stale(self@[index_of_peer(self@, peer_id@)], max_age_nanos, now),
    {
        let now = self.clock();
        self.stale_at(peer_id, max_age_nanos, now)
    }

    /// Drops the measurements older than `max_age_nanos` at `now`.
    pub fn retain_recent_at(&mut self, max_age_nanos: u128, now: u128)
        ensures
            final(self)@ == recent(old(self)@, max_age_nanos, now),
            distinct_peers(final(self)@),
    {
        let ghost s = self@;
        proof {
            use_type_invariant(&*self);
            lemma_recent_distinct(s, max_age_nanos, now);
        }
        let mut kept: Vec<PingRecord> = Vec::new();
        let mut i: usize = 0;
        while i < self.records.len()
            invariant
                i <= self.records@.len(),
                s == self@,
                kept@.map_values(|r: PingRecord| r@) == recent(s.take(i as int), max_age_nanos, now),
            decreases self.records@.len() - i,
        {
            let ghost t = s.take(i + 1);
            assert(t.drop_last() =~= s.take(i as int));
            assert(t.last() == self.records@[i as int]@);
            let at = self.records[i].at;
            let old_enough = if now >= at {
                now - at > max_age_nanos
            } else {
                false
            };
            if !old_enough {
                let r = PingRecord {
                    peer: self.records[i].peer.clone(),
                    rtt_bits: self.records[i].rtt_bits,
                    at,
                };
                let ghost before = kept@;
                kept.push(r);
                assert(kept@.map_values(|r: PingRecord| r@) =~= before.map_values(
                    |r: PingRecord| r@,
                ).push(r@));
            }
            i = i + 1;
        }
        assert(s.take(i as int) =~= s);
        self.records = kept;
    }

    /// Drops the measurements that are now older than `max_age_nanos`
    /// nanoseconds.
    pub fn retain_recent(&mut self, max_age_nanos: u128)
        ensures
            exists|now: u128| final(self)@ == recent(old(self)@, max_age_nanos, now),
            distinct_peers(final(self)@),
    {
        let now = self.clock();
        self.retain_recent_at(max_age_nanos, now);
    }
}

} // verus!
