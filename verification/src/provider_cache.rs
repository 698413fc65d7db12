//! Providers found for each layer, remembered for a limited time.
use vstd::prelude::*;
use std::collections::HashMap;
use std::time::Instant;
use vstd::std_specs::iter::IteratorSpec;
use crate::clock::{duration_as_nanos, instant_elapsed, instant_now};
use crate::peer::{contains_peer, PeerKey};

verus! {

broadcast use vstd::std_specs::hash::group_hash_axioms;

/// A provider and when it was found, in nanoseconds after the cache was made.
#[derive(Debug)]
struct ProviderEntry {
    peer_id: PeerKey,
    discovered_at: u128,
}

impl View for ProviderEntry {
    type V = (Seq<u8>, u128);

    closed spec fn view(&self) -> (Seq<u8>, u128) {
        (self.peer_id@, self.discovered_at)
    }
}

/// The providers of each layer, in the order they were found, each with the
/// time it was found.
pub type CacheView = Map<u32, Seq<(Seq<u8>, u128)>>;

/// The providers recorded for `layer`.
pub open spec fn providers_of(m: CacheView, layer: u32) -> Seq<(Seq<u8>, u128)> {
    if m.contains_key(layer) {
        m[layer]
    } else {
        Seq::empty()
    }
}

/// Time from `t` to `now`, 0 when `t` is later.
pub open spec fn age(now: u128, t: u128) -> nat {
    if now >= t {
        (now - t) as nat
    } else {
        0
    }
}

/// The providers of `es` younger than `ttl` at `now`, and not in `exclude`, in order.
pub open spec fn fresh(es: Seq<(Seq<u8>, u128)>, now: u128, ttl: u128, exclude: Seq<Seq<u8>>) -> Seq<
    Seq<u8>,
>
    decreases es.len(),
{
    if es.len() == 0 {
        Seq::empty()
    } else {
        let rest = fresh(es.drop_last(), now, ttl, exclude);
        let e = es.last();
        if age(now, e.1) < ttl && !exclude.contains(e.0) {
            rest.push(e.0)
        } else {
            rest
        }
    }
}

/// The entries of `es` younger than `ttl` at `now`, in order.
pub open spec fn unexpired(es: Seq<(Seq<u8>, u128)>, now: u128, ttl: u128) -> Seq<(Seq<u8>, u128)>
    decreases es.len(),
{
    if es.len() == 0 {
        Seq::empty()
    } else {
        let rest = unexpired(es.drop_last(), now, ttl);
        if age(now, es.last().1) < ttl {
            rest.push(es.last())
        } else {
            rest
        }
    }
}

/// The entries of `es` whose provider is not `p`, in order.
pub open spec fn without(es: Seq<(Seq<u8>, u128)>, p: Seq<u8>) -> Seq<(Seq<u8>, u128)>
    decreases es.len(),
{
    if es.len() == 0 {
        Seq::empty()
    } else {
        let rest = without(es.drop_last(), p);
        if es.last().0 != p {
            rest.push(es.last())
        } else {
            rest
        }
    }
}

/// The cache after pruning at `now`: expired entries dropped, then layers
/// left without entries.
pub open spec fn pruned(m: CacheView, now: u128, ttl: u128) -> CacheView {
    Map::new(
        |k: u32| m.contains_key(k) && unexpired(m[k], now, ttl).len() > 0,
        |k: u32| unexpired(m[k], now, ttl),
    )
}

/// The number of entries over the layers `ks`.
pub open spec fn entries_over(m: CacheView, ks: Seq<u32>) -> nat
    decreases ks.len(),
{
    if ks.len() == 0 {
        0
    } else {
        entries_over(m, ks.drop_last()) + m[ks.last()].len()
    }
}

/// Whether `p` is the first provider of `layer` that is fresh at `now` and not excluded.
pub open spec fn first_fresh_is(m: CacheView, layer: u32, now: u128, ttl: u128, exclude: Seq<Seq<u8>>, p: Seq<u8>) -> bool {
    let f = fresh(providers_of(m, layer), now, ttl, exclude);
    f.len() > 0 && f[0] == p
}

/// Whether `p` is, at some moment, the first fresh provider of `layer` not excluded.
pub open spec fn picked(m: CacheView, layer: u32, ttl: u128, exclude: Seq<Seq<u8>>, p: Seq<u8>) -> bool {
    exists|now: u128| found_by(m, now) && #[trigger] first_fresh_is(m, layer, now, ttl, exclude, p)
}

/// Whether, at some moment, `layer` has no fresh provider that is not excluded.
pub open spec fn starved(m: CacheView, layer: u32, ttl: u128, exclude: Seq<Seq<u8>>) -> bool {
    exists|now: u128| found_by(m, now) && #[trigger] fresh(providers_of(m, layer), now, ttl, exclude).len() == 0
}

/// Whether every entry of `es` was found no later than `t`.
pub open spec fn times_at_most(es: Seq<(Seq<u8>, u128)>, t: u128) -> bool {
    forall|j: int| 0 <= j < es.len() ==> (#[trigger] es[j]).1 <= t
}

/// Whether every entry of the cache was found no later than `t`: a reading
/// of the clock at `t` comes after every discovery the cache holds.
pub open spec fn found_by(m: CacheView, t: u128) -> bool {
    forall|l: u32| #[trigger] m.contains_key(l) ==> times_at_most(m[l], t)
}

pub open spec fn peer_views(s: Seq<PeerKey>) -> Seq<Seq<u8>> {
    s.map_values(|p: PeerKey| p@)
}

/// Providers found per layer, each kept for the time-to-live the cache was made with.
#[derive(Debug)]
pub struct ProviderCache {
    providers: HashMap<u32, Vec<ProviderEntry>>,
    ttl_nanos: u128,
    epoch: Instant,
    latest: u128,
}

impl View for ProviderCache {
    type V = CacheView;

    closed spec fn view(&self) -> CacheView {
        cache_view(self.providers@)
    }
}

spec fn cache_view(p: Map<u32, Vec<ProviderEntry>>) -> CacheView {
    p.map_values(|v: Vec<ProviderEntry>| v@.map_values(|e: ProviderEntry| e@))
}

impl ProviderCache {
    /// Every entry was found no later than the latest reading.
    #[verifier::type_invariant]
    spec fn inv(self) -> bool {
        found_by(self@, self.latest)
    }

    /// The time-to-live of entries, in nanoseconds.
    pub closed spec fn ttl(&self) -> u128 {
        self.ttl_nanos
    }

    /// An empty cache whose entries live for `ttl_nanos` nanoseconds.
    pub fn new(ttl_nanos: u128) -> (r: ProviderCache)
        ensures
            r@ == CacheView::empty(),
            r.ttl() == ttl_nanos,
    {
        let r = ProviderCache { providers: HashMap::new(), ttl_nanos, epoch: instant_now(), latest: 0 };
        assert(r@ =~= CacheView::empty());
        r
    }

    /// Nanoseconds since the cache was made.
    fn clock(&self) -> u128 {
        duration_as_nanos(&instant_elapsed(&self.epoch))
    }

    /// A reading of the clock, in nanoseconds since the cache was made, no
    /// earlier than the discovery of any entry: the clock is monotonic, and
    /// an entry recorded with an explicit later moment moves the readings on.
    fn reading(&self) -> (r: u128)
        ensures
            found_by(self@, r),
    {
        proof {
            use_type_invariant(self);
        }
        let c = self.clock();
        let r = if c >= self.latest {
            c
        } else {
            self.latest
        };
        assert forall|l: u32| #[trigger] self@.contains_key(l) implies times_at_most(self@[l], r) by {
            assert(times_at_most(self@[l], self.latest));
        }
        r
    }

    /// Records `peer_id` as a provider of `layer`, found at `now`.
    pub fn insert_at(&mut self, layer: u32, peer_id: PeerKey, now: u128)
        ensures
            final(self)@ == old(self)@.insert(
                layer,
                providers_of(old(self)@, layer).push((peer_id@, now)),
            ),
            final(self).ttl() == old(self).ttl(),
    {
        proof {
            use_type_invariant(&*self);
        }
        let ghost before = self@;
        let mut providers: HashMap<u32, Vec<ProviderEntry>> = HashMap::new();
        std::mem::swap(&mut providers, &mut self.providers);
        assert(providers@.map_values(|v: Vec<ProviderEntry>| v@.map_values(|e: ProviderEntry| e@))
            == before);
        if now > self.latest {
            self.latest = now;
        }
        let mut list = match providers.remove(&layer) {
            Some(v) => v,
            None => Vec::new(),
        };
        let ghost lv = list@.map_values(|e: ProviderEntry| e@);
        assert(lv == providers_of(before, layer));
        let e = ProviderEntry { peer_id, discovered_at: now };
        list.push(e);
        assert(list@.map_values(|e: ProviderEntry| e@) =~= lv.push(e@));
        providers.insert(layer, list);
        let ghost after = before.insert(layer, providers_of(before, layer).push(e@));
        assert(providers@.map_values(|v: Vec<ProviderEntry>| v@.map_values(|e: ProviderEntry| e@))
            =~= after);
        assert(found_by(after, self.latest)) by {
            assert forall|l: u32| #[trigger] after.contains_key(l) implies times_at_most(after[l], self.latest) by {
                if l != layer {
                    assert(before.contains_key(l));
                    assert(times_at_most(before[l], self.latest));
                } else {
                    let es = providers_of(before, layer).push(e@);
                    assert forall|j: int| 0 <= j < es.len() implies (#[trigger] es[j]).1 <= self.latest by {
                        if j < es.len() - 1 {
                            assert(before.contains_key(layer));
                            assert(times_at_most(before[layer], self.latest));
                        }
                    }
                }
            }
        }
        self.providers = providers;
    }

    /// Records `peer_id` as a provider of `layer`, found now.
    pub fn insert(&mut self, layer: u32, peer_id: PeerKey)
        ensures
            exists|now: u128|
                found_by(old(self)@, now) && final(self)@ == old(self)@.insert(
                    layer,
                    providers_of(old(self)@, layer).push((peer_id@, now)),
                ),
            final(self).ttl() == old(self).ttl(),
    {
        let now = self.reading();
        self.insert_at(layer, peer_id, now);
    }

    /// The providers of `layer` younger than the time-to-live at `now` and not
    /// in `exclude`, in the order they were found.
    pub fn get_excluding_at(&self, layer: u32, exclude: &[PeerKey], now: u128) -> (r: Vec<PeerKey>)
        ensures
            peer_views(r@) == fresh(providers_of(self@, layer), now, self.ttl(), peer_views(exclude@)),
    {
        let ghost ex = peer_views(exclude@);
        let mut out: Vec<PeerKey> = Vec::new();
        match self.providers.get(&layer) {
            None => {
                assert(peer_views(out@) =~= Seq::<Seq<u8>>::empty());
            },
            Some(entries) => {
                let ghost es = entries@.map_values(|e: ProviderEntry| e@);
                assert(es == providers_of(self@, layer));
                let mut i: usize = 0;
                while i < entries.len()
                    invariant
                        i <= entries@.len(),
                        es == entries@.map_values(|e: ProviderEntry| e@),
                        ex == peer_views(exclude@),
                        peer_views(out@) == fresh(es.take(i as int), now, self.ttl_nanos, ex),
                    decreases entries@.len() - i,
                {
                    let e = &entries[i];
                    let ghost t = es.take(i + 1);
                    assert(t.drop_last() =~= es.take(i as int));
                    assert(t.last() == e@);
                    let young = if now >= e.discovered_at {
                        now - e.discovered_at < self.ttl_nanos
                    } else {
                        0 < self.ttl_nanos
                    };
                    let excluded = contains_peer(exclude, &e.peer_id);
                    assert(excluded == ex.contains(e.peer_id@)) by {
                        if ex.contains(e.peer_id@) {
                            let j = choose|j: int| 0 <= j < ex.len() && ex[j] == e.peer_id@;
                            assert(exclude@[j]@ == e.peer_id@);
                        }
                        if excluded {
                            let j = choose|j: int|
                                0 <= j < exclude@.len() && (#[trigger] exclude@[j])@ == e.peer_id@;
                            assert(ex[j] == e.peer_id@);
                        }
                    }
                    if young && !excluded {
                        let ghost before = out@;
                        let p = e.peer_id.clone();
                        out.push(p);
                        assert(peer_views(out@) =~= peer_views(before).push(p@));
                    }
                    i = i + 1;
                }
                assert(es.take(es.len() as int) =~= es);
            },
        }
        out
    }

    /// The providers of `layer` still fresh now and not in `exclude`, in the
    /// order they were found.
    pub fn get_excluding(&self, layer: u32, exclude: &[PeerKey]) -> (r: Vec<PeerKey>)
        ensures
            exists|now: u128|
                found_by(self@, now) && peer_views(r@) == fresh(
                    providers_of(self@, layer),
                    now,
                    self.ttl(),
                    peer_views(exclude@),
                ),
    {
        let now = self.reading();
        self.get_excluding_at(layer, exclude, now)
    }

    /// A chain with one provider for each of `layers`: the first provider of
    /// each layer that is fresh at `now` and not excluded, in the order of the
    /// layers. `None` exactly when some layer has none.
    pub fn build_chain_at(&self, layers: &[u32], exclude: &[PeerKey], now: u128) -> (r: Option<Vec<PeerKey>>)
        ensures
            r is Some <==> forall|i: int|
                0 <= i < layers@.len() ==> #[trigger] fresh(
                    providers_of(self@, layers@[i]),
                    now,
                    self.ttl(),
                    peer_views(exclude@),
                ).len() > 0,
            r matches Some(c) ==> c@.len() == layers@.len() && forall|i: int|
                0 <= i < layers@.len() ==> #[trigger] first_fresh_is(
                    self@,
                    layers@[i],
                    now,
                    self.ttl(),
                    peer_views(exclude@),
                    c@[i]@,
                ),
    {
        let ghost ex = peer_views(exclude@);
        let mut chain: Vec<PeerKey> = Vec::new();
        let mut i: usize = 0;
        while i < layers.len()
            invariant
                i <= layers@.len(),
                ex == peer_views(exclude@),
                chain@.len() == i,
                forall|k: int|
                    0 <= k < i ==> #[trigger] first_fresh_is(self@, layers@[k], now, self.ttl(), ex, chain@[k]@),
            decreases layers@.len() - i,
        {
            let candidates = self.get_excluding_at(layers[i], exclude, now);
            if candidates.len() == 0 {
                assert(fresh(providers_of(self@, layers@[i as int]), now, self.ttl(), ex).len() == 0);
                return None;
            }
            let first = candidates[0].clone();
            let ghost before = chain@;
            chain.push(first);
            assert(first_fresh_is(self@, layers@[i as int], now, self.ttl(), ex, first@)) by {
                assert(peer_views(candidates@)[0] == candidates@[0]@);
            }
            assert forall|k: int| 0 <= k < i + 1 implies #[trigger] first_fresh_is(
                self@,
                layers@[k],
                now,
                self.ttl(),
                ex,
                chain@[k]@,
            ) by {
                if k < i {
                    assert(chain@[k] == before[k]);
                }
            }
            i = i + 1;
        }
        assert forall|k: int| 0 <= k < layers@.len() implies #[trigger] fresh(
            providers_of(self@, layers@[k]),
            now,
            self.ttl(),
            ex,
        ).len() > 0 by {
            assert(first_fresh_is(self@, layers@[k], now, self.ttl(), ex, chain@[k]@));
        }
        Some(chain)
    }

    /// A chain with one provider for each of `layers`: the first provider of
    /// each layer that is fresh when its layer is looked at and not excluded.
    /// `None` when some layer has none.
    pub fn build_chain(&self, layers: &[u32], exclude: &[PeerKey]) -> (r: Option<Vec<PeerKey>>)
        ensures
            r matches Some(c) ==> c@.len() == layers@.len() && forall|i: int|
                0 <= i < layers@.len() ==> #[trigger] picked(
                    self@,
                    layers@[i],
                    self.ttl(),
                    peer_views(exclude@),
                    c@[i]@,
                ),
            r is None ==> exists|i: int|
                0 <= i < layers@.len() && #[trigger] starved(
                    self@,
                    layers@[i],
                    self.ttl(),
                    peer_views(exclude@),
                ),
    {
        let ghost ex = peer_views(exclude@);
        let mut chain: Vec<PeerKey> = Vec::new();
        let mut i: usize = 0;
        while i < layers.len()
            invariant
                i <= layers@.len(),
                ex == peer_views(exclude@),
                chain@.len() == i,
                forall|k: int|
                    0 <= k < i ==> #[trigger] picked(self@, layers@[k], self.ttl(), ex, chain@[k]@),
            decreases layers@.len() - i,
        {
            let candidates = self.get_excluding(layers[i], exclude);
            let ghost now = choose|now: u128|
                found_by(self@, now) && peer_views(candidates@) == fresh(
                    providers_of(self@, layers@[i as int]),
                    now,
                    self.ttl(),
                    ex,
                );
            if candidates.len() == 0 {
                assert(fresh(providers_of(self@, layers@[i as int]), now, self.ttl(), ex).len() == 0);
                assert(starved(self@, layers@[i as int], self.ttl(), ex));
                return None;
            }
            let first = candidates[0].clone();
            let ghost before = chain@;
            chain.push(first);
            assert(first_fresh_is(self@, layers@[i as int], now, self.ttl(), ex, first@)) by {
                assert(peer_views(candidates@)[0] == candidates@[0]@);
            }
            assert forall|k: int| 0 <= k < i + 1 implies #[trigger] picked(
                self@,
                layers@[k],
                self.ttl(),
                ex,
                chain@[k]@,
            ) by {
                if k < i {
                    assert(chain@[k] == before[k]);
                }
            }
            i = i + 1;
        }
        Some(chain)
    }

    /// Drops `peer_id` from the providers of `layer`.
    pub fn evict(&mut self, layer: u32, peer_id: &PeerKey)
        ensures
            old(self)@.contains_key(layer) ==> final(self)@ == old(self)@.insert(
                layer,
                without(old(self)@[layer], peer_id@),
            ),
            !old(self)@.contains_key(layer) ==> final(self)@ == old(self)@,
            final(self).ttl() == old(self).ttl(),
    {
        proof {
            use_type_invariant(&*self);
        }
        let ghost before = self@;
        let mut providers: HashMap<u32, Vec<ProviderEntry>> = HashMap::new();
        std::mem::swap(&mut providers, &mut self.providers);
        assert(cache_view(providers@) == before);
        match providers.remove(&layer) {
            None => {
                assert(cache_view(providers@) =~= before);
            },
            Some(entries) => {
                let ghost es = entries@.map_values(|e: ProviderEntry| e@);
                let mut kept: Vec<ProviderEntry> = Vec::new();
                let mut i: usize = 0;
                while i < entries.len()
                    invariant
                        i <= entries@.len(),
                        es == entries@.map_values(|e: ProviderEntry| e@),
                        kept@.map_values(|e: ProviderEntry| e@) == without(
                            es.take(i as int),
                            peer_id@,
                        ),
                    decreases entries@.len() - i,
                {
                    let ghost t = es.take(i + 1);
                    assert(t.drop_last() =~= es.take(i as int));
                    assert(t.last() == entries@[i as int]@);
                    if !entries[i].peer_id.same(peer_id) {
                        let e = ProviderEntry {
                            peer_id: entries[i].peer_id.clone(),
                            discovered_at: entries[i].discovered_at,
                        };
                        let ghost prev = kept@;
                        kept.push(e);
                        assert(kept@.map_values(|e: ProviderEntry| e@) =~= prev.map_values(
                            |e: ProviderEntry| e@,
                        ).push(e@));
                    }
                    i = i + 1;
                }
                assert(es.take(es.len() as int) =~= es);
                providers.insert(layer, kept);
                let ghost after = before.insert(layer, without(before[layer], peer_id@));
                assert(cache_view(providers@) =~= after);
                assert(found_by(after, self.latest)) by {
                    assert forall|l: u32| #[trigger] after.contains_key(l) implies times_at_most(
                        after[l],
                        self.latest,
                    ) by {
                        assert(before.contains_key(l));
                        assert(times_at_most(before[l], self.latest));
                        if l == layer {
                            lemma_without_times(before[layer], peer_id@, self.latest);
                        }
                    }
                }
            },
        }
        self.providers = providers;
    }

    /// Drops the entries older than the time-to-live at `now`, then the
    /// layers left without entries.
    pub fn prune_expired_at(&mut self, now: u128)
        ensures
            final(self)@ == pruned(old(self)@, now, old(self).ttl()),
            final(self).ttl() == old(self).ttl(),
    {
        proof {
            use_type_invariant(&*self);
        }
        let ghost before = self@;
        let ghost ttl = self.ttl_nanos;
        let mut providers: HashMap<u32, Vec<ProviderEntry>> = HashMap::new();
        std::mem::swap(&mut providers, &mut self.providers);
        assert(cache_view(providers@) == before);
        let ghost ks = vstd::std_specs::hash::spec_keys_iter(&providers).remaining().unref();
        let mut layers: Vec<u32> = Vec::new();
        for k in it: providers.keys()
            invariant
                it.seq().unref() == ks,
                ks.to_set() == before.dom(),
                ks.no_duplicates(),
                layers@ == ks.take(it.index()),
        {
            layers.push(*k);
            assert(layers@ =~= ks.take(it.index() + 1));
        }
        assert(layers@ =~= ks);
        let mut j: usize = 0;
        while j < layers.len()
            invariant
                j <= layers@.len(),
                layers@ == ks,
                ks.to_set() == before.dom(),
                ks.no_duplicates(),
                ttl == self.ttl_nanos,
                forall|k: u32|
                    #[trigger] cache_view(providers@).contains_key(k) <==> (before.contains_key(k) && (!ks.take(
                        j as int,
                    ).contains(k) || pruned(before, now, ttl).contains_key(k))),
                forall|k: u32|
                    #[trigger] cache_view(providers@).contains_key(k) ==> (if ks.take(j as int).contains(k) {
                        cache_view(providers@)[k] == pruned(before, now, ttl)[k]
                    } else {
                        cache_view(providers@)[k] == before[k]
                    }),
            decreases layers@.len() - j,
        {
            let layer = layers[j];
            let ghost cur = cache_view(providers@);
            assert(ks.take(j + 1) =~= ks.take(j as int).push(layer));
            assert(!ks.take(j as int).contains(layer)) by {
                if ks.take(j as int).contains(layer) {
                    let q = choose|q: int| 0 <= q < j && ks.take(j as int)[q] == layer;
                    assert(ks[q] == ks[j as int]);
                }
            }
            assert(before.dom().contains(layer)) by {
                assert(ks.to_set().contains(ks[j as int]));
            }
            assert(cur.contains_key(layer));
            assert(cur[layer] == before[layer]);
            assert(providers@.contains_key(layer));
            let entries = match providers.remove(&layer) {
                Some(v) => v,
                None => Vec::new(),
            };
            let ghost es = entries@.map_values(|e: ProviderEntry| e@);
            assert(es == cur[layer]);
            assert(es == before[layer]);
            let mut kept: Vec<ProviderEntry> = Vec::new();
            let mut i: usize = 0;
            while i < entries.len()
                invariant
                    i <= entries@.len(),
                    es == entries@.map_values(|e: ProviderEntry| e@),
                    ttl == self.ttl_nanos,
                    kept@.map_values(|e: ProviderEntry| e@) == unexpired(es.take(i as int), now, ttl),
                decreases entries@.len() - i,
            {
                let ghost t = es.take(i + 1);
                assert(t.drop_last() =~= es.take(i as int));
                assert(t.last() == entries@[i as int]@);
                let at = entries[i].discovered_at;
                let young = if now >= at {
                    now - at < self.ttl_nanos
                } else {
                    0 < self.ttl_nanos
                };
                if young {
                    let e = ProviderEntry { peer_id: entries[i].peer_id.clone(), discovered_at: at };
                    let ghost prev = kept@;
                    kept.push(e);
                    assert(kept@.map_values(|e: ProviderEntry| e@) =~= prev.map_values(
                        |e: ProviderEntry| e@,
                    ).push(e@));
                }
                i = i + 1;
            }
            assert(es.take(es.len() as int) =~= es);
            let ghost kv = kept@.map_values(|e: ProviderEntry| e@);
            assert(kv.len() == kept@.len());
            if kept.len() > 0 {
                providers.insert(layer, kept);
                assert(cache_view(providers@).contains_key(layer) && cache_view(providers@)[layer] == kv);
            } else {
                assert(!cache_view(providers@).contains_key(layer));
            }
            assert(forall|k: u32| k != layer ==> (#[trigger] cache_view(providers@).contains_key(k) == cur.contains_key(k)));
            assert(kv == unexpired(before[layer], now, ttl));
            assert(ks.take(j + 1)[j as int] == layer);
            assert(ks.take(j + 1).contains(layer));
            assert(pruned(before, now, ttl).contains_key(layer) == (kv.len() > 0));
            assert(kv.len() > 0 ==> pruned(before, now, ttl)[layer] == kv);
            assert(forall|k: u32| k != layer && #[trigger] cache_view(providers@).contains_key(k) ==> cache_view(providers@)[k] == cur[k]);
            assert forall|k: u32| #[trigger] cache_view(providers@).contains_key(k) <==> (before.contains_key(k) && (
            !ks.take(j + 1).contains(k) || pruned(before, now, ttl).contains_key(k))) by {
                if k != layer {
                    assert(ks.take(j + 1).contains(k) == ks.take(j as int).contains(k));
                }
            }
            assert forall|k: u32| #[trigger] cache_view(providers@).contains_key(k) implies (if ks.take(j + 1).contains(
                k,
            ) {
                cache_view(providers@)[k] == pruned(before, now, ttl)[k]
            } else {
                cache_view(providers@)[k] == before[k]
            }) by {
                if k != layer {
                    assert(ks.take(j + 1).contains(k) == ks.take(j as int).contains(k));
                    assert(cur.contains_key(k));
                }
            }
            j = j + 1;
        }
        assert(ks.take(ks.len() as int) =~= ks);
        assert forall|k: u32| pruned(before, now, ttl).contains_key(k) implies ks.contains(k) by {
            assert(ks.to_set().contains(k));
        }
        assert(cache_view(providers@) =~= pruned(before, now, ttl));
        assert(found_by(pruned(before, now, ttl), self.latest)) by {
            assert forall|l: u32| #[trigger] pruned(before, now, ttl).contains_key(l) implies times_at_most(
                pruned(before, now, ttl)[l],
                self.latest,
            ) by {
                assert(before.contains_key(l));
                assert(times_at_most(before[l], self.latest));
                lemma_unexpired_times(before[l], now, ttl, self.latest);
            }
        }
        self.providers = providers;
    }

    /// Drops the entries older than the time-to-live now, then the layers left
    /// without entries.
    pub fn prune_expired(&mut self)
        ensures
            exists|now: u128|
                found_by(old(self)@, now) && final(self)@ == pruned(old(self)@, now, old(self).ttl()),
            final(self).ttl() == old(self).ttl(),
    {
        let now = self.reading();
        self.prune_expired_at(now);
    }

    /// The number of entries over all layers.
    /// The count must fit a `usize`; by `lemma_entries_over_order` it is the
    /// same whatever order the layers are counted in.
    pub fn len(&self) -> (r: usize)
        requires
            exists|ks: Seq<u32>|
                ks.no_duplicates() && ks.to_set() == self@.dom() && #[trigger] entries_over(self@, ks)
                    <= usize::MAX,
        ensures
            forall|ks: Seq<u32>|
                ks.no_duplicates() && ks.to_set() == self@.dom() ==> r == #[trigger] entries_over(self@, ks),
    {
        let ghost m = self@;
        let ghost ks = vstd::std_specs::hash::spec_keys_iter(&self.providers).remaining().unref();
        assert(self@.dom() =~= self.providers@.dom());
        assert(ks.to_set() == self@.dom() && ks.no_duplicates());
        proof {
            let k0 = choose|k0: Seq<u32>|
                k0.no_duplicates() && k0.to_set() == self@.dom() && #[trigger] entries_over(self@, k0)
                    <= usize::MAX;
            lemma_entries_over_order(m, k0, ks);
        }
        assert(entries_over(self@, ks) <= usize::MAX);
        let mut total: usize = 0;
        let mut done: Vec<u32> = Vec::new();
        for k in it: self.providers.keys()
            invariant
                m == self@,
                it.seq().unref() == ks,
                ks.to_set() == m.dom(),
                ks.no_duplicates(),
                entries_over(m, ks) <= usize::MAX,
                done@ == ks.take(it.index()),
                total as nat == entries_over(m, done@),
        {
            let ghost idx = it.index();
            assert(ks.take(idx + 1).drop_last() =~= ks.take(idx));
            assert(m.contains_key(*k)) by {
                assert(ks.to_set().contains(ks[idx]));
            }
            let n = match self.providers.get(k) {
                Some(v) => v.len(),
                None => 0,
            };
            proof {
                lemma_entries_over_prefix(m, ks, idx + 1);
            }
            total = total + n;
            done.push(*k);
            assert(done@ =~= ks.take(idx + 1));
        }
        assert(done@ =~= ks);
        proof {
            assert forall|k2: Seq<u32>| k2.no_duplicates() && k2.to_set() == m.dom() implies total
                == #[trigger] entries_over(m, k2) by {
                lemma_entries_over_order(m, k2, ks);
            }
        }
        total
    }
}

/// A provider just recorded for a layer is, at that moment, the newest fresh
/// provider of the layer, unless it is excluded (for a positive time-to-live).
pub proof fn lemma_insert_then_fresh(
    m: CacheView,
    layer: u32,
    p: Seq<u8>,
    now: u128,
    ttl: u128,
    exclude: Seq<Seq<u8>>,
)
    requires
        ttl > 0,
    ensures
        fresh(providers_of(m.insert(layer, providers_of(m, layer).push((p, now))), layer), now, ttl, exclude)
            == if exclude.contains(p) {
            fresh(providers_of(m, layer), now, ttl, exclude)
        } else {
            fresh(providers_of(m, layer), now, ttl, exclude).push(p)
        },
{
    let es = providers_of(m, layer).push((p, now));
    assert(es.drop_last() =~= providers_of(m, layer));
}

/// No excluded peer is ever among the fresh providers.
pub proof fn lemma_fresh_excludes(es: Seq<(Seq<u8>, u128)>, now: u128, ttl: u128, exclude: Seq<Seq<u8>>)
    ensures
        forall|i: int|
            0 <= i < fresh(es, now, ttl, exclude).len() ==> !exclude.contains(
                #[trigger] fresh(es, now, ttl, exclude)[i],
            ),
    decreases es.len(),
{
    if es.len() > 0 {
        let rest = fresh(es.drop_last(), now, ttl, exclude);
        lemma_fresh_excludes(es.drop_last(), now, ttl, exclude);
        assert forall|i: int| 0 <= i < fresh(es, now, ttl, exclude).len() implies !exclude.contains(
            #[trigger] fresh(es, now, ttl, exclude)[i],
        ) by {
            if i < rest.len() {
                assert(fresh(es, now, ttl, exclude)[i] == rest[i]);
            }
        }
    }
}

/// A peer dropped from the providers of a layer is not among its fresh providers.
pub proof fn lemma_evicted_not_fresh(
    es: Seq<(Seq<u8>, u128)>,
    p: Seq<u8>,
    now: u128,
    ttl: u128,
    exclude: Seq<Seq<u8>>,
)
    ensures
        !fresh(without(es, p), now, ttl, exclude).contains(p),
    decreases es.len(),
{
    if es.len() > 0 {
        let w = without(es.drop_last(), p);
        lemma_evicted_not_fresh(es.drop_last(), p, now, ttl, exclude);
        if es.last().0 != p {
            assert(w.push(es.last()).drop_last() =~= w);
            let f = fresh(w, now, ttl, exclude);
            assert(!f.push(es.last().0).contains(p)) by {
                if f.push(es.last().0).contains(p) {
                    let i = choose|i: int| 0 <= i < f.len() + 1 && f.push(es.last().0)[i] == p;
                    if i < f.len() {
                        assert(f.contains(p));
                    }
                }
            }
        }
    }
}

/// Dropping the expired entries leaves the fresh providers as they were.
proof fn lemma_fresh_unexpired(es: Seq<(Seq<u8>, u128)>, now: u128, ttl: u128, exclude: Seq<Seq<u8>>)
    ensures
        fresh(unexpired(es, now, ttl), now, ttl, exclude) == fresh(es, now, ttl, exclude),
    decreases es.len(),
{
    if es.len() > 0 {
        lemma_fresh_unexpired(es.drop_last(), now, ttl, exclude);
        let rest = unexpired(es.drop_last(), now, ttl);
        if age(now, es.last().1) < ttl {
            assert(rest.push(es.last()).drop_last() =~= rest);
        }
    }
}

/// Dropping the expired entries twice drops no more than once.
proof fn lemma_unexpired_twice(es: Seq<(Seq<u8>, u128)>, now: u128, ttl: u128)
    ensures
        unexpired(unexpired(es, now, ttl), now, ttl) == unexpired(es, now, ttl),
    decreases es.len(),
{
    if es.len() > 0 {
        lemma_unexpired_twice(es.drop_last(), now, ttl);
        let rest = unexpired(es.drop_last(), now, ttl);
        if age(now, es.last().1) < ttl {
            assert(rest.push(es.last()).drop_last() =~= rest);
        }
    }
}

/// Pruning at a moment changes no lookup made at that moment: every layer
/// has the same fresh providers, whatever is excluded. Pruning again at the
/// same moment changes nothing.
pub proof fn lemma_prune_keeps_lookups(m: CacheView, now: u128, ttl: u128)
    ensures
        forall|layer: u32, exclude: Seq<Seq<u8>>|
            #[trigger] fresh(providers_of(pruned(m, now, ttl), layer), now, ttl, exclude) == fresh(
                providers_of(m, layer),
                now,
                ttl,
                exclude,
            ),
        pruned(pruned(m, now, ttl), now, ttl) == pruned(m, now, ttl),
{
    let p = pruned(m, now, ttl);
    assert forall|layer: u32, exclude: Seq<Seq<u8>>|
        #[trigger] fresh(providers_of(p, layer), now, ttl, exclude) == fresh(
            providers_of(m, layer),
            now,
            ttl,
            exclude,
        ) by {
        lemma_fresh_unexpired(providers_of(m, layer), now, ttl, exclude);
        if !p.contains_key(layer) {
            assert(fresh(unexpired(providers_of(m, layer), now, ttl), now, ttl, exclude) =~= Seq::<
                Seq<u8>,
            >::empty()) by {
                if m.contains_key(layer) {
                    assert(unexpired(m[layer], now, ttl).len() == 0);
                    assert(unexpired(m[layer], now, ttl) =~= Seq::<(Seq<u8>, u128)>::empty());
                } else {
                    assert(providers_of(m, layer) =~= Seq::<(Seq<u8>, u128)>::empty());
                }
            }
        }
    }
    assert forall|k: u32| #[trigger] p.contains_key(k) implies unexpired(p[k], now, ttl) == p[k] by {
        lemma_unexpired_twice(m[k], now, ttl);
    }
    assert(pruned(p, now, ttl) =~= p);
}

proof fn lemma_fresh_recent(es: Seq<(Seq<u8>, u128)>, now: u128, ttl: u128, exclude: Seq<Seq<u8>>)
    requires
        times_at_most(es, now),
    ensures
        forall|i: int|
            0 <= i < fresh(es, now, ttl, exclude).len() ==> exists|j: int|
                0 <= j < es.len() && es[j].0 == #[trigger] fresh(es, now, ttl, exclude)[i] && es[j].1
                    <= now && now - es[j].1 < ttl,
    decreases es.len(),
{
    if es.len() > 0 {
        let d = es.drop_last();
        assert(times_at_most(d, now)) by {
            assert forall|j: int| 0 <= j < d.len() implies (#[trigger] d[j]).1 <= now by {
                assert(d[j] == es[j]);
            }
        }
        lemma_fresh_recent(d, now, ttl, exclude);
        let f = fresh(es, now, ttl, exclude);
        let rest = fresh(d, now, ttl, exclude);
        assert forall|i: int| 0 <= i < f.len() implies exists|j: int|
            0 <= j < es.len() && es[j].0 == #[trigger] f[i] && es[j].1 <= now && now - es[j].1 < ttl by {
            if i < rest.len() {
                assert(f[i] == rest[i]);
                let j = choose|j: int|
                    0 <= j < d.len() && d[j].0 == rest[i] && d[j].1 <= now && now - d[j].1 < ttl;
                assert(es[j] == d[j]);
            } else {
                let k = es.len() - 1;
                assert(es[k].1 <= now);
                assert(f[i] == es[k].0);
            }
        }
    }
}

/// At a reading no earlier than any discovery the cache holds, every
/// provider that a lookup gives for a layer was found for that layer less
/// than the time-to-live before the reading: an entry found a time-to-live
/// or more before is never given.
pub proof fn lemma_fresh_found_recently(
    m: CacheView,
    layer: u32,
    now: u128,
    ttl: u128,
    exclude: Seq<Seq<u8>>,
)
    requires
        found_by(m, now),
    ensures
        forall|i: int|
            0 <= i < fresh(providers_of(m, layer), now, ttl, exclude).len() ==> exists|j: int|
                0 <= j < providers_of(m, layer).len() && providers_of(m, layer)[j].0
                    == #[trigger] fresh(providers_of(m, layer), now, ttl, exclude)[i] && providers_of(
                    m,
                    layer,
                )[j].1 <= now && now - providers_of(m, layer)[j].1 < ttl,
{
    if m.contains_key(layer) {
        assert(times_at_most(m[layer], now));
    }
    lemma_fresh_recent(providers_of(m, layer), now, ttl, exclude);
}

/// Dropping a provider keeps every discovery time within a bound.
proof fn lemma_without_times(es: Seq<(Seq<u8>, u128)>, p: Seq<u8>, t: u128)
    requires
        times_at_most(es, t),
    ensures
        times_at_most(without(es, p), t),
    decreases es.len(),
{
    if es.len() > 0 {
        let d = es.drop_last();
        assert(times_at_most(d, t)) by {
            assert forall|j: int| 0 <= j < d.len() implies (#[trigger] d[j]).1 <= t by {
                assert(d[j] == es[j]);
            }
        }
        lemma_without_times(d, p, t);
        let w = without(d, p);
        if es.last().0 != p {
            let w2 = w.push(es.last());
            assert forall|j: int| 0 <= j < w2.len() implies (#[trigger] w2[j]).1 <= t by {
                if j < w.len() {
                    assert(w2[j] == w[j]);
                }
            }
        }
    }
}

/// Dropping expired entries keeps every discovery time within a bound.
proof fn lemma_unexpired_times(es: Seq<(Seq<u8>, u128)>, now: u128, ttl: u128, t: u128)
    requires
        times_at_most(es, t),
    ensures
        times_at_most(unexpired(es, now, ttl), t),
    decreases es.len(),
{
    if es.len() > 0 {
        let d = es.drop_last();
        assert(times_at_most(d, t)) by {
            assert forall|j: int| 0 <= j < d.len() implies (#[trigger] d[j]).1 <= t by {
                assert(d[j] == es[j]);
            }
        }
        lemma_unexpired_times(d, now, ttl, t);
        let w = unexpired(d, now, ttl);
        if age(now, es.last().1) < ttl {
            let w2 = w.push(es.last());
            assert forall|j: int| 0 <= j < w2.len() implies (#[trigger] w2[j]).1 <= t by {
                if j < w.len() {
                    assert(w2[j] == w[j]);
                }
            }
        }
    }
}

/// The entries kept at `now` are all younger than the time-to-live.
proof fn lemma_unexpired_young(es: Seq<(Seq<u8>, u128)>, now: u128, ttl: u128)
    ensures
        forall|j: int|
            0 <= j < unexpired(es, now, ttl).len() ==> age(now, (#[trigger] unexpired(es, now, ttl)[j]).1) < ttl,
    decreases es.len(),
{
    if es.len() > 0 {
        let rest = unexpired(es.drop_last(), now, ttl);
        lemma_unexpired_young(es.drop_last(), now, ttl);
        assert forall|j: int| 0 <= j < unexpired(es, now, ttl).len() implies age(
            now,
            (#[trigger] unexpired(es, now, ttl)[j]).1,
        ) < ttl by {
            if j < rest.len() {
                assert(unexpired(es, now, ttl)[j] == rest[j]);
            }
        }
    }
}

/// After pruning at `now`, every entry left is younger than the time-to-live
/// and no layer is left without entries; a layer keeps each of its young
/// entries.
pub proof fn lemma_pruned_young(m: CacheView, now: u128, ttl: u128)
    ensures
        forall|k: u32| #[trigger] pruned(m, now, ttl).contains_key(k) ==> {
            &&& pruned(m, now, ttl)[k].len() > 0
            &&& pruned(m, now, ttl)[k] == unexpired(m[k], now, ttl)
            &&& forall|j: int| 0 <= j < pruned(m, now, ttl)[k].len() ==> age(now, (#[trigger] pruned(m, now, ttl)[k][j]).1) < ttl
        },
        forall|k: u32| m.contains_key(k) && unexpired(m[k], now, ttl).len() > 0 ==> #[trigger] pruned(m, now, ttl).contains_key(k),
{
    assert forall|k: u32| #[trigger] pruned(m, now, ttl).contains_key(k) implies forall|j: int|
        0 <= j < pruned(m, now, ttl)[k].len() ==> age(now, (#[trigger] pruned(m, now, ttl)[k][j]).1) < ttl by {
        lemma_unexpired_young(m[k], now, ttl);
    }
}

proof fn lemma_entries_over_prefix(m: CacheView, ks: Seq<u32>, n: int)
    requires
        0 <= n <= ks.len(),
    ensures
        entries_over(m, ks.take(n)) <= entries_over(m, ks),
    decreases ks.len(),
{
    if n < ks.len() {
        assert(ks.drop_last().take(n) =~= ks.take(n));
        lemma_entries_over_prefix(m, ks.drop_last(), n);
    } else {
        assert(ks.take(n) =~= ks);
    }
}

/// Taking one layer out of a list of layers takes its entries off the count.
proof fn lemma_entries_over_remove(m: CacheView, ks: Seq<u32>, i: int)
    requires
        0 <= i < ks.len(),
    ensures
        entries_over(m, ks) == entries_over(m, ks.remove(i)) + m[ks[i]].len(),
    decreases ks.len(),
{
    if i == ks.len() - 1 {
        assert(ks.remove(i) =~= ks.drop_last());
    } else {
        lemma_entries_over_remove(m, ks.drop_last(), i);
        assert(ks.remove(i).drop_last() =~= ks.drop_last().remove(i));
        assert(ks.remove(i).last() == ks.last());
    }
}

/// The number of entries over a list of layers does not depend on the order
/// in which the layers are taken.
pub proof fn lemma_entries_over_order(m: CacheView, ks1: Seq<u32>, ks2: Seq<u32>)
    requires
        ks1.no_duplicates(),
        ks2.no_duplicates(),
        ks1.to_set() == ks2.to_set(),
    ensures
        entries_over(m, ks1) == entries_over(m, ks2),
    decreases ks1.len(),
{
    if ks1.len() == 0 {
        if ks2.len() > 0 {
            assert(ks2.to_set().contains(ks2[0]));
            assert(!ks1.to_set().contains(ks2[0]));
        }
        assert(ks2 =~= Seq::<u32>::empty());
    } else {
        let k = ks1.last();
        assert(ks1.to_set().contains(k)) by {
            assert(ks1[ks1.len() - 1] == k);
        }
        assert(ks2.contains(k));
        let i = choose|i: int| 0 <= i < ks2.len() && ks2[i] == k;
        let a = ks1.drop_last();
        let b = ks2.remove(i);
        assert(a.to_set() =~= b.to_set()) by {
            assert forall|x: u32| a.contains(x) implies b.contains(x) by {
                let j = choose|j: int| 0 <= j < a.len() && a[j] == x;
                assert(ks1[j] == x);
                assert(x != k);
                assert(ks1.to_set().contains(x));
                let j2 = choose|j2: int| 0 <= j2 < ks2.len() && ks2[j2] == x;
                assert(j2 != i);
                if j2 < i {
                    assert(b[j2] == x);
                } else {
                    assert(b[j2 - 1] == x);
                }
            }
            assert forall|x: u32| b.contains(x) implies a.contains(x) by {
                let j = choose|j: int| 0 <= j < b.len() && b[j] == x;
                let j2 = if j < i { j } else { j + 1 };
                assert(ks2[j2] == x);
                assert(x != k);
                assert(ks2.to_set().contains(x));
                let j1 = choose|j1: int| 0 <= j1 < ks1.len() && ks1[j1] == x;
                assert(j1 != ks1.len() - 1);
                assert(a[j1] == x);
            }
        }
        assert(b.no_duplicates()) by {
            assert forall|p: int, q: int| 0 <= p < b.len() && 0 <= q < b.len() && p != q implies b[p]
                != b[q] by {
                let p2 = if p < i { p } else { p + 1 };
                let q2 = if q < i { q } else { q + 1 };
                assert(b[p] == ks2[p2] && b[q] == ks2[q2]);
            }
        }
        lemma_entries_over_order(m, a, b);
        lemma_entries_over_remove(m, ks2, i);
    }
}

/// Each layer of `m` with only its entries younger than `ttl` at `now`.
pub open spec fn unexpired_all(m: CacheView, now: u128, ttl: u128) -> CacheView {
    Map::new(|k: u32| m.contains_key(k), |k: u32| unexpired(m[k], now, ttl))
}

/// The layers of `ks` that `p` holds, in order.
spec fn kept_layers(ks: Seq<u32>, p: CacheView) -> Seq<u32>
    decreases ks.len(),
{
    if ks.len() == 0 {
        Seq::empty()
    } else if p.contains_key(ks.last()) {
        kept_layers(ks.drop_last(), p).push(ks.last())
    } else {
        kept_layers(ks.drop_last(), p)
    }
}

proof fn lemma_kept_layers(m: CacheView, now: u128, ttl: u128, ks: Seq<u32>)
    requires
        ks.no_duplicates(),
        forall|j: int| 0 <= j < ks.len() ==> m.contains_key(#[trigger] ks[j]),
    ensures
        ({
            let p = pruned(m, now, ttl);
            let kl = kept_layers(ks, p);
            &&& kl.no_duplicates()
            &&& forall|x: u32| kl.contains(x) <==> (ks.contains(x) && p.contains_key(x))
            &&& entries_over(p, kl) == entries_over(unexpired_all(m, now, ttl), ks)
        }),
    decreases ks.len(),
{
    let p = pruned(m, now, ttl);
    if ks.len() > 0 {
        let d = ks.drop_last();
        let k = ks.last();
        assert(d.no_duplicates());
        lemma_kept_layers(m, now, ttl, d);
        let kd = kept_layers(d, p);
        assert(!d.contains(k)) by {
            if d.contains(k) {
                let j = choose|j: int| 0 <= j < d.len() && d[j] == k;
                assert(ks[j] == ks[ks.len() - 1]);
            }
        }
        assert(m.contains_key(k)) by {
            assert(ks[ks.len() - 1] == k);
        }
        assert forall|x: u32| ks.contains(x) <==> (d.contains(x) || x == k) by {
            if ks.contains(x) {
                let j = choose|j: int| 0 <= j < ks.len() && ks[j] == x;
                if j < ks.len() - 1 {
                    assert(d[j] == x);
                }
            }
            if d.contains(x) {
                let j = choose|j: int| 0 <= j < d.len() && d[j] == x;
                assert(ks[j] == x);
            }
            if x == k {
                assert(ks[ks.len() - 1] == x);
            }
        }
        if p.contains_key(k) {
            let kl = kd.push(k);
            assert(kl.drop_last() =~= kd);
            assert(kl.no_duplicates()) by {
                assert forall|a: int, b: int| 0 <= a < kl.len() && 0 <= b < kl.len() && a != b implies kl[a]
                    != kl[b] by {
                    if a < kd.len() && b < kd.len() {
                        assert(kl[a] == kd[a] && kl[b] == kd[b]);
                    } else if a < kd.len() {
                        assert(kd.contains(kl[a]));
                    } else if b < kd.len() {
                        assert(kd.contains(kl[b]));
                    }
                }
            }
            assert forall|x: u32| kl.contains(x) <==> (ks.contains(x) && p.contains_key(x)) by {
                if kl.contains(x) {
                    let j = choose|j: int| 0 <= j < kl.len() && kl[j] == x;
                    if j < kd.len() {
                        assert(kd[j] == x);
                        assert(kd.contains(x));
                    }
                }
                if kd.contains(x) {
                    let j = choose|j: int| 0 <= j < kd.len() && kd[j] == x;
                    assert(kl[j] == x);
                }
                if x == k {
                    assert(kl[kl.len() - 1] == x);
                }
            }
        } else {
            assert(unexpired(m[k], now, ttl).len() == 0);
        }
    }
}

/// After pruning at `now`, the cache holds as many entries as there were
/// entries younger than the time-to-live at `now`, whatever order the layers
/// are counted in.
pub proof fn lemma_pruned_count(m: CacheView, now: u128, ttl: u128, ks: Seq<u32>, ps: Seq<u32>)
    requires
        ks.no_duplicates(),
        ks.to_set() == m.dom(),
        ps.no_duplicates(),
        ps.to_set() == pruned(m, now, ttl).dom(),
    ensures
        entries_over(pruned(m, now, ttl), ps) == entries_over(unexpired_all(m, now, ttl), ks),
{
    let p = pruned(m, now, ttl);
    assert forall|j: int| 0 <= j < ks.len() implies m.contains_key(#[trigger] ks[j]) by {
        assert(ks.to_set().contains(ks[j]));
    }
    lemma_kept_layers(m, now, ttl, ks);
    let kl = kept_layers(ks, p);
    assert(kl.to_set() =~= ps.to_set()) by {
        assert forall|x: u32| kl.to_set().contains(x) <==> ps.to_set().contains(x) by {
            if p.contains_key(x) {
                assert(m.dom().contains(x));
                assert(ks.to_set().contains(x));
            }
        }
    }
    lemma_entries_over_order(p, kl, ps);
}

} // verus!
