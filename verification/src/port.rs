//! The bookkeeping of one port of a hub: its counters, its permanent peers
//! (from the configuration) and the peers it discovers, and the decisions of
//! what to do with each event the port's task sees.
//!
//! The task itself (sockets, the hub's channel, timers) runs outside; it
//! hands each event to a `PortState` method and performs what comes back.
use vstd::prelude::*;

use crate::addr::{AddrKey, SockAddr, key_eq};
use crate::lru::{
    admitted, cache_capacity, cache_expiry, cache_insert, cache_keys, cache_live_keys, cache_order, cache_peek,
    cache_step, step_at, cache_touch, cache_with_capacity, cache_with_expiry, lemma_insert_order,
    lemma_live_order, lemma_lookup_order, lemma_skip_keys, may_expire, to_back,
};
use crate::stats::{EntryStats, GetStatsMode, PortEvent, PortStats, ReportStats, SockAddrType};
use lru_time_cache::LruCache;

verus! {

/// A peer of a port: its address and its counters.
pub type Peer = (SockAddr, EntryStats);

/// The keys of a sequence of peers.
pub open spec fn keys_of(peers: Seq<Peer>) -> Seq<AddrKey> {
    peers.map_values(|p: Peer| p.0.key)
}

/// Whether some peer in `peers` has the key `key`.
pub open spec fn has_key(peers: Seq<Peer>, key: AddrKey) -> bool {
    exists|i: int| 0 <= i < peers.len() && (#[trigger] peers[i]).0.key == key
}

/// Every peer's counters are well formed.
pub open spec fn all_wf(peers: Seq<Peer>) -> bool {
    forall|i: int| 0 <= i < peers.len() ==> (#[trigger] peers[i]).1.wf()
}

/// Counting a datagram of `n` bytes can overflow no counter of a peer.
pub open spec fn room_for_datagram(e: EntryStats, n: u64) -> bool {
    e.recv_bytes + n <= u64::MAX && e.recv_dgrams < u64::MAX
}

/// What counting a datagram of `n` bytes from `from` makes of a list of
/// peers: every peer with that address counts it, the others stay.
pub open spec fn counted_on(peers: Seq<Peer>, n: u64, from: AddrKey, now: u64) -> Seq<Peer> {
    peers.map_values(
        |p: Peer|
            if p.0.key == from {
                (p.0, p.1.after_datagram(n, now))
            } else {
                p
            },
    )
}

/// A copy of a peer.
pub fn clone_peer(p: &Peer) -> (res: Peer)
    ensures
        res == *p,
{
    (p.0.clone(), p.1)
}

/// The index of the peer with key `key`, if any.
pub fn find_key(peers: &Vec<Peer>, key: &AddrKey) -> (res: Option<usize>)
    ensures
        res matches Some(i) ==> i < peers.len() && peers@[i as int].0.key == *key,
        res is None ==> !has_key(peers@, *key),
{
    let mut i: usize = 0;
    while i < peers.len()
        invariant
            i <= peers.len(),
            forall|j: int| 0 <= j < i ==> (#[trigger] peers@[j]).0.key != *key,
        decreases peers.len() - i,
    {
        if key_eq(&peers[i].0.key, key) {
            return Some(i);
        }
        i = i + 1;
    }
    None
}

/// Counts a datagram of `n` bytes from `from` at every permanent peer with
/// that address. Returns whether there was one.
pub fn count_permanent(peers: &mut Vec<Peer>, n: u64, from: &AddrKey, now: u64) -> (matched: bool)
    requires
        forall|i: int|
            0 <= i < old(peers).len() && (#[trigger] old(peers)@[i]).0.key == *from
                ==> room_for_datagram(old(peers)@[i].1, n),
    ensures
        final(peers)@ == counted_on(old(peers)@, n, *from, now),
        matched == has_key(old(peers)@, *from),
        all_wf(old(peers)@) ==> all_wf(final(peers)@),
{
    let ghost start = peers@;
    let mut matched = false;
    let mut i: usize = 0;
    while i < peers.len()
        invariant
            i <= peers.len() == start.len(),
            forall|j: int| 0 <= j < i ==> #[trigger] peers@[j] == counted_on(start, n, *from, now)[j],
            forall|j: int| i <= j < peers.len() ==> #[trigger] peers@[j] == start[j],
            forall|j: int|
                0 <= j < start.len() && (#[trigger] start[j]).0.key == *from
                    ==> room_for_datagram(start[j].1, n),
            matched == exists|j: int| 0 <= j < i && (#[trigger] start[j]).0.key == *from,
            all_wf(start) ==> forall|j: int| 0 <= j < i ==> (#[trigger] peers@[j]).1.wf(),
        decreases peers.len() - i,
    {
        if key_eq(&peers[i].0.key, from) {
            let addr = peers[i].0.clone();
            let mut e = peers[i].1;
            e.datagram_received(n, now);
            peers.set(i, (addr, e));
            matched = true;
        }
        i = i + 1;
    }
    assert(peers@ =~= counted_on(start, n, *from, now));
    matched
}

/// The peers a port has discovered: the cache decides which are remembered,
/// the table holds their addresses and counters.
///
/// The counters cannot live in the cache itself: the cache offers no way to
/// change a value without marking it as just seen, and a datagram sent to a
/// peer must not do that.
pub struct TransientPeers {
    pub cache: LruCache<AddrKey, ()>,
    pub table: Vec<Peer>,
}

/// `t` with the sender `from` given fresh counters for a first datagram of
/// `n` bytes at `now`: in place of its entry, or at the end when it has none.
pub open spec fn put_fresh(t: Seq<Peer>, from: SockAddr, n: u64, now: u64) -> Seq<Peer> {
    if has_key(t, from.key) {
        t.map_values(|p: Peer| if p.0.key == from.key { (from, EntryStats::fresh(n, now)) } else { p })
    } else {
        t.push((from, EntryStats::fresh(n, now)))
    }
}

/// The peers of `t` whose key is among `live`, in their order.
pub open spec fn live_peers(t: Seq<Peer>, live: Seq<AddrKey>) -> Seq<Peer>
    decreases t.len(),
{
    if t.len() == 0 {
        Seq::empty()
    } else {
        let rest = live_peers(t.drop_last(), live);
        if live.contains(t.last().0.key) {
            rest.push(t.last())
        } else {
            rest
        }
    }
}

/// The table after a datagram of `n` bytes from `from` at `now`, given
/// whether the cache still held the sender (`present`) and which keys of
/// the table it still held afterwards (`live`). A held sender with an entry
/// counts the datagram on that entry; any other sender gets fresh counters,
/// and the table keeps only the peers the cache still holds.
pub open spec fn transient_step(t: Seq<Peer>, n: u64, from: SockAddr, now: u64, present: bool, live: Seq<AddrKey>) -> Seq<Peer> {
    if present && has_key(t, from.key) {
        counted_on(t, n, from.key, now)
    } else {
        live_peers(put_fresh(t, from, n, now), live)
    }
}

/// `live` is what the cache `c` can yield as its live keys: the most
/// recently seen keys it holds, as many as have not expired (all of them
/// without an expiry), most recently seen first, each once.
pub open spec fn live_keys_of(c: LruCache<AddrKey, ()>, live: Seq<AddrKey>) -> bool {
    &&& live.no_duplicates()
    &&& live.len() <= cache_order(c).len()
    &&& live == cache_order(c).skip(cache_order(c).len() - live.len()).reverse()
    &&& cache_expiry(c) is None ==> live.len() == cache_order(c).len()
}

/// Live keys are held keys, and without an expiry they are all the held
/// keys.
pub proof fn lemma_live_keys_of(c: LruCache<AddrKey, ()>, live: Seq<AddrKey>)
    requires
        live_keys_of(c, live),
    ensures
        forall|i: int| 0 <= i < live.len() ==> cache_keys(c).contains(#[trigger] live[i]),
        cache_expiry(c) is None ==> live.to_set() == cache_keys(c),
{
    let s = cache_order(c);
    lemma_live_order(s, s.len() - live.len(), live);
    assert forall|i: int| 0 <= i < live.len() implies cache_keys(c).contains(#[trigger] live[i]) by {
        assert(live.contains(live[i]));
    }
    if cache_expiry(c) is None {
        assert(live.to_set() =~= cache_keys(c));
    }
}

impl TransientPeers {
    /// The table holds each address at most once and never more peers than
    /// the cache's capacity; the cache holds each key once and is within its
    /// capacity. Without an expiry, the table holds exactly the keys the
    /// cache holds.
    pub open spec fn wf(self) -> bool {
        &&& cache_capacity(self.cache) > 0
        &&& cache_order(self.cache).no_duplicates()
        &&& cache_order(self.cache).len() <= cache_capacity(self.cache)
        &&& keys_of(self.table@).no_duplicates()
        &&& self.table.len() <= cache_capacity(self.cache)
        &&& all_wf(self.table@)
        &&& cache_expiry(self.cache) is None ==> forall|j: int|
            0 <= j < self.table.len() ==> cache_keys(self.cache).contains((#[trigger] self.table@[j]).0.key)
        &&& cache_expiry(self.cache) is None ==> forall|k: AddrKey|
            #[trigger] cache_keys(self.cache).contains(k) ==> has_key(self.table@, k)
    }

    /// `new` is what counting a datagram of `n` bytes from `from` at `now`
    /// makes of `old`: the cache is what looking the sender up and, when it
    /// was not found, inserting it make of the old one, and the table is
    /// `transient_step` of the old one, for what the cache said of the
    /// sender and, when asked afterwards, of the table's peers. Without an
    /// expiry the cache held the sender exactly when the table had it, and
    /// it still holds every peer it held: a known sender counts the datagram
    /// on its entry, an unknown one is added with fresh counters.
    pub open spec fn stepped(old: TransientPeers, new: TransientPeers, n: u64, from: SockAddr, now: u64) -> bool {
        &&& cache_capacity(new.cache) == cache_capacity(old.cache)
        &&& cache_expiry(new.cache) == cache_expiry(old.cache)
        &&& exists|present: bool, live: Seq<AddrKey>|
            #[trigger] transient_step(old.table@, n, from, now, present, live) == new.table@
                && cache_step(old.cache, new.cache, from.key, present)
                && (!(present && has_key(old.table@, from.key))
                    ==> held_among(new.cache, put_fresh(old.table@, from, n, now), live))
                && (cache_expiry(old.cache) is None ==> present == has_key(old.table@, from.key))
        &&& cache_expiry(old.cache) is None && has_key(old.table@, from.key)
            ==> new.table@ == counted_on(old.table@, n, from.key, now)
        &&& cache_expiry(old.cache) is None && !has_key(old.table@, from.key)
            ==> new.table@.contains((from, EntryStats::fresh(n, now)))
    }

    /// Counting a datagram of `n` bytes can overflow no counter of the
    /// sender's entry.
    pub open spec fn room_for(self, n: u64, from: AddrKey) -> bool {
        forall|i: int|
            0 <= i < self.table.len() && (#[trigger] self.table@[i]).0.key == from
                ==> room_for_datagram(self.table@[i].1, n)
    }

    /// An empty set of discovered peers, remembered by `cache`.
    pub fn new(cache: LruCache<AddrKey, ()>) -> (res: Self)
        requires
            cache_order(cache) == Seq::<AddrKey>::empty(),
            cache_capacity(cache) > 0,
        ensures
            res.wf(),
            res.cache == cache,
            res.table@ == Seq::<Peer>::empty(),
    {
        let res = TransientPeers { cache, table: Vec::new() };
        assert(keys_of(res.table@) =~= Seq::<AddrKey>::empty());
        res
    }

    /// Counts a datagram of `n` bytes from `from` at `now`. If the cache
    /// still remembers the sender and the table has its entry, that entry
    /// counts it; otherwise the sender is remembered anew with a fresh entry,
    /// and the table keeps only the peers the cache still holds (not
    /// expired), asked of it one by one.
    pub fn datagram(&mut self, n: u64, from: &SockAddr, now: u64)
        requires
            old(self).wf(),
            old(self).room_for(n, from.key),
        ensures
            final(self).wf(),
            TransientPeers::stepped(*old(self), *final(self), n, *from, now),
    {
        let ghost t0 = self.table@;
        let ghost c0 = self.cache;
        let ghost s0 = cache_order(c0);
        let ghost cap = cache_capacity(c0);
        let present = cache_touch(&mut self.cache, &from.key);
        let ghost c1 = self.cache;
        let ghost d1 = choose|d: int| #![trigger cache_order(c0).skip(d)]
            may_expire(c0, d) && {
                let rest = cache_order(c0).skip(d);
                &&& present == rest.contains(from.key)
                &&& cache_order(c1) == if present { to_back(rest, from.key) } else { rest }
            };
        let ghost rest1 = s0.skip(d1);
        let had = find_key(&self.table, &from.key).is_some();
        proof {
            lemma_lookup_order(s0, d1, from.key, present, cache_order(c1));
            lemma_skip_keys(s0, d1);
            if cache_expiry(c0) is None {
                if has_key(t0, from.key) {
                    let j = choose|j: int| 0 <= j < t0.len() && (#[trigger] t0[j]).0.key == from.key;
                    assert(cache_keys(c0).contains(t0[j].0.key));
                }
                if present {
                    assert(cache_keys(c0).contains(from.key));
                }
            }
        }
        let mut table: Vec<Peer> = Vec::new();
        std::mem::swap(&mut table, &mut self.table);
        let table = count_sender(table, n, from, now, present);
        if present && had {
            self.table = table;
            proof {
                assert(step_at(c0, self.cache, from.key, present, d1));
                lemma_counted_on_keys(t0, n, from.key, now);
                assert(transient_step(t0, n, *from, now, present, Seq::empty()) == self.table@);
                if cache_expiry(self.cache) is None {
                    assert forall|k: AddrKey| #[trigger] cache_keys(self.cache).contains(k)
                        implies has_key(self.table@, k) by {
                        assert(cache_keys(c0).contains(k));
                        assert(has_key(t0, k));
                        let i = choose|i: int| 0 <= i < t0.len() && (#[trigger] t0[i]).0.key == k;
                        assert(keys_of(self.table@)[i] == keys_of(t0)[i]);
                        assert(self.table@[i].0.key == k);
                    }
                    assert forall|j: int| 0 <= j < self.table.len()
                        implies cache_keys(self.cache).contains((#[trigger] self.table@[j]).0.key) by {
                        assert(keys_of(self.table@)[j] == keys_of(t0)[j]);
                        assert(cache_keys(c0).contains(t0[j].0.key));
                    }
                }
            }
        } else {
            let ghost grown = table@;
            if !present {
                cache_insert(&mut self.cache, from.key);
                proof {
                    let c2 = self.cache;
                    let d2 = choose|d: int| #![trigger cache_order(c1).skip(d)]
                        may_expire(c1, d) && {
                            let rest = cache_order(c1).skip(d);
                            cache_order(c2) == if rest.contains(from.key) {
                                to_back(rest, from.key)
                            } else {
                                admitted(rest, from.key, cache_capacity(c1))
                            }
                        };
                    lemma_skip_keys(rest1, d2);
                    lemma_insert_order(rest1, d2, from.key, cap, cache_order(c2));
                    assert(rest1.skip(d2) =~= s0.skip(d1 + d2));
                    assert(step_at(c0, c2, from.key, present, d1 + d2));
                }
            } else {
                proof {
                    assert(step_at(c0, self.cache, from.key, present, d1));
                }
            }
            let live = peek_held(&self.cache, &table);
            self.table = keep_live(table, &live);
            proof {
                let c2 = self.cache;
                assert(cache_order(c2).no_duplicates() && cache_order(c2).len() <= cap
                    && (forall|x: AddrKey| #[trigger] cache_order(c2).contains(x) ==> s0.contains(x) || x == from.key)
                    && (!present ==> cache_order(c2).contains(from.key)));
                assert(held_among(c2, grown, live@));
                lemma_put_fresh(t0, *from, n, now);
                lemma_live_peers(grown, live@);
                assert forall|j: int| 0 <= j < self.table.len()
                    implies cache_order(c2).contains((#[trigger] self.table@[j]).0.key) by {
                    let m = choose|m: int| 0 <= m < live.len() && live@[m] == self.table@[j].0.key;
                }
                lemma_kept_within(self.table@, cache_order(c2));
                assert(transient_step(t0, n, *from, now, present, live@) == self.table@);
                assert forall|j: int| 0 <= j < self.table.len() implies (#[trigger] self.table@[j]).1.wf() by {
                    let k = choose|k: int| 0 <= k < grown.len() && grown[k] == self.table@[j];
                }
                if cache_expiry(c0) is None {
                    assert(!has_key(t0, from.key));
                    assert(!present);
                    assert(cache_keys(c2).contains(from.key));
                    let pos = grown.len() - 1;
                    assert(grown[pos] == (*from, EntryStats::fresh(n, now)));
                    assert(live@.contains(grown[pos].0.key));
                    assert(self.table@.contains(grown[pos]));
                    assert forall|j: int| 0 <= j < self.table.len()
                        implies cache_keys(c2).contains((#[trigger] self.table@[j]).0.key) by {
                        assert(live@.contains(self.table@[j].0.key));
                        let m = choose|m: int| 0 <= m < live.len() && live@[m] == self.table@[j].0.key;
                    }
                    assert forall|k: AddrKey| #[trigger] cache_keys(c2).contains(k)
                        implies has_key(self.table@, k) by {
                        if k == from.key {
                            let m = choose|m: int| 0 <= m < self.table.len() && self.table@[m] == grown[pos];
                        } else {
                            assert(s0.contains(k));
                            assert(cache_keys(c0).contains(k));
                            assert(has_key(t0, k));
                            let i = choose|i: int| 0 <= i < t0.len() && (#[trigger] t0[i]).0.key == k;
                            assert(grown[i] == t0[i]);
                            assert(live@.contains(grown[i].0.key));
                            assert(self.table@.contains(grown[i]));
                            let m = choose|m: int| 0 <= m < self.table.len() && self.table@[m] == grown[i];
                        }
                    }
                }
            }
        }
    }
}

/// Distinct keys that all have entries in `t` are no more than its entries.
proof fn lemma_distinct_keys_bound(ks: Seq<AddrKey>, t: Seq<Peer>)
    requires
        ks.no_duplicates(),
        forall|j: int| 0 <= j < ks.len() ==> has_key(t, #[trigger] ks[j]),
    ensures
        ks.len() <= t.len(),
{
    let tk = keys_of(t);
    ks.unique_seq_to_set();
    tk.lemma_cardinality_of_set();
    vstd::seq_lib::seq_to_set_is_finite(tk);
    assert(ks.to_set().subset_of(tk.to_set())) by {
        assert forall|k: AddrKey| ks.to_set().contains(k) implies tk.to_set().contains(k) by {
            let j = choose|j: int| 0 <= j < ks.len() && ks[j] == k;
            assert(has_key(t, ks[j]));
            let i = choose|i: int| 0 <= i < t.len() && (#[trigger] t[i]).0.key == k;
            assert(tk[i] == k);
        }
    }
    vstd::set_lib::lemma_len_subset(ks.to_set(), tk.to_set());
}

/// Counting a datagram on the entries of one key keeps the keys, the length
/// and, with room, the well-formed counters.
proof fn lemma_counted_on_keys(t: Seq<Peer>, n: u64, k: AddrKey, now: u64)
    ensures
        keys_of(counted_on(t, n, k, now)) == keys_of(t),
        counted_on(t, n, k, now).len() == t.len(),
        all_wf(t) && (forall|i: int| 0 <= i < t.len() && (#[trigger] t[i]).0.key == k ==> room_for_datagram(t[i].1, n))
            ==> all_wf(counted_on(t, n, k, now)),
{
    assert(keys_of(counted_on(t, n, k, now)) =~= keys_of(t));
    if all_wf(t) && (forall|i: int| 0 <= i < t.len() && (#[trigger] t[i]).0.key == k ==> room_for_datagram(t[i].1, n)) {
        assert forall|i: int| 0 <= i < t.len() implies (#[trigger] counted_on(t, n, k, now)[i]).1.wf() by {
            assert(t[i].1.wf());
        }
    }
}

/// Giving the sender fresh counters keeps the keys distinct, keeps every
/// other entry, and adds the sender's fresh entry.
proof fn lemma_put_fresh(t: Seq<Peer>, from: SockAddr, n: u64, now: u64)
    requires
        keys_of(t).no_duplicates(),
    ensures
        keys_of(put_fresh(t, from, n, now)).no_duplicates(),
        put_fresh(t, from, n, now).contains((from, EntryStats::fresh(n, now))),
        !has_key(t, from.key) ==> put_fresh(t, from, n, now).last() == (from, EntryStats::fresh(n, now)),
        !has_key(t, from.key) ==> put_fresh(t, from, n, now).len() == t.len() + 1,
        forall|i: int| 0 <= i < t.len() && (#[trigger] t[i]).0.key != from.key ==> put_fresh(t, from, n, now)[i] == t[i],
        forall|j: int| 0 <= j < put_fresh(t, from, n, now).len() ==> {
            let e = #[trigger] put_fresh(t, from, n, now)[j];
            ||| e == (from, EntryStats::fresh(n, now))
            ||| (j < t.len() && e == t[j] && e.0.key != from.key)
        },
        all_wf(t) ==> all_wf(put_fresh(t, from, n, now)),
{
    let r = put_fresh(t, from, n, now);
    let fresh = (from, EntryStats::fresh(n, now));
    if has_key(t, from.key) {
        let i = choose|i: int| 0 <= i < t.len() && (#[trigger] t[i]).0.key == from.key;
        assert(r[i] == fresh);
        assert(keys_of(r) =~= keys_of(t));
    } else {
        assert(r[t.len() as int] == fresh);
        assert forall|a: int, b: int| 0 <= a < r.len() && 0 <= b < r.len() && a != b
            implies #[trigger] keys_of(r)[a] != #[trigger] keys_of(r)[b] by {
            if a < t.len() && b < t.len() {
                assert(keys_of(t)[a] != keys_of(t)[b]);
            } else if a < t.len() {
                assert(r[a] == t[a]);
            } else {
                assert(r[b] == t[b]);
            }
        }
    }
    if all_wf(t) {
        assert forall|j: int| 0 <= j < r.len() implies (#[trigger] r[j]).1.wf() by {
            if j < t.len() && r[j] != fresh {
                assert(t[j].1.wf());
            }
        }
    }
}

/// The live peers of `t` are entries of `t` with live keys, every entry
/// with a live key is among them, and their keys stay distinct.
proof fn lemma_live_peers(t: Seq<Peer>, live: Seq<AddrKey>)
    ensures
        forall|j: int| 0 <= j < live_peers(t, live).len() ==> t.contains(#[trigger] live_peers(t, live)[j]),
        forall|j: int| 0 <= j < live_peers(t, live).len() ==> live.contains((#[trigger] live_peers(t, live)[j]).0.key),
        forall|i: int| 0 <= i < t.len() && live.contains((#[trigger] t[i]).0.key) ==> live_peers(t, live).contains(t[i]),
        keys_of(t).no_duplicates() ==> keys_of(live_peers(t, live)).no_duplicates(),
    decreases t.len(),
{
    if t.len() > 0 {
        let init = t.drop_last();
        let rest = live_peers(init, live);
        let r = live_peers(t, live);
        lemma_live_peers(init, live);
        assert forall|j: int| 0 <= j < r.len() implies t.contains(#[trigger] r[j]) by {
            if j < rest.len() {
                assert(r[j] == rest[j]);
                let k = choose|k: int| 0 <= k < init.len() && init[k] == rest[j];
                assert(t[k] == init[k]);
            } else {
                assert(r[j] == t.last());
            }
        }
        assert forall|j: int| 0 <= j < r.len() implies live.contains((#[trigger] r[j]).0.key) by {
            if j < rest.len() {
                assert(r[j] == rest[j]);
            }
        }
        assert forall|i: int| 0 <= i < t.len() && live.contains((#[trigger] t[i]).0.key) implies r.contains(t[i]) by {
            if i == t.len() - 1 {
                assert(r[r.len() - 1] == t[i]);
            } else {
                assert(t[i] == init[i]);
                let m = choose|m: int| 0 <= m < rest.len() && rest[m] == init[i];
                assert(r[m] == rest[m]);
            }
        }
        if keys_of(t).no_duplicates() {
            assert(keys_of(init).no_duplicates()) by {
                assert forall|a: int, b: int| 0 <= a < init.len() && 0 <= b < init.len() && a != b
                    implies #[trigger] keys_of(init)[a] != #[trigger] keys_of(init)[b] by {
                    assert(keys_of(t)[a] != keys_of(t)[b]);
                }
            }
            assert forall|a: int, b: int| 0 <= a < r.len() && 0 <= b < r.len() && a != b
                implies #[trigger] keys_of(r)[a] != #[trigger] keys_of(r)[b] by {
                if a < rest.len() && b < rest.len() {
                    assert(r[a] == rest[a] && r[b] == rest[b]);
                    assert(keys_of(rest)[a] != keys_of(rest)[b]);
                } else {
                    let other = if a < rest.len() { a } else { b };
                    assert(r[other] == rest[other]);
                    let k = choose|k: int| 0 <= k < init.len() && init[k] == rest[other];
                    assert(keys_of(t)[k] != keys_of(t)[t.len() - 1]);
                }
            }
        }
    }
}

/// Every peer after a step is the sender or was in the table before.
pub proof fn lemma_step_keys(t: Seq<Peer>, n: u64, from: SockAddr, now: u64, present: bool, live: Seq<AddrKey>)
    requires
        keys_of(t).no_duplicates(),
    ensures
        forall|j: int| 0 <= j < transient_step(t, n, from, now, present, live).len() ==>
            (#[trigger] transient_step(t, n, from, now, present, live)[j]).0.key == from.key
                || has_key(t, transient_step(t, n, from, now, present, live)[j].0.key),
{
    let r = transient_step(t, n, from, now, present, live);
    if present && has_key(t, from.key) {
        lemma_counted_on_keys(t, n, from.key, now);
        assert forall|j: int| 0 <= j < r.len() implies (#[trigger] r[j]).0.key == from.key || has_key(t, r[j].0.key) by {
            assert(keys_of(r)[j] == keys_of(t)[j]);
            assert(t[j].0.key == r[j].0.key);
        }
    } else {
        let g = put_fresh(t, from, n, now);
        lemma_put_fresh(t, from, n, now);
        lemma_live_peers(g, live);
        assert forall|j: int| 0 <= j < r.len() implies (#[trigger] r[j]).0.key == from.key || has_key(t, r[j].0.key) by {
            let k = choose|k: int| 0 <= k < g.len() && g[k] == r[j];
            if g[k] != (from, EntryStats::fresh(n, now)) {
                assert(g[k] == t[k]);
            }
        }
    }
}

/// A port's cache keeps the discovered peers in the order they were last
/// heard from, and forgets the least recently seen first. After the expired
/// peers (a run of the least recently seen, none without an expiry) are
/// dropped, a datagram from a remembered peer makes it the most recently
/// seen; one from a peer not remembered adds that peer as the most recently
/// seen, and when the cache then holds as many peers as it may, the least
/// recently seen of them is forgotten, and its entry leaves the table.
pub proof fn lemma_recency_and_eviction(old: TransientPeers, new: TransientPeers, n: u64, from: SockAddr, now: u64)
    requires
        old.wf(),
        TransientPeers::stepped(old, new, n, from, now),
    ensures
        exists|d: int| #![trigger cache_order(old.cache).skip(d)]
            0 <= d <= cache_order(old.cache).len() && (cache_expiry(old.cache) is None ==> d == 0) && {
                let r = cache_order(old.cache).skip(d);
                &&& r.contains(from.key) ==> cache_order(new.cache) == to_back(r, from.key)
                &&& !r.contains(from.key) ==> cache_order(new.cache) == admitted(r, from.key, cache_capacity(old.cache))
                &&& !r.contains(from.key) && r.len() == cache_capacity(old.cache) ==> {
                    &&& cache_order(new.cache) == r.skip(1).push(from.key)
                    &&& !cache_keys(new.cache).contains(r[0])
                    &&& !has_key(new.table@, r[0])
                }
            },
        cache_expiry(old.cache) is None && has_key(old.table@, from.key)
            ==> cache_order(new.cache) == to_back(cache_order(old.cache), from.key),
        cache_expiry(old.cache) is None && !has_key(old.table@, from.key) ==> cache_order(new.cache)
            == admitted(cache_order(old.cache), from.key, cache_capacity(old.cache)),
{
    let s = cache_order(old.cache);
    let k = from.key;
    let cap = cache_capacity(old.cache);
    let (present, live) = choose|present: bool, live: Seq<AddrKey>|
        #[trigger] transient_step(old.table@, n, from, now, present, live) == new.table@
            && cache_step(old.cache, new.cache, from.key, present)
            && (!(present && has_key(old.table@, from.key))
                ==> held_among(new.cache, put_fresh(old.table@, from, n, now), live))
            && (cache_expiry(old.cache) is None ==> present == has_key(old.table@, from.key));
    let w = choose|w: int| #[trigger] step_at(old.cache, new.cache, k, present, w);
    let r = s.skip(w);
    lemma_skip_keys(s, w);
    if !present {
        if r.len() == cap {
            let new_order = cache_order(new.cache);
            let forgotten = r[0];
            assert(r.len() - cap + 1 == 1);
            assert(new_order == r.skip(1).push(k));
            assert(r.contains(forgotten));
            assert(forgotten != k);
            assert(!new_order.contains(forgotten)) by {
                if new_order.contains(forgotten) {
                    let j = choose|j: int| 0 <= j < new_order.len() && new_order[j] == forgotten;
                    assert(r[j + 1] == new_order[j]);
                }
            }
            lemma_put_fresh(old.table@, from, n, now);
            lemma_live_peers(put_fresh(old.table@, from, n, now), live);
            assert(!has_key(new.table@, forgotten)) by {
                if has_key(new.table@, forgotten) {
                    let j = choose|j: int| 0 <= j < new.table.len() && (#[trigger] new.table@[j]).0.key == forgotten;
                    assert(live.contains(new.table@[j].0.key));
                    let m = choose|m: int| 0 <= m < live.len() && live[m] == forgotten;
                    assert(cache_keys(new.cache).contains(live[m]));
                }
            }
        }
    }
    assert(0 <= w <= s.len() && (cache_expiry(old.cache) is None ==> w == 0));
    if cache_expiry(old.cache) is None {
        lemma_skip_keys(s, 0);
    }
}

/// Counts a datagram of `n` bytes from `from` at `now` in the table `t`,
/// given whether the cache still held the sender: a held sender with an
/// entry counts it there; otherwise the sender gets fresh counters, in place
/// of its entry or at the end.
pub fn count_sender(t: Vec<Peer>, n: u64, from: &SockAddr, now: u64, present: bool) -> (res: Vec<Peer>)
    requires
        keys_of(t@).no_duplicates(),
        forall|i: int| 0 <= i < t.len() && (#[trigger] t@[i]).0.key == from.key ==> room_for_datagram(t@[i].1, n),
    ensures
        res@ == if present && has_key(t@, from.key) {
            counted_on(t@, n, from.key, now)
        } else {
            put_fresh(t@, *from, n, now)
        },
{
    let mut t = t;
    let ghost t0 = t@;
    match find_key(&t, &from.key) {
        Some(i) => {
            proof {
                assert forall|j: int| 0 <= j < t0.len() && j != i implies t0[j].0.key != from.key by {
                    assert(keys_of(t0)[j] != keys_of(t0)[i as int]);
                }
            }
            if present {
                let addr = t[i].0.clone();
                let mut e = t[i].1;
                e.datagram_received(n, now);
                t.set(i, (addr, e));
                assert(t@ =~= counted_on(t0, n, from.key, now));
            } else {
                t.set(i, (from.clone(), EntryStats::first_datagram(n, now)));
                assert(t@ =~= put_fresh(t0, *from, n, now));
            }
        },
        None => {
            t.push((from.clone(), EntryStats::first_datagram(n, now)));
            assert(t@ =~= put_fresh(t0, *from, n, now));
        },
    }
    t
}

/// The peers of `table` whose key is among `live`, in their order.
pub fn keep_live(table: Vec<Peer>, live: &Vec<AddrKey>) -> (res: Vec<Peer>)
    ensures
        res@ == live_peers(table@, live@),
{
    let mut res: Vec<Peer> = Vec::new();
    let mut i: usize = 0;
    while i < table.len()
        invariant
            i <= table.len(),
            res@ == live_peers(table@.take(i as int), live@),
        decreases table.len() - i,
    {
        proof {
            assert(table@.take(i + 1).drop_last() =~= table@.take(i as int));
        }
        let mut found = false;
        let mut k: usize = 0;
        while k < live.len()
            invariant
                i < table.len(),
                k <= live.len(),
                found == exists|m: int| 0 <= m < k && live@[m] == table@[i as int].0.key,
            decreases live.len() - k,
        {
            if key_eq(&live[k], &table[i].0.key) {
                found = true;
            }
            k = k + 1;
        }
        if found {
            res.push(clone_peer(&table[i]));
        }
        i = i + 1;
    }
    assert(table@.take(table.len() as int) =~= table@);
    res
}

/// A table whose distinct keys are all among the distinct keys `held` has no
/// more entries than there are such keys.
proof fn lemma_kept_within(table: Seq<Peer>, held: Seq<AddrKey>)
    requires
        keys_of(table).no_duplicates(),
        forall|j: int| 0 <= j < table.len() ==> held.contains((#[trigger] table[j]).0.key),
        held.no_duplicates(),
    ensures
        table.len() <= held.len(),
{
    let ks = keys_of(table);
    ks.unique_seq_to_set();
    held.unique_seq_to_set();
    vstd::seq_lib::seq_to_set_is_finite(held);
    assert(ks.to_set().subset_of(held.to_set())) by {
        assert forall|k: AddrKey| ks.to_set().contains(k) implies held.to_set().contains(k) by {
            let j = choose|j: int| 0 <= j < ks.len() && ks[j] == k;
            assert(table[j].0.key == k);
        }
    }
    vstd::set_lib::lemma_len_subset(ks.to_set(), held.to_set());
}

/// `keep` is what peeking the cache `c` tells of the peers of `t`: keys of
/// `t` that the cache holds, and, without an expiry, every such key.
pub open spec fn held_among(c: LruCache<AddrKey, ()>, t: Seq<Peer>, keep: Seq<AddrKey>) -> bool {
    &&& forall|i: int| 0 <= i < keep.len() ==> cache_keys(c).contains(#[trigger] keep[i]) && has_key(t, keep[i])
    &&& cache_expiry(c) is None ==> forall|j: int|
        0 <= j < t.len() && cache_keys(c).contains((#[trigger] t[j]).0.key) ==> keep.contains(t[j].0.key)
}

/// The keys of the peers of `t` that the cache `c` still holds and has not
/// expired, asked of the cache one by one without marking them.
pub fn peek_held(c: &LruCache<AddrKey, ()>, t: &Vec<Peer>) -> (res: Vec<AddrKey>)
    ensures
        held_among(*c, t@, res@),
{
    let mut res: Vec<AddrKey> = Vec::new();
    let mut i: usize = 0;
    while i < t.len()
        invariant
            i <= t.len(),
            forall|m: int| 0 <= m < res.len() ==> cache_keys(*c).contains(#[trigger] res@[m]) && has_key(t@, res@[m]),
            cache_expiry(*c) is None ==> forall|j: int|
                0 <= j < i && cache_keys(*c).contains((#[trigger] t@[j]).0.key) ==> res@.contains(t@[j].0.key),
        decreases t.len() - i,
    {
        let ghost before = res@;
        if cache_peek(c, &t[i].0.key) {
            res.push(t[i].0.key);
            proof {
                assert(res@[res.len() - 1] == t@[i as int].0.key);
                assert forall|j: int| 0 <= j < i && before.contains(#[trigger] t@[j].0.key)
                    implies res@.contains(t@[j].0.key) by {
                    let m = choose|m: int| 0 <= m < before.len() && before[m] == t@[j].0.key;
                    assert(res@[m] == before[m]);
                }
            }
        }
        i = i + 1;
    }
    res
}

} // verus!

verus! {

/// Whether a port remembers the peers it discovers, and how: `None` when
/// `last_n` is unset or zero, else the number of peers to remember and the
/// expiry in milliseconds, if any.
pub open spec fn peer_memory(last_n: Option<usize>, forget_ms: Option<u64>) -> Option<(usize, Option<u64>)> {
    match last_n {
        Some(x) => if x == 0 {
            None
        } else {
            Some((x, forget_ms))
        },
        None => None,
    }
}

/// A port remembers discovered peers exactly when `last_n` is a positive
/// number: as many as `last_n` says, forgotten after `forget_ms`
/// milliseconds when that is set, and otherwise only when pushed out.
pub proof fn lemma_peer_memory(last_n: Option<usize>, forget_ms: Option<u64>)
    ensures
        peer_memory(last_n, forget_ms) is None <==> last_n is None || last_n == Some(0usize),
        last_n is Some && last_n.unwrap() > 0 ==> peer_memory(last_n, forget_ms) == Some((last_n.unwrap(), forget_ms)),
{
}

/// A peer to forward a datagram to: a permanent peer by its position, or a
/// discovered one by its address.
#[derive(Clone, Copy)]
pub enum ForwardTarget {
    Permanent(usize),
    Transient(AddrKey),
}

/// The permanent peers of `peers` other than `from`, in their order, as
/// forwarding targets.
pub open spec fn permanent_targets(peers: Seq<Peer>, from: AddrKey) -> Seq<(AddrKey, ForwardTarget)>
    decreases peers.len(),
{
    if peers.len() == 0 {
        Seq::empty()
    } else {
        let rest = permanent_targets(peers.drop_last(), from);
        let last = peers.last();
        if last.0.key == from {
            rest
        } else {
            rest.push((last.0.key, ForwardTarget::Permanent((peers.len() - 1) as usize)))
        }
    }
}

/// No permanent target is `from`, and each names the position of its peer.
pub proof fn lemma_permanent_targets(peers: Seq<Peer>, from: AddrKey)
    requires
        peers.len() <= usize::MAX,
    ensures
        forall|j: int| 0 <= j < permanent_targets(peers, from).len() ==> {
            let t = #[trigger] permanent_targets(peers, from)[j];
            &&& t.0 != from
            &&& t.1 matches ForwardTarget::Permanent(i) && i < peers.len() && peers[i as int].0.key == t.0
        },
    decreases peers.len(),
{
    if peers.len() > 0 {
        lemma_permanent_targets(peers.drop_last(), from);
        let rest = permanent_targets(peers.drop_last(), from);
        assert forall|j: int| 0 <= j < rest.len() implies (#[trigger] rest[j]).1 matches ForwardTarget::Permanent(i)
            && i < peers.len() && peers[i as int].0.key == rest[j].0 by {
            if let ForwardTarget::Permanent(i) = rest[j].1 {
                assert(peers.drop_last()[i as int] == peers[i as int]);
            }
        }
    }
}

/// Every permanent peer at another address than `from` is a target, named
/// by its position.
proof fn lemma_permanent_targets_complete(peers: Seq<Peer>, from: AddrKey)
    requires
        peers.len() <= usize::MAX,
    ensures
        forall|i: int| 0 <= i < peers.len() && (#[trigger] peers[i]).0.key != from
            ==> permanent_targets(peers, from).contains((peers[i].0.key, ForwardTarget::Permanent(i as usize))),
    decreases peers.len(),
{
    if peers.len() > 0 {
        let init = peers.drop_last();
        lemma_permanent_targets_complete(init, from);
        let rest = permanent_targets(init, from);
        let all = permanent_targets(peers, from);
        assert forall|i: int| 0 <= i < peers.len() && (#[trigger] peers[i]).0.key != from
            implies all.contains((peers[i].0.key, ForwardTarget::Permanent(i as usize))) by {
            if i == peers.len() - 1 {
                assert(all[all.len() - 1] == (peers[i].0.key, ForwardTarget::Permanent(i as usize)));
            } else {
                assert(init[i] == peers[i]);
                let j = choose|j: int| 0 <= j < rest.len() && rest[j] == (init[i].0.key, ForwardTarget::Permanent(i as usize));
                assert(all[j] == rest[j]);
            }
        }
    }
}

/// The live discovered peers other than `from`, in their order, as
/// forwarding targets.
pub open spec fn live_targets(live: Seq<AddrKey>, from: AddrKey) -> Seq<(AddrKey, ForwardTarget)>
    decreases live.len(),
{
    if live.len() == 0 {
        Seq::empty()
    } else {
        let rest = live_targets(live.drop_last(), from);
        if live.last() == from {
            rest
        } else {
            rest.push((live.last(), ForwardTarget::Transient(live.last())))
        }
    }
}

/// The live targets are the live keys other than `from`, each once if the
/// live keys are distinct.
pub proof fn lemma_live_targets(live: Seq<AddrKey>, from: AddrKey)
    ensures
        forall|j: int| 0 <= j < live_targets(live, from).len() ==> {
            let t = #[trigger] live_targets(live, from)[j];
            &&& t.0 != from
            &&& t.1 == ForwardTarget::Transient(t.0)
            &&& live.contains(t.0)
        },
        forall|m: int| 0 <= m < live.len() && live[m] != from
            ==> exists|j: int| 0 <= j < live_targets(live, from).len() && (#[trigger] live_targets(live, from)[j]).0 == live[m],
        live.no_duplicates() ==> forall|a: int, b: int| 0 <= a < b < live_targets(live, from).len()
            ==> (#[trigger] live_targets(live, from)[a]).0 != (#[trigger] live_targets(live, from)[b]).0,
    decreases live.len(),
{
    if live.len() > 0 {
        let init = live.drop_last();
        lemma_live_targets(init, from);
        let rest = live_targets(init, from);
        let all = live_targets(live, from);
        assert forall|j: int| 0 <= j < rest.len() implies live.contains((#[trigger] rest[j]).0) by {
            let m = choose|m: int| 0 <= m < init.len() && init[m] == rest[j].0;
            assert(live[m] == init[m]);
        }
        assert forall|m: int| 0 <= m < live.len() && live[m] != from
            implies exists|j: int| 0 <= j < all.len() && (#[trigger] all[j]).0 == live[m] by {
            if m == live.len() - 1 {
                assert(all[all.len() - 1].0 == live[m]);
            } else {
                assert(init[m] == live[m]);
                let j = choose|j: int| 0 <= j < rest.len() && (#[trigger] rest[j]).0 == init[m];
                assert(all[j] == rest[j]);
            }
        }
        if live.no_duplicates() {
            assert(init.no_duplicates());
            assert forall|a: int, b: int| 0 <= a < b < all.len() implies (#[trigger] all[a]).0 != (#[trigger] all[b]).0 by {
                if b == rest.len() && live.last() != from {
                    assert(all[a] == rest[a]);
                    assert(init.contains(rest[a].0));
                    let m = choose|m: int| 0 <= m < init.len() && init[m] == rest[a].0;
                    assert(live[m] == init[m]);
                } else {
                    assert(all[a] == rest[a]);
                    assert(all[b] == rest[b]);
                }
            }
        }
    }
}

/// Every peer of `peers`, in order, as a permanent target.
pub open spec fn all_permanent_targets(peers: Seq<Peer>) -> Seq<(AddrKey, ForwardTarget)> {
    peers.map(|i: int, p: Peer| (p.0.key, ForwardTarget::Permanent(i as usize)))
}

/// The permanent peers of a port, or none.
pub open spec fn permanent_or_empty(s: PortState) -> Seq<Peer> {
    match s.permanent {
        Some(p) => p@,
        None => Seq::empty(),
    }
}

/// Where port `s` forwards a datagram from `from` when its cache yields the
/// keys `live` as live: the permanent targets, then the live ones.
pub open spec fn forward_with_live(s: PortState, live: Seq<AddrKey>, from: AddrKey) -> Seq<(AddrKey, ForwardTarget)> {
    permanent_targets(permanent_or_empty(s), from) + match s.transient {
        Some(_) => live_targets(live, from),
        None => Seq::empty(),
    }
}

/// A datagram from `from` goes to every other peer the port knows and to
/// none at `from`'s address: every permanent peer at another address,
/// named by its position, and, when the port remembers discovered peers,
/// every live one at another address; and no target is `from`.
pub proof fn lemma_forward_reaches_every_other_peer(s: PortState, live: Seq<AddrKey>, from: AddrKey)
    requires
        permanent_or_empty(s).len() <= usize::MAX,
    ensures
        forall|i: int| 0 <= i < permanent_or_empty(s).len() && (#[trigger] permanent_or_empty(s)[i]).0.key != from
            ==> forward_with_live(s, live, from).contains(
                (permanent_or_empty(s)[i].0.key, ForwardTarget::Permanent(i as usize)),
            ),
        s.transient is Some ==> forall|m: int| 0 <= m < live.len() && #[trigger] live[m] != from
            ==> forward_with_live(s, live, from).contains((live[m], ForwardTarget::Transient(live[m]))),
        forall|j: int| 0 <= j < forward_with_live(s, live, from).len()
            ==> (#[trigger] forward_with_live(s, live, from)[j]).0 != from,
{
    let p = permanent_or_empty(s);
    let np = permanent_targets(p, from);
    let tp = match s.transient {
        Some(_) => live_targets(live, from),
        None => Seq::empty(),
    };
    let all = forward_with_live(s, live, from);
    assert(all == np + tp);
    lemma_permanent_targets_complete(p, from);
    lemma_permanent_targets(p, from);
    lemma_live_targets(live, from);
    assert forall|i: int| 0 <= i < p.len() && (#[trigger] p[i]).0.key != from
        implies all.contains((p[i].0.key, ForwardTarget::Permanent(i as usize))) by {
        let j = choose|j: int| 0 <= j < np.len() && np[j] == (p[i].0.key, ForwardTarget::Permanent(i as usize));
        assert(all[j] == np[j]);
    }
    if s.transient is Some {
        assert forall|m: int| 0 <= m < live.len() && #[trigger] live[m] != from
            implies all.contains((live[m], ForwardTarget::Transient(live[m]))) by {
            let j = choose|j: int| 0 <= j < tp.len() && (#[trigger] tp[j]).0 == live[m];
            assert(all[np.len() + j] == tp[j]);
        }
    }
    assert forall|j: int| 0 <= j < all.len() implies (#[trigger] all[j]).0 != from by {
        if j < np.len() {
            assert(all[j] == np[j]);
        } else {
            assert(all[j] == tp[j - np.len()]);
        }
    }
}

/// The bookkeeping of one port: its counters, its permanent peers (if it has
/// a `sendto` list) and the peers it discovers (if it remembers any).
pub struct PortState {
    pub stats: PortStats,
    pub permanent: Option<Vec<Peer>>,
    pub transient: Option<TransientPeers>,
}

impl PortState {
    /// Every peer's counters are well formed, the discovered peers are
    /// within their bounds, and no discovered peer is a permanent one.
    pub open spec fn wf(self) -> bool {
        &&& self.permanent matches Some(p) ==> all_wf(p@)
        &&& self.transient matches Some(t) ==> t.wf()
        &&& self.transient matches Some(t) ==> forall|j: int|
            0 <= j < t.table.len() ==> !self.is_permanent((#[trigger] t.table@[j]).0.key)
    }

    /// The permanent peers, if the port has a `sendto` list.
    pub open spec fn permanent_peers(self) -> Option<Seq<Peer>> {
        match self.permanent {
            Some(p) => Some(p@),
            None => None,
        }
    }

    /// Whether `from` is one of the port's permanent peers.
    pub open spec fn is_permanent(self, from: AddrKey) -> bool {
        self.permanent matches Some(p) && has_key(p@, from)
    }

    /// Counting a datagram of `n` bytes from `from` overflows no counter.
    pub open spec fn room_for_datagram(self, n: u64, from: AddrKey, delivered: bool) -> bool {
        &&& self.stats.room_for_received(n, delivered)
        &&& self.permanent matches Some(p) ==> forall|i: int|
            0 <= i < p.len() && (#[trigger] p@[i]).0.key == from ==> room_for_datagram(p@[i].1, n)
        &&& !self.is_permanent(from) ==> (self.transient matches Some(t) ==> t.room_for(n, from))
    }

    /// A port with nothing counted yet. Its permanent peers are the `sendto`
    /// addresses, known since `now`; it remembers discovered peers as
    /// `peer_memory(last_n, forget_ms)` says.
    pub fn new(last_n: Option<usize>, forget_ms: Option<u64>, sendto: Option<Vec<SockAddr>>, now: u64) -> (res: Self)
        ensures
            res.wf(),
            res.stats.is_zero(),
            match sendto {
                None => res.permanent is None,
                Some(addrs) => res.permanent matches Some(p) && p.len() == addrs.len()
                    && forall|i: int| 0 <= i < p.len() ==> #[trigger] p@[i] == (addrs@[i], EntryStats::idle(now)),
            },
            match peer_memory(last_n, forget_ms) {
                None => res.transient is None,
                Some((capacity, expiry)) => res.transient matches Some(t)
                    && t.table@.len() == 0
                    && cache_order(t.cache) == Seq::<AddrKey>::empty()
                    && cache_capacity(t.cache) == capacity
                    && cache_expiry(t.cache) == expiry,
            },
            last_n is Some && last_n.unwrap() > 0 ==> (res.transient matches Some(t)
                && cache_capacity(t.cache) == last_n.unwrap() && cache_expiry(t.cache) == forget_ms),
            last_n is None || last_n == Some(0usize) ==> res.transient is None,
    {
        proof {
            lemma_peer_memory(last_n, forget_ms);
        }
        let permanent = match sendto {
            None => None,
            Some(addrs) => {
                let mut p: Vec<Peer> = Vec::new();
                let mut i: usize = 0;
                while i < addrs.len()
                    invariant
                        i <= addrs.len(),
                        p.len() == i,
                        forall|j: int| 0 <= j < i ==> #[trigger] p@[j] == (addrs@[j], EntryStats::idle(now)),
                    decreases addrs.len() - i,
                {
                    p.push((addrs[i].clone(), EntryStats::started(now)));
                    i = i + 1;
                }
                Some(p)
            },
        };
        let transient = match last_n {
            Some(x) => if x == 0 {
                None
            } else {
                let cache = match forget_ms {
                    Some(ms) => cache_with_expiry(ms, x),
                    None => cache_with_capacity(x),
                };
                Some(TransientPeers::new(cache))
            },
            None => None,
        };
        PortState { stats: PortStats::default(), permanent, transient }
    }

    /// Counts a datagram of `n` bytes received from `from` at `now`;
    /// `delivered` tells whether the hub's channel took it (it has a
    /// subscriber for every port of the hub, this one included). Every
    /// permanent peer with that address counts it; if there is none, and the
    /// port remembers discovered peers, the sender is counted among those.
    pub fn on_datagram(&mut self, n: u64, from: &SockAddr, now: u64, delivered: bool)
        requires
            old(self).wf(),
            old(self).room_for_datagram(n, from.key, delivered),
        ensures
            final(self).wf(),
            final(self).stats == old(self).stats.after_received(n, delivered),
            old(self).stats.le(final(self).stats),
            match old(self).permanent_peers() {
                None => final(self).permanent_peers() is None,
                Some(p) => final(self).permanent_peers() == Some(counted_on(p, n, from.key, now)),
            },
            old(self).is_permanent(from.key) || old(self).transient is None
                ==> final(self).transient == old(self).transient,
            !old(self).is_permanent(from.key) && old(self).transient is Some
                ==> (final(self).transient matches Some(t)
                    && TransientPeers::stepped(old(self).transient.unwrap(), t, n, *from, now)),
    {
        self.stats.recv_bytes = self.stats.recv_bytes + n;
        self.stats.recv_dgrams = self.stats.recv_dgrams + 1;
        if !delivered {
            self.stats.dgrams_to_nowhere = self.stats.dgrams_to_nowhere + 1;
        }
        let mut handled = false;
        match self.permanent.take() {
            Some(mut p) => {
                handled = count_permanent(&mut p, n, &from.key, now);
                self.permanent = Some(p);
            },
            None => {},
        }
        proof {
            if old(self).permanent is Some {
                let p0 = old(self).permanent.unwrap()@;
                lemma_counted_on_keys(p0, n, from.key, now);
                assert forall|k: AddrKey| self.is_permanent(k) == old(self).is_permanent(k) by {
                    let p1 = self.permanent.unwrap()@;
                    if has_key(p0, k) {
                        let i = choose|i: int| 0 <= i < p0.len() && (#[trigger] p0[i]).0.key == k;
                        assert(keys_of(p1)[i] == keys_of(p0)[i]);
                        assert(p1[i].0.key == k);
                    }
                    if has_key(p1, k) {
                        let i = choose|i: int| 0 <= i < p1.len() && (#[trigger] p1[i]).0.key == k;
                        assert(keys_of(p1)[i] == keys_of(p0)[i]);
                        assert(p0[i].0.key == k);
                    }
                }
            }
        }
        if !handled {
            match self.transient.take() {
                Some(mut t) => {
                    let ghost t0 = t;
                    t.datagram(n, from, now);
                    proof {
                        let (present, live) = choose|present: bool, live: Seq<AddrKey>|
                            #[trigger] transient_step(t0.table@, n, *from, now, present, live) == t.table@
                                && cache_step(t0.cache, t.cache, from.key, present)
                                && (!(present && has_key(t0.table@, from.key))
                                    ==> held_among(t.cache, put_fresh(t0.table@, *from, n, now), live))
                                && (cache_expiry(t0.cache) is None ==> present == has_key(t0.table@, from.key));
                        lemma_step_keys(t0.table@, n, *from, now, present, live);
                        assert forall|j: int| 0 <= j < t.table.len() implies !self.is_permanent((#[trigger] t.table@[j]).0.key) by {
                            if t.table@[j].0.key != from.key {
                                let i = choose|i: int| 0 <= i < t0.table.len() && (#[trigger] t0.table@[i]).0.key == t.table@[j].0.key;
                                assert(!old(self).is_permanent(t0.table@[i].0.key));
                            }
                        }
                    }
                    self.transient = Some(t);
                },
                None => {},
            }
        }
    }

    /// The forwarding targets for a datagram from `from`, given the live
    /// keys of the port's cache: every permanent peer other than `from`, in
    /// order, then every live key other than `from`, in the order given.
    pub fn targets_with_live(&self, live: &Vec<AddrKey>, from: &AddrKey) -> (res: Vec<(AddrKey, ForwardTarget)>)
        ensures
            res@ == forward_with_live(*self, live@, *from),
            self.permanent matches Some(p) ==> forall|i: int|
                0 <= i < p.len() && (#[trigger] p@[i]).0.key != *from
                    ==> res@.contains((p@[i].0.key, ForwardTarget::Permanent(i as usize))),
            self.transient is Some ==> forall|m: int| 0 <= m < live.len() && #[trigger] live@[m] != *from
                ==> res@.contains((live@[m], ForwardTarget::Transient(live@[m]))),
            forall|j: int| 0 <= j < res.len() ==> (#[trigger] res@[j]).0 != *from,
    {
        proof {
            if self.permanent is Some {
                assert(permanent_or_empty(*self).len() == self.permanent.unwrap().len());
            }
            lemma_forward_reaches_every_other_peer(*self, live@, *from);
        }
        let mut res: Vec<(AddrKey, ForwardTarget)> = Vec::new();
        let ghost np = permanent_targets(permanent_or_empty(*self), *from);
        assert(forward_with_live(*self, live@, *from) == np + match self.transient {
            Some(_) => live_targets(live@, *from),
            None => Seq::<(AddrKey, ForwardTarget)>::empty(),
        });
        match &self.permanent {
            Some(p) => {
                let mut i: usize = 0;
                while i < p.len()
                    invariant
                        i <= p.len(),
                        res@ == permanent_targets(p@.take(i as int), *from),
                    decreases p.len() - i,
                {
                    proof {
                        assert(p@.take(i + 1).drop_last() =~= p@.take(i as int));
                    }
                    if !key_eq(&p[i].0.key, from) {
                        res.push((p[i].0.key, ForwardTarget::Permanent(i)));
                    }
                    i = i + 1;
                }
                proof {
                    assert(p@.take(p.len() as int) =~= p@);
                }
            },
            None => {
                assert(res@ =~= np);
            },
        }
        assert(res@ == np);
        match &self.transient {
            Some(_) => {
                let mut k: usize = 0;
                assert(live@.take(0) =~= Seq::<AddrKey>::empty());
                assert(res@ =~= np + live_targets(live@.take(0), *from));
                while k < live.len()
                    invariant
                        k <= live.len(),
                        res@ == np + live_targets(live@.take(k as int), *from),
                    decreases live.len() - k,
                {
                    proof {
                        assert(live@.take(k + 1).drop_last() =~= live@.take(k as int));
                    }
                    if !key_eq(&live[k], from) {
                        res.push((live[k], ForwardTarget::Transient(live[k])));
                    }
                    assert(res@ =~= np + live_targets(live@.take(k + 1), *from));
                    k = k + 1;
                }
                assert(live@.take(live.len() as int) =~= live@);
            },
            None => {
                assert(res@ =~= np + Seq::<(AddrKey, ForwardTarget)>::empty());
            },
        }
        res
    }

    /// Where to forward a datagram that another port of the hub received
    /// from `from`: every permanent peer other than `from`, in order, then
    /// every discovered peer other than `from` that the cache yields as live
    /// (not expired), in the order it yields them.
    pub fn forward_targets(&self, from: &AddrKey) -> (res: Vec<(AddrKey, ForwardTarget)>)
        ensures
            forall|j: int| 0 <= j < res.len() ==> (#[trigger] res@[j]).0 != *from,
            self.permanent matches Some(p) ==> forall|i: int|
                0 <= i < p.len() && (#[trigger] p@[i]).0.key != *from
                    ==> res@.contains((p@[i].0.key, ForwardTarget::Permanent(i as usize))),
            exists|live: Seq<AddrKey>|
                (self.transient matches Some(t) ==> live_keys_of(t.cache, live))
                    && #[trigger] forward_with_live(*self, live, *from) == res@,
            ({
                let np = permanent_targets(permanent_or_empty(*self), *from);
                &&& np.len() <= res.len()
                &&& res@.subrange(0, np.len() as int) == np
                &&& forall|j: int| np.len() <= j < res.len() ==> {
                    let t = #[trigger] res@[j];
                    &&& t.1 == ForwardTarget::Transient(t.0)
                    &&& self.transient matches Some(tp) && cache_keys(tp.cache).contains(t.0)
                }
                &&& forall|a: int, b: int| np.len() <= a < b < res.len() ==> #[trigger] res@[a].0 != #[trigger] res@[b].0
                &&& self.transient matches Some(tp) ==> (cache_expiry(tp.cache) is None ==> forall|k: AddrKey|
                    #[trigger] cache_keys(tp.cache).contains(k) && k != *from
                        ==> exists|j: int| np.len() <= j < res.len() && res@[j].0 == k)
                &&& self.transient is None ==> res.len() == np.len()
            }),
    {
        let live = match &self.transient {
            Some(t) => cache_live_keys(&t.cache),
            None => Vec::new(),
        };
        let res = self.targets_with_live(&live, from);
        proof {
            let np = permanent_targets(permanent_or_empty(*self), *from);
            if self.permanent is Some {
                assert(permanent_or_empty(*self).len() == self.permanent.unwrap().len());
            }
            lemma_permanent_targets(permanent_or_empty(*self), *from);
            assert(forward_with_live(*self, live@, *from) == res@);
            assert(self.transient matches Some(t) ==> live_keys_of(t.cache, live@));
            if self.transient is Some {
                lemma_live_keys_of(self.transient.unwrap().cache, live@);
            }
            let npl = np.len();
            assert(res@.subrange(0, npl as int) =~= np);
            if self.transient is Some {
                    let t = self.transient.unwrap();
                    let tp = live_targets(live@, *from);
                    lemma_live_targets(live@, *from);
                    assert forall|j: int| npl <= j < res.len() implies #[trigger] res@[j] == tp[j - npl] by {}
                    assert forall|j: int| 0 <= j < npl implies #[trigger] res@[j] == np[j] by {}
                    if cache_expiry(t.cache) is None {
                        assert forall|key: AddrKey| #[trigger] cache_keys(t.cache).contains(key) && key != *from
                            implies exists|j: int| npl <= j < res.len() && res@[j].0 == key by {
                            assert(live@.to_set().contains(key));
                            let m = choose|m: int| 0 <= m < live.len() && live@[m] == key;
                            let j = choose|j: int| 0 <= j < tp.len() && (#[trigger] tp[j]).0 == live@[m];
                            assert(res@[j + npl] == tp[j]);
                        }
                    }
                    assert forall|a: int, b: int| npl <= a < b < res.len() implies #[trigger] res@[a].0 != #[trigger] res@[b].0 by {
                        assert(res@[a] == tp[a - npl]);
                        assert(res@[b] == tp[b - npl]);
                    }
                    assert forall|j: int| npl <= j < res.len() implies {
                        let e = #[trigger] res@[j];
                        &&& e.1 == ForwardTarget::Transient(e.0)
                        &&& cache_keys(t.cache).contains(e.0)
                    } by {
                        assert(res@[j] == tp[j - npl]);
                        let m = choose|m: int| 0 <= m < live.len() && live@[m] == tp[j - npl].0;
                    }
                    assert forall|j: int| 0 <= j < res.len() implies (#[trigger] res@[j]).0 != *from by {
                        if j < npl {
                            assert(res@[j] == np[j]);
                        } else {
                            assert(res@[j] == tp[j - npl]);
                        }
                    }
            } else {
                    assert(res@ =~= np);
            }
        }
        res
    }
}

} // verus!

verus! {

/// The entry of `t` with key `k`, when it has one.
pub open spec fn entry_of(t: Seq<Peer>, k: AddrKey) -> Peer {
    t[choose|i: int| 0 <= i < t.len() && t[i].0.key == k]
}

/// The report lines of the discovered peers of `t` with the keys `live`, in
/// the order of `live`; keys without an entry are passed over.
pub open spec fn live_lines(t: Seq<Peer>, live: Seq<AddrKey>) -> Seq<(SockAddr, SockAddrType, EntryStats)>
    decreases live.len(),
{
    if live.len() == 0 {
        Seq::empty()
    } else {
        let rest = live_lines(t, live.drop_last());
        if has_key(t, live.last()) {
            let e = entry_of(t, live.last());
            rest.push((e.0, SockAddrType::Transient, e.1))
        } else {
            rest
        }
    }
}

/// The report lines of permanent peers, in their order.
pub open spec fn permanent_lines(p: Seq<Peer>) -> Seq<(SockAddr, SockAddrType, EntryStats)> {
    p.map_values(|e: Peer| (e.0, SockAddrType::Permanent, e.1))
}

/// The peers of a long report of port `s` when its cache yields the keys
/// `live` as live.
pub open spec fn long_peers(s: PortState, live: Seq<AddrKey>) -> Seq<(SockAddr, SockAddrType, EntryStats)> {
    permanent_lines(permanent_or_empty(s)) + match s.transient {
        Some(t) => live_lines(t.table@, live),
        None => Seq::empty(),
    }
}

/// The discovered lines are entries of the table with live keys, once each
/// when the live keys are, and every entry with a live key is among them.
pub proof fn lemma_live_lines(t: Seq<Peer>, live: Seq<AddrKey>)
    requires
        keys_of(t).no_duplicates(),
    ensures
        forall|j: int| 0 <= j < live_lines(t, live).len() ==> {
            let e = #[trigger] live_lines(t, live)[j];
            &&& e.1 == SockAddrType::Transient
            &&& t.contains((e.0, e.2))
            &&& live.contains(e.0.key)
        },
        live.no_duplicates() ==> forall|a: int, b: int| 0 <= a < b < live_lines(t, live).len()
            ==> (#[trigger] live_lines(t, live)[a]).0.key != (#[trigger] live_lines(t, live)[b]).0.key,
        forall|i: int| 0 <= i < t.len() && live.contains((#[trigger] t[i]).0.key)
            ==> live_lines(t, live).contains((t[i].0, SockAddrType::Transient, t[i].1)),
    decreases live.len(),
{
    if live.len() > 0 {
        let init = live.drop_last();
        let k = live.last();
        let rest = live_lines(t, init);
        let r = live_lines(t, live);
        lemma_live_lines(t, init);
        if has_key(t, k) {
            let c = choose|c: int| 0 <= c < t.len() && t[c].0.key == k;
            assert(entry_of(t, k) == t[c]);
        }
        assert forall|j: int| 0 <= j < r.len() implies {
            let e = #[trigger] r[j];
            &&& e.1 == SockAddrType::Transient
            &&& t.contains((e.0, e.2))
            &&& live.contains(e.0.key)
        } by {
            if j < rest.len() {
                assert(r[j] == rest[j]);
                let m = choose|m: int| 0 <= m < init.len() && init[m] == rest[j].0.key;
                assert(live[m] == init[m]);
            } else {
                let c = choose|c: int| 0 <= c < t.len() && t[c].0.key == k;
                assert(t[c] == (r[j].0, r[j].2));
                assert(live[live.len() - 1] == k);
            }
        }
        if live.no_duplicates() {
            assert(init.no_duplicates());
            assert forall|a: int, b: int| 0 <= a < b < r.len()
                implies (#[trigger] r[a]).0.key != (#[trigger] r[b]).0.key by {
                assert(r[a] == rest[a]);
                if b < rest.len() {
                    assert(r[b] == rest[b]);
                } else {
                    let m = choose|m: int| 0 <= m < init.len() && init[m] == rest[a].0.key;
                    let c = choose|c: int| 0 <= c < t.len() && t[c].0.key == k;
                    assert(r[b].0.key == k);
                    assert(live[m] != live[live.len() - 1]);
                }
            }
        }
        assert forall|i: int| 0 <= i < t.len() && live.contains((#[trigger] t[i]).0.key)
            implies r.contains((t[i].0, SockAddrType::Transient, t[i].1)) by {
            if t[i].0.key == k {
                let c = choose|c: int| 0 <= c < t.len() && t[c].0.key == k;
                if c != i {
                    assert(keys_of(t)[c] != keys_of(t)[i]);
                }
                assert(r[r.len() - 1] == (t[i].0, SockAddrType::Transient, t[i].1));
            } else {
                let m = choose|m: int| 0 <= m < live.len() && live[m] == t[i].0.key;
                assert(init[m] == live[m]);
                let j = choose|j: int| 0 <= j < rest.len() && rest[j] == (t[i].0, SockAddrType::Transient, t[i].1);
                assert(r[j] == rest[j]);
            }
        }
    }
}

/// What sending `m` bytes to the peer with key `key` makes of `peers`.
pub open spec fn sent_to(peers: Seq<Peer>, key: AddrKey, m: u64) -> Seq<Peer> {
    peers.map_values(|p: Peer| if p.0.key == key { (p.0, p.1.after_send(m)) } else { p })
}


impl PortState {
    /// Whether counting a datagram of `n` bytes from `from` overflows no
    /// counter.
    #[verifier::loop_isolation(false)]
    pub fn datagram_fits(&self, n: u64, from: &AddrKey, delivered: bool) -> (res: bool)
        ensures
            res == self.room_for_datagram(n, *from, delivered),
    {
        if !(self.stats.recv_bytes <= u64::MAX - n && self.stats.recv_dgrams < u64::MAX
            && (delivered || self.stats.dgrams_to_nowhere < u64::MAX)) {
            return false;
        }
        let mut matched = false;
        match &self.permanent {
            Some(p) => {
                let mut i: usize = 0;
                while i < p.len()
                    invariant
                        i <= p.len(),
                        forall|j: int| 0 <= j < i && (#[trigger] p@[j]).0.key == *from ==> room_for_datagram(p@[j].1, n),
                        matched == exists|j: int| 0 <= j < i && (#[trigger] p@[j]).0.key == *from,
                    decreases p.len() - i,
                {
                    if key_eq(&p[i].0.key, from) {
                        if !(p[i].1.recv_bytes <= u64::MAX - n && p[i].1.recv_dgrams < u64::MAX) {
                            assert(!room_for_datagram(p@[i as int].1, n));
                            return false;
                        }
                        matched = true;
                    }
                    i = i + 1;
                }
            },
            None => {},
        }
        if !matched {
            match &self.transient {
                Some(t) => {
                    let mut i: usize = 0;
                    while i < t.table.len()
                        invariant
                            i <= t.table.len(),
                            forall|j: int| 0 <= j < i && (#[trigger] t.table@[j]).0.key == *from ==> room_for_datagram(t.table@[j].1, n),
                        decreases t.table.len() - i,
                    {
                        if key_eq(&t.table[i].0.key, from) {
                            if !(t.table[i].1.recv_bytes <= u64::MAX - n && t.table[i].1.recv_dgrams < u64::MAX) {
                                assert(!room_for_datagram(t.table@[i as int].1, n));
                                assert(!self.is_permanent(*from));
                                return false;
                            }
                        }
                        i = i + 1;
                    }
                },
                None => {},
            }
        }
        true
    }

    /// Counts the outcome of sending a datagram to `target`: `Some(m)` for
    /// `m` bytes sent, `None` for a failed send. A sent datagram is counted
    /// by the port and by the peer; a failed one by the port only.
    pub fn record_send(&mut self, target: ForwardTarget, sent: Option<u64>)
        requires
            old(self).wf(),
            old(self).stats.room_for_sent(sent),
        ensures
            final(self).wf(),
            final(self).stats == old(self).stats.after_sent(sent),
            old(self).stats.le(final(self).stats),
            final(self).permanent_peers() == match (sent, target, old(self).permanent_peers()) {
                (Some(m), ForwardTarget::Permanent(i), Some(p)) => if i < p.len() {
                    Some(p.update(i as int, (p[i as int].0, p[i as int].1.after_send(m))))
                } else {
                    Some(p)
                },
                _ => old(self).permanent_peers(),
            },
            match (sent, target, old(self).transient) {
                (Some(m), ForwardTarget::Transient(k), Some(t)) => final(self).transient matches Some(u)
                    && u.cache == t.cache && u.table@ == sent_to(t.table@, k, m),
                _ => final(self).transient == old(self).transient,
            },
    {
        match sent {
            Some(m) => {
                self.stats.send_bytes = self.stats.send_bytes + m;
                self.stats.send_dgrams = self.stats.send_dgrams + 1;
                match target {
                    ForwardTarget::Permanent(i) => {
                        match self.permanent.take() {
                            Some(mut p) => {
                                if i < p.len() {
                                    let addr = p[i].0.clone();
                                    let mut e = p[i].1;
                                    e.datagram_sent(m);
                                    p.set(i, (addr, e));
                                }
                                self.permanent = Some(p);
                            },
                            None => {},
                        }
                    },
                    ForwardTarget::Transient(k) => {
                        match self.transient.take() {
                            Some(mut t) => {
                                let ghost before = t.table@;
                                match find_key(&t.table, &k) {
                                    Some(i) => {
                                        let addr = t.table[i].0.clone();
                                        let mut e = t.table[i].1;
                                        e.datagram_sent(m);
                                        t.table.set(i, (addr, e));
                                        proof {
                                            assert forall|j: int| 0 <= j < before.len() && j != i
                                                implies before[j].0.key != k by {
                                                assert(keys_of(before)[j] != keys_of(before)[i as int]);
                                            }
                                            assert(keys_of(t.table@) =~= keys_of(before));
                                            if cache_expiry(t.cache) is None {
                                                assert forall|key: AddrKey| #[trigger] cache_keys(t.cache).contains(key)
                                                    implies has_key(t.table@, key) by {
                                                    let j = choose|j: int| 0 <= j < before.len() && (#[trigger] before[j]).0.key == key;
                                                    assert(keys_of(t.table@)[j] == keys_of(before)[j]);
                                                    assert(t.table@[j].0.key == key);
                                                }
                                            }
                                        }
                                    },
                                    None => {},
                                }
                                assert(t.table@ =~= sent_to(before, k, m));
                                self.transient = Some(t);
                            },
                            None => {},
                        }
                    },
                }
            },
            None => {
                self.stats.send_errors = self.stats.send_errors + 1;
            },
        }
    }

    /// Where the port's periodic sender sends its datagram: every permanent
    /// peer, in order (none without a `sendto` list).
    pub fn periodic_targets(&self) -> (res: Vec<(AddrKey, ForwardTarget)>)
        ensures
            res@ == all_permanent_targets(permanent_or_empty(*self)),
    {
        let mut res: Vec<(AddrKey, ForwardTarget)> = Vec::new();
        match &self.permanent {
            Some(p) => {
                let mut i: usize = 0;
                while i < p.len()
                    invariant
                        i <= p.len(),
                        permanent_or_empty(*self) == p@,
                        res@ == all_permanent_targets(p@.take(i as int)),
                    decreases p.len() - i,
                {
                    res.push((p[i].0.key, ForwardTarget::Permanent(i)));
                    assert(all_permanent_targets(p@.take(i + 1)) =~= all_permanent_targets(p@.take(i as int)).push(
                        (p@[i as int].0.key, ForwardTarget::Permanent(i)),
                    ));
                    i = i + 1;
                }
                assert(p@.take(p.len() as int) =~= p@);
            },
            None => {
                assert(res@ =~= all_permanent_targets(permanent_or_empty(*self)));
            },
        }
        res
    }

    /// Counts `x` datagrams the port fell behind on and lost.
    pub fn on_lagged(&mut self, x: u64)
        requires
            old(self).stats.lagged + x <= u64::MAX,
        ensures
            final(self).stats == old(self).stats.after_event(PortEvent::Lagged(x)),
            final(self).permanent == old(self).permanent,
            final(self).transient == old(self).transient,
    {
        self.stats.lagged = self.stats.lagged + x;
    }

    /// Counts a failed receive.
    pub fn on_recv_error(&mut self)
        requires
            old(self).stats.recv_errors < u64::MAX,
        ensures
            final(self).stats == old(self).stats.after_event(PortEvent::RecvError),
            final(self).permanent == old(self).permanent,
            final(self).transient == old(self).transient,
    {
        self.stats.recv_errors = self.stats.recv_errors + 1;
    }

    /// The port's answer to a statistics request, given the live keys of
    /// its cache: its counters, and for a long report its permanent peers in
    /// their order, then the discovered peers of the live keys, in the order
    /// given.
    pub fn report_with_live(&self, mode: GetStatsMode, live: &Vec<AddrKey>) -> (res: ReportStats)
        requires
            self.wf(),
        ensures
            res.port_wide == self.stats,
            mode == GetStatsMode::Short ==> res.peers.len() == 0,
            mode == GetStatsMode::Long ==> res.peers@ == long_peers(*self, live@),
    {
        let mut peers: Vec<(SockAddr, SockAddrType, EntryStats)> = Vec::new();
        if mode == GetStatsMode::Long {
            let ghost np = permanent_or_empty(*self);
            match &self.permanent {
                Some(p) => {
                    let mut i: usize = 0;
                    while i < p.len()
                        invariant
                            i <= p.len(),
                            np == p@,
                            peers@ == permanent_lines(np.take(i as int)),
                        decreases p.len() - i,
                    {
                        peers.push((p[i].0.clone(), SockAddrType::Permanent, p[i].1));
                        assert(peers@ =~= permanent_lines(np.take(i + 1)));
                        i = i + 1;
                    }
                    assert(np.take(p.len() as int) =~= np);
                },
                None => {
                    assert(peers@ =~= permanent_lines(np));
                },
            }
            let ghost pl = peers@;
            match &self.transient {
                Some(t) => {
                    let mut k: usize = 0;
                    assert(live@.take(0) =~= Seq::<AddrKey>::empty());
                    assert(peers@ =~= pl + live_lines(t.table@, live@.take(0)));
                    while k < live.len()
                        invariant
                            k <= live.len(),
                            t.wf(),
                            peers@ == pl + live_lines(t.table@, live@.take(k as int)),
                        decreases live.len() - k,
                    {
                        proof {
                            assert(live@.take(k + 1).drop_last() =~= live@.take(k as int));
                        }
                        match find_key(&t.table, &live[k]) {
                            Some(i) => {
                                proof {
                                    let c = choose|c: int| 0 <= c < t.table.len() && t.table@[c].0.key == live@[k as int];
                                    if c != i {
                                        assert(keys_of(t.table@)[c] != keys_of(t.table@)[i as int]);
                                    }
                                    assert(entry_of(t.table@, live@[k as int]) == t.table@[i as int]);
                                }
                                peers.push((t.table[i].0.clone(), SockAddrType::Transient, t.table[i].1));
                            },
                            None => {},
                        }
                        assert(peers@ =~= pl + live_lines(t.table@, live@.take(k + 1)));
                        k = k + 1;
                    }
                    assert(live@.take(live.len() as int) =~= live@);
                },
                None => {
                    assert(peers@ =~= pl + Seq::<(SockAddr, SockAddrType, EntryStats)>::empty());
                },
            }
        }
        ReportStats { port_wide: self.stats, peers }
    }

    /// The port's answer to a statistics request: its counters, and for a
    /// long report its peers, the permanent ones first in their order, then
    /// the discovered ones the cache yields as live (not expired), in the
    /// order it yields them.
    pub fn report(&self, mode: GetStatsMode) -> (res: ReportStats)
        requires
            self.wf(),
        ensures
            res.port_wide == self.stats,
            mode == GetStatsMode::Short ==> res.peers.len() == 0,
            mode == GetStatsMode::Long ==> exists|live: Seq<AddrKey>|
                (self.transient matches Some(t) ==> live_keys_of(t.cache, live))
                    && #[trigger] long_peers(*self, live) == res.peers@,
            mode == GetStatsMode::Long ==> ({
                let np = permanent_or_empty(*self);
                &&& np.len() <= res.peers.len()
                &&& forall|i: int| 0 <= i < np.len()
                    ==> #[trigger] res.peers@[i] == (np[i].0, SockAddrType::Permanent, np[i].1)
                &&& forall|j: int| np.len() <= j < res.peers.len() ==> {
                    let e = #[trigger] res.peers@[j];
                    &&& e.1 == SockAddrType::Transient
                    &&& self.transient matches Some(t) && t.table@.contains((e.0, e.2))
                        && cache_keys(t.cache).contains(e.0.key)
                    &&& !self.is_permanent(e.0.key)
                }
                &&& forall|a: int, b: int| np.len() <= a < b < res.peers.len()
                    ==> (#[trigger] res.peers@[a]).0.key != (#[trigger] res.peers@[b]).0.key
                &&& self.transient matches Some(t) ==> (cache_expiry(t.cache) is None ==> forall|i: int|
                    0 <= i < t.table.len() ==> exists|j: int| np.len() <= j < res.peers.len()
                        && res.peers@[j] == (#[trigger] t.table@[i].0, SockAddrType::Transient, t.table@[i].1))
                &&& self.transient is None ==> res.peers.len() == np.len()
                &&& self.transient matches Some(t) ==> res.peers.len() - np.len() <= cache_capacity(t.cache)
            }),
    {
        let live = match &self.transient {
            Some(t) => cache_live_keys(&t.cache),
            None => Vec::new(),
        };
        let res = self.report_with_live(mode, &live);
        proof {
            if mode == GetStatsMode::Long {
                assert(long_peers(*self, live@) == res.peers@);
                assert(self.transient matches Some(t) ==> live_keys_of(t.cache, live@));
            if self.transient is Some {
                lemma_live_keys_of(self.transient.unwrap().cache, live@);
            }
                let np = permanent_or_empty(*self);
                let pl = permanent_lines(np);
                assert forall|i: int| 0 <= i < np.len()
                    implies #[trigger] res.peers@[i] == (np[i].0, SockAddrType::Permanent, np[i].1) by {
                    assert(res.peers@[i] == pl[i]);
                }
                if self.transient is Some {
                    let t = self.transient.unwrap();
                    let ll = live_lines(t.table@, live@);
                    lemma_live_lines(t.table@, live@);
                    assert forall|j: int| np.len() <= j < res.peers.len() implies {
                        let e = #[trigger] res.peers@[j];
                        &&& e.1 == SockAddrType::Transient
                        &&& t.table@.contains((e.0, e.2))
                        &&& cache_keys(t.cache).contains(e.0.key)
                        &&& !self.is_permanent(e.0.key)
                    } by {
                        assert(res.peers@[j] == ll[j - np.len()]);
                        let e = ll[j - np.len()];
                        let m = choose|m: int| 0 <= m < live.len() && live@[m] == e.0.key;
                        let c = choose|c: int| 0 <= c < t.table.len() && t.table@[c] == (e.0, e.2);
                        assert(!self.is_permanent(t.table@[c].0.key));
                    }
                    assert forall|a: int, b: int| np.len() <= a < b < res.peers.len()
                        implies (#[trigger] res.peers@[a]).0.key != (#[trigger] res.peers@[b]).0.key by {
                        assert(res.peers@[a] == ll[a - np.len()]);
                        assert(res.peers@[b] == ll[b - np.len()]);
                    }
                    let ks = Seq::new((res.peers.len() - np.len()) as nat, |j: int| res.peers@[j + np.len()].0.key);
                    assert forall|j: int| 0 <= j < ks.len() implies has_key(t.table@, #[trigger] ks[j]) by {
                        let e = res.peers@[j + np.len()];
                        let c = choose|c: int| 0 <= c < t.table.len() && t.table@[c] == (e.0, e.2);
                    }
                    lemma_distinct_keys_bound(ks, t.table@);
                    if cache_expiry(t.cache) is None {
                        assert forall|i: int| 0 <= i < t.table.len() implies exists|j: int| np.len() <= j < res.peers.len()
                            && res.peers@[j] == (#[trigger] t.table@[i].0, SockAddrType::Transient, t.table@[i].1) by {
                            assert(cache_keys(t.cache).contains(t.table@[i].0.key));
                            assert(live@.to_set().contains(t.table@[i].0.key));
                            assert(live@.contains(t.table@[i].0.key));
                            let m = choose|m: int| 0 <= m < ll.len() && ll[m] == (t.table@[i].0, SockAddrType::Transient, t.table@[i].1);
                            assert(res.peers@[m + np.len()] == ll[m]);
                        }
                    }
                } else {
                    assert(res.peers@ =~= pl);
                }
            }
        }
        res
    }
}

} // verus!
