//! The recency-ordered, capacity- and age-limited set of peers that a port
//! has discovered, kept by `lru_time_cache::LruCache`.
//!
//! The cache decides which discovered peers a port still remembers: it
//! forgets the least recently seen one when full, and (when made with an
//! expiry) those not seen for longer than the expiry. Which entries have
//! expired at a given call depends on the clock inside the cache, so the
//! contracts below state what holds whatever the clock says.
use vstd::prelude::*;

use lru_time_cache::LruCache;
use std::time::Duration;

use crate::addr::AddrKey;

verus! {

#[verifier::external_type_specification]
#[verifier::external_body]
#[verifier::reject_recursive_types(Key)]
#[verifier::reject_recursive_types(Value)]
pub struct ExLruCache<Key, Value>(LruCache<Key, Value>);

/// The keys a peer cache holds, expired ones that it has not dropped yet
/// included, least recently seen first.
pub uninterp spec fn cache_order(c: LruCache<AddrKey, ()>) -> Seq<AddrKey>;

/// The capacity a peer cache was made with.
pub uninterp spec fn cache_capacity(c: LruCache<AddrKey, ()>) -> nat;

/// The expiry, in milliseconds, a peer cache was made with, if any.
pub uninterp spec fn cache_expiry(c: LruCache<AddrKey, ()>) -> Option<u64>;

/// The keys a peer cache holds.
pub open spec fn cache_keys(c: LruCache<AddrKey, ()>) -> Set<AddrKey> {
    cache_order(c).to_set()
}

/// `s` without `k`, the other keys in their order.
pub open spec fn without(s: Seq<AddrKey>, k: AddrKey) -> Seq<AddrKey>
    decreases s.len(),
{
    if s.len() == 0 {
        s
    } else {
        let rest = without(s.drop_last(), k);
        if s.last() == k {
            rest
        } else {
            rest.push(s.last())
        }
    }
}

/// `s` with `k` moved to the end, as the most recently seen.
pub open spec fn to_back(s: Seq<AddrKey>, k: AddrKey) -> Seq<AddrKey> {
    without(s, k).push(k)
}

/// `s` with a key `k` it does not hold added as the most recently seen,
/// after dropping the least recently seen keys beyond `capacity - 1`.
pub open spec fn admitted(s: Seq<AddrKey>, k: AddrKey, capacity: nat) -> Seq<AddrKey> {
    if s.len() >= capacity {
        s.skip(s.len() - capacity + 1).push(k)
    } else {
        s.push(k)
    }
}

/// Whether the `d` least recently seen keys of `c` are ones its expiry can
/// drop: any number of them with an expiry (which depends on the clock),
/// none without.
pub open spec fn may_expire(c: LruCache<AddrKey, ()>, d: int) -> bool {
    &&& 0 <= d <= cache_order(c).len()
    &&& cache_expiry(c) is None ==> d == 0
}

/// `new` is what looking the key `k` up in the cache `old` (finding it:
/// `present`) and, when it was not found, inserting it make of `old`, when
/// the `w` least recently seen keys of `old` expired along the way: a found
/// key moves to the end; a key not found is added at the end, after the
/// least recently seen beyond the capacity less one are dropped.
pub open spec fn step_at(old: LruCache<AddrKey, ()>, new: LruCache<AddrKey, ()>, k: AddrKey, present: bool, w: int) -> bool {
    let rest = cache_order(old).skip(w);
    &&& may_expire(old, w)
    &&& present == rest.contains(k)
    &&& present ==> cache_order(new) == to_back(rest, k)
    &&& !present ==> cache_order(new) == admitted(rest, k, cache_capacity(old))
}

/// `new` is what looking the key `k` up in the cache `old` (finding it:
/// `present`) and, when it was not found, inserting it make of `old`, for
/// some number of expired keys (none without an expiry).
pub open spec fn cache_step(old: LruCache<AddrKey, ()>, new: LruCache<AddrKey, ()>, k: AddrKey, present: bool) -> bool {
    exists|w: int| #[trigger] step_at(old, new, k, present, w)
}

/// Calls `LruCache::with_capacity`: an empty cache of the given capacity and
/// no expiry.
#[verifier::external_body]
pub(crate) fn cache_with_capacity(capacity: usize) -> (res: LruCache<AddrKey, ()>)
    ensures
        cache_order(res) == Seq::<AddrKey>::empty(),
        cache_capacity(res) == capacity,
        cache_expiry(res) == None::<u64>,
{
    LruCache::with_capacity(capacity)
}

/// Calls `LruCache::with_expiry_duration_and_capacity` with an expiry of
/// `expiry_ms` milliseconds: an empty cache of the given capacity and expiry.
#[verifier::external_body]
pub(crate) fn cache_with_expiry(expiry_ms: u64, capacity: usize) -> (res: LruCache<AddrKey, ()>)
    ensures
        cache_order(res) == Seq::<AddrKey>::empty(),
        cache_capacity(res) == capacity,
        cache_expiry(res) == Some(expiry_ms),
{
    LruCache::with_expiry_duration_and_capacity(Duration::from_millis(expiry_ms), capacity)
}

/// Calls `LruCache::get`, which first drops the expired keys, a run of the
/// least recently seen ones, and then, if the key is still held, moves it
/// to the end as the most recently seen. Returns whether the key was still
/// held. How many keys expire is left open: it depends on the clock.
#[verifier::external_body]
pub(crate) fn cache_touch(c: &mut LruCache<AddrKey, ()>, key: &AddrKey) -> (present: bool)
    ensures
        exists|d: int| #![trigger cache_order(*old(c)).skip(d)]
            may_expire(*old(c), d) && {
                let rest = cache_order(*old(c)).skip(d);
                &&& present == rest.contains(*key)
                &&& cache_order(*final(c)) == if present { to_back(rest, *key) } else { rest }
            },
        cache_capacity(*final(c)) == cache_capacity(*old(c)),
        cache_expiry(*final(c)) == cache_expiry(*old(c)),
{
    c.get(key).is_some()
}

/// Calls `LruCache::insert`, which drops the expired keys, a run of the
/// least recently seen ones; then moves a key it still holds to the end, or
/// drops the least recently seen keys beyond the capacity less one and adds
/// the key at the end. How many keys expire is left open: it depends on the
/// clock.
#[verifier::external_body]
pub(crate) fn cache_insert(c: &mut LruCache<AddrKey, ()>, key: AddrKey)
    requires
        cache_capacity(*old(c)) > 0,
    ensures
        exists|d: int| #![trigger cache_order(*old(c)).skip(d)]
            may_expire(*old(c), d) && {
                let rest = cache_order(*old(c)).skip(d);
                cache_order(*final(c)) == if rest.contains(key) {
                    to_back(rest, key)
                } else {
                    admitted(rest, key, cache_capacity(*old(c)))
                }
            },
        cache_capacity(*final(c)) == cache_capacity(*old(c)),
        cache_expiry(*final(c)) == cache_expiry(*old(c)),
{
    let _ = c.insert(key, ());
}

/// Calls `LruCache::peek`, which tells, without marking the key, whether the
/// cache holds it and it has not expired yet (by the same measure by which
/// the next lookup or insertion drops expired keys). A key it holds counts
/// as not expired when the cache has no expiry.
#[verifier::external_body]
pub(crate) fn cache_peek(c: &LruCache<AddrKey, ()>, key: &AddrKey) -> (res: bool)
    ensures
        res ==> cache_order(*c).contains(*key),
        cache_expiry(*c) is None ==> res == cache_order(*c).contains(*key),
{
    c.peek(key).is_some()
}

/// Walks `LruCache::peek_iter`, which yields the keys not expired yet, most
/// recently seen first, without marking them. The expired keys are a run of
/// the least recently seen ones, so what comes out is the most recently seen
/// keys, as many as have not expired, reversed; each key comes out once. How many keys have expired is left open: it
/// depends on the clock.
#[verifier::external_body]
pub(crate) fn cache_live_keys(c: &LruCache<AddrKey, ()>) -> (res: Vec<AddrKey>)
    ensures
        res@.no_duplicates(),
        res.len() <= cache_order(*c).len(),
        res@ == cache_order(*c).skip(cache_order(*c).len() - res.len()).reverse(),
        cache_expiry(*c) is None ==> res.len() == cache_order(*c).len(),
{
    c.peek_iter().map(|(k, _)| *k).collect()
}

/// `without` keeps every other key, in order and once each.
pub proof fn lemma_without(s: Seq<AddrKey>, k: AddrKey)
    ensures
        forall|x: AddrKey| #[trigger] without(s, k).contains(x) <==> s.contains(x) && x != k,
        without(s, k).len() <= s.len(),
        s.no_duplicates() ==> without(s, k).no_duplicates(),
        s.no_duplicates() && s.contains(k) ==> without(s, k).len() == s.len() - 1,
        !s.contains(k) ==> without(s, k) == s,
    decreases s.len(),
{
    if s.len() > 0 {
        let init = s.drop_last();
        let r = without(init, k);
        lemma_without(init, k);
        assert forall|x: AddrKey| #[trigger] without(s, k).contains(x) <==> s.contains(x) && x != k by {
            if s.contains(x) && x != k {
                let i = choose|i: int| 0 <= i < s.len() && s[i] == x;
                if i < s.len() - 1 {
                    assert(init[i] == x);
                    assert(r.contains(x));
                    let j = choose|j: int| 0 <= j < r.len() && r[j] == x;
                    if s.last() != k {
                        assert(without(s, k)[j] == x);
                    }
                } else {
                    assert(without(s, k)[r.len() as int] == x);
                }
            }
            if without(s, k).contains(x) {
                let j = choose|j: int| 0 <= j < without(s, k).len() && without(s, k)[j] == x;
                if j < r.len() {
                    assert(r[j] == x);
                    assert(r.contains(x));
                    let i = choose|i: int| 0 <= i < init.len() && init[i] == x;
                    assert(s[i] == x);
                } else {
                    assert(s[s.len() - 1] == x);
                }
            }
        }
        if s.no_duplicates() {
            assert(init.no_duplicates());
            if s.last() != k {
                assert(!r.contains(s.last())) by {
                    if init.contains(s.last()) {
                        let i = choose|i: int| 0 <= i < init.len() && init[i] == s.last();
                        assert(s[i] == s[s.len() - 1]);
                    }
                }
                assert forall|a: int, b: int| 0 <= a < b < without(s, k).len()
                    implies without(s, k)[a] != without(s, k)[b] by {
                    if b == r.len() {
                        assert(r.contains(r[a]));
                    } else {
                        assert(r[a] != r[b]);
                    }
                }
            }
            if s.contains(k) {
                if s.last() != k {
                    let i = choose|i: int| 0 <= i < s.len() && s[i] == k;
                    assert(init[i] == k);
                } else {
                    assert(!init.contains(k)) by {
                        if init.contains(k) {
                            let i = choose|i: int| 0 <= i < init.len() && init[i] == k;
                            assert(s[i] == s[s.len() - 1]);
                        }
                    }
                }
            }
        }
        if !s.contains(k) {
            assert(!init.contains(k)) by {
                if init.contains(k) {
                    let i = choose|i: int| 0 <= i < init.len() && init[i] == k;
                    assert(s[i] == k);
                }
            }
            assert(s.last() != k) by {
                assert(s[s.len() - 1] == s.last());
            }
            assert(s == init.push(s.last()));
        }
    }
}

/// Dropping a run of the least recently seen keys keeps the others, once
/// each.
pub proof fn lemma_skip_keys(s: Seq<AddrKey>, d: int)
    requires
        0 <= d <= s.len(),
    ensures
        forall|x: AddrKey| #[trigger] s.skip(d).contains(x) ==> s.contains(x),
        s.no_duplicates() ==> s.skip(d).no_duplicates(),
        d == 0 ==> s.skip(d) == s,
{
    assert forall|x: AddrKey| #[trigger] s.skip(d).contains(x) implies s.contains(x) by {
        let j = choose|j: int| 0 <= j < s.skip(d).len() && s.skip(d)[j] == x;
        assert(s[j + d] == x);
    }
    if s.no_duplicates() {
        assert forall|a: int, b: int| 0 <= a < b < s.skip(d).len() implies s.skip(d)[a] != s.skip(d)[b] by {
            assert(s[a + d] != s[b + d]);
        }
    }
    if d == 0 {
        assert(s.skip(d) =~= s);
    }
}

/// Reversing keeps the keys, once each.
pub proof fn lemma_reverse_keys(s: Seq<AddrKey>)
    ensures
        s.reverse().len() == s.len(),
        forall|x: AddrKey| #[trigger] s.reverse().contains(x) <==> s.contains(x),
        s.no_duplicates() ==> s.reverse().no_duplicates(),
{
    let r = s.reverse();
    assert forall|x: AddrKey| #[trigger] r.contains(x) <==> s.contains(x) by {
        if s.contains(x) {
            let i = choose|i: int| 0 <= i < s.len() && s[i] == x;
            assert(r[s.len() - 1 - i] == x);
        }
        if r.contains(x) {
            let j = choose|j: int| 0 <= j < r.len() && r[j] == x;
            assert(s[s.len() - 1 - j] == x);
        }
    }
    if s.no_duplicates() {
        assert forall|a: int, b: int| 0 <= a < b < r.len() implies r[a] != r[b] by {
            assert(s[s.len() - 1 - a] != s[s.len() - 1 - b]);
        }
    }
}

/// A lookup keeps the order's keys distinct and within those held before;
/// the key is held afterwards exactly when it was found; and when nothing
/// expired, the same keys are held.
pub proof fn lemma_lookup_order(s: Seq<AddrKey>, d: int, k: AddrKey, present: bool, r: Seq<AddrKey>)
    requires
        s.no_duplicates(),
        0 <= d <= s.len(),
        present == s.skip(d).contains(k),
        r == if present { to_back(s.skip(d), k) } else { s.skip(d) },
    ensures
        r.no_duplicates(),
        r.len() <= s.len(),
        forall|x: AddrKey| #[trigger] r.contains(x) ==> s.contains(x),
        present == r.contains(k),
        d == 0 ==> forall|x: AddrKey| #[trigger] r.contains(x) <==> s.contains(x),
{
    let rest = s.skip(d);
    lemma_skip_keys(s, d);
    lemma_without(rest, k);
    if present {
        assert(r[r.len() - 1] == k);
        assert forall|a: int, b: int| 0 <= a < b < r.len() implies r[a] != r[b] by {
            if b == r.len() - 1 {
                assert(without(rest, k).contains(r[a]));
            } else {
                assert(without(rest, k)[a] != without(rest, k)[b]);
            }
        }
        assert forall|x: AddrKey| #[trigger] r.contains(x) implies rest.contains(x) by {
            if x != k {
                let j = choose|j: int| 0 <= j < r.len() && r[j] == x;
                assert(without(rest, k)[j] == x);
                assert(without(rest, k).contains(x));
            }
        }
        if d == 0 {
            assert forall|x: AddrKey| #[trigger] s.contains(x) implies r.contains(x) by {
                if x != k {
                    assert(without(rest, k).contains(x));
                    let j = choose|j: int| 0 <= j < without(rest, k).len() && without(rest, k)[j] == x;
                    assert(r[j] == x);
                }
            }
        }
    }
}

/// An insertion keeps the order's keys distinct, within the capacity and
/// within those held before and the new key, which is held afterwards.
pub proof fn lemma_insert_order(s: Seq<AddrKey>, d: int, k: AddrKey, capacity: nat, r: Seq<AddrKey>)
    requires
        s.no_duplicates(),
        s.len() <= capacity,
        capacity > 0,
        0 <= d <= s.len(),
        r == if s.skip(d).contains(k) { to_back(s.skip(d), k) } else { admitted(s.skip(d), k, capacity) },
    ensures
        r.no_duplicates(),
        r.len() <= capacity,
        r.contains(k),
        forall|x: AddrKey| #[trigger] r.contains(x) ==> s.contains(x) || x == k,
{
    let rest = s.skip(d);
    lemma_skip_keys(s, d);
    if rest.contains(k) {
        lemma_lookup_order(s, d, k, true, r);
    } else {
        let kept = if rest.len() >= capacity { rest.skip(rest.len() - capacity + 1) } else { rest };
        lemma_skip_keys(rest, if rest.len() >= capacity { rest.len() - capacity + 1 } else { 0 });
        assert(r == kept.push(k));
        assert(r[r.len() - 1] == k);
        assert forall|a: int, b: int| 0 <= a < b < r.len() implies r[a] != r[b] by {
            if b == r.len() - 1 {
                assert(kept.contains(r[a]));
            } else {
                assert(kept[a] != kept[b]);
            }
        }
        assert forall|x: AddrKey| #[trigger] r.contains(x) implies s.contains(x) || x == k by {
            if x != k {
                let j = choose|j: int| 0 <= j < r.len() && r[j] == x;
                assert(kept[j] == x);
                assert(kept.contains(x));
            }
        }
    }
}

/// What the live keys of a cache are: distinct held keys, the ones not
/// expired yet (all of them without an expiry).
pub proof fn lemma_live_order(s: Seq<AddrKey>, d: int, live: Seq<AddrKey>)
    requires
        0 <= d <= s.len(),
        live == s.skip(d).reverse(),
    ensures
        forall|x: AddrKey| #[trigger] live.contains(x) <==> s.skip(d).contains(x),
        forall|x: AddrKey| #[trigger] live.contains(x) ==> s.contains(x),
        s.no_duplicates() ==> live.no_duplicates(),
        d == 0 ==> forall|x: AddrKey| #[trigger] live.contains(x) <==> s.contains(x),
{
    lemma_skip_keys(s, d);
    lemma_reverse_keys(s.skip(d));
}

} // verus!
