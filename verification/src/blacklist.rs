use vstd::prelude::*;
use std::collections::hash_map::RandomState;
use std::hash::{BuildHasher, Hash};
use std::time::Instant;
use lru_cache::LruCache;
use crate::clock::{elapsed, elapsed_between, nanos_since, start};
use crate::endpoint::{Endpoint, IpAddress};

verus! {

/// How long an entry stays on the list: 15 minutes, in nanoseconds.
pub const EXPIRE_DURATION: u128 = 900_000_000_000;

/// The key of an endpoint in the cache: 4 or 6 for the version of the
/// address, the address as a number, the port.
pub type PeerKey = (u8, u128, u16);

/// An entry of the cache: the key of a peer and when it was put on the list,
/// in nanoseconds since the list was made.
pub type Entry = (PeerKey, u128);

/// `lru_cache::LruCache`: a map of bounded size that forgets the entry used
/// least recently.
#[verifier::external_type_specification]
#[verifier::external_body]
#[verifier::reject_recursive_types(K)]
#[verifier::reject_recursive_types(V)]
#[verifier::reject_recursive_types(S)]
pub struct ExLruCache<K: Eq + Hash, V, S: BuildHasher>(LruCache<K, V, S>);

/// The entries of a cache, from the one used least recently to the one used
/// most recently.
pub uninterp spec fn cache_entries(cache: LruCache<PeerKey, u128, RandomState>) -> Seq<Entry>;

/// The number of entries that a cache was made to hold.
pub uninterp spec fn cache_capacity(cache: LruCache<PeerKey, u128, RandomState>) -> nat;

/// The index of the first entry at or after `i` with key `key`, or -1.
pub open spec fn index_of(entries: Seq<Entry>, key: PeerKey, i: int) -> int
    decreases entries.len() - i,
{
    if i < 0 || i >= entries.len() {
        -1
    } else if entries[i].0 == key {
        i
    } else {
        index_of(entries, key, i + 1)
    }
}

/// No two entries have the same key.
pub open spec fn distinct_keys(entries: Seq<Entry>) -> bool {
    forall|i: int, j: int|
        0 <= i < j < entries.len() ==> (#[trigger] entries[i]).0 != (#[trigger] entries[j]).0
}

/// The entries after a look-up of `key`: an entry with that key becomes the
/// one used most recently.
pub open spec fn refreshed(entries: Seq<Entry>, key: PeerKey) -> Seq<Entry> {
    let i: int = index_of(entries, key, 0);
    if i < 0 {
        entries
    } else {
        entries.remove(i).push(entries[i])
    }
}

/// The entries after `key` was bound to `time` in a cache that holds at
/// most `capacity` entries: the entry is the one used most recently, and
/// where that made one entry too many, the one used least recently is gone.
pub open spec fn inserted(entries: Seq<Entry>, key: PeerKey, time: u128, capacity: nat) -> Seq<
    Entry,
> {
    let i: int = index_of(entries, key, 0);
    let rest = if i < 0 {
        entries
    } else {
        entries.remove(i)
    };
    let all = rest.push((key, time));
    if all.len() > capacity {
        all.skip(1)
    } else {
        all
    }
}

/// `LruCache::new`: an empty cache for `capacity` entries.
#[verifier::external_body]
fn cache_new(capacity: usize) -> (cache: LruCache<PeerKey, u128, RandomState>)
    ensures
        cache_entries(cache) == Seq::<Entry>::empty(),
        cache_capacity(cache) == capacity,
{
    LruCache::new(capacity)
}

/// `LruCache::get_mut`: the time bound to `key`, if any. The look-up makes
/// the entry the one used most recently.
#[verifier::external_body]
fn cache_get(cache: &mut LruCache<PeerKey, u128, RandomState>, key: &PeerKey) -> (r: Option<u128>)
    ensures
        r == (if index_of(cache_entries(*old(cache)), *key, 0) < 0 {
            None
        } else {
            Some(cache_entries(*old(cache))[index_of(cache_entries(*old(cache)), *key, 0)].1)
        }),
        cache_entries(*final(cache)) == refreshed(cache_entries(*old(cache)), *key),
        cache_capacity(*final(cache)) == cache_capacity(*old(cache)),
{
    match cache.get_mut(key) {
        Some(time) => Some(*time),
        None => None,
    }
}

/// `LruCache::insert`: binds `key` to `time` and makes the entry the one
/// used most recently; where the cache then holds more than its capacity,
/// the entry used least recently is removed.
#[verifier::external_body]
fn cache_insert(cache: &mut LruCache<PeerKey, u128, RandomState>, key: PeerKey, time: u128)
    ensures
        cache_entries(*final(cache)) == inserted(
            cache_entries(*old(cache)),
            key,
            time,
            cache_capacity(*old(cache)),
        ),
        cache_capacity(*final(cache)) == cache_capacity(*old(cache)),
{
    cache.insert(key, time);
}

/// `LruCache::iter`, first item: the time of the entry used least recently,
/// if the cache holds any entry. The cache is not changed.
#[verifier::external_body]
fn cache_oldest(cache: &LruCache<PeerKey, u128, RandomState>) -> (r: Option<u128>)
    ensures
        r == (if cache_entries(*cache).len() > 0 {
            Some(cache_entries(*cache)[0].1)
        } else {
            None
        }),
{
    match cache.iter().next() {
        Some((_, time)) => Some(*time),
        None => None,
    }
}

/// `LruCache::remove_lru`: removes the entry used least recently, if the
/// cache holds any entry.
#[verifier::external_body]
fn cache_remove_lru(cache: &mut LruCache<PeerKey, u128, RandomState>)
    ensures
        cache_entries(*final(cache)) == (if cache_entries(*old(cache)).len() > 0 {
            cache_entries(*old(cache)).skip(1)
        } else {
            cache_entries(*old(cache))
        }),
        cache_capacity(*final(cache)) == cache_capacity(*old(cache)),
{
    cache.remove_lru();
}

/// The key of an endpoint in the cache.
pub open spec fn peer_key(addr: Endpoint) -> PeerKey {
    match addr.ip {
        IpAddress::V4(ip) => (4u8, ip as u128, addr.port),
        IpAddress::V6(ip) => (6u8, ip, addr.port),
    }
}

/// The key of an endpoint in the cache.
pub fn key_of(addr: &Endpoint) -> (key: PeerKey)
    ensures
        key == peer_key(*addr),
{
    match addr.ip {
        IpAddress::V4(ip) => (4u8, ip as u128, addr.port),
        IpAddress::V6(ip) => (6u8, ip, addr.port),
    }
}

/// Different endpoints have different keys.
pub proof fn lemma_peer_key_injective(a: Endpoint, b: Endpoint)
    requires
        peer_key(a) == peer_key(b),
    ensures
        a == b,
{
}

/// An entry put on the list at `time` is too old at `now`.
pub open spec fn expired(time: u128, now: u128) -> bool {
    elapsed(now, time) > EXPIRE_DURATION
}

/// How many entries from the `i`-th on are too old, one after the other.
pub open spec fn expired_run(entries: Seq<Entry>, now: u128, i: int) -> int
    decreases entries.len() - i,
{
    if 0 <= i < entries.len() && expired(entries[i].1, now) {
        1 + expired_run(entries, now, i + 1)
    } else {
        0
    }
}

/// The entries without those that are too old at `now`, taken from the
/// least recently used end up to the first one that is not too old.
pub open spec fn purged(entries: Seq<Entry>, now: u128) -> Seq<Entry> {
    entries.skip(expired_run(entries, now, 0))
}

/// Some entry binds `key` to a time that is not too old at `now`.
pub open spec fn is_listed(entries: Seq<Entry>, key: PeerKey, now: u128) -> bool {
    exists|i: int|
        0 <= i < entries.len() && (#[trigger] entries[i]).0 == key && !expired(entries[i].1, now)
}

/// What `index_of` finds: the first entry with the key at or after `i`, and
/// -1 where there is none.
pub proof fn lemma_index_of(entries: Seq<Entry>, key: PeerKey, i: int)
    requires
        0 <= i <= entries.len(),
    ensures
        ({
            let r: int = index_of(entries, key, i);
            &&& (r == -1 || i <= r < entries.len())
            &&& r >= 0 ==> entries[r].0 == key
            &&& forall|j: int|
                i <= j < (if r < 0 {
                    entries.len() as int
                } else {
                    r
                }) ==> (#[trigger] entries[j]).0 != key
        }),
    decreases entries.len() - i,
{
    if i < entries.len() && entries[i].0 != key {
        lemma_index_of(entries, key, i + 1);
    }
}

/// The entries that are removed as too old are too old, one and all.
pub proof fn lemma_expired_run(entries: Seq<Entry>, now: u128, i: int)
    requires
        0 <= i <= entries.len(),
    ensures
        0 <= expired_run(entries, now, i) <= entries.len() - i,
        forall|j: int|
            i <= j < i + expired_run(entries, now, i) ==> expired((#[trigger] entries[j]).1, now),
    decreases entries.len() - i,
{
    if i < entries.len() && expired(entries[i].1, now) {
        lemma_expired_run(entries, now, i + 1);
    }
}

/// Removing the entries that are too old takes no peer off the list that is
/// on it: a peer is listed before if and only if it is listed after.
pub proof fn lemma_listed_after_purge(entries: Seq<Entry>, key: PeerKey, now: u128)
    ensures
        is_listed(entries, key, now) == is_listed(purged(entries, now), key, now),
{
    lemma_expired_run(entries, now, 0);
    let run: int = expired_run(entries, now, 0);
    let kept = purged(entries, now);
    if is_listed(entries, key, now) {
        let i: int = choose|i: int|
            0 <= i < entries.len() && (#[trigger] entries[i]).0 == key && !expired(
                entries[i].1,
                now,
            );
        assert(i >= run);
        assert(kept[i - run] == entries[i]);
    }
    if is_listed(kept, key, now) {
        let i: int = choose|i: int|
            0 <= i < kept.len() && (#[trigger] kept[i]).0 == key && !expired(kept[i].1, now);
        assert(kept[i] == entries[i + run]);
    }
}

/// Removing the entries that are too old leaves the keys distinct and adds
/// no entry.
pub proof fn lemma_purged_keeps(entries: Seq<Entry>, now: u128)
    requires
        distinct_keys(entries),
    ensures
        distinct_keys(purged(entries, now)),
        purged(entries, now).len() <= entries.len(),
{
    lemma_expired_run(entries, now, 0);
    let run: int = expired_run(entries, now, 0);
    let kept = purged(entries, now);
    assert forall|i: int, j: int| 0 <= i < j < kept.len() implies (#[trigger] kept[i]).0 != (
    #[trigger] kept[j]).0 by {
        assert(kept[i] == entries[i + run] && kept[j] == entries[j + run]);
    }
}

/// A look-up leaves the keys distinct and the number of entries as it was.
pub proof fn lemma_refreshed_keeps(entries: Seq<Entry>, key: PeerKey)
    requires
        distinct_keys(entries),
    ensures
        distinct_keys(refreshed(entries, key)),
        refreshed(entries, key).len() == entries.len(),
{
    lemma_index_of(entries, key, 0);
    let i: int = index_of(entries, key, 0);
    if i >= 0 {
        let rest = entries.remove(i);
        let out = refreshed(entries, key);
        assert forall|a: int, b: int| 0 <= a < b < out.len() implies (#[trigger] out[a]).0 != (
        #[trigger] out[b]).0 by {
            let x: int = if a < i {
                a
            } else {
                a + 1
            };
            assert(out[a] == entries[x]);
            if b < rest.len() {
                let y: int = if b < i {
                    b
                } else {
                    b + 1
                };
                assert(out[b] == entries[y]);
                assert(entries[x].0 != entries[y].0);
            } else {
                assert(out[b] == entries[i]);
                if x < i {
                    assert(entries[x].0 != entries[i].0);
                } else {
                    assert(entries[i].0 != entries[x].0);
                }
            }
        }
    }
}

/// Putting a peer on a list that holds no more than its capacity leaves the
/// keys distinct and the list within its capacity; the new entry is the only
/// one for the peer.
pub proof fn lemma_inserted_keeps(entries: Seq<Entry>, key: PeerKey, time: u128, capacity: nat)
    requires
        distinct_keys(entries),
        entries.len() <= capacity,
    ensures
        distinct_keys(inserted(entries, key, time, capacity)),
        inserted(entries, key, time, capacity).len() <= capacity,
        timed(inserted(entries, key, time, capacity), key, time),
{
    lemma_index_of(entries, key, 0);
    let i: int = index_of(entries, key, 0);
    let rest = if i < 0 {
        entries
    } else {
        entries.remove(i)
    };
    assert forall|a: int| 0 <= a < rest.len() implies (#[trigger] rest[a]).0 != key by {
        if i < 0 {
        } else {
            let x: int = if a < i {
                a
            } else {
                a + 1
            };
            assert(rest[a] == entries[x]);
            if x < i {
                assert(entries[x].0 != entries[i].0);
            } else {
                assert(entries[i].0 != entries[x].0);
            }
        }
    }
    assert forall|a: int, b: int| 0 <= a < b < rest.len() implies (#[trigger] rest[a]).0 != (
    #[trigger] rest[b]).0 by {
        if i >= 0 {
            let x: int = if a < i {
                a
            } else {
                a + 1
            };
            let y: int = if b < i {
                b
            } else {
                b + 1
            };
            assert(rest[a] == entries[x] && rest[b] == entries[y]);
            assert(entries[x].0 != entries[y].0);
        }
    }
    let all = rest.push((key, time));
    assert forall|a: int, b: int| 0 <= a < b < all.len() implies (#[trigger] all[a]).0 != (
    #[trigger] all[b]).0 by {
        assert(all[a] == rest[a]);
        if b < rest.len() {
            assert(all[b] == rest[b]);
        }
    }
    assert forall|a: int| 0 <= a < all.len() && (#[trigger] all[a]).0 == key implies all[a].1
        == time by {
        if a < rest.len() {
            assert(all[a] == rest[a]);
        }
    }
    let out = inserted(entries, key, time, capacity);
    if all.len() > capacity {
        assert forall|a: int, b: int| 0 <= a < b < out.len() implies (#[trigger] out[a]).0 != (
        #[trigger] out[b]).0 by {
            assert(out[a] == all[a + 1] && out[b] == all[b + 1]);
        }
        assert forall|a: int| 0 <= a < out.len() && (#[trigger] out[a]).0 == key implies out[a].1
            == time by {
            assert(out[a] == all[a + 1]);
        }
    }
}

/// Every entry for `key` was put on the list at `time`.
pub open spec fn timed(entries: Seq<Entry>, key: PeerKey, time: u128) -> bool {
    forall|i: int|
        0 <= i < entries.len() && (#[trigger] entries[i]).0 == key ==> entries[i].1 == time
}

/// Look-ups of any peer, the removal of old entries, and putting another
/// peer on the list leave the entries for `key` with the time they have.
pub proof fn lemma_timed_kept(
    entries: Seq<Entry>,
    key: PeerKey,
    time: u128,
    other: PeerKey,
    at: u128,
    capacity: nat,
)
    requires
        timed(entries, key, time),
    ensures
        timed(purged(entries, at), key, time),
        timed(refreshed(entries, other), key, time),
        other != key ==> timed(inserted(entries, other, at, capacity), key, time),
{
    lemma_expired_run(entries, at, 0);
    let run: int = expired_run(entries, at, 0);
    let kept = purged(entries, at);
    assert forall|i: int| 0 <= i < kept.len() && (#[trigger] kept[i]).0 == key implies kept[i].1
        == time by {
        assert(kept[i] == entries[i + run]);
    }
    lemma_index_of(entries, other, 0);
    let j: int = index_of(entries, other, 0);
    let rest = if j < 0 {
        entries
    } else {
        entries.remove(j)
    };
    assert forall|i: int| 0 <= i < rest.len() && (#[trigger] rest[i]).0 == key implies rest[i].1
        == time by {
        if j >= 0 {
            let x: int = if i < j {
                i
            } else {
                i + 1
            };
            assert(rest[i] == entries[x]);
        }
    }
    let looked = refreshed(entries, other);
    assert forall|i: int| 0 <= i < looked.len() && (#[trigger] looked[i]).0 == key implies looked[
        i
    ].1 == time by {
        if j >= 0 {
            if i < rest.len() {
                assert(looked[i] == rest[i]);
            } else {
                assert(looked[i] == entries[j]);
            }
        }
    }
    if other != key {
        let all = rest.push((other, at));
        let out = inserted(entries, other, at, capacity);
        assert forall|i: int| 0 <= i < out.len() && (#[trigger] out[i]).0 == key implies out[i].1
            == time by {
            let x: int = if all.len() > capacity {
                i + 1
            } else {
                i
            };
            assert(out[i] == all[x]);
            if x < rest.len() {
                assert(all[x] == rest[x]);
            }
        }
    }
}

/// A peer whose entries were all put on the list at `time` is not listed
/// once more than 15 minutes have passed since then. So after the latest
/// `insert` of a peer at `time`, `contains` is false from `time` plus 15
/// minutes on, whatever was looked up, removed as too old, or put on the list
/// for other peers in between.
pub proof fn lemma_not_listed_when_old(entries: Seq<Entry>, key: PeerKey, time: u128, now: u128)
    requires
        timed(entries, key, time),
        expired(time, now),
    ensures
        !is_listed(entries, key, now),
{
}

/// A list of peers that misbehaved, each for 15 minutes, in a cache of
/// bounded size.
pub struct BlackList {
    cache: LruCache<PeerKey, u128, RandomState>,
    origin: Instant,
}

/// What a blacklist is: its entries, from the one used least recently, and
/// the number of entries it holds at most.
pub struct BlackListState {
    pub entries: Seq<Entry>,
    pub capacity: nat,
}

impl BlackListState {
    /// The list holds each peer once, and no more peers than its capacity.
    pub open spec fn wf(self) -> bool {
        distinct_keys(self.entries) && self.entries.len() <= self.capacity
    }
}

impl View for BlackList {
    type V = BlackListState;

    closed spec fn view(&self) -> BlackListState {
        BlackListState {
            entries: cache_entries(self.cache),
            capacity: cache_capacity(self.cache),
        }
    }
}

impl BlackList {
    #[verifier::type_invariant]
    closed spec fn bounded(&self) -> bool {
        &&& distinct_keys(cache_entries(self.cache))
        &&& cache_entries(self.cache).len() <= cache_capacity(self.cache)
    }

    /// An empty list for `capacity` peers. Its clock starts now.
    pub fn new(capacity: usize) -> (list: BlackList)
        ensures
            list@ == (BlackListState { entries: Seq::empty(), capacity: capacity as nat }),
            list@.wf(),
    {
        BlackList { cache: cache_new(capacity), origin: start() }
    }

    /// What the clock of the list shows: the nanoseconds since it was made.
    pub fn now(&self) -> u128 {
        nanos_since(&self.origin)
    }

    /// Whether `addr` is on the list now. The answer is that of
    /// `contains_at` for the time that the clock shows.
    pub fn contains(&mut self, addr: &Endpoint) -> (r: bool)
        ensures
            exists|now: u128|
                r == is_listed(old(self)@.entries, peer_key(*addr), now) && final(self)@.entries
                    == refreshed(purged(old(self)@.entries, now), peer_key(*addr)),
            final(self)@.capacity == old(self)@.capacity,
            old(self)@.wf(),
            final(self)@.wf(),
    {
        let now: u128 = self.now();
        let r = self.contains_at(addr, now);
        proof {
            assert(r == is_listed(old(self)@.entries, peer_key(*addr), now) && self@.entries
                == refreshed(purged(old(self)@.entries, now), peer_key(*addr)));
        }
        r
    }

    /// Puts `addr` on the list, as of now. What is done is what `insert_at`
    /// does for the time that the clock shows.
    pub fn insert(&mut self, addr: Endpoint)
        ensures
            exists|now: u128|
                final(self)@.entries == inserted(
                    purged(old(self)@.entries, now),
                    peer_key(addr),
                    now,
                    old(self)@.capacity,
                ) && timed(final(self)@.entries, peer_key(addr), now),
            final(self)@.capacity == old(self)@.capacity,
            old(self)@.wf(),
            final(self)@.wf(),
    {
        let now: u128 = self.now();
        self.insert_at(addr, now);
        proof {
            assert(self@.entries == inserted(
                purged(old(self)@.entries, now),
                peer_key(addr),
                now,
                old(self)@.capacity,
            ) && timed(self@.entries, peer_key(addr), now));
        }
    }

    /// Whether `addr` is on the list at `now`: true if and only if an entry
    /// for it is no older than 15 minutes. Entries that are too old are
    /// removed first, from the least recently used end up to the first one
    /// that is not too old; the look-up then makes the entry of `addr` the
    /// one used most recently. The list holds each peer once and no more
    /// peers than its capacity, before and after.
    pub fn contains_at(&mut self, addr: &Endpoint, now: u128) -> (r: bool)
        ensures
            r == is_listed(old(self)@.entries, peer_key(*addr), now),
            final(self)@.entries == refreshed(purged(old(self)@.entries, now), peer_key(*addr)),
            final(self)@.capacity == old(self)@.capacity,
            old(self)@.wf(),
            final(self)@.wf(),
    {
        proof {
            use_type_invariant(&*self);
        }
        let ghost all = self@.entries;
        let mut cache = cache_new(0);
        core::mem::swap(&mut self.cache, &mut cache);
        BlackList::scan_expired(&mut cache, now);
        let key = key_of(addr);
        let ghost kept = cache_entries(cache);
        let found = cache_get(&mut cache, &key);
        proof {
            lemma_listed_after_purge(all, key, now);
            lemma_purged_keeps(all, now);
            lemma_refreshed_keeps(kept, key);
            lemma_index_of(kept, key, 0);
            let i: int = index_of(kept, key, 0);
            if i >= 0 {
                assert forall|j: int| 0 <= j < kept.len() && (#[trigger] kept[j]).0 == key implies j
                    == i by {
                    if j < i {
                        assert(kept[j].0 != kept[i].0);
                    } else if j > i {
                        assert(kept[i].0 != kept[j].0);
                    }
                }
            }
        }
        core::mem::swap(&mut self.cache, &mut cache);
        match found {
            Some(time) => elapsed_between(now, time) <= EXPIRE_DURATION,
            None => false,
        }
    }

    /// Puts `addr` on the list at `now`, or renews its entry, which is then
    /// the only one for `addr`. Entries that are too old are removed first;
    /// where the list is full, the entry used least recently makes room.
    /// The list holds each peer once and no more peers than its capacity,
    /// before and after.
    pub fn insert_at(&mut self, addr: Endpoint, now: u128)
        ensures
            final(self)@.entries == inserted(
                purged(old(self)@.entries, now),
                peer_key(addr),
                now,
                old(self)@.capacity,
            ),
            final(self)@.capacity == old(self)@.capacity,
            timed(final(self)@.entries, peer_key(addr), now),
            old(self)@.wf(),
            final(self)@.wf(),
    {
        proof {
            use_type_invariant(&*self);
        }
        let ghost all = self@.entries;
        let ghost capacity = self@.capacity;
        let mut cache = cache_new(0);
        core::mem::swap(&mut self.cache, &mut cache);
        BlackList::scan_expired(&mut cache, now);
        let key = key_of(&addr);
        cache_insert(&mut cache, key, now);
        proof {
            lemma_purged_keeps(all, now);
            lemma_inserted_keeps(purged(all, now), key, now, capacity);
        }
        core::mem::swap(&mut self.cache, &mut cache);
    }

    /// Removes from `cache` the entries that are too old at `now`, from the
    /// least recently used end up to the first one that is not too old.
    fn scan_expired(cache: &mut LruCache<PeerKey, u128, RandomState>, now: u128)
        ensures
            cache_entries(*final(cache)) == purged(cache_entries(*old(cache)), now),
            cache_capacity(*final(cache)) == cache_capacity(*old(cache)),
    {
        let ghost all = cache_entries(*cache);
        let ghost mut done: int = 0;
        loop
            invariant
                0 <= done <= all.len(),
                all == cache_entries(*old(cache)),
                cache_entries(*cache) == all.skip(done),
                cache_capacity(*cache) == cache_capacity(*old(cache)),
                expired_run(all, now, 0) == done + expired_run(all, now, done),
            ensures
                expired_run(all, now, done) == 0,
            decreases all.len() - done,
        {
            match cache_oldest(cache) {
                Some(time) => {
                    if elapsed_between(now, time) > EXPIRE_DURATION {
                        cache_remove_lru(cache);
                        proof {
                            assert(all.skip(done).skip(1) =~= all.skip(done + 1));
                            done = done + 1;
                        }
                    } else {
                        proof {
                            assert(all.skip(done)[0] == all[done]);
                        }
                        break ;
                    }
                },
                None => {
                    break ;
                },
            }
        }
    }
}

} // verus!
