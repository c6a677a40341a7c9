//! The in-memory caching layer: a bounded map with least-recently-used
//! eviction, and specialized caches for peers, messages, and credit
//! relationships with secondary indexes.
//!
//! The model of a cache is its recency sequence: key/value pairs ordered
//! from most to least recently used. An insert over capacity evicts the
//! last pair; a `get` moves its pair to the front; a `peek` does not.
//!
//! Secondary indexes hold keys, not values; the primary map may evict
//! without telling the index, so readers filter dangling keys silently.

use vstd::prelude::*;

use crate::order::{lemma_map_values_insert, lemma_map_values_remove};
use crate::outside::{uuid_text, uuid_to_string};
use crate::store::{peer_rows_view, pred_trusted, pred_active, credit_rows_view};
use crate::types::{
    relationship_id, spec_credit_id, CreditRelationship, CreditRelationshipView, Message,
    MessageView, PeerInfo, PeerInfoView, Reputation, ReputationView,
};

verus! {

/// The ghost image of one cache entry.
pub open spec fn cache_pair_view<T>() -> spec_fn((String, T)) -> (Seq<char>, T) {
    |p: (String, T)| (p.0@, p.1)
}

/// The ghost image of a recency sequence.
pub open spec fn cache_view<T>(v: Seq<(String, T)>) -> Seq<(Seq<char>, T)> {
    v.map_values(cache_pair_view::<T>())
}

/// Whether the recency sequence holds the key `k`.
pub open spec fn cache_has_key<T>(s: Seq<(Seq<char>, T)>, k: Seq<char>) -> bool {
    exists|i: int| 0 <= i < s.len() && s[i].0 == k
}

/// The position of the entry with key `k`.
pub open spec fn cache_key_index<T>(s: Seq<(Seq<char>, T)>, k: Seq<char>) -> int {
    choose|i: int| 0 <= i < s.len() && s[i].0 == k
}

/// The value stored under key `k`, if any.
pub open spec fn spec_cache_lookup<T>(s: Seq<(Seq<char>, T)>, k: Seq<char>) -> Option<T> {
    if cache_has_key(s, k) {
        Some(s[cache_key_index(s, k)].1)
    } else {
        None
    }
}

/// Entry keys are distinct.
pub open spec fn cache_distinct<T>(s: Seq<(Seq<char>, T)>) -> bool {
    forall|i: int, j: int| 0 <= i < j < s.len() ==> s[i].0 != s[j].0
}

/// What inserting `(k, v)` does to a recency sequence of capacity `cap`:
/// a known key moves to the front with the new value; a fresh key enters at
/// the front, evicting the least recently used pair when the cache is full.
pub open spec fn spec_cache_insert<T>(
    s: Seq<(Seq<char>, T)>,
    cap: int,
    k: Seq<char>,
    v: T,
) -> Seq<(Seq<char>, T)> {
    if cache_has_key(s, k) {
        seq![(k, v)] + s.remove(cache_key_index(s, k))
    } else if s.len() >= cap {
        seq![(k, v)] + s.drop_last()
    } else {
        seq![(k, v)] + s
    }
}

/// A found index pins down `cache_key_index` under key distinctness.
proof fn lemma_cache_found<T>(s: Seq<(Seq<char>, T)>, k: Seq<char>, i: int)
    requires
        cache_distinct(s),
        0 <= i < s.len(),
        s[i].0 == k,
    ensures
        cache_has_key(s, k),
        cache_key_index(s, k) == i,
{
    assert(cache_has_key(s, k));
    let w = cache_key_index(s, k);
    assert(s[w].0 == k);
    if w != i {
        assert(false);
    }
}

/// Removing the one entry with key `k` leaves a sequence without `k`, with
/// distinctness kept.
proof fn lemma_cache_remove_key<T>(s: Seq<(Seq<char>, T)>, k: Seq<char>, i: int)
    requires
        cache_distinct(s),
        0 <= i < s.len(),
        s[i].0 == k,
    ensures
        cache_distinct(s.remove(i)),
        !cache_has_key(s.remove(i), k),
        forall|q: Seq<char>|
            q != k ==> #[trigger] cache_has_key(s.remove(i), q) == cache_has_key(s, q),
{
    s.remove_ensures(i);
    let r = s.remove(i);
    assert forall|a: int, b: int| 0 <= a < b < r.len() implies r[a].0 != r[b].0 by {
        let sa: int = if a < i {
            a
        } else {
            a + 1
        };
        let sb: int = if b < i {
            b
        } else {
            b + 1
        };
        assert(r[a] == s[sa]);
        assert(r[b] == s[sb]);
    }
    if cache_has_key(r, k) {
        let w = choose|t: int| 0 <= t < r.len() && r[t].0 == k;
        let sw: int = if w < i {
            w
        } else {
            w + 1
        };
        assert(r[w] == s[sw]);
        assert(s[sw].0 == s[i].0);
        assert(false);
    }
    assert forall|q: Seq<char>|
        q != k implies #[trigger] cache_has_key(r, q) == cache_has_key(s, q) by {
        if cache_has_key(s, q) {
            let w = choose|t: int| 0 <= t < s.len() && s[t].0 == q;
            assert(w != i);
            if w < i {
                assert(r[w] == s[w]);
            } else {
                assert(r[w - 1] == s[w]);
            }
            assert(cache_has_key(r, q));
        }
        if cache_has_key(r, q) {
            let w = choose|t: int| 0 <= t < r.len() && r[t].0 == q;
            let sw: int = if w < i {
                w
            } else {
                w + 1
            };
            assert(r[w] == s[sw]);
            assert(cache_has_key(s, q));
        }
    }
}

/// A bounded map from string keys to values with least-recently-used
/// eviction. Its ghost image is the recency sequence, most recent first.
pub struct MemoryCache<T> {
    capacity: usize,
    entries: Vec<(String, T)>,
}

impl<T> View for MemoryCache<T> {
    type V = Seq<(Seq<char>, T)>;

    closed spec fn view(&self) -> Seq<(Seq<char>, T)> {
        cache_view(self.entries@)
    }
}

impl<T> MemoryCache<T> {
    /// The fixed capacity.
    pub closed spec fn cap(&self) -> int {
        self.capacity as int
    }

    /// Keys are distinct, the cache is within capacity, and the capacity is
    /// positive.
    pub open spec fn wf(&self) -> bool {
        &&& cache_distinct(self@)
        &&& self@.len() <= self.cap()
        &&& self.cap() >= 1
    }

    /// A cache of the given capacity; a zero capacity falls back to 100.
    pub fn new(capacity: usize) -> (r: Self)
        ensures
            r.wf(),
            r@ == Seq::<(Seq<char>, T)>::empty(),
            capacity >= 1 ==> r.cap() == capacity,
            capacity == 0 ==> r.cap() == 100,
    {
        let cap = if capacity >= 1 {
            capacity
        } else {
            100
        };
        let r = MemoryCache { capacity: cap, entries: Vec::new() };
        proof {
            assert(r@ =~= Seq::<(Seq<char>, T)>::empty());
        }
        r
    }

    /// Position of the entry for `key`.
    fn find(&self, key: &str) -> (r: Option<usize>)
        ensures
            match r {
                Some(i) => i < self@.len() && self@[i as int].0 == key@,
                None => !cache_has_key(self@, key@),
            },
    {
        let owned = key.to_owned();
        let n = self.entries.len();
        let mut i: usize = 0;
        while i < n
            invariant
                n == self.entries@.len(),
                owned@ == key@,
                i <= n,
                forall|j: int| 0 <= j < i ==> self@[j].0 != key@,
            decreases n - i,
        {
            if self.entries[i].0 == owned {
                assert(self@[i as int].0 == key@);
                return Some(i);
            }
            i = i + 1;
        }
        None
    }

    /// Move the entry for `key` to the front; the result says whether the
    /// key was present.
    pub fn touch(&mut self, key: &str) -> (r: bool)
        requires
            old(self).wf(),
        ensures
            final(self).wf(),
            final(self).cap() == old(self).cap(),
            r == cache_has_key(old(self)@, key@),
            r ==> final(self)@ == seq![
                (key@, old(self)@[cache_key_index(old(self)@, key@)].1),
            ] + old(self)@.remove(cache_key_index(old(self)@, key@)),
            !r ==> final(self)@ == old(self)@,
    {
        match self.find(key) {
            Some(i) => {
                proof {
                    lemma_cache_found(self@, key@, i as int);
                    lemma_cache_remove_key(self@, key@, i as int);
                }
                let pair = self.entries.remove(i);
                proof {
                    lemma_map_values_remove(old(self).entries@, i as int, cache_pair_view::<T>());
                }
                let ghost mid = self@;
                self.entries.insert(0, pair);
                proof {
                    lemma_map_values_insert(
                        old(self).entries@.remove(i as int),
                        0,
                        pair,
                        cache_pair_view::<T>(),
                    );
                    assert(self@ =~= seq![(key@, old(self)@[i as int].1)] + old(self)@.remove(
                        i as int,
                    ));
                    assert forall|a: int, b: int| 0 <= a < b < self@.len() implies self@[a].0
                        != self@[b].0 by {
                        if a > 0 {
                            assert(self@[a] == mid[a - 1]);
                            assert(self@[b] == mid[b - 1]);
                        } else {
                            assert(self@[b] == mid[b - 1]);
                            assert(!cache_has_key(mid, key@));
                            if mid[b - 1].0 == key@ {
                                assert(cache_has_key(mid, key@));
                            }
                        }
                    }
                }
                true
            },
            None => false,
        }
    }

    /// Read the value under `key` without changing recency.
    pub fn peek(&self, key: &str) -> (r: Option<&T>)
        requires
            self.wf(),
        ensures
            match r {
                Some(v) => spec_cache_lookup(self@, key@) == Some(*v),
                None => spec_cache_lookup(self@, key@) is None,
            },
    {
        match self.find(key) {
            Some(i) => {
                proof {
                    lemma_cache_found(self@, key@, i as int);
                }
                Some(&self.entries[i].1)
            },
            None => None,
        }
    }

    /// Read the value under `key` and mark it most recently used.
    pub fn get(&mut self, key: &str) -> (r: Option<&T>)
        requires
            old(self).wf(),
        ensures
            final(self).wf(),
            final(self).cap() == old(self).cap(),
            match r {
                Some(v) => {
                    &&& spec_cache_lookup(old(self)@, key@) == Some(*v)
                    &&& final(self)@ == seq![
                        (key@, old(self)@[cache_key_index(old(self)@, key@)].1),
                    ] + old(self)@.remove(cache_key_index(old(self)@, key@))
                },
                None => spec_cache_lookup(old(self)@, key@) is None && final(self)@ == old(self)@,
            },
    {
        if self.touch(key) {
            proof {
                lemma_cache_found(self@, key@, 0);
            }
            self.peek(key)
        } else {
            None
        }
    }

    /// Insert a value under `key`: a known key moves to the front with the
    /// new value; a fresh key enters at the front and evicts the least
    /// recently used pair when the cache is full.
    pub fn insert(&mut self, key: String, value: T)
        requires
            old(self).wf(),
        ensures
            final(self).wf(),
            final(self).cap() == old(self).cap(),
            final(self)@ == spec_cache_insert(old(self)@, old(self).cap(), key@, value),
    {
        let ghost orig = self@;
        match self.find(key.as_str()) {
            Some(i) => {
                proof {
                    lemma_cache_found(self@, key@, i as int);
                    lemma_cache_remove_key(self@, key@, i as int);
                }
                let _ = self.entries.remove(i);
                proof {
                    lemma_map_values_remove(old(self).entries@, i as int, cache_pair_view::<T>());
                }
                let ghost mid = self@;
                self.entries.insert(0, (key, value));
                proof {
                    lemma_map_values_insert(
                        old(self).entries@.remove(i as int),
                        0,
                        (key, value),
                        cache_pair_view::<T>(),
                    );
                    assert(self@ =~= seq![(key@, value)] + orig.remove(i as int));
                    assert forall|a: int, b: int| 0 <= a < b < self@.len() implies self@[a].0
                        != self@[b].0 by {
                        if a > 0 {
                            assert(self@[a] == mid[a - 1]);
                            assert(self@[b] == mid[b - 1]);
                        } else {
                            assert(self@[b] == mid[b - 1]);
                            if mid[b - 1].0 == key@ {
                                assert(cache_has_key(mid, key@));
                            }
                        }
                    }
                }
            },
            None => {
                if self.entries.len() == self.capacity {
                    let _ = self.entries.pop();
                    proof {
                        assert(self.entries@ == old(self).entries@.drop_last());
                        assert(self@ =~= orig.drop_last());
                    }
                }
                let ghost mid = self@;
                let ghost mid_entries = self.entries@;
                self.entries.insert(0, (key, value));
                proof {
                    lemma_map_values_insert(mid_entries, 0, (key, value), cache_pair_view::<T>());
                    assert(self@ =~= seq![(key@, value)] + mid);
                    assert forall|a: int, b: int| 0 <= a < b < self@.len() implies self@[a].0
                        != self@[b].0 by {
                        if a > 0 {
                            assert(self@[a] == mid[a - 1]);
                            assert(self@[b] == mid[b - 1]);
                            assert(mid[a - 1] == orig[a - 1]);
                            assert(mid[b - 1] == orig[b - 1]);
                        } else {
                            assert(self@[b] == mid[b - 1]);
                            assert(mid[b - 1] == orig[b - 1]);
                            if orig[b - 1].0 == key@ {
                                assert(cache_has_key(orig, key@));
                            }
                        }
                    }
                    assert(final(self)@ == spec_cache_insert(orig, old(self).cap(), key@, value));
                }
            },
        }
    }

    /// Remove the entry for `key`, handing its value back.
    pub fn remove(&mut self, key: &str) -> (r: Option<T>)
        requires
            old(self).wf(),
        ensures
            final(self).wf(),
            final(self).cap() == old(self).cap(),
            match r {
                Some(v) => {
                    &&& spec_cache_lookup(old(self)@, key@) == Some(v)
                    &&& final(self)@ == old(self)@.remove(cache_key_index(old(self)@, key@))
                },
                None => spec_cache_lookup(old(self)@, key@) is None && final(self)@ == old(self)@,
            },
    {
        match self.find(key) {
            Some(i) => {
                proof {
                    lemma_cache_found(self@, key@, i as int);
                    lemma_cache_remove_key(self@, key@, i as int);
                }
                let pair = self.entries.remove(i);
                proof {
                    lemma_map_values_remove(old(self).entries@, i as int, cache_pair_view::<T>());
                    assert(pair.1 == old(self)@[i as int].1);
                }
                Some(pair.1)
            },
            None => None,
        }
    }

    /// Whether `key` is cached.
    pub fn contains(&self, key: &str) -> (r: bool)
        ensures
            r == cache_has_key(self@, key@),
    {
        match self.find(key) {
            Some(i) => {
                proof {
                    assert(cache_has_key(self@, key@));
                }
                true
            },
            None => false,
        }
    }

    /// The number of cached entries.
    pub fn len(&self) -> (r: usize)
        ensures
            r == self@.len(),
    {
        self.entries.len()
    }

    /// Whether the cache is empty.
    pub fn is_empty(&self) -> (r: bool)
        ensures
            r == (self@.len() == 0),
    {
        self.entries.len() == 0
    }

    /// Drop every entry; the capacity is kept.
    pub fn clear(&mut self)
        ensures
            final(self).wf() == (final(self).cap() >= 1),
            final(self).cap() == old(self).cap(),
            final(self)@ == Seq::<(Seq<char>, T)>::empty(),
    {
        self.entries.clear();
        proof {
            assert(self@ =~= Seq::<(Seq<char>, T)>::empty());
        }
    }

    /// The value at position `i` of the recency order.
    pub fn value_at(&self, i: usize) -> (r: &T)
        requires
            i < self@.len(),
        ensures
            *r == self@[i as int].1,
    {
        &self.entries[i].1
    }

    /// The cached keys, most recently used first.
    pub fn keys(&self) -> (r: Vec<String>)
        ensures
            r@.len() == self@.len(),
            forall|i: int| 0 <= i < r@.len() ==> r@[i]@ == self@[i].0,
    {
        let n = self.entries.len();
        let mut out: Vec<String> = Vec::new();
        let mut i: usize = 0;
        while i < n
            invariant
                n == self.entries@.len(),
                i <= n,
                out@.len() == i,
                forall|j: int| 0 <= j < i ==> out@[j]@ == self@[j].0,
            decreases n - i,
        {
            out.push(self.entries[i].0.clone());
            i = i + 1;
        }
        out
    }
}

/// After moving the entry for `k` to the front, every lookup is unchanged.
proof fn lemma_lookup_after_front_move<T>(s: Seq<(Seq<char>, T)>, k: Seq<char>, i: int)
    requires
        cache_distinct(s),
        0 <= i < s.len(),
        s[i].0 == k,
    ensures
        ({
            let r = seq![(k, s[i].1)] + s.remove(i);
            &&& cache_distinct(r)
            &&& r.len() == s.len()
            &&& forall|q: Seq<char>| #[trigger] spec_cache_lookup(r, q) == spec_cache_lookup(s, q)
        }),
{
    lemma_cache_remove_key(s, k, i);
    let rest = s.remove(i);
    let r = seq![(k, s[i].1)] + rest;
    assert forall|a: int, b: int| 0 <= a < b < r.len() implies r[a].0 != r[b].0 by {
        if a == 0 {
            assert(r[b] == rest[b - 1]);
            if rest[b - 1].0 == k {
                assert(cache_has_key(rest, k));
            }
        } else {
            assert(r[a] == rest[a - 1]);
            assert(r[b] == rest[b - 1]);
        }
    }
    assert forall|q: Seq<char>| #[trigger] spec_cache_lookup(r, q) == spec_cache_lookup(s, q) by {
        lemma_cache_found(s, k, i);
        if q == k {
            lemma_cache_found(r, k, 0);
        } else {
            if cache_has_key(s, q) {
                let w = choose|t: int| 0 <= t < s.len() && s[t].0 == q;
                lemma_cache_found(s, q, w);
                let rw: int = if w < i {
                    w
                } else {
                    w - 1
                };
                assert(rest[rw] == s[w]) by {
                    s.remove_ensures(i);
                }
                assert(r[rw + 1] == rest[rw]);
                lemma_cache_found(r, q, rw + 1);
            } else {
                if cache_has_key(r, q) {
                    let w = choose|t: int| 0 <= t < r.len() && r[t].0 == q;
                    assert(w > 0);
                    assert(r[w] == rest[w - 1]);
                    let sw: int = if w - 1 < i {
                        w - 1
                    } else {
                        w
                    };
                    assert(rest[w - 1] == s[sw]) by {
                        s.remove_ensures(i);
                    }
                    assert(cache_has_key(s, q));
                }
            }
        }
    }
}

/// After an insert, the inserted key maps to the new value, and any key the
/// cache still answers for answers as before.
proof fn lemma_lookup_after_insert<T>(s: Seq<(Seq<char>, T)>, cap: int, k: Seq<char>, v: T)
    requires
        cache_distinct(s),
        s.len() <= cap,
        cap >= 1,
    ensures
        ({
            let r = spec_cache_insert(s, cap, k, v);
            &&& cache_distinct(r)
            &&& r.len() <= cap
            &&& spec_cache_lookup(r, k) == Some(v)
            &&& forall|q: Seq<char>|
                q != k && #[trigger] spec_cache_lookup(r, q) is Some ==> spec_cache_lookup(r, q)
                    == spec_cache_lookup(s, q)
        }),
{
    let r = spec_cache_insert(s, cap, k, v);
    let rest: Seq<(Seq<char>, T)> = if cache_has_key(s, k) {
        s.remove(cache_key_index(s, k))
    } else if s.len() >= cap {
        s.drop_last()
    } else {
        s
    };
    assert(r == seq![(k, v)] + rest);
    if cache_has_key(s, k) {
        let i = cache_key_index(s, k);
        assert(s[i].0 == k);
        lemma_cache_remove_key(s, k, i);
    } else {
        assert forall|a: int, b: int| 0 <= a < b < rest.len() implies rest[a].0 != rest[b].0 by {
            assert(rest[a] == s[a]);
            assert(rest[b] == s[b]);
        }
        assert(!cache_has_key(rest, k)) by {
            if cache_has_key(rest, k) {
                let w = choose|t: int| 0 <= t < rest.len() && rest[t].0 == k;
                assert(rest[w] == s[w]);
                assert(cache_has_key(s, k));
            }
        }
    }
    assert forall|a: int, b: int| 0 <= a < b < r.len() implies r[a].0 != r[b].0 by {
        if a == 0 {
            assert(r[b] == rest[b - 1]);
            if rest[b - 1].0 == k {
                assert(cache_has_key(rest, k));
            }
        } else {
            assert(r[a] == rest[a - 1]);
            assert(r[b] == rest[b - 1]);
        }
    }
    lemma_cache_found(r, k, 0);
    assert forall|q: Seq<char>|
        q != k && #[trigger] spec_cache_lookup(r, q) is Some implies spec_cache_lookup(r, q)
        == spec_cache_lookup(s, q) by {
        let w = cache_key_index(r, q);
        assert(0 <= w < r.len() && r[w].0 == q);
        assert(w > 0);
        assert(r[w] == rest[w - 1]);
        if cache_has_key(s, k) {
            let i = cache_key_index(s, k);
            let sw: int = if w - 1 < i {
                w - 1
            } else {
                w
            };
            assert(rest[w - 1] == s[sw]) by {
                s.remove_ensures(i);
            }
            lemma_cache_found(s, q, sw);
        } else if s.len() >= cap {
            assert(rest[w - 1] == s[w - 1]);
            lemma_cache_found(s, q, w - 1);
        } else {
            assert(rest[w - 1] == s[w - 1]);
            lemma_cache_found(s, q, w - 1);
        }
    }
}

/// After removing the entry for `k`, `k` answers nothing and every other
/// key answers as before.
proof fn lemma_lookup_after_remove<T>(s: Seq<(Seq<char>, T)>, k: Seq<char>, i: int)
    requires
        cache_distinct(s),
        0 <= i < s.len(),
        s[i].0 == k,
    ensures
        ({
            let r = s.remove(i);
            &&& cache_distinct(r)
            &&& spec_cache_lookup(r, k) is None
            &&& forall|q: Seq<char>|
                q != k ==> #[trigger] spec_cache_lookup(r, q) == spec_cache_lookup(s, q)
        }),
{
    lemma_cache_remove_key(s, k, i);
    let r = s.remove(i);
    assert forall|q: Seq<char>|
        q != k implies #[trigger] spec_cache_lookup(r, q) == spec_cache_lookup(s, q) by {
        if cache_has_key(s, q) {
            let w = choose|t: int| 0 <= t < s.len() && s[t].0 == q;
            lemma_cache_found(s, q, w);
            let rw: int = if w < i {
                w
            } else {
                w - 1
            };
            assert(r[rw] == s[w]) by {
                s.remove_ensures(i);
            }
            lemma_cache_found(r, q, rw);
        }
    }
}

/// The stored value of a cache entry.
pub open spec fn cache_value<T>() -> spec_fn((Seq<char>, T)) -> T {
    |e: (Seq<char>, T)| e.1
}

/// Specialized cache for peer records with their reputations.
pub struct PeerCache {
    peers: MemoryCache<(PeerInfo, Reputation)>,
}

impl PeerCache {
    /// The cached record under a peer id, as ghost rows.
    pub closed spec fn lookup(&self, k: Seq<char>) -> Option<(PeerInfoView, ReputationView)> {
        match spec_cache_lookup(self.peers@, k) {
            Some(p) => Some((p.0@, p.1@)),
            None => None,
        }
    }

    /// The cached pairs in recency order, as ghost rows.
    pub closed spec fn cached_rows(&self) -> Seq<(PeerInfoView, ReputationView)> {
        peer_rows_view(self.peers@.map_values(cache_value::<(PeerInfo, Reputation)>()))
    }

    /// The number of cached peers.
    pub closed spec fn size(&self) -> int {
        self.peers@.len() as int
    }

    pub closed spec fn wf(&self) -> bool {
        self.peers.wf()
    }

    /// A peer cache of the given capacity.
    pub fn new(capacity: usize) -> (r: Self)
        ensures
            r.wf(),
            r.size() == 0,
            forall|k: Seq<char>| #[trigger] r.lookup(k) is None,
    {
        PeerCache { peers: MemoryCache::new(capacity) }
    }

    /// Insert or update a peer record under its id.
    pub fn insert(&mut self, peer_info: PeerInfo, reputation: Reputation)
        requires
            old(self).wf(),
        ensures
            final(self).wf(),
            final(self).lookup(peer_info@.id) == Some((peer_info@, reputation@)),
            forall|q: Seq<char>|
                q != peer_info@.id && #[trigger] final(self).lookup(q) is Some ==> final(self).lookup(q) == old(self).lookup(q),
    {
        let key = peer_info.id.0.clone();
        let ghost k = key@;
        let ghost v = (peer_info@, reputation@);
        proof {
            lemma_lookup_after_insert(
                self.peers@,
                self.peers.cap(),
                k,
                (peer_info, reputation),
            );
        }
        self.peers.insert(key, (peer_info, reputation));
    }

    /// Get a peer record, marking it recently used.
    pub fn get(&mut self, peer_id: &str) -> (r: Option<(PeerInfo, Reputation)>)
        requires
            old(self).wf(),
        ensures
            final(self).wf(),
            match r {
                Some(p) => old(self).lookup(peer_id@) == Some((p.0@, p.1@)),
                None => old(self).lookup(peer_id@) is None,
            },
            forall|q: Seq<char>| #[trigger] final(self).lookup(q) == old(self).lookup(q),
    {
        proof {
            if cache_has_key(self.peers@, peer_id@) {
                lemma_lookup_after_front_move(
                    self.peers@,
                    peer_id@,
                    cache_key_index(self.peers@, peer_id@),
                );
            }
        }
        match self.peers.get(peer_id) {
            Some(p) => Some((p.0.clone(), p.1.clone())),
            None => None,
        }
    }

    /// Get only the peer record.
    pub fn get_peer_info(&mut self, peer_id: &str) -> (r: Option<PeerInfo>)
        requires
            old(self).wf(),
        ensures
            final(self).wf(),
            match r {
                Some(p) => old(self).lookup(peer_id@) matches Some(row) && row.0 == p@,
                None => old(self).lookup(peer_id@) is None,
            },
            forall|q: Seq<char>| #[trigger] final(self).lookup(q) == old(self).lookup(q),
    {
        match self.get(peer_id) {
            Some((info, _)) => Some(info),
            None => None,
        }
    }

    /// Get only the reputation.
    pub fn get_reputation(&mut self, peer_id: &str) -> (r: Option<Reputation>)
        requires
            old(self).wf(),
        ensures
            final(self).wf(),
            match r {
                Some(rep) => old(self).lookup(peer_id@) matches Some(row) && row.1 == rep@,
                None => old(self).lookup(peer_id@) is None,
            },
            forall|q: Seq<char>| #[trigger] final(self).lookup(q) == old(self).lookup(q),
    {
        match self.get(peer_id) {
            Some((_, rep)) => Some(rep),
            None => None,
        }
    }

    /// Replace the reputation of a cached peer; the result says whether the
    /// peer was cached.
    pub fn update_reputation(&mut self, peer_id: &str, reputation: Reputation) -> (r: bool)
        requires
            old(self).wf(),
        ensures
            final(self).wf(),
            r == (old(self).lookup(peer_id@) is Some),
            r ==> (old(self).lookup(peer_id@) matches Some(row) && final(self).lookup(peer_id@)
                == Some((row.0, reputation@))),
            !r ==> forall|q: Seq<char>| #[trigger] final(self).lookup(q) == old(self).lookup(q),
            forall|q: Seq<char>|
                q != peer_id@ && #[trigger] final(self).lookup(q) is Some ==> final(self).lookup(
                    q,
                ) == old(self).lookup(q),
    {
        let ghost rv = reputation@;
        match self.get(peer_id) {
            Some((info, _)) => {
                let ghost iv = info@;
                proof {
                    lemma_lookup_after_insert(
                        self.peers@,
                        self.peers.cap(),
                        peer_id@,
                        (info, reputation),
                    );
                    assert(old(self).lookup(peer_id@) matches Some(row) && row.0 == iv);
                }
                let owned = peer_id.to_owned();
                let ghost mid = *self;
                self.peers.insert(owned, (info, reputation));
                proof {
                    assert(spec_cache_lookup(self.peers@, peer_id@) matches Some(p) && p.0@ == iv
                        && p.1@ == rv);
                    assert(self.lookup(peer_id@) == Some((iv, rv)));
                    assert forall|q: Seq<char>|
                        q != peer_id@ && #[trigger] self.lookup(q) is Some implies self.lookup(q)
                        == old(self).lookup(q) by {
                        assert(spec_cache_lookup(self.peers@, q) is Some);
                        assert(spec_cache_lookup(self.peers@, q) == spec_cache_lookup(
                            mid.peers@,
                            q,
                        ));
                        assert(mid.lookup(q) == old(self).lookup(q));
                    }
                }
                true
            },
            None => false,
        }
    }

    /// Remove a peer from the cache.
    pub fn remove(&mut self, peer_id: &str) -> (r: Option<(PeerInfo, Reputation)>)
        requires
            old(self).wf(),
        ensures
            final(self).wf(),
            match r {
                Some(p) => old(self).lookup(peer_id@) == Some((p.0@, p.1@)),
                None => old(self).lookup(peer_id@) is None,
            },
            final(self).lookup(peer_id@) is None,
            forall|q: Seq<char>|
                q != peer_id@ ==> #[trigger] final(self).lookup(q) == old(self).lookup(q),
    {
        proof {
            if cache_has_key(self.peers@, peer_id@) {
                lemma_lookup_after_remove(
                    self.peers@,
                    peer_id@,
                    cache_key_index(self.peers@, peer_id@),
                );
            }
        }
        self.peers.remove(peer_id)
    }

    /// Whether a peer is cached.
    pub fn contains(&self, peer_id: &str) -> (r: bool)
        requires
            self.wf(),
        ensures
            r == (self.lookup(peer_id@) is Some),
    {
        self.peers.contains(peer_id)
    }

    /// The cached peer ids, most recently used first.
    pub fn peer_ids(&self) -> (r: Vec<String>)
        requires
            self.wf(),
        ensures
            r@.len() == self.size(),
            forall|i: int| 0 <= i < r@.len() ==> #[trigger] self.lookup(r@[i]@) is Some,
    {
        let r = self.peers.keys();
        proof {
            assert forall|i: int| 0 <= i < r@.len() implies #[trigger] self.lookup(r@[i]@)
                is Some by {
                lemma_cache_found(self.peers@, r@[i]@, i);
            }
        }
        r
    }

    /// The number of cached peers.
    pub fn len(&self) -> (r: usize)
        ensures
            r == self.size(),
    {
        self.peers.len()
    }

    /// Whether the cache is empty.
    pub fn is_empty(&self) -> (r: bool)
        ensures
            r == (self.size() == 0),
    {
        self.peers.is_empty()
    }

    /// Drop every cached peer.
    pub fn clear(&mut self)
        requires
            old(self).wf(),
        ensures
            final(self).wf(),
            final(self).size() == 0,
            forall|k: Seq<char>| #[trigger] final(self).lookup(k) is None,
    {
        self.peers.clear();
    }

    /// A snapshot of the cached pairs whose score reaches the threshold (in
    /// thousandths), in recency order.
    pub fn get_trusted(&self, threshold_permille: u32) -> (r: Vec<(PeerInfo, Reputation)>)
        requires
            self.wf(),
        ensures
            peer_rows_view(r@) == self.cached_rows().filter(pred_trusted(threshold_permille)),
    {
        let ghost rows = self.cached_rows();
        let ghost pred = pred_trusted(threshold_permille);
        let n = self.peers.len();
        let mut out: Vec<(PeerInfo, Reputation)> = Vec::new();
        let mut i: usize = 0;
        while i < n
            invariant
                self.wf(),
                n == self.peers@.len(),
                rows == self.cached_rows(),
                pred == pred_trusted(threshold_permille),
                i <= n,
                peer_rows_view(out@) == rows.take(i as int).filter(pred),
            decreases n - i,
        {
            let ghost prevm = out@;
            proof {
                reveal(Seq::filter);
                assert(rows.take(i + 1).drop_last() =~= rows.take(i as int));
                assert(rows.take(i + 1).last() == rows[i as int]);
            }
            let v = self.peers.value_at(i);
            if v.1.score_permille >= threshold_permille {
                out.push((v.0.clone(), v.1.clone()));
                proof {
                    assert(peer_rows_view(out@) =~= peer_rows_view(prevm).push(rows[i as int]));
                }
            }
            i = i + 1;
        }
        proof {
            assert(rows.take(n as int) =~= rows);
        }
        out
    }
}

/// Whether an index holds the key `k`.
pub open spec fn idx_has<T>(s: Seq<(String, T)>, k: Seq<char>) -> bool {
    exists|i: int| 0 <= i < s.len() && s[i].0@ == k
}

/// The position of the index entry with key `k`.
pub open spec fn idx_at<T>(s: Seq<(String, T)>, k: Seq<char>) -> int {
    choose|i: int| 0 <= i < s.len() && s[i].0@ == k
}

/// Index keys are distinct.
pub open spec fn idx_distinct<T>(s: Seq<(String, T)>) -> bool {
    forall|i: int, j: int| 0 <= i < j < s.len() ==> s[i].0@ != s[j].0@
}

/// Whether the pair `(k, v)` stands somewhere in a key-to-list index.
pub open spec fn idx_pair_in(s: Seq<(String, Vec<String>)>, k: Seq<char>, v: Seq<char>) -> bool {
    exists|i: int, j: int|
        0 <= i < s.len() && 0 <= j < s[i].1@.len() && s[i].0@ == k && #[trigger] s[i].1@[j]@ == v
}

/// Remove `id` from every list of a key-to-list index; every other pair is
/// kept.
fn index_filter_out(idx: &mut Vec<(String, Vec<String>)>, id: &str)
    requires
        idx_distinct(old(idx)@),
    ensures
        idx_distinct(final(idx)@),
        final(idx)@.len() == old(idx)@.len(),
        forall|i: int| 0 <= i < final(idx)@.len() ==> final(idx)@[i].0 == old(idx)@[i].0,
        forall|k: Seq<char>, v: Seq<char>|
            idx_pair_in(final(idx)@, k, v) ==> v != id@ && idx_pair_in(old(idx)@, k, v),
        forall|k: Seq<char>, v: Seq<char>|
            v != id@ && #[trigger] idx_pair_in(old(idx)@, k, v) ==> idx_pair_in(final(idx)@, k, v),
{
    let n = idx.len();
    let owned = id.to_owned();
    let mut i: usize = 0;
    while i < n
        invariant
            n == idx@.len(),
            owned@ == id@,
            i <= n,
            idx@.len() == old(idx)@.len(),
            forall|t: int| 0 <= t < n ==> idx@[t].0 == old(idx)@[t].0,
            forall|t: int| i <= t < n ==> idx@[t] == old(idx)@[t],
            forall|t: int, j: int|
                0 <= t < i && 0 <= j < idx@[t].1@.len() ==> #[trigger] idx@[t].1@[j]@ != id@
                    && old(idx)@[t].1.deep_view().contains(idx@[t].1@[j]@),
            forall|t: int, v: Seq<char>|
                0 <= t < i && v != id@ && #[trigger] old(idx)@[t].1.deep_view().contains(v)
                    ==> idx@[t].1.deep_view().contains(v),
            idx_distinct(idx@),
        decreases n - i,
    {
        let entry = idx.remove(i);
        let m = entry.1.len();
        let mut filtered: Vec<String> = Vec::new();
        let mut j: usize = 0;
        while j < m
            invariant
                m == entry.1@.len(),
                owned@ == id@,
                j <= m,
                forall|t: int|
                    0 <= t < filtered@.len() ==> #[trigger] filtered@[t]@ != id@
                        && entry.1.deep_view().contains(filtered@[t]@),
                forall|jj: int|
                    0 <= jj < j && entry.1@[jj]@ != id@ ==> filtered.deep_view().contains(
                        #[trigger] entry.1.deep_view()[jj],
                    ),
            decreases m - j,
        {
            let ghost prevf = filtered.deep_view();
            if entry.1[j] == owned {
                proof {
                    assert(entry.1@[j as int]@ == id@);
                }
            } else {
                filtered.push(entry.1[j].clone());
                proof {
                    assert(entry.1.deep_view()[j as int] == filtered@.last()@);
                    assert(filtered.deep_view() =~= prevf.push(entry.1.deep_view()[j as int]));
                    assert forall|jj: int|
                        0 <= jj < j + 1 && entry.1@[jj]@ != id@ implies filtered.deep_view(
                    ).contains(#[trigger] entry.1.deep_view()[jj]) by {
                        if jj < j {
                            assert(prevf.contains(entry.1.deep_view()[jj]));
                            let w = choose|t: int|
                                0 <= t < prevf.len() && prevf[t] == entry.1.deep_view()[jj];
                            assert(filtered.deep_view()[w] == entry.1.deep_view()[jj]);
                        } else {
                            assert(filtered.deep_view().last() == entry.1.deep_view()[jj]);
                        }
                    }
                }
            }
            j = j + 1;
        }
        let ghost filt = filtered;
        idx.insert(i, (entry.0, filtered));
        proof {
            assert forall|t: int| 0 <= t < n implies idx@[t].0 == old(idx)@[t].0 by {
                assert(idx@[t].0 == (if t == i { entry.0 } else { old(idx)@[t].0 }));
            }
            assert forall|t: int, v: Seq<char>|
                0 <= t < i + 1 && v != id@ && #[trigger] old(idx)@[t].1.deep_view().contains(v)
                    implies idx@[t].1.deep_view().contains(v) by {
                if t == i {
                    let w = choose|q: int|
                        0 <= q < old(idx)@[t].1.deep_view().len() && old(idx)@[
                        t
                    ].1.deep_view()[q] == v;
                    assert(entry.1.deep_view()[w] == v);
                    assert(entry.1@[w]@ != id@);
                    assert(filt.deep_view().contains(entry.1.deep_view()[w]));
                    assert(idx@[t].1 == filt);
                }
            }
            assert forall|t: int, j: int|
                0 <= t < i + 1 && 0 <= j < idx@[t].1@.len() implies #[trigger] idx@[t].1@[j]@
                != id@ && old(idx)@[t].1.deep_view().contains(idx@[t].1@[j]@) by {
                if t == i {
                    assert(idx@[t].1 == filt);
                    assert(filt@[j]@ != id@);
                    assert(entry.1.deep_view().contains(filt@[j]@));
                    assert(old(idx)@[t].1 == entry.1);
                }
            }
        }
        i = i + 1;
    }
    proof {
        assert forall|k: Seq<char>, v: Seq<char>|
            idx_pair_in(idx@, k, v) implies v != id@ && idx_pair_in(old(idx)@, k, v) by {
            let (a, b): (int, int) = choose|a: int, b: int|
                0 <= a < idx@.len() && 0 <= b < idx@[a].1@.len() && idx@[a].0@ == k
                    && #[trigger] idx@[a].1@[b]@ == v;
            assert(old(idx)@[a].1.deep_view().contains(idx@[a].1@[b]@));
            let w = choose|t: int|
                0 <= t < old(idx)@[a].1.deep_view().len() && old(idx)@[a].1.deep_view()[t] == v;
            assert(old(idx)@[a].1@[w]@ == v);
            assert(idx_pair_in(old(idx)@, k, v));
        }
        assert forall|k: Seq<char>, v: Seq<char>|
            v != id@ && #[trigger] idx_pair_in(old(idx)@, k, v) implies idx_pair_in(
            idx@,
            k,
            v,
        ) by {
            let (a, b): (int, int) = choose|a: int, b: int|
                0 <= a < old(idx)@.len() && 0 <= b < old(idx)@[a].1@.len() && old(idx)@[a].0@ == k
                    && #[trigger] old(idx)@[a].1@[b]@ == v;
            assert(old(idx)@[a].1.deep_view()[b] == v);
            assert(old(idx)@[a].1.deep_view().contains(v));
            assert(idx@[a].1.deep_view().contains(v));
            let w = choose|q: int|
                0 <= q < idx@[a].1.deep_view().len() && idx@[a].1.deep_view()[q] == v;
            assert(idx@[a].1@[w]@ == v);
            assert(idx@[a].0 == old(idx)@[a].0);
            assert(idx_pair_in(idx@, k, v));
        }
    }
}

/// Add `id` under `key` in a key-to-list index, creating the entry when the
/// key is new; an id already listed under the key is not repeated. Every
/// pair already present is kept.
fn index_add(idx: &mut Vec<(String, Vec<String>)>, key: String, id: String)
    requires
        idx_distinct(old(idx)@),
    ensures
        idx_distinct(final(idx)@),
        forall|k: Seq<char>, v: Seq<char>|
            idx_pair_in(final(idx)@, k, v) ==> idx_pair_in(old(idx)@, k, v) || (k == key@ && v
                == id@),
        idx_pair_in(final(idx)@, key@, id@),
        forall|k: Seq<char>, v: Seq<char>|
            #[trigger] idx_pair_in(old(idx)@, k, v) ==> idx_pair_in(final(idx)@, k, v),
{
    let n = idx.len();
    let mut i: usize = 0;
    while i < n
        invariant
            n == idx@.len(),
            i <= n,
            *idx == *old(idx),
            idx_distinct(idx@),
            forall|j: int| 0 <= j < i ==> idx@[j].0@ != key@,
        decreases n - i,
    {
        if idx[i].0 == key {
            let ghost pre = idx@;
            let entry = idx.remove(i);
            let ghost old_list = entry.1.deep_view();
            let ghost key_val = entry.0;
            let mut list = entry.1;
            let mut present = false;
            let m = list.len();
            let mut j: usize = 0;
            while j < m
                invariant
                    m == list@.len(),
                    j <= m,
                    list.deep_view() == old_list,
                    present == exists|t: int| 0 <= t < j && #[trigger] list@[t]@ == id@,
                decreases m - j,
            {
                if list[j] == id {
                    proof {
                        assert(list@[j as int]@ == id@);
                    }
                    present = true;
                    proof {
                        assert(exists|t: int| 0 <= t < j + 1 && #[trigger] list@[t]@ == id@);
                    }
                } else {
                    proof {
                        assert(list@[j as int]@ != id@);
                    }
                }
                j = j + 1;
            }
            if !present {
                list.push(id);
            }
            let ghost list_val = list;
            idx.insert(i, (entry.0, list));
            proof {
                pre.remove_ensures(i as int);
                pre.remove(i as int).insert_ensures(i as int, (key_val, list_val));
                assert(idx@ =~= pre.update(i as int, (key_val, list_val)));
                assert(idx@[i as int].0@ == key@);
                assert(idx@[i as int].1 == list_val);
                assert(idx_pair_in(idx@, key@, id@)) by {
                    if present {
                        let t = choose|t: int| 0 <= t < m && #[trigger] list_val@[t]@ == id@;
                        assert(idx@[i as int].1@[t]@ == id@);
                    } else {
                        assert(idx@[i as int].1@[m as int]@ == id@);
                    }
                }
                assert forall|k: Seq<char>, v: Seq<char>|
                    idx_pair_in(idx@, k, v) implies idx_pair_in(old(idx)@, k, v) || (k == key@ && v
                    == id@) by {
                    let (a, b): (int, int) = choose|a: int, b: int|
                        0 <= a < idx@.len() && 0 <= b < idx@[a].1@.len() && idx@[a].0@ == k
                            && #[trigger] idx@[a].1@[b]@ == v;
                    if a != i {
                        assert(idx@[a] == old(idx)@[a]);
                        assert(old(idx)@[a].1@[b]@ == v);
                        assert(idx_pair_in(old(idx)@, k, v));
                    } else {
                        assert(idx@[a].1 == list_val);
                        if b < m {
                            assert(list_val@[b] == old(idx)@[a].1@[b]);
                            assert(old(idx)@[a].1@[b]@ == v);
                            assert(idx_pair_in(old(idx)@, k, v));
                        } else {
                            assert(v == id@ && k == key@);
                        }
                    }
                }
                assert(pre == old(idx)@);
                assert forall|a: int, b: int| 0 <= a < b < idx@.len() implies idx@[a].0@
                    != idx@[b].0@ by {
                    assert(old(idx)@[a].0@ != old(idx)@[b].0@);
                    assert(idx@[a].0@ == (if a == i { key@ } else { old(idx)@[a].0@ }));
                    assert(idx@[b].0@ == (if b == i { key@ } else { old(idx)@[b].0@ }));
                    assert(old(idx)@[i as int].0@ == key@);
                }
                assert forall|k: Seq<char>, v: Seq<char>|
                    #[trigger] idx_pair_in(old(idx)@, k, v) implies idx_pair_in(idx@, k, v) by {
                    let (a, b): (int, int) = choose|a: int, b: int|
                        0 <= a < old(idx)@.len() && 0 <= b < old(idx)@[a].1@.len() && old(idx)@[
                        a
                    ].0@ == k && #[trigger] old(idx)@[a].1@[b]@ == v;
                    if a != i {
                        assert(idx@[a] == old(idx)@[a]);
                        assert(idx@[a].1@[b]@ == v);
                        assert(idx_pair_in(idx@, k, v));
                    } else {
                        assert(idx@[a].1 == list_val);
                        assert(list_val@[b] == old(idx)@[a].1@[b]);
                        assert(idx@[a].1@[b]@ == v);
                        assert(idx@[a].0@ == k);
                        assert(idx_pair_in(idx@, k, v));
                    }
                }
            }
            return ;
        }
        i = i + 1;
    }
    let ghost pre = idx@;
    let mut fresh: Vec<String> = Vec::new();
    fresh.push(id);
    idx.push((key, fresh));
    proof {
        assert(idx@[pre.len() as int].0@ == key@);
        assert(idx@[pre.len() as int].1@[0]@ == id@);
        assert(idx_pair_in(idx@, key@, id@));
        assert forall|a: int, b: int| 0 <= a < b < idx@.len() implies idx@[a].0@ != idx@[b].0@ by {
            if b < pre.len() {
                assert(pre[a].0@ != pre[b].0@);
            } else {
                assert(idx@[a] == pre[a]);
            }
        }
        assert forall|k: Seq<char>, v: Seq<char>|
            idx_pair_in(idx@, k, v) implies idx_pair_in(pre, k, v) || (k == key@ && v == id@) by {
            let (a, b): (int, int) = choose|a: int, b: int|
                0 <= a < idx@.len() && 0 <= b < idx@[a].1@.len() && idx@[a].0@ == k
                    && #[trigger] idx@[a].1@[b]@ == v;
            if a < pre.len() {
                assert(idx@[a] == pre[a]);
                assert(pre[a].1@[b]@ == v);
                assert(idx_pair_in(pre, k, v));
            } else {
                assert(b == 0);
            }
        }
        assert forall|k: Seq<char>, v: Seq<char>|
            #[trigger] idx_pair_in(pre, k, v) implies idx_pair_in(idx@, k, v) by {
            let (a, b): (int, int) = choose|a: int, b: int|
                0 <= a < pre.len() && 0 <= b < pre[a].1@.len() && pre[a].0@ == k
                    && #[trigger] pre[a].1@[b]@ == v;
            assert(idx@[a] == pre[a]);
            assert(idx@[a].1@[b]@ == v);
            assert(idx_pair_in(idx@, k, v));
        }
    }
}

/// Specialized cache for messages, with a by-sender index. The index is
/// sound: a listed id that still resolves in the primary map resolves to a
/// message from that sender, never to a stale other-sender message.
pub struct MessageCache {
    messages: MemoryCache<Message>,
    by_sender: Vec<(String, Vec<String>)>,
}

impl MessageCache {
    /// The cached message under a key, as a ghost row.
    pub closed spec fn lookup(&self, k: Seq<char>) -> Option<MessageView> {
        match spec_cache_lookup(self.messages@, k) {
            Some(m) => Some(m@),
            None => None,
        }
    }

    /// The number of cached messages.
    pub closed spec fn size(&self) -> int {
        self.messages@.len() as int
    }

    /// Primary-map well-formedness, index key distinctness, index
    /// soundness — every id listed under a sender either resolves to a
    /// message from that sender or does not resolve at all — and index
    /// completeness: every cached message is listed under its sender.
    pub closed spec fn wf(&self) -> bool {
        &&& self.messages.wf()
        &&& idx_distinct(self.by_sender@)
        &&& forall|k: Seq<char>, v: Seq<char>|
            idx_pair_in(self.by_sender@, k, v) ==> (self.lookup(v) matches Some(m) ==> m.sender
                == k)
        &&& forall|k: Seq<char>|
            #![trigger self.lookup(k)]
            (self.lookup(k) matches Some(m) ==> idx_pair_in(self.by_sender@, m.sender, k))
    }

    /// Every message in `out` is from `sender` and is cached somewhere.
    pub open spec fn from_sender_ok(&self, sender: Seq<char>, out: Seq<Message>) -> bool {
        forall|t: int|
            0 <= t < out.len() ==> (#[trigger] out[t])@.sender == sender && exists|k: Seq<char>|
                #![trigger self.lookup(k)]
                self.lookup(k) == Some(out[t]@)
    }

    /// Every cached message from `sender` appears in `out`.
    pub open spec fn from_sender_complete(&self, sender: Seq<char>, out: Seq<Message>) -> bool {
        forall|k: Seq<char>|
            #![trigger self.lookup(k)]
            (self.lookup(k) matches Some(m) ==> (m.sender == sender ==> exists|t: int|
                0 <= t < out.len() && (#[trigger] out[t])@ == m))
    }

    /// A message cache of the given capacity.
    pub fn new(capacity: usize) -> (r: Self)
        ensures
            r.wf(),
            r.size() == 0,
            forall|k: Seq<char>| #[trigger] r.lookup(k) is None,
    {
        MessageCache { messages: MemoryCache::new(capacity), by_sender: Vec::new() }
    }

    /// Insert a message under its identifier. Messages are immutable: when
    /// the identifier is already cached, nothing changes.
    pub fn insert(&mut self, message: Message)
        requires
            old(self).wf(),
        ensures
            final(self).wf(),
            old(self).lookup(uuid_text(message@.id)) is Some ==> *final(self) == *old(self),
            old(self).lookup(uuid_text(message@.id)) is None ==> final(self).lookup(
                uuid_text(message@.id),
            ) == Some(message@),
            forall|q: Seq<char>|
                q != uuid_text(message@.id) && #[trigger] final(self).lookup(q) is Some ==> final(self).lookup(q) == old(self).lookup(q),
    {
        let id_str = uuid_to_string(message.id);
        if self.messages.contains(id_str.as_str()) {
            return ;
        }
        index_filter_out(&mut self.by_sender, id_str.as_str());
        let sender_key = message.sender.0.clone();
        let ghost mv = message@;
        let ghost mid = *self;
        proof {
            lemma_lookup_after_insert(self.messages@, self.messages.cap(), id_str@, message);
        }
        self.messages.insert(id_str.clone(), message);
        let ghost mid2 = *self;
        index_add(&mut self.by_sender, sender_key, id_str);
        proof {
            assert(self.lookup(uuid_text(mv.id)) == Some(mv)) by {
                assert(self.messages@ == mid2.messages@);
            }
            assert forall|q: Seq<char>|
                q != uuid_text(mv.id) && #[trigger] self.lookup(q) is Some implies self.lookup(q)
                == old(self).lookup(q) by {
                assert(spec_cache_lookup(self.messages@, q) is Some);
                assert(spec_cache_lookup(self.messages@, q) == spec_cache_lookup(
                    mid.messages@,
                    q,
                ));
            }
            assert forall|k: Seq<char>, v: Seq<char>|
                idx_pair_in(self.by_sender@, k, v) implies (self.lookup(v) matches Some(m)
                ==> m.sender == k) by {
                if idx_pair_in(mid2.by_sender@, k, v) {
                    assert(v != uuid_text(mv.id));
                    assert(idx_pair_in(mid.by_sender@, k, v));
                    if self.lookup(v) is Some {
                        assert(spec_cache_lookup(self.messages@, v) == spec_cache_lookup(
                            mid.messages@,
                            v,
                        ));
                        assert(mid.lookup(v) == self.lookup(v));
                    }
                } else {
                    assert(k == mv.sender && v == uuid_text(mv.id));
                    assert(self.lookup(v) == Some(mv));
                }
            }
            assert forall|k: Seq<char>|
                #![trigger self.lookup(k)]
                (self.lookup(k) matches Some(m) ==> idx_pair_in(
                    self.by_sender@,
                    m.sender,
                    k,
                )) by {
                if self.lookup(k) is Some {
                    if k == uuid_text(mv.id) {
                        assert(self.lookup(k) == Some(mv));
                        assert(idx_pair_in(self.by_sender@, mv.sender, uuid_text(mv.id)));
                    } else {
                        assert(spec_cache_lookup(self.messages@, k) is Some);
                        assert(spec_cache_lookup(self.messages@, k) == spec_cache_lookup(
                            mid.messages@,
                            k,
                        ));
                        assert(mid.lookup(k) == self.lookup(k));
                        let m = self.lookup(k).unwrap();
                        assert(idx_pair_in(mid.by_sender@, m.sender, k));
                        assert(k != id_str@);
                        assert(idx_pair_in(mid2.by_sender@, m.sender, k));
                        assert(idx_pair_in(self.by_sender@, m.sender, k));
                    }
                }
            }
        }
    }

    /// Get a message by identifier, marking it recently used.
    pub fn get(&mut self, id: u128) -> (r: Option<Message>)
        requires
            old(self).wf(),
        ensures
            final(self).wf(),
            match r {
                Some(m) => old(self).lookup(uuid_text(id)) == Some(m@),
                None => old(self).lookup(uuid_text(id)) is None,
            },
            forall|q: Seq<char>| #[trigger] final(self).lookup(q) == old(self).lookup(q),
    {
        let id_str = uuid_to_string(id);
        proof {
            if cache_has_key(self.messages@, id_str@) {
                lemma_lookup_after_front_move(
                    self.messages@,
                    id_str@,
                    cache_key_index(self.messages@, id_str@),
                );
            }
        }
        let r = match self.messages.get(id_str.as_str()) {
            Some(m) => Some(m.clone()),
            None => None,
        };
        proof {
            assert forall|q: Seq<char>| #[trigger] self.lookup(q) == old(self).lookup(q) by {
                assert(spec_cache_lookup(self.messages@, q) == spec_cache_lookup(
                    old(self).messages@,
                    q,
                ));
            }
            assert forall|k: Seq<char>|
                #![trigger self.lookup(k)]
                (self.lookup(k) matches Some(m) ==> idx_pair_in(
                    self.by_sender@,
                    m.sender,
                    k,
                )) by {
                if self.lookup(k) is Some {
                    assert(old(self).lookup(k) == self.lookup(k));
                    let m = self.lookup(k).unwrap();
                    assert(idx_pair_in(old(self).by_sender@, m.sender, k));
                }
            }
        }
        r
    }

    /// Remove a message by identifier, shrinking the index with it.
    pub fn remove(&mut self, id: u128) -> (r: Option<Message>)
        requires
            old(self).wf(),
        ensures
            final(self).wf(),
            match r {
                Some(m) => old(self).lookup(uuid_text(id)) == Some(m@),
                None => old(self).lookup(uuid_text(id)) is None,
            },
            final(self).lookup(uuid_text(id)) is None,
            forall|q: Seq<char>|
                q != uuid_text(id) ==> #[trigger] final(self).lookup(q) == old(self).lookup(q),
    {
        let id_str = uuid_to_string(id);
        proof {
            if cache_has_key(self.messages@, id_str@) {
                lemma_lookup_after_remove(
                    self.messages@,
                    id_str@,
                    cache_key_index(self.messages@, id_str@),
                );
            }
        }
        let removed = self.messages.remove(id_str.as_str());
        match removed {
            Some(m) => {
                let ghost mid = *self;
                index_filter_out(&mut self.by_sender, id_str.as_str());
                proof {
                    assert forall|k: Seq<char>, v: Seq<char>|
                        idx_pair_in(self.by_sender@, k, v) implies (self.lookup(v) matches Some(
                        mm,
                    ) ==> mm.sender == k) by {
                        assert(idx_pair_in(mid.by_sender@, k, v));
                        assert(self.messages@ == mid.messages@);
                    }
                    assert forall|k: Seq<char>|
                        #![trigger self.lookup(k)]
                        (self.lookup(k) matches Some(mm) ==> idx_pair_in(
                            self.by_sender@,
                            mm.sender,
                            k,
                        )) by {
                        if self.lookup(k) is Some {
                            assert(self.messages@ == mid.messages@);
                            assert(spec_cache_lookup(self.messages@, id_str@) is None);
                            assert(k != id_str@);
                            assert(spec_cache_lookup(self.messages@, k) == spec_cache_lookup(
                                old(self).messages@,
                                k,
                            ));
                            assert(self.lookup(k) == old(self).lookup(k));
                            let mm = self.lookup(k).unwrap();
                            assert(idx_pair_in(old(self).by_sender@, mm.sender, k));
                            assert(idx_pair_in(self.by_sender@, mm.sender, k));
                        }
                    }
                    assert(self.messages.wf());
                    assert(idx_distinct(self.by_sender@));
                    assert(self.wf());
                }
                Some(m)
            },
            None => {
                proof {
                    assert forall|q: Seq<char>| #[trigger] self.lookup(q) == old(self).lookup(
                        q,
                    ) by {
                        assert(self.messages@ == old(self).messages@);
                    }
                    assert forall|k: Seq<char>|
                        #![trigger self.lookup(k)]
                        (self.lookup(k) matches Some(mm) ==> idx_pair_in(
                            self.by_sender@,
                            mm.sender,
                            k,
                        )) by {
                        if self.lookup(k) is Some {
                            assert(self.lookup(k) == old(self).lookup(k));
                            let mm = self.lookup(k).unwrap();
                            assert(idx_pair_in(old(self).by_sender@, mm.sender, k));
                        }
                    }
                    assert forall|k: Seq<char>, v: Seq<char>|
                        idx_pair_in(self.by_sender@, k, v) implies (self.lookup(v) matches Some(
                        mm,
                    ) ==> mm.sender == k) by {
                        assert(self.lookup(v) == old(self).lookup(v));
                    }
                }
                None
            },
        }
    }

    /// The cached messages a sender still has in the primary map; ids that
    /// no longer resolve are filtered silently. Every returned message is
    /// from the requested sender, and every cached message from the
    /// requested sender is returned.
    pub fn get_from_sender(&self, sender_id: &str) -> (r: Vec<Message>)
        requires
            self.wf(),
        ensures
            self.from_sender_ok(sender_id@, r@),
            self.from_sender_complete(sender_id@, r@),
    {
        let owned = sender_id.to_owned();
        let n = self.by_sender.len();
        let mut e: usize = 0;
        while e < n
            invariant
                self.wf(),
                owned@ == sender_id@,
                n == self.by_sender@.len(),
                e <= n,
                forall|j: int| 0 <= j < e ==> self.by_sender@[j].0@ != sender_id@,
            decreases n - e,
        {
            if self.by_sender[e].0 == owned {
                let m = self.by_sender[e].1.len();
                let mut out: Vec<Message> = Vec::new();
                let mut j: usize = 0;
                while j < m
                    invariant
                        self.wf(),
                        e < self.by_sender@.len(),
                        self.by_sender@[e as int].0@ == sender_id@,
                        m == self.by_sender@[e as int].1@.len(),
                        j <= m,
                        self.from_sender_ok(sender_id@, out@),
                        forall|jj: int|
                            0 <= jj < j ==> (self.lookup(
                                #[trigger] self.by_sender@[e as int].1.deep_view()[jj],
                            ) matches Some(mm) ==> exists|t: int|
                                0 <= t < out@.len() && (#[trigger] out@[t])@ == mm),
                    decreases m - j,
                {
                    let key = &self.by_sender[e].1[j];
                    let ghost before = out@;
                    match self.messages.peek(key.as_str()) {
                        Some(msg) => {
                            proof {
                                assert(idx_pair_in(self.by_sender@, sender_id@, key@));
                                assert(self.lookup(key@) == Some(msg@));
                                assert(msg@.sender == sender_id@);
                            }
                            out.push(msg.clone());
                            proof {
                                assert forall|t: int| 0 <= t < out@.len() implies (#[trigger] out@[
                                t
                            ])@.sender == sender_id@ && exists|k: Seq<char>|
                                #![trigger self.lookup(k)]
                                self.lookup(k) == Some(out@[t]@) by {
                                    if t < before.len() {
                                        assert(out@[t] == before[t]);
                                        assert(self.from_sender_ok(sender_id@, before));
                                        assert(before[t]@.sender == sender_id@ && exists|
                                            k: Seq<char>,
                                        |
                                            #![trigger self.lookup(k)]
                                            self.lookup(k) == Some(before[t]@));
                                    } else {
                                        assert(out@[t]@ == msg@);
                                        assert(self.lookup(key@) == Some(out@[t]@));
                                    }
                                }
                                assert(self.from_sender_ok(sender_id@, out@));
                            }
                        },
                        None => {},
                    }
                    proof {
                        assert forall|jj: int|
                            0 <= jj < j + 1 implies (self.lookup(
                                #[trigger] self.by_sender@[e as int].1.deep_view()[jj],
                            ) matches Some(mm) ==> exists|t: int|
                                0 <= t < out@.len() && (#[trigger] out@[t])@ == mm) by {
                            let kk = self.by_sender@[e as int].1.deep_view()[jj];
                            if self.lookup(kk) is Some {
                                let mm = self.lookup(kk).unwrap();
                                if jj < j {
                                    assert(exists|t: int|
                                        0 <= t < before.len() && (#[trigger] before[t])@ == mm);
                                    let w = choose|t: int|
                                        0 <= t < before.len() && (#[trigger] before[t])@ == mm;
                                    assert(out@[w] == before[w]);
                                    assert(out@[w]@ == mm);
                                } else {
                                    assert(kk == self.by_sender@[e as int].1@[jj]@);
                                    assert(out@.last()@ == mm);
                                }
                            }
                        }
                    }
                    j = j + 1;
                }
                proof {
                    assert forall|k: Seq<char>|
                        #![trigger self.lookup(k)]
                        (self.lookup(k) matches Some(mm) ==> (mm.sender == sender_id@
                            ==> exists|t: int|
                            0 <= t < out@.len() && (#[trigger] out@[t])@ == mm)) by {
                        if self.lookup(k) is Some {
                            let mm = self.lookup(k).unwrap();
                            if mm.sender == sender_id@ {
                                assert(idx_pair_in(self.by_sender@, mm.sender, k));
                                let (a, b): (int, int) = choose|a: int, b: int|
                                    0 <= a < self.by_sender@.len() && 0 <= b < self.by_sender@[
                                    a
                                ].1@.len() && self.by_sender@[a].0@ == mm.sender
                                    && #[trigger] self.by_sender@[a].1@[b]@ == k;
                                assert(a == e) by {
                                    if a != e {
                                        assert(self.by_sender@[a].0@ == self.by_sender@[
                                        e as int
                                        ].0@);
                                    }
                                }
                                assert(self.by_sender@[e as int].1.deep_view()[b] == k);
                            }
                        }
                    }
                }
                return out;
            }
            e = e + 1;
        }
        let empty: Vec<Message> = Vec::new();
        proof {
            assert(self.from_sender_ok(sender_id@, empty@));
            assert forall|k: Seq<char>|
                #![trigger self.lookup(k)]
                (self.lookup(k) matches Some(mm) ==> (mm.sender == sender_id@ ==> exists|t: int|
                    0 <= t < empty@.len() && (#[trigger] empty@[t])@ == mm)) by {
                if self.lookup(k) is Some {
                    let mm = self.lookup(k).unwrap();
                    if mm.sender == sender_id@ {
                        assert(idx_pair_in(self.by_sender@, mm.sender, k));
                        let (a, b): (int, int) = choose|a: int, b: int|
                            0 <= a < self.by_sender@.len() && 0 <= b < self.by_sender@[a].1@.len()
                                && self.by_sender@[a].0@ == mm.sender && #[trigger] self.by_sender@[
                            a
                            ].1@[b]@ == k;
                        assert(self.by_sender@[a].0@ != sender_id@);
                        assert(false);
                    }
                }
            }
        }
        empty
    }

    /// Whether a message is cached.
    pub fn contains(&self, id: u128) -> (r: bool)
        requires
            self.wf(),
        ensures
            r == (self.lookup(uuid_text(id)) is Some),
    {
        let id_str = uuid_to_string(id);
        self.messages.contains(id_str.as_str())
    }

    /// The number of cached messages.
    pub fn len(&self) -> (r: usize)
        ensures
            r == self.size(),
    {
        self.messages.len()
    }

    /// Whether the cache is empty.
    pub fn is_empty(&self) -> (r: bool)
        ensures
            r == (self.size() == 0),
    {
        self.messages.is_empty()
    }

    /// Drop every cached message and the whole index.
    pub fn clear(&mut self)
        requires
            old(self).wf(),
        ensures
            final(self).wf(),
            final(self).size() == 0,
            forall|k: Seq<char>| #[trigger] final(self).lookup(k) is None,
    {
        self.messages.clear();
        self.by_sender.clear();
    }
}

/// Specialized cache for credit relationships, keyed by the derived
/// identity, with a by-peer index listing each relationship under both of
/// its endpoints.
pub struct CreditCache {
    relationships: MemoryCache<CreditRelationship>,
    by_peer: Vec<(String, Vec<String>)>,
}

impl CreditCache {
    /// The cached relationship under a derived identity, as a ghost row.
    pub closed spec fn lookup(&self, k: Seq<char>) -> Option<CreditRelationshipView> {
        match spec_cache_lookup(self.relationships@, k) {
            Some(c) => Some(c@),
            None => None,
        }
    }

    /// The cached relationships in recency order, as ghost rows.
    pub closed spec fn cached_rows(&self) -> Seq<CreditRelationshipView> {
        credit_rows_view(self.relationships@.map_values(cache_value::<CreditRelationship>()))
    }

    /// The number of cached relationships.
    pub closed spec fn size(&self) -> int {
        self.relationships@.len() as int
    }

    /// Primary-map well-formedness, index key distinctness, index
    /// soundness — an id listed under a peer either resolves to a
    /// relationship with that peer on one end or does not resolve — and
    /// index completeness: every cached relationship is listed under both
    /// of its endpoints.
    pub closed spec fn wf(&self) -> bool {
        &&& self.relationships.wf()
        &&& idx_distinct(self.by_peer@)
        &&& forall|k: Seq<char>, v: Seq<char>|
            idx_pair_in(self.by_peer@, k, v) ==> (self.lookup(v) matches Some(c) ==> c.creditor
                == k || c.debtor == k)
        &&& forall|v: Seq<char>|
            #![trigger self.lookup(v)]
            (self.lookup(v) matches Some(c) ==> idx_pair_in(self.by_peer@, c.creditor, v)
                && idx_pair_in(self.by_peer@, c.debtor, v))
    }

    /// Every relationship in `out` has `peer` on one end and is cached
    /// somewhere.
    pub open spec fn for_peer_ok(&self, peer: Seq<char>, out: Seq<CreditRelationship>) -> bool {
        forall|t: int|
            0 <= t < out.len() ==> ((#[trigger] out[t])@.creditor == peer || out[t]@.debtor
                == peer) && exists|k: Seq<char>|
                #![trigger self.lookup(k)]
                self.lookup(k) == Some(out[t]@)
    }

    /// Every cached relationship with `peer` on one end appears in `out`.
    pub open spec fn for_peer_complete(
        &self,
        peer: Seq<char>,
        out: Seq<CreditRelationship>,
    ) -> bool {
        forall|k: Seq<char>|
            #![trigger self.lookup(k)]
            (self.lookup(k) matches Some(c) ==> ((c.creditor == peer || c.debtor == peer)
                ==> exists|t: int| 0 <= t < out.len() && (#[trigger] out[t])@ == c))
    }

    /// A credit cache of the given capacity.
    pub fn new(capacity: usize) -> (r: Self)
        ensures
            r.wf(),
            r.size() == 0,
            forall|k: Seq<char>| #[trigger] r.lookup(k) is None,
    {
        CreditCache { relationships: MemoryCache::new(capacity), by_peer: Vec::new() }
    }

    /// Insert a relationship under its derived identity, indexing it under
    /// both endpoints.
    pub fn insert(&mut self, relationship: CreditRelationship)
        requires
            old(self).wf(),
        ensures
            final(self).wf(),
            final(self).lookup(
                spec_credit_id(relationship@.creditor, relationship@.debtor),
            ) == Some(relationship@),
            forall|q: Seq<char>|
                q != spec_credit_id(relationship@.creditor, relationship@.debtor)
                    && #[trigger] final(self).lookup(q) is Some ==> final(self).lookup(q) == old(
                    self,
                ).lookup(q),
    {
        let id = relationship_id(relationship.creditor.as_str(), relationship.debtor.as_str());
        let creditor_key = relationship.creditor.0.clone();
        let debtor_key = relationship.debtor.0.clone();
        let ghost rv = relationship@;
        let ghost mid = *self;
        index_filter_out(&mut self.by_peer, id.as_str());
        proof {
            lemma_lookup_after_insert(
                self.relationships@,
                self.relationships.cap(),
                id@,
                relationship,
            );
        }
        self.relationships.insert(id.clone(), relationship);
        let ghost mid2 = *self;
        index_add(&mut self.by_peer, creditor_key, id.clone());
        let ghost mid3 = *self;
        index_add(&mut self.by_peer, debtor_key, id);
        proof {
            let cid = spec_credit_id(rv.creditor, rv.debtor);
            assert(self.relationships@ == mid2.relationships@);
            assert(self.lookup(cid) == Some(rv));
            assert forall|q: Seq<char>|
                q != cid && #[trigger] self.lookup(q) is Some implies self.lookup(q) == old(
                self,
            ).lookup(q) by {
                assert(spec_cache_lookup(self.relationships@, q) is Some);
                assert(spec_cache_lookup(self.relationships@, q) == spec_cache_lookup(
                    mid.relationships@,
                    q,
                ));
            }
            // Index soundness: a surviving pair is an old pair about an
            // unchanged entry; a fresh pair names one of the new endpoints.
            assert forall|k: Seq<char>, v: Seq<char>|
                idx_pair_in(self.by_peer@, k, v) implies (self.lookup(v) matches Some(c)
                ==> c.creditor == k || c.debtor == k) by {
                if self.lookup(v) is Some {
                    if idx_pair_in(mid3.by_peer@, k, v) {
                        if idx_pair_in(mid2.by_peer@, k, v) {
                            assert(v != cid);
                            assert(idx_pair_in(mid.by_peer@, k, v));
                            assert(spec_cache_lookup(self.relationships@, v)
                                == spec_cache_lookup(mid.relationships@, v));
                            assert(mid.lookup(v) == self.lookup(v));
                        } else {
                            assert(k == rv.creditor && v == cid);
                            assert(self.lookup(v) == Some(rv));
                        }
                    } else {
                        assert(k == rv.debtor && v == cid);
                        assert(self.lookup(v) == Some(rv));
                    }
                }
            }
            // Index completeness: the new row is listed under both of its
            // endpoints; every other cached row kept its old pairs.
            assert forall|v: Seq<char>|
                #![trigger self.lookup(v)]
                (self.lookup(v) matches Some(c) ==> idx_pair_in(self.by_peer@, c.creditor, v)
                    && idx_pair_in(self.by_peer@, c.debtor, v)) by {
                if self.lookup(v) is Some {
                    let c = self.lookup(v).unwrap();
                    if v == cid {
                        assert(c == rv);
                        assert(idx_pair_in(mid3.by_peer@, rv.creditor, cid));
                        assert(idx_pair_in(self.by_peer@, rv.creditor, cid));
                        assert(idx_pair_in(self.by_peer@, rv.debtor, cid));
                    } else {
                        assert(spec_cache_lookup(self.relationships@, v) == spec_cache_lookup(
                            mid.relationships@,
                            v,
                        ));
                        assert(mid.lookup(v) == self.lookup(v));
                        assert(idx_pair_in(mid.by_peer@, c.creditor, v));
                        assert(idx_pair_in(mid.by_peer@, c.debtor, v));
                        assert(idx_pair_in(mid2.by_peer@, c.creditor, v));
                        assert(idx_pair_in(mid2.by_peer@, c.debtor, v));
                        assert(idx_pair_in(mid3.by_peer@, c.creditor, v));
                        assert(idx_pair_in(mid3.by_peer@, c.debtor, v));
                        assert(idx_pair_in(self.by_peer@, c.creditor, v));
                        assert(idx_pair_in(self.by_peer@, c.debtor, v));
                    }
                }
            }
        }
    }

    /// Get a relationship by derived identity, marking it recently used.
    pub fn get(&mut self, id: &str) -> (r: Option<CreditRelationship>)
        requires
            old(self).wf(),
        ensures
            final(self).wf(),
            match r {
                Some(c) => old(self).lookup(id@) == Some(c@),
                None => old(self).lookup(id@) is None,
            },
            forall|q: Seq<char>| #[trigger] final(self).lookup(q) == old(self).lookup(q),
    {
        proof {
            if cache_has_key(self.relationships@, id@) {
                lemma_lookup_after_front_move(
                    self.relationships@,
                    id@,
                    cache_key_index(self.relationships@, id@),
                );
            }
        }
        let r = match self.relationships.get(id) {
            Some(c) => Some(c.clone()),
            None => None,
        };
        proof {
            assert forall|q: Seq<char>| #[trigger] self.lookup(q) == old(self).lookup(q) by {
                assert(spec_cache_lookup(self.relationships@, q) == spec_cache_lookup(
                    old(self).relationships@,
                    q,
                ));
            }
            assert forall|v: Seq<char>|
                #![trigger self.lookup(v)]
                (self.lookup(v) matches Some(c) ==> idx_pair_in(self.by_peer@, c.creditor, v)
                    && idx_pair_in(self.by_peer@, c.debtor, v)) by {
                if self.lookup(v) is Some {
                    assert(old(self).lookup(v) == self.lookup(v));
                    let c = self.lookup(v).unwrap();
                    assert(idx_pair_in(old(self).by_peer@, c.creditor, v));
                    assert(idx_pair_in(old(self).by_peer@, c.debtor, v));
                }
            }
            assert forall|k: Seq<char>, v: Seq<char>|
                idx_pair_in(self.by_peer@, k, v) implies (self.lookup(v) matches Some(c)
                ==> c.creditor == k || c.debtor == k) by {
                assert(self.lookup(v) == old(self).lookup(v));
            }
        }
        r
    }

    /// Get the relationship between two peers, in that order.
    pub fn get_between(&mut self, creditor: &str, debtor: &str) -> (r: Option<CreditRelationship>)
        requires
            old(self).wf(),
        ensures
            final(self).wf(),
            match r {
                Some(c) => old(self).lookup(spec_credit_id(creditor@, debtor@)) == Some(c@),
                None => old(self).lookup(spec_credit_id(creditor@, debtor@)) is None,
            },
            forall|q: Seq<char>| #[trigger] final(self).lookup(q) == old(self).lookup(q),
    {
        let id = relationship_id(creditor, debtor);
        self.get(id.as_str())
    }

    /// Remove a relationship by derived identity, shrinking the index.
    pub fn remove(&mut self, id: &str) -> (r: Option<CreditRelationship>)
        requires
            old(self).wf(),
        ensures
            final(self).wf(),
            match r {
                Some(c) => old(self).lookup(id@) == Some(c@),
                None => old(self).lookup(id@) is None,
            },
            final(self).lookup(id@) is None,
            forall|q: Seq<char>|
                q != id@ ==> #[trigger] final(self).lookup(q) == old(self).lookup(q),
    {
        proof {
            if cache_has_key(self.relationships@, id@) {
                lemma_lookup_after_remove(
                    self.relationships@,
                    id@,
                    cache_key_index(self.relationships@, id@),
                );
            }
        }
        let removed = self.relationships.remove(id);
        match removed {
            Some(c) => {
                let ghost mid = *self;
                index_filter_out(&mut self.by_peer, id);
                proof {
                    assert forall|k: Seq<char>, v: Seq<char>|
                        idx_pair_in(self.by_peer@, k, v) implies (self.lookup(v) matches Some(
                        cc,
                    ) ==> cc.creditor == k || cc.debtor == k) by {
                        assert(idx_pair_in(mid.by_peer@, k, v));
                        assert(self.relationships@ == mid.relationships@);
                    }
                    assert forall|v: Seq<char>|
                        #![trigger self.lookup(v)]
                        (self.lookup(v) matches Some(cc) ==> idx_pair_in(
                            self.by_peer@,
                            cc.creditor,
                            v,
                        ) && idx_pair_in(self.by_peer@, cc.debtor, v)) by {
                        if self.lookup(v) is Some {
                            assert(self.relationships@ == mid.relationships@);
                            assert(spec_cache_lookup(self.relationships@, id@) is None);
                            assert(v != id@);
                            assert(spec_cache_lookup(self.relationships@, v)
                                == spec_cache_lookup(old(self).relationships@, v));
                            assert(self.lookup(v) == old(self).lookup(v));
                            let cc = self.lookup(v).unwrap();
                            assert(idx_pair_in(old(self).by_peer@, cc.creditor, v));
                            assert(idx_pair_in(old(self).by_peer@, cc.debtor, v));
                            assert(idx_pair_in(self.by_peer@, cc.creditor, v));
                            assert(idx_pair_in(self.by_peer@, cc.debtor, v));
                        }
                    }
                }
                Some(c)
            },
            None => {
                proof {
                    assert forall|q: Seq<char>| #[trigger] self.lookup(q) == old(self).lookup(
                        q,
                    ) by {
                        assert(self.relationships@ == old(self).relationships@);
                    }
                    assert forall|v: Seq<char>|
                        #![trigger self.lookup(v)]
                        (self.lookup(v) matches Some(cc) ==> idx_pair_in(
                            self.by_peer@,
                            cc.creditor,
                            v,
                        ) && idx_pair_in(self.by_peer@, cc.debtor, v)) by {
                        if self.lookup(v) is Some {
                            assert(self.lookup(v) == old(self).lookup(v));
                            let cc = self.lookup(v).unwrap();
                            assert(idx_pair_in(old(self).by_peer@, cc.creditor, v));
                            assert(idx_pair_in(old(self).by_peer@, cc.debtor, v));
                        }
                    }
                    assert forall|k: Seq<char>, v: Seq<char>|
                        idx_pair_in(self.by_peer@, k, v) implies (self.lookup(v) matches Some(
                        cc,
                    ) ==> cc.creditor == k || cc.debtor == k) by {
                        assert(self.lookup(v) == old(self).lookup(v));
                    }
                }
                None
            },
        }
    }

    /// The cached relationships a peer still has in the primary map; ids
    /// that no longer resolve are filtered silently. Every returned
    /// relationship has the peer on one end, and every cached relationship
    /// with the peer on one end is returned.
    pub fn get_for_peer(&self, peer_id: &str) -> (r: Vec<CreditRelationship>)
        requires
            self.wf(),
        ensures
            self.for_peer_ok(peer_id@, r@),
            self.for_peer_complete(peer_id@, r@),
    {
        let owned = peer_id.to_owned();
        let n = self.by_peer.len();
        let mut e: usize = 0;
        while e < n
            invariant
                self.wf(),
                owned@ == peer_id@,
                n == self.by_peer@.len(),
                e <= n,
                forall|j: int| 0 <= j < e ==> self.by_peer@[j].0@ != peer_id@,
            decreases n - e,
        {
            if self.by_peer[e].0 == owned {
                let m = self.by_peer[e].1.len();
                let mut out: Vec<CreditRelationship> = Vec::new();
                let mut j: usize = 0;
                while j < m
                    invariant
                        self.wf(),
                        e < self.by_peer@.len(),
                        self.by_peer@[e as int].0@ == peer_id@,
                        m == self.by_peer@[e as int].1@.len(),
                        j <= m,
                        self.for_peer_ok(peer_id@, out@),
                        forall|jj: int|
                            0 <= jj < j ==> (self.lookup(
                                #[trigger] self.by_peer@[e as int].1.deep_view()[jj],
                            ) matches Some(cc) ==> exists|t: int|
                                0 <= t < out@.len() && (#[trigger] out@[t])@ == cc),
                    decreases m - j,
                {
                    let key = &self.by_peer[e].1[j];
                    let ghost before = out@;
                    match self.relationships.peek(key.as_str()) {
                        Some(rel) => {
                            proof {
                                assert(idx_pair_in(self.by_peer@, peer_id@, key@));
                                assert(self.lookup(key@) == Some(rel@));
                                assert(rel@.creditor == peer_id@ || rel@.debtor == peer_id@);
                            }
                            out.push(rel.clone());
                            proof {
                                assert forall|t: int| 0 <= t < out@.len() implies ((#[trigger] out@[
                                t
                            ])@.creditor == peer_id@ || out@[t]@.debtor == peer_id@) && exists|
                                k: Seq<char>,
                            |
                                #![trigger self.lookup(k)]
                                self.lookup(k) == Some(out@[t]@) by {
                                    if t < before.len() {
                                        assert(out@[t] == before[t]);
                                        assert(self.for_peer_ok(peer_id@, before));
                                        assert((before[t]@.creditor == peer_id@ || before[
                                        t
                                        ]@.debtor == peer_id@) && exists|k: Seq<char>|
                                            #![trigger self.lookup(k)]
                                            self.lookup(k) == Some(before[t]@));
                                    } else {
                                        assert(out@[t]@ == rel@);
                                        assert(self.lookup(key@) == Some(out@[t]@));
                                    }
                                }
                                assert(self.for_peer_ok(peer_id@, out@));
                            }
                        },
                        None => {},
                    }
                    proof {
                        assert forall|jj: int|
                            0 <= jj < j + 1 implies (self.lookup(
                                #[trigger] self.by_peer@[e as int].1.deep_view()[jj],
                            ) matches Some(cc) ==> exists|t: int|
                                0 <= t < out@.len() && (#[trigger] out@[t])@ == cc) by {
                            let kk = self.by_peer@[e as int].1.deep_view()[jj];
                            if self.lookup(kk) is Some {
                                let cc = self.lookup(kk).unwrap();
                                if jj < j {
                                    assert(exists|t: int|
                                        0 <= t < before.len() && (#[trigger] before[t])@ == cc);
                                    let w = choose|t: int|
                                        0 <= t < before.len() && (#[trigger] before[t])@ == cc;
                                    assert(out@[w] == before[w]);
                                    assert(out@[w]@ == cc);
                                } else {
                                    assert(kk == self.by_peer@[e as int].1@[jj]@);
                                    assert(out@.last()@ == cc);
                                }
                            }
                        }
                    }
                    j = j + 1;
                }
                proof {
                    assert forall|k: Seq<char>|
                        #![trigger self.lookup(k)]
                        (self.lookup(k) matches Some(cc) ==> ((cc.creditor == peer_id@
                            || cc.debtor == peer_id@) ==> exists|t: int|
                            0 <= t < out@.len() && (#[trigger] out@[t])@ == cc)) by {
                        if self.lookup(k) is Some {
                            let cc = self.lookup(k).unwrap();
                            if cc.creditor == peer_id@ || cc.debtor == peer_id@ {
                                let which: Seq<char> = if cc.creditor == peer_id@ {
                                    cc.creditor
                                } else {
                                    cc.debtor
                                };
                                assert(idx_pair_in(self.by_peer@, which, k));
                                let (a, b): (int, int) = choose|a: int, b: int|
                                    0 <= a < self.by_peer@.len() && 0 <= b < self.by_peer@[
                                    a
                                ].1@.len() && self.by_peer@[a].0@ == which
                                    && #[trigger] self.by_peer@[a].1@[b]@ == k;
                                assert(a == e) by {
                                    if a != e {
                                        assert(self.by_peer@[a].0@ == self.by_peer@[
                                        e as int
                                        ].0@);
                                    }
                                }
                                assert(self.by_peer@[e as int].1.deep_view()[b] == k);
                            }
                        }
                    }
                }
                return out;
            }
            e = e + 1;
        }
        let empty: Vec<CreditRelationship> = Vec::new();
        proof {
            assert(self.for_peer_ok(peer_id@, empty@));
            assert forall|k: Seq<char>|
                #![trigger self.lookup(k)]
                (self.lookup(k) matches Some(cc) ==> ((cc.creditor == peer_id@ || cc.debtor
                    == peer_id@) ==> exists|t: int|
                    0 <= t < empty@.len() && (#[trigger] empty@[t])@ == cc)) by {
                if self.lookup(k) is Some {
                    let cc = self.lookup(k).unwrap();
                    if cc.creditor == peer_id@ || cc.debtor == peer_id@ {
                        let which: Seq<char> = if cc.creditor == peer_id@ {
                            cc.creditor
                        } else {
                            cc.debtor
                        };
                        assert(idx_pair_in(self.by_peer@, which, k));
                        let (a, b): (int, int) = choose|a: int, b: int|
                            0 <= a < self.by_peer@.len() && 0 <= b < self.by_peer@[a].1@.len()
                                && self.by_peer@[a].0@ == which && #[trigger] self.by_peer@[
                            a
                            ].1@[b]@ == k;
                        assert(self.by_peer@[a].0@ != peer_id@);
                        assert(false);
                    }
                }
            }
        }
        empty
    }

    /// A snapshot of the active cached relationships, in recency order.
    pub fn get_active(&self) -> (r: Vec<CreditRelationship>)
        requires
            self.wf(),
        ensures
            credit_rows_view(r@) == self.cached_rows().filter(pred_active()),
    {
        let ghost rows = self.cached_rows();
        let ghost pred = pred_active();
        let n = self.relationships.len();
        let mut out: Vec<CreditRelationship> = Vec::new();
        let mut i: usize = 0;
        while i < n
            invariant
                self.wf(),
                n == self.relationships@.len(),
                rows == self.cached_rows(),
                pred == pred_active(),
                i <= n,
                credit_rows_view(out@) == rows.take(i as int).filter(pred),
            decreases n - i,
        {
            let ghost prevm = out@;
            proof {
                reveal(Seq::filter);
                assert(rows.take(i + 1).drop_last() =~= rows.take(i as int));
                assert(rows.take(i + 1).last() == rows[i as int]);
            }
            let v = self.relationships.value_at(i);
            if v.active {
                out.push(v.clone());
                proof {
                    assert(credit_rows_view(out@) =~= credit_rows_view(prevm).push(
                        rows[i as int],
                    ));
                }
            }
            i = i + 1;
        }
        proof {
            assert(rows.take(n as int) =~= rows);
        }
        out
    }

    /// The number of cached relationships.
    pub fn len(&self) -> (r: usize)
        ensures
            r == self.size(),
    {
        self.relationships.len()
    }

    /// Whether the cache is empty.
    pub fn is_empty(&self) -> (r: bool)
        ensures
            r == (self.size() == 0),
    {
        self.relationships.is_empty()
    }

    /// Drop every cached relationship and the whole index.
    pub fn clear(&mut self)
        requires
            old(self).wf(),
        ensures
            final(self).wf(),
            final(self).size() == 0,
            forall|k: Seq<char>| #[trigger] final(self).lookup(k) is None,
    {
        self.relationships.clear();
        self.by_peer.clear();
    }
}

/// Counts of what the combined cache currently holds.
#[derive(Debug, Clone, Copy, PartialEq, Eq, Structural)]
pub struct CacheStats {
    pub peer_count: usize,
    pub message_count: usize,
    pub credit_count: usize,
}

/// The combined cache of the replica: peers, messages, and credit
/// relationships.
pub struct StateCache {
    pub peers: PeerCache,
    pub messages: MessageCache,
    pub credits: CreditCache,
}

impl StateCache {
    pub open spec fn wf(&self) -> bool {
        &&& self.peers.wf()
        &&& self.messages.wf()
        &&& self.credits.wf()
    }

    /// A cache with the default capacities: 1000 peers, 5000 messages, 500
    /// credit relationships.
    pub fn new() -> (r: Self)
        ensures
            r.wf(),
            r.peers.size() == 0,
            r.messages.size() == 0,
            r.credits.size() == 0,
            forall|k: Seq<char>| #[trigger] r.peers.lookup(k) is None,
            forall|k: Seq<char>| #[trigger] r.messages.lookup(k) is None,
            forall|k: Seq<char>| #[trigger] r.credits.lookup(k) is None,
    {
        StateCache {
            peers: PeerCache::new(1000),
            messages: MessageCache::new(5000),
            credits: CreditCache::new(500),
        }
    }

    /// A cache with caller-chosen capacities.
    pub fn with_capacities(peer_cap: usize, msg_cap: usize, credit_cap: usize) -> (r: Self)
        ensures
            r.wf(),
            r.peers.size() == 0,
            r.messages.size() == 0,
            r.credits.size() == 0,
            forall|k: Seq<char>| #[trigger] r.peers.lookup(k) is None,
            forall|k: Seq<char>| #[trigger] r.messages.lookup(k) is None,
            forall|k: Seq<char>| #[trigger] r.credits.lookup(k) is None,
    {
        StateCache {
            peers: PeerCache::new(peer_cap),
            messages: MessageCache::new(msg_cap),
            credits: CreditCache::new(credit_cap),
        }
    }

    /// Drop everything from all three caches.
    pub fn clear_all(&mut self)
        requires
            old(self).wf(),
        ensures
            final(self).wf(),
            final(self).peers.size() == 0,
            final(self).messages.size() == 0,
            final(self).credits.size() == 0,
    {
        self.peers.clear();
        self.messages.clear();
        self.credits.clear();
    }

    /// How many entries each cache holds.
    pub fn stats(&self) -> (r: CacheStats)
        ensures
            r.peer_count == self.peers.size(),
            r.message_count == self.messages.size(),
            r.credit_count == self.credits.size(),
    {
        CacheStats {
            peer_count: self.peers.len(),
            message_count: self.messages.len(),
            credit_count: self.credits.len(),
        }
    }
}

} // verus!
