//! Vector clocks for causality tracking.
//!
//! A vector clock maps peer ids to 64-bit tick counters; a peer that does
//! not appear counts as zero. Clocks are merged element-wise by maximum.

use vstd::prelude::*;

verus! {

/// The tick a clock model assigns to a peer id: the stored counter, or zero
/// when the peer does not appear.
pub open spec fn spec_tick(m: Map<Seq<char>, u64>, k: Seq<char>) -> u64 {
    if m.dom().contains(k) {
        m[k]
    } else {
        0
    }
}

/// The larger of two ticks.
pub open spec fn max_tick(a: u64, b: u64) -> u64 {
    if a >= b {
        a
    } else {
        b
    }
}

/// Element-wise maximum of two clock models; its domain is the union of the
/// two domains.
pub open spec fn spec_merge(a: Map<Seq<char>, u64>, b: Map<Seq<char>, u64>) -> Map<
    Seq<char>,
    u64,
> {
    Map::new(
        |k: Seq<char>| a.dom().contains(k) || b.dom().contains(k),
        |k: Seq<char>| max_tick(spec_tick(a, k), spec_tick(b, k)),
    )
}

/// `a` happens before `b`: no tick of `a` exceeds the matching tick of `b`,
/// and at least one is strictly smaller.
pub open spec fn spec_happens_before(a: Map<Seq<char>, u64>, b: Map<Seq<char>, u64>) -> bool {
    &&& forall|k: Seq<char>| spec_tick(a, k) <= spec_tick(b, k)
    &&& exists|k: Seq<char>| spec_tick(a, k) < spec_tick(b, k)
}

/// Merging is commutative.
pub proof fn lemma_merge_commutative(a: Map<Seq<char>, u64>, b: Map<Seq<char>, u64>)
    ensures
        spec_merge(a, b) == spec_merge(b, a),
{
    assert(spec_merge(a, b) =~= spec_merge(b, a));
}

/// Merging is associative.
pub proof fn lemma_merge_associative(
    a: Map<Seq<char>, u64>,
    b: Map<Seq<char>, u64>,
    c: Map<Seq<char>, u64>,
)
    ensures
        spec_merge(spec_merge(a, b), c) == spec_merge(a, spec_merge(b, c)),
{
    assert(spec_merge(spec_merge(a, b), c) =~= spec_merge(a, spec_merge(b, c)));
}

/// Merging a clock with itself gives it back.
pub proof fn lemma_merge_idempotent(a: Map<Seq<char>, u64>)
    ensures
        spec_merge(a, a) == a,
{
    assert(spec_merge(a, a) =~= a);
}

/// Merging never lowers a tick, and takes exactly the element-wise maximum.
pub proof fn lemma_merge_is_elementwise_max(
    a: Map<Seq<char>, u64>,
    b: Map<Seq<char>, u64>,
    k: Seq<char>,
)
    ensures
        spec_tick(spec_merge(a, b), k) == max_tick(spec_tick(a, k), spec_tick(b, k)),
        spec_tick(spec_merge(a, b), k) >= spec_tick(a, k),
        spec_tick(spec_merge(a, b), k) >= spec_tick(b, k),
{
}

/// Vector clock for tracking causality.
#[derive(Debug)]
pub struct VectorClock {
    clocks: Vec<(String, u64)>,
}

/// Whether an entry sequence holds the key `k`.
spec fn has_entry(s: Seq<(String, u64)>, k: Seq<char>) -> bool {
    exists|i: int| 0 <= i < s.len() && s[i].0@ == k
}

/// An index at which an entry sequence holds the key `k`.
spec fn entry_index(s: Seq<(String, u64)>, k: Seq<char>) -> int {
    choose|i: int| 0 <= i < s.len() && s[i].0@ == k
}

impl View for VectorClock {
    type V = Map<Seq<char>, u64>;

    closed spec fn view(&self) -> Map<Seq<char>, u64> {
        Map::new(
            |k: Seq<char>| has_entry(self.clocks@, k),
            |k: Seq<char>| self.clocks@[entry_index(self.clocks@, k)].1,
        )
    }
}

impl VectorClock {
    /// Entry keys are distinct and recorded ticks are positive, so each
    /// peer has exactly one counter and an absent peer means tick zero.
    pub closed spec fn wf(&self) -> bool {
        &&& forall|i: int, j: int|
            0 <= i < j < self.clocks@.len() ==> self.clocks@[i].0@ != self.clocks@[j].0@
        &&& forall|i: int| 0 <= i < self.clocks@.len() ==> self.clocks@[i].1 > 0
    }

    /// The tick this clock assigns to a peer id.
    pub open spec fn tick(&self, k: Seq<char>) -> u64 {
        spec_tick(self@, k)
    }

    proof fn lemma_view_at(&self, i: int)
        requires
            self.wf(),
            0 <= i < self.clocks@.len(),
        ensures
            self@.dom().contains(self.clocks@[i].0@),
            self@[self.clocks@[i].0@] == self.clocks@[i].1,
    {
        let k = self.clocks@[i].0@;
        assert(has_entry(self.clocks@, k));
        let w = entry_index(self.clocks@, k);
        assert(self.clocks@[w].0@ == k);
        if w != i {
            assert(false);
        }
    }

    proof fn lemma_view_absent(&self, k: Seq<char>)
        requires
            forall|i: int| 0 <= i < self.clocks@.len() ==> self.clocks@[i].0@ != k,
        ensures
            !self@.dom().contains(k),
            spec_tick(self@, k) == 0,
    {
        assert(!has_entry(self.clocks@, k));
    }

    /// Create a new vector clock with no recorded ticks.
    pub fn new() -> (r: Self)
        ensures
            r@ == Map::<Seq<char>, u64>::empty(),
            r.wf(),
    {
        let r = VectorClock { clocks: Vec::new() };
        proof {
            assert(r@ =~= Map::<Seq<char>, u64>::empty());
        }
        r
    }

    /// Position of the entry for `key`, if one exists.
    fn find(&self, key: &str) -> (r: Option<usize>)
        ensures
            match r {
                Some(i) => i < self.clocks@.len() && self.clocks@[i as int].0@ == key@,
                None => forall|j: int|
                    0 <= j < self.clocks@.len() ==> self.clocks@[j].0@ != key@,
            },
    {
        let owned = key.to_owned();
        let n = self.clocks.len();
        let mut i: usize = 0;
        while i < n
            invariant
                n == self.clocks@.len(),
                owned@ == key@,
                i <= n,
                forall|j: int| 0 <= j < i ==> self.clocks@[j].0@ != key@,
            decreases n - i,
        {
            if self.clocks[i].0 == owned {
                return Some(i);
            }
            i = i + 1;
        }
        None
    }

    /// Get the clock value for a peer (zero when the peer never ticked).
    pub fn get(&self, peer_id: &str) -> (r: u64)
        requires
            self.wf(),
        ensures
            r == self.tick(peer_id@),
    {
        match self.find(peer_id) {
            Some(i) => {
                proof {
                    self.lemma_view_at(i as int);
                }
                self.clocks[i].1
            },
            None => {
                proof {
                    self.lemma_view_absent(peer_id@);
                }
                0
            },
        }
    }

    /// Set the tick for `key` to exactly `val`.
    fn set_tick(&mut self, key: &String, val: u64)
        requires
            old(self).wf(),
            val > 0,
        ensures
            final(self).wf(),
            final(self)@ == old(self)@.insert(key@, val),
    {
        let ghost target = old(self)@.insert(key@, val);
        match self.find(key.as_str()) {
            Some(i) => {
                proof {
                    self.lemma_view_at(i as int);
                }
                self.clocks.set(i, (key.clone(), val));
                proof {
                    self.lemma_after_set(*old(self), i as int, key@, val);
                }
            },
            None => {
                self.clocks.push((key.clone(), val));
                proof {
                    old(self).lemma_view_absent(key@);
                    self.lemma_after_push(*old(self), key@, val);
                }
            },
        }
    }

    /// After replacing entry `i` with `(k, val)` where entry `i` already had
    /// key `k`, the view is the old view with `k` remapped to `val`.
    proof fn lemma_after_set(&self, prev: Self, i: int, k: Seq<char>, val: u64)
        requires
            prev.wf(),
            0 <= i < prev.clocks@.len(),
            prev.clocks@[i].0@ == k,
            val > 0,
            self.clocks@ == prev.clocks@.update(i, (self.clocks@[i].0, val)),
            self.clocks@[i].0@ == k,
        ensures
            self.wf(),
            self@ == prev@.insert(k, val),
    {
        assert forall|a: int, b: int| 0 <= a < b < self.clocks@.len() implies self.clocks@[a].0@
            != self.clocks@[b].0@ by {
            assert(prev.clocks@[a].0@ != prev.clocks@[b].0@);
        }
        let target = prev@.insert(k, val);
        assert forall|q: Seq<char>| #[trigger]
            has_entry(self.clocks@, q) == has_entry(prev.clocks@, q) by {
            if has_entry(prev.clocks@, q) {
                let w = entry_index(prev.clocks@, q);
                assert(self.clocks@[w].0@ == q);
            }
            if has_entry(self.clocks@, q) {
                let w = entry_index(self.clocks@, q);
                assert(prev.clocks@[w].0@ == q);
            }
        }
        assert forall|q: Seq<char>| has_entry(self.clocks@, q) implies self@[q] == target[q] by {
            let w = entry_index(self.clocks@, q);
            assert(self.clocks@[w].0@ == q);
            if q == k {
                assert(w == i) by {
                    if w != i {
                        assert(prev.clocks@[w].0@ == q);
                    }
                }
                self.lemma_view_at(w);
            } else {
                assert(w != i);
                assert(prev.clocks@[w].0@ == q);
                prev.lemma_view_at(w);
                self.lemma_view_at(w);
            }
        }
        assert(prev@.dom().contains(k)) by {
            prev.lemma_view_at(i);
        }
        assert(self@ =~= target);
    }

    /// After pushing a fresh entry `(k, val)`, the view is the old view with
    /// `k` mapped to `val`.
    proof fn lemma_after_push(&self, prev: Self, k: Seq<char>, val: u64)
        requires
            prev.wf(),
            forall|j: int| 0 <= j < prev.clocks@.len() ==> prev.clocks@[j].0@ != k,
            val > 0,
            self.clocks@.len() == prev.clocks@.len() + 1,
            self.clocks@ == prev.clocks@.push(self.clocks@.last()),
            self.clocks@.last().0@ == k,
            self.clocks@.last().1 == val,
        ensures
            self.wf(),
            self@ == prev@.insert(k, val),
    {
        let n = prev.clocks@.len() as int;
        assert forall|a: int, b: int| 0 <= a < b < self.clocks@.len() implies self.clocks@[a].0@
            != self.clocks@[b].0@ by {
            if b < n {
                assert(prev.clocks@[a].0@ != prev.clocks@[b].0@);
            } else {
                assert(prev.clocks@[a].0@ != k);
            }
        }
        let target = prev@.insert(k, val);
        assert forall|q: Seq<char>| has_entry(self.clocks@, q) implies self@[q] == target[q] by {
            let w = entry_index(self.clocks@, q);
            assert(self.clocks@[w].0@ == q);
            if q == k {
                assert(w == n) by {
                    if w < n {
                        assert(prev.clocks@[w].0@ == q);
                    }
                }
                self.lemma_view_at(w);
            } else {
                assert(w < n);
                assert(prev.clocks@[w].0@ == q);
                prev.lemma_view_at(w);
                self.lemma_view_at(w);
            }
        }
        assert forall|q: Seq<char>| #[trigger] target.dom().contains(q) implies
            self@.dom().contains(q) by {
            if q == k {
                assert(self.clocks@[n].0@ == q);
                assert(has_entry(self.clocks@, q));
            } else {
                let w = entry_index(prev.clocks@, q);
                assert(self.clocks@[w].0@ == q);
                assert(has_entry(self.clocks@, q));
            }
        }
        assert forall|q: Seq<char>| #[trigger] self@.dom().contains(q) implies
            target.dom().contains(q) by {
            let w = entry_index(self.clocks@, q);
            if w < n {
                assert(prev.clocks@[w].0@ == q);
                prev.lemma_view_at(w);
            }
        }
        assert(self@ =~= target);
    }

    /// Increment the clock for a peer.
    pub fn increment(&mut self, peer_id: &str)
        requires
            old(self).wf(),
            old(self).tick(peer_id@) < u64::MAX,
        ensures
            final(self).wf(),
            final(self)@ == old(self)@.insert(peer_id@, (old(self).tick(peer_id@) + 1) as u64),
    {
        let current = self.get(peer_id);
        let owned = peer_id.to_owned();
        self.set_tick(&owned, current + 1);
    }

    /// Merge with another vector clock, taking the maximum of each tick.
    pub fn merge(&mut self, other: &VectorClock)
        requires
            old(self).wf(),
            other.wf(),
        ensures
            final(self).wf(),
            final(self)@ == spec_merge(old(self)@, other@),
    {
        let ghost orig = old(self)@;
        let n = other.clocks.len();
        let mut i: usize = 0;
        while i < n
            invariant
                self.wf(),
                other.wf(),
                n == other.clocks@.len(),
                i <= n,
                forall|k: Seq<char>| #[trigger] spec_tick(self@, k) == (
                    if has_entry_prefix(other.clocks@, i as int, k) {
                        max_tick(spec_tick(orig, k), spec_tick(other@, k))
                    } else {
                        spec_tick(orig, k)
                    }),
                forall|k: Seq<char>| #[trigger] self@.dom().contains(k) == (orig.dom().contains(k)
                    || (has_entry_prefix(other.clocks@, i as int, k) && spec_tick(other@, k)
                    > spec_tick(orig, k))),
            decreases n - i,
        {
            let ghost before = self@;
            let entry_key = other.clocks[i].0.clone();
            let entry_val = other.clocks[i].1;
            proof {
                other.lemma_view_at(i as int);
            }
            let cur = self.get(entry_key.as_str());
            if entry_val > cur {
                self.set_tick(&entry_key, entry_val);
            }
            proof {
                let s = other.clocks@;
                let ii = i as int;
                assert(s[ii].0@ == entry_key@);
                lemma_prefix_unique(s, ii);
                assert forall|k: Seq<char>| #[trigger] spec_tick(self@, k) == (
                    if has_entry_prefix(s, ii + 1, k) {
                        max_tick(spec_tick(orig, k), spec_tick(other@, k))
                    } else {
                        spec_tick(orig, k)
                    }) by {
                    lemma_prefix_step(s, ii, k);
                    assert(spec_tick(before, k) == (if has_entry_prefix(s, ii, k) {
                        max_tick(spec_tick(orig, k), spec_tick(other@, k))
                    } else {
                        spec_tick(orig, k)
                    }));
                }
                assert forall|k: Seq<char>| #[trigger] self@.dom().contains(k) == (
                    orig.dom().contains(k) || (has_entry_prefix(s, ii + 1, k)
                    && spec_tick(other@, k) > spec_tick(orig, k))) by {
                    lemma_prefix_step(s, ii, k);
                    assert(before.dom().contains(k) == (orig.dom().contains(k)
                        || (has_entry_prefix(s, ii, k) && spec_tick(other@, k) > spec_tick(
                        orig,
                        k,
                    ))));
                    assert(spec_tick(before, k) == (if has_entry_prefix(s, ii, k) {
                        max_tick(spec_tick(orig, k), spec_tick(other@, k))
                    } else {
                        spec_tick(orig, k)
                    }));
                    if k == entry_key@ && spec_tick(orig, k) > 0 {
                        assert(orig.dom().contains(k));
                    }
                }
            }
            i = i + 1;
        }
        proof {
            let s = other.clocks@;
            let nn = n as int;
            assert forall|k: Seq<char>| #[trigger] has_entry_prefix(s, nn, k)
                == other@.dom().contains(k) by {
                if has_entry_prefix(s, nn, k) {
                    let w = choose|j: int| 0 <= j < nn && s[j].0@ == k;
                    other.lemma_view_at(w);
                }
                if other@.dom().contains(k) {
                    assert(has_entry(s, k));
                    let w = entry_index(s, k);
                    assert(0 <= w < nn && s[w].0@ == k);
                    assert(has_entry_prefix(s, nn, k));
                }
            }
            assert forall|k: Seq<char>| #[trigger] self@.dom().contains(k)
                == spec_merge(orig, other@).dom().contains(k) by {
                assert(self@.dom().contains(k) == (orig.dom().contains(k) || (has_entry_prefix(
                    s,
                    nn,
                    k,
                ) && spec_tick(other@, k) > spec_tick(orig, k))));
                if other@.dom().contains(k) && spec_tick(other@, k) <= spec_tick(orig, k) {
                    let w = entry_index(s, k);
                    other.lemma_view_at(w);
                    assert(spec_tick(other@, k) > 0);
                    assert(orig.dom().contains(k));
                }
            }
            assert forall|k: Seq<char>| self@.dom().contains(k) implies self@[k] == spec_merge(
                orig,
                other@,
            )[k] by {
                assert(spec_tick(self@, k) == (if has_entry_prefix(s, nn, k) {
                    max_tick(spec_tick(orig, k), spec_tick(other@, k))
                } else {
                    spec_tick(orig, k)
                }));
            }
            assert(self@ =~= spec_merge(orig, other@));
        }
    }

    /// Check whether this clock happens-before another: nowhere ahead, and
    /// strictly behind somewhere.
    pub fn happens_before(&self, other: &VectorClock) -> (r: bool)
        requires
            self.wf(),
            other.wf(),
        ensures
            r == spec_happens_before(self@, other@),
    {
        let mut dominated = false;
        let n = self.clocks.len();
        let mut i: usize = 0;
        while i < n
            invariant
                self.wf(),
                other.wf(),
                n == self.clocks@.len(),
                i <= n,
                forall|j: int| #![trigger self.clocks@[j]]
                    0 <= j < i ==> self.clocks@[j].1 <= spec_tick(other@, self.clocks@[j].0@),
                dominated ==> exists|k: Seq<char>| spec_tick(self@, k) < spec_tick(other@, k),
            decreases n - i,
        {
            let value = self.clocks[i].1;
            proof {
                self.lemma_view_at(i as int);
            }
            let other_value = other.get(self.clocks[i].0.as_str());
            if value > other_value {
                proof {
                    let k = self.clocks@[i as int].0@;
                    assert(spec_tick(self@, k) > spec_tick(other@, k));
                }
                return false;
            }
            if value < other_value {
                proof {
                    let k = self.clocks@[i as int].0@;
                    assert(spec_tick(self@, k) < spec_tick(other@, k));
                }
                dominated = true;
            }
            i = i + 1;
        }
        proof {
            assert forall|k: Seq<char>| spec_tick(self@, k) <= spec_tick(other@, k) by {
                if has_entry(self.clocks@, k) {
                    let w = entry_index(self.clocks@, k);
                    self.lemma_view_at(w);
                } else {
                    self.lemma_view_absent(k);
                }
            }
        }
        let m = other.clocks.len();
        let mut j: usize = 0;
        while j < m
            invariant
                self.wf(),
                other.wf(),
                m == other.clocks@.len(),
                j <= m,
                forall|k: Seq<char>| spec_tick(self@, k) <= spec_tick(other@, k),
                dominated ==> exists|k: Seq<char>| spec_tick(self@, k) < spec_tick(other@, k),
                !dominated ==> forall|t: int| #![trigger other.clocks@[t]]
                    0 <= t < j ==> spec_tick(self@, other.clocks@[t].0@) >= other.clocks@[t].1,
            decreases m - j,
        {
            let value = other.clocks[j].1;
            proof {
                other.lemma_view_at(j as int);
            }
            let own = self.get(other.clocks[j].0.as_str());
            if own < value {
                proof {
                    let k = other.clocks@[j as int].0@;
                    assert(spec_tick(self@, k) < spec_tick(other@, k));
                }
                dominated = true;
            }
            j = j + 1;
        }
        proof {
            if !dominated {
                assert forall|k: Seq<char>| spec_tick(self@, k) >= spec_tick(other@, k) by {
                    if has_entry(other.clocks@, k) {
                        let w = entry_index(other.clocks@, k);
                        other.lemma_view_at(w);
                    } else {
                        other.lemma_view_absent(k);
                    }
                }
            }
        }
        dominated
    }

    /// Check whether this clock is concurrent with another: neither
    /// happens-before the other.
    pub fn is_concurrent(&self, other: &VectorClock) -> (r: bool)
        requires
            self.wf(),
            other.wf(),
        ensures
            r == (!spec_happens_before(self@, other@) && !spec_happens_before(other@, self@)),
    {
        !self.happens_before(other) && !other.happens_before(self)
    }
}

impl Clone for VectorClock {
    fn clone(&self) -> (res: Self)
        ensures
            res@ == self@,
            self.wf() ==> res.wf(),
    {
        let mut entries: Vec<(String, u64)> = Vec::new();
        let n = self.clocks.len();
        let mut i: usize = 0;
        while i < n
            invariant
                n == self.clocks@.len(),
                i <= n,
                entries@.len() == i,
                forall|j: int| 0 <= j < i ==> entries@[j] == self.clocks@[j],
            decreases n - i,
        {
            entries.push((self.clocks[i].0.clone(), self.clocks[i].1));
            i = i + 1;
        }
        let res = VectorClock { clocks: entries };
        proof {
            assert(res.clocks@ =~= self.clocks@);
        }
        res
    }
}

/// Whether one of the first `i` entries holds the key `k`.
spec fn has_entry_prefix(s: Seq<(String, u64)>, i: int, k: Seq<char>) -> bool {
    exists|j: int| 0 <= j < i && s[j].0@ == k
}

proof fn lemma_prefix_step(s: Seq<(String, u64)>, i: int, k: Seq<char>)
    requires
        0 <= i < s.len(),
    ensures
        has_entry_prefix(s, i + 1, k) == (has_entry_prefix(s, i, k) || s[i].0@ == k),
{
    if has_entry_prefix(s, i + 1, k) {
        let w = choose|j: int| 0 <= j < i + 1 && s[j].0@ == k;
        if w < i {
            assert(has_entry_prefix(s, i, k));
        } else {
            assert(s[i].0@ == k);
        }
    }
    if has_entry_prefix(s, i, k) {
        let w = choose|j: int| 0 <= j < i && s[j].0@ == k;
        assert(0 <= w < i + 1 && s[w].0@ == k);
        assert(has_entry_prefix(s, i + 1, k));
    }
    if s[i].0@ == k {
        assert(0 <= i < i + 1 && s[i].0@ == k);
        assert(has_entry_prefix(s, i + 1, k));
    }
}

proof fn lemma_prefix_unique(s: Seq<(String, u64)>, i: int)
    requires
        0 <= i < s.len(),
        forall|a: int, b: int| 0 <= a < b < s.len() ==> s[a].0@ != s[b].0@,
    ensures
        !has_entry_prefix(s, i, s[i].0@),
{
    if has_entry_prefix(s, i, s[i].0@) {
        let w = choose|j: int| 0 <= j < i && s[j].0@ == s[i].0@;
        assert(s[w].0@ != s[i].0@);
    }
}

} // verus!
