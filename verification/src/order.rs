//! Ordering helpers: a deterministic descending insertion sort at the
//! specification level, used by the store's listing operations, with proofs
//! that it sorts and that it keeps exactly the input elements.

use vstd::prelude::*;
use vstd::multiset::Multiset;
use vstd::seq_lib::lemma_multiset_commutative;

verus! {

/// The sequence is ordered by non-increasing key.
pub open spec fn sorted_desc_by<V>(s: Seq<V>, key: spec_fn(V) -> int) -> bool {
    forall|i: int, j: int| 0 <= i < j < s.len() ==> key(s[i]) >= key(s[j])
}

/// Insert `v` in front of the first element whose key is smaller.
pub open spec fn insert_desc<V>(s: Seq<V>, v: V, key: spec_fn(V) -> int) -> Seq<V>
    decreases s.len(),
{
    if s.len() == 0 {
        seq![v]
    } else if key(s[0]) >= key(v) {
        seq![s[0]] + insert_desc(s.drop_first(), v, key)
    } else {
        seq![v] + s
    }
}

/// Sort by non-increasing key, stably, by repeated insertion.
pub open spec fn sort_desc<V>(s: Seq<V>, key: spec_fn(V) -> int) -> Seq<V>
    decreases s.len(),
{
    if s.len() == 0 {
        Seq::empty()
    } else {
        insert_desc(sort_desc(s.drop_last(), key), s.last(), key)
    }
}

pub proof fn lemma_insert_desc_len<V>(s: Seq<V>, v: V, key: spec_fn(V) -> int)
    ensures
        insert_desc(s, v, key).len() == s.len() + 1,
    decreases s.len(),
{
    if s.len() > 0 && key(s[0]) >= key(v) {
        lemma_insert_desc_len(s.drop_first(), v, key);
    }
}

/// Inserting at the first position whose key is smaller is what
/// `insert_desc` computes.
pub proof fn lemma_insert_desc_at<V>(s: Seq<V>, v: V, key: spec_fn(V) -> int, pos: int)
    requires
        0 <= pos <= s.len(),
        forall|j: int| 0 <= j < pos ==> key(s[j]) >= key(v),
        pos < s.len() ==> key(s[pos]) < key(v),
    ensures
        insert_desc(s, v, key) == s.insert(pos, v),
    decreases s.len(),
{
    if s.len() == 0 {
        assert(insert_desc(s, v, key) =~= s.insert(pos, v));
    } else if pos == 0 {
        assert(key(s[0]) < key(v));
        assert(insert_desc(s, v, key) =~= s.insert(0, v));
    } else {
        assert(key(s[0]) >= key(v));
        assert forall|j: int| 0 <= j < pos - 1 implies key(s.drop_first()[j]) >= key(v) by {
            assert(s.drop_first()[j] == s[j + 1]);
        }
        if pos - 1 < s.drop_first().len() {
            assert(s.drop_first()[pos - 1] == s[pos]);
        }
        lemma_insert_desc_at(s.drop_first(), v, key, pos - 1);
        assert(insert_desc(s, v, key) =~= s.insert(pos, v)) by {
            assert(insert_desc(s, v, key) == seq![s[0]] + s.drop_first().insert(pos - 1, v));
        }
    }
}

/// Insertion keeps a sorted sequence sorted.
pub proof fn lemma_insert_desc_sorted<V>(s: Seq<V>, v: V, key: spec_fn(V) -> int)
    requires
        sorted_desc_by(s, key),
    ensures
        sorted_desc_by(insert_desc(s, v, key), key),
    decreases s.len(),
{
    if s.len() == 0 {
    } else if key(s[0]) >= key(v) {
        assert forall|i: int, j: int| 0 <= i < j < s.drop_first().len() implies key(
            s.drop_first()[i],
        ) >= key(s.drop_first()[j]) by {
            assert(s.drop_first()[i] == s[i + 1]);
            assert(s.drop_first()[j] == s[j + 1]);
        }
        lemma_insert_desc_sorted(s.drop_first(), v, key);
        lemma_insert_desc_len(s.drop_first(), v, key);
        let r = seq![s[0]] + insert_desc(s.drop_first(), v, key);
        let inner = insert_desc(s.drop_first(), v, key);
        assert forall|i: int, j: int| 0 <= i < j < r.len() implies key(r[i]) >= key(r[j]) by {
            if i == 0 {
                assert(r[j] == inner[j - 1]);
                lemma_insert_desc_head_key(s.drop_first(), v, key, j - 1);
                if s.drop_first().len() > 0 {
                    assert(key(s[0]) >= key(s.drop_first()[0])) by {
                        assert(s.drop_first()[0] == s[1]);
                    }
                }
            } else {
                assert(r[i] == inner[i - 1]);
                assert(r[j] == inner[j - 1]);
            }
        }
    } else {
        let r = seq![v] + s;
        assert forall|i: int, j: int| 0 <= i < j < r.len() implies key(r[i]) >= key(r[j]) by {
            if i == 0 {
                assert(r[j] == s[j - 1]);
                if j - 1 > 0 {
                    assert(key(s[0]) >= key(s[j - 1]));
                }
            } else {
                assert(r[i] == s[i - 1]);
                assert(r[j] == s[j - 1]);
            }
        }
    }
}

/// Every element of `insert_desc(s, v, key)` has a key no larger than the
/// largest of `key(v)` and the keys of `s`; in particular, each element is
/// bounded by the head of the original sorted sequence or `v`.
proof fn lemma_insert_desc_head_key<V>(s: Seq<V>, v: V, key: spec_fn(V) -> int, i: int)
    requires
        sorted_desc_by(s, key),
        0 <= i < insert_desc(s, v, key).len(),
    ensures
        key(insert_desc(s, v, key)[i]) <= key(v) || (s.len() > 0 && key(insert_desc(s, v, key)[i])
            <= key(s[0])),
    decreases s.len(),
{
    lemma_insert_desc_len(s, v, key);
    if s.len() == 0 {
    } else if key(s[0]) >= key(v) {
        let inner = insert_desc(s.drop_first(), v, key);
        if i > 0 {
            assert forall|a: int, b: int| 0 <= a < b < s.drop_first().len() implies key(
                s.drop_first()[a],
            ) >= key(s.drop_first()[b]) by {
                assert(s.drop_first()[a] == s[a + 1]);
                assert(s.drop_first()[b] == s[b + 1]);
            }
            lemma_insert_desc_head_key(s.drop_first(), v, key, i - 1);
            if s.drop_first().len() > 0 {
                assert(s.drop_first()[0] == s[1]);
                assert(key(s[0]) >= key(s[1]));
            }
        }
    } else {
        if i > 0 {
            assert(insert_desc(s, v, key)[i] == s[i - 1]);
            if i - 1 > 0 {
                assert(key(s[0]) >= key(s[i - 1]));
            }
        }
    }
}

/// Insertion adds exactly the inserted element to the multiset of elements.
pub proof fn lemma_insert_desc_multiset<V>(s: Seq<V>, v: V, key: spec_fn(V) -> int)
    ensures
        insert_desc(s, v, key).to_multiset() == s.to_multiset().insert(v),
    decreases s.len(),
{
    broadcast use vstd::seq_lib::group_seq_lib_default;

    if s.len() == 0 {
        assert(s =~= Seq::<V>::empty());
        assert(seq![v] =~= Seq::empty().push(v));
        Seq::<V>::empty().to_multiset_ensures();
        assert(insert_desc(s, v, key).to_multiset() =~= s.to_multiset().insert(v));
    } else if key(s[0]) >= key(v) {
        lemma_insert_desc_multiset(s.drop_first(), v, key);
        let inner = insert_desc(s.drop_first(), v, key);
        lemma_multiset_commutative(seq![s[0]], inner);
        lemma_multiset_commutative(seq![s[0]], s.drop_first());
        assert(s =~= seq![s[0]] + s.drop_first());
        assert(seq![s[0]].to_multiset() =~= Multiset::empty().insert(s[0])) by {
            assert(seq![s[0]] =~= Seq::empty().push(s[0]));
            Seq::<V>::empty().to_multiset_ensures();
        }
        assert((seq![s[0]] + inner).to_multiset() =~= s.to_multiset().insert(v));
    } else {
        lemma_multiset_commutative(seq![v], s);
        assert(seq![v].to_multiset() =~= Multiset::empty().insert(v)) by {
            assert(seq![v] =~= Seq::empty().push(v));
            Seq::<V>::empty().to_multiset_ensures();
        }
        assert((seq![v] + s).to_multiset() =~= s.to_multiset().insert(v));
    }
}

/// The sorted sequence is ordered by non-increasing key.
pub proof fn lemma_sort_desc_sorted<V>(s: Seq<V>, key: spec_fn(V) -> int)
    ensures
        sorted_desc_by(sort_desc(s, key), key),
    decreases s.len(),
{
    if s.len() > 0 {
        lemma_sort_desc_sorted(s.drop_last(), key);
        lemma_insert_desc_sorted(sort_desc(s.drop_last(), key), s.last(), key);
    }
}

/// The sorted sequence holds exactly the elements of the input.
pub proof fn lemma_sort_desc_multiset<V>(s: Seq<V>, key: spec_fn(V) -> int)
    ensures
        sort_desc(s, key).to_multiset() == s.to_multiset(),
        sort_desc(s, key).len() == s.len(),
    decreases s.len(),
{
    broadcast use vstd::seq_lib::group_to_multiset_ensures;

    if s.len() == 0 {
    } else {
        lemma_sort_desc_multiset(s.drop_last(), key);
        lemma_insert_desc_multiset(sort_desc(s.drop_last(), key), s.last(), key);
        lemma_insert_desc_len(sort_desc(s.drop_last(), key), s.last(), key);
        assert(s =~= s.drop_last().push(s.last()));
        assert(s.drop_last().push(s.last()).to_multiset() =~= s.drop_last().to_multiset().insert(
            s.last(),
        ));
    }
}

/// The first `n` elements, or the whole sequence when it is shorter.
pub open spec fn take_at_most<V>(s: Seq<V>, n: int) -> Seq<V> {
    if n <= s.len() {
        s.take(n)
    } else {
        s
    }
}

/// Mapping a function over a sequence commutes with inserting one element.
pub proof fn lemma_map_values_insert<T, U>(s: Seq<T>, pos: int, t: T, f: spec_fn(T) -> U)
    requires
        0 <= pos <= s.len(),
    ensures
        s.insert(pos, t).map_values(f) == s.map_values(f).insert(pos, f(t)),
{
    s.insert_ensures(pos, t);
    s.map_values(f).insert_ensures(pos, f(t));
    assert(s.insert(pos, t).map_values(f) =~= s.map_values(f).insert(pos, f(t)));
}

/// Mapping a function over a sequence commutes with removing one element.
pub proof fn lemma_map_values_remove<T, U>(s: Seq<T>, i: int, f: spec_fn(T) -> U)
    requires
        0 <= i < s.len(),
    ensures
        s.remove(i).map_values(f) == s.map_values(f).remove(i),
{
    s.remove_ensures(i);
    s.map_values(f).remove_ensures(i);
    assert(s.remove(i).map_values(f) =~= s.map_values(f).remove(i));
}




} // verus!
