//! Sequences of entries in ascending key order: the mathematical model of the
//! map, and the operations on it that the tree implements.

use crate::keys::{lemma_lt_transitive, lemma_trichotomy, lt, total_order};
use vstd::prelude::*;

verus! {

/// The keys of `s` ascend strictly.
pub open spec fn keys_sorted<K: Ord, V>(s: Seq<(K, V)>) -> bool {
    forall|i: int, j: int| #![trigger s[i], s[j]] 0 <= i < j < s.len() ==> lt(s[i].0, s[j].0)
}

/// The place of `key` in `s`: the index behind the last entry whose key sorts
/// before `key`. In a sorted sequence this is the number of keys below `key`.
pub open spec fn rank<K: Ord, V>(s: Seq<(K, V)>, key: K) -> int
    decreases s.len(),
{
    if s.len() == 0 {
        0
    } else if lt(s.last().0, key) {
        s.len() as int
    } else {
        rank(s.drop_last(), key)
    }
}

/// Whether the sorted sequence `s` holds an entry for `key`.
pub open spec fn contains_key<K: Ord, V>(s: Seq<(K, V)>, key: K) -> bool {
    rank(s, key) < s.len() && s[rank(s, key)].0 == key
}

/// The entry of `key` in the sorted sequence `s`.
pub open spec fn find<K: Ord, V>(s: Seq<(K, V)>, key: K) -> Option<(K, V)> {
    if contains_key(s, key) {
        Some(s[rank(s, key)])
    } else {
        None
    }
}

/// The value of `key` in the sorted sequence `s`.
pub open spec fn lookup<K: Ord, V>(s: Seq<(K, V)>, key: K) -> Option<V> {
    if contains_key(s, key) {
        Some(s[rank(s, key)].1)
    } else {
        None
    }
}

/// `s` with `key` bound to `value`: the entry of `key` is replaced where there
/// is one, and a new entry takes its place in the order where there is none.
pub open spec fn upsert<K: Ord, V>(s: Seq<(K, V)>, key: K, value: V) -> Seq<(K, V)> {
    if contains_key(s, key) {
        s.update(rank(s, key), (key, value))
    } else {
        s.insert(rank(s, key), (key, value))
    }
}

/// `s` without the entry of `key`.
pub open spec fn without<K: Ord, V>(s: Seq<(K, V)>, key: K) -> Seq<(K, V)> {
    if contains_key(s, key) {
        s.remove(rank(s, key))
    } else {
        s
    }
}

/// In a sorted sequence the entries before `rank(s, key)` are those with a key
/// below `key`.
pub proof fn lemma_rank<K: Ord, V>(s: Seq<(K, V)>, key: K)
    requires
        total_order::<K>(),
        keys_sorted(s),
    ensures
        0 <= rank(s, key) <= s.len(),
        forall|i: int| 0 <= i < rank(s, key) ==> lt(#[trigger] s[i].0, key),
        forall|i: int| rank(s, key) <= i < s.len() ==> !lt(#[trigger] s[i].0, key),
    decreases s.len(),
{
    if s.len() == 0 {
    } else if lt(s.last().0, key) {
        assert forall|i: int| 0 <= i < s.len() implies lt(#[trigger] s[i].0, key) by {
            if i < s.len() - 1 {
                assert(lt(s[i].0, s[s.len() - 1].0));
                lemma_lt_transitive(s[i].0, s.last().0, key);
            }
        }
    } else {
        let front = s.drop_last();
        assert forall|i: int, j: int| 0 <= i < j < front.len() implies lt(
            front[i].0,
            front[j].0,
        ) by {
            assert(lt(s[i].0, s[j].0));
        }
        lemma_rank(front, key);
        assert forall|i: int| 0 <= i < rank(s, key) implies lt(#[trigger] s[i].0, key) by {
            assert(s[i] == front[i]);
        }
        assert forall|i: int| rank(s, key) <= i < s.len() implies !lt(#[trigger] s[i].0, key) by {
            if i < s.len() - 1 {
                assert(s[i] == front[i]);
            }
        }
    }
}

/// An index that parts the keys below `key` from the others is `rank(s, key)`.
pub proof fn lemma_rank_is<K: Ord, V>(s: Seq<(K, V)>, key: K, p: int)
    requires
        0 <= p <= s.len(),
        forall|i: int| 0 <= i < p ==> lt(#[trigger] s[i].0, key),
        forall|i: int| p <= i < s.len() ==> !lt(#[trigger] s[i].0, key),
    ensures
        rank(s, key) == p,
    decreases s.len(),
{
    if s.len() == 0 {
    } else if lt(s.last().0, key) {
        if p < s.len() {
            assert(!lt(s[s.len() - 1].0, key));
        }
    } else {
        if p == s.len() {
            assert(lt(s[s.len() - 1].0, key));
        }
        let front = s.drop_last();
        assert forall|i: int| 0 <= i < p implies lt(#[trigger] front[i].0, key) by {
            assert(front[i] == s[i]);
        }
        assert forall|i: int| p <= i < front.len() implies !lt(#[trigger] front[i].0, key) by {
            assert(front[i] == s[i]);
        }
        lemma_rank_is(front, key, p);
    }
}

/// The key at index `i` of a sorted sequence has rank `i`.
pub proof fn lemma_rank_of_member<K: Ord, V>(s: Seq<(K, V)>, i: int)
    requires
        total_order::<K>(),
        keys_sorted(s),
        0 <= i < s.len(),
    ensures
        rank(s, s[i].0) == i,
        contains_key(s, s[i].0),
        find(s, s[i].0) == Some(s[i]),
{
    let key = s[i].0;
    assert forall|j: int| 0 <= j < i implies lt(#[trigger] s[j].0, key) by {
        assert(lt(s[j].0, s[i].0));
    }
    assert forall|j: int| i <= j < s.len() implies !lt(#[trigger] s[j].0, key) by {
        lemma_trichotomy(s[j].0, key);
        if i < j {
            assert(lt(s[i].0, s[j].0));
        }
    }
    lemma_rank_is(s, key, i);
}

/// A sorted sequence holds a key exactly when one of its entries has it.
pub proof fn lemma_contains_key<K: Ord, V>(s: Seq<(K, V)>, key: K)
    requires
        total_order::<K>(),
        keys_sorted(s),
    ensures
        contains_key(s, key) <==> exists|i: int| 0 <= i < s.len() && #[trigger] s[i].0 == key,
{
    lemma_rank(s, key);
    if exists|i: int| 0 <= i < s.len() && #[trigger] s[i].0 == key {
        let i = choose|i: int| 0 <= i < s.len() && #[trigger] s[i].0 == key;
        lemma_rank_of_member(s, i);
    }
    if contains_key(s, key) {
        assert(s[rank(s, key)].0 == key);
    }
}

/// The pieces of a sorted sequence are sorted.
pub proof fn lemma_sorted_pieces<K: Ord, V>(a: Seq<(K, V)>, b: Seq<(K, V)>)
    requires
        keys_sorted(a + b),
    ensures
        keys_sorted(a),
        keys_sorted(b),
        forall|i: int, j: int|
            #![trigger a[i], b[j]]
            0 <= i < a.len() && 0 <= j < b.len() ==> lt(a[i].0, b[j].0),
{
    let s = a + b;
    assert forall|i: int, j: int| 0 <= i < j < a.len() implies lt(a[i].0, a[j].0) by {
        assert(lt(s[i].0, s[j].0));
    }
    assert forall|i: int, j: int| 0 <= i < j < b.len() implies lt(b[i].0, b[j].0) by {
        assert(lt(s[a.len() + i].0, s[a.len() + j].0));
    }
    assert forall|i: int, j: int|
        #![trigger a[i], b[j]]
        0 <= i < a.len() && 0 <= j < b.len() implies lt(a[i].0, b[j].0) by {
        assert(lt(s[i].0, s[a.len() + j].0));
    }
}

/// Binding a key in a sorted sequence keeps it sorted, puts the new entry at
/// the key's rank, and grows the sequence by one exactly when the key is new.
pub proof fn lemma_upsert<K: Ord, V>(s: Seq<(K, V)>, key: K, value: V)
    requires
        total_order::<K>(),
        keys_sorted(s),
    ensures
        keys_sorted(upsert(s, key, value)),
        rank(upsert(s, key, value), key) == rank(s, key),
        contains_key(upsert(s, key, value), key),
        upsert(s, key, value)[rank(s, key)] == (key, value),
        upsert(s, key, value).len() == if contains_key(s, key) {
            s.len()
        } else {
            s.len() + 1
        },
{
    let p = rank(s, key);
    let t = upsert(s, key, value);
    lemma_rank(s, key);
    assert forall|i: int, j: int| 0 <= i < j < t.len() implies lt(t[i].0, t[j].0) by {
        if contains_key(s, key) {
            assert(lt(s[i].0, s[j].0));
        } else {
            let oi = if i < p { i } else { i - 1 };
            let oj = if j < p { j } else { j - 1 };
            if i == p {
                assert(!lt(s[oj].0, key));
                lemma_trichotomy(s[oj].0, key);
            } else if j == p {
                assert(lt(s[oi].0, key));
            } else {
                assert(lt(s[oi].0, s[oj].0));
            }
        }
    }
    assert forall|i: int| 0 <= i < p implies lt(#[trigger] t[i].0, key) by {
        assert(t[i] == s[i]);
    }
    assert forall|i: int| p <= i < t.len() implies !lt(#[trigger] t[i].0, key) by {
        lemma_trichotomy(t[i].0, key);
        if i > p {
            assert(lt(t[p].0, t[i].0));
        }
    }
    lemma_rank_is(t, key, p);
}

/// Taking a key out of a sorted sequence keeps it sorted, leaves no entry for
/// the key, and shrinks the sequence by one exactly when the key was there.
pub proof fn lemma_without<K: Ord, V>(s: Seq<(K, V)>, key: K)
    requires
        total_order::<K>(),
        keys_sorted(s),
    ensures
        keys_sorted(without(s, key)),
        !contains_key(without(s, key), key),
        rank(without(s, key), key) == rank(s, key),
        without(s, key).len() == if contains_key(s, key) {
            s.len() - 1
        } else {
            s.len() as int
        },
{
    let p = rank(s, key);
    let t = without(s, key);
    lemma_rank(s, key);
    if contains_key(s, key) {
        assert forall|i: int, j: int| 0 <= i < j < t.len() implies lt(t[i].0, t[j].0) by {
            let oi = if i < p { i } else { i + 1 };
            let oj = if j < p { j } else { j + 1 };
            assert(lt(s[oi].0, s[oj].0));
        }
        assert forall|i: int| 0 <= i < p implies lt(#[trigger] t[i].0, key) by {
            assert(t[i] == s[i]);
        }
        assert forall|i: int| p <= i < t.len() implies !lt(#[trigger] t[i].0, key) by {
            assert(t[i] == s[i + 1]);
        }
        lemma_rank_is(t, key, p);
        if p < t.len() {
            assert(t[p] == s[p + 1]);
            assert(lt(s[p].0, s[p + 1].0));
            lemma_trichotomy(key, t[p].0);
        }
    }
}

/// Where a sorted sequence is `a + b + c` and `key` lies behind every key of
/// `a` and before every key of `c`, the rank of `key` in the whole is its rank
/// in `b` behind `a`, and the whole holds the key exactly when `b` does.
pub proof fn lemma_enclosed_rank<K: Ord, V>(
    a: Seq<(K, V)>,
    b: Seq<(K, V)>,
    c: Seq<(K, V)>,
    key: K,
)
    requires
        total_order::<K>(),
        keys_sorted(a + b + c),
        a.len() > 0 ==> lt(a.last().0, key),
        c.len() > 0 ==> lt(key, c[0].0),
    ensures
        keys_sorted(b),
        0 <= rank(b, key) <= b.len(),
        rank(a + b + c, key) == a.len() + rank(b, key),
        contains_key(a + b + c, key) == contains_key(b, key),
        find(a + b + c, key) == find(b, key),
        lookup(a + b + c, key) == lookup(b, key),
{
    let s = a + b + c;
    lemma_sorted_pieces(a + b, c);
    lemma_sorted_pieces(a, b);
    lemma_rank(b, key);
    let p = a.len() + rank(b, key);
    assert forall|i: int| 0 <= i < p implies lt(#[trigger] s[i].0, key) by {
        if i < a.len() {
            if i < a.len() - 1 {
                assert(lt(s[i].0, s[a.len() - 1].0));
                lemma_lt_transitive(s[i].0, a.last().0, key);
            }
        } else {
            assert(s[i] == b[i - a.len()]);
        }
    }
    assert forall|i: int| p <= i < s.len() implies !lt(#[trigger] s[i].0, key) by {
        if i < a.len() + b.len() {
            assert(s[i] == b[i - a.len()]);
        } else {
            let first: int = (a.len() + b.len()) as int;
            assert(s[first] == c[0]);
            lemma_trichotomy(s[i].0, key);
            if lt(s[i].0, key) {
                lemma_lt_transitive(s[i].0, key, c[0].0);
                lemma_trichotomy(s[i].0, s[first].0);
                if first < i {
                    assert(lt(s[first].0, s[i].0));
                }
            }
        }
    }
    lemma_rank_is(s, key, p);
    if p < s.len() {
        if rank(b, key) < b.len() {
            assert(s[p] == b[rank(b, key)]);
        } else {
            assert(s[p] == c[0]);
            lemma_trichotomy(key, c[0].0);
        }
    }
}

/// Under the conditions of `lemma_enclosed_rank`, binding `key` or taking it
/// out of the whole changes `b` alone.
pub proof fn lemma_enclosed<K: Ord, V>(a: Seq<(K, V)>, b: Seq<(K, V)>, c: Seq<(K, V)>, key: K)
    requires
        total_order::<K>(),
        keys_sorted(a + b + c),
        a.len() > 0 ==> lt(a.last().0, key),
        c.len() > 0 ==> lt(key, c[0].0),
    ensures
        keys_sorted(b),
        rank(a + b + c, key) == a.len() + rank(b, key),
        contains_key(a + b + c, key) == contains_key(b, key),
        find(a + b + c, key) == find(b, key),
        lookup(a + b + c, key) == lookup(b, key),
        without(a + b + c, key) == a + without(b, key) + c,
        forall|value: V| #[trigger] upsert(a + b + c, key, value) == a + upsert(b, key, value) + c,
{
    lemma_enclosed_rank(a, b, c, key);
    lemma_edit_middle(a, b, c, key);
}

proof fn lemma_edit_middle<K: Ord, V>(a: Seq<(K, V)>, b: Seq<(K, V)>, c: Seq<(K, V)>, key: K)
    requires
        0 <= rank(b, key) <= b.len(),
        rank(a + b + c, key) == a.len() + rank(b, key),
        contains_key(a + b + c, key) == contains_key(b, key),
    ensures
        without(a + b + c, key) == a + without(b, key) + c,
        forall|value: V| #[trigger] upsert(a + b + c, key, value) == a + upsert(b, key, value) + c,
{
    let s = a + b + c;
    assert(without(s, key) =~= a + without(b, key) + c);
    assert forall|value: V| #[trigger] upsert(s, key, value) == a + upsert(b, key, value) + c by {
        assert(upsert(s, key, value) =~= a + upsert(b, key, value) + c);
    }
}

/// Every entry of `upsert(s, key, value)` is the new entry or an entry of
/// `s` with another key, and every entry of `s` with another key is still
/// there.
pub proof fn lemma_upsert_entries<K: Ord, V>(s: Seq<(K, V)>, key: K, value: V)
    requires
        total_order::<K>(),
        keys_sorted(s),
    ensures
        forall|i: int|
            0 <= i < upsert(s, key, value).len() ==> (#[trigger] upsert(s, key, value)[i]) == (
                key,
                value,
            ) || exists|j: int| 0 <= j < s.len() && s[j] == upsert(s, key, value)[i],
        forall|j: int|
            0 <= j < s.len() && (#[trigger] s[j]).0 != key ==> exists|i: int|
                0 <= i < upsert(s, key, value).len() && upsert(s, key, value)[i] == s[j],
{
    let p = rank(s, key);
    let t = upsert(s, key, value);
    lemma_rank(s, key);
    assert forall|i: int| 0 <= i < t.len() implies (#[trigger] t[i]) == (key, value) || exists|
        j: int,
    |
        0 <= j < s.len() && s[j] == t[i] by {
        if i != p {
            if contains_key(s, key) || i < p {
                assert(s[i] == t[i]);
            } else {
                assert(s[i - 1] == t[i]);
            }
        }
    }
    assert forall|j: int| 0 <= j < s.len() && (#[trigger] s[j]).0 != key implies exists|i: int|
        0 <= i < t.len() && t[i] == s[j] by {
        if contains_key(s, key) || j < p {
            assert(t[j] == s[j]);
        } else {
            assert(t[j + 1] == s[j]);
        }
    }
}

/// After `key` was bound to `value`, a lookup of `key` gives `value`, and a
/// lookup of any other key gives what it gave before.
pub proof fn lemma_lookup_upsert<K: Ord, V>(s: Seq<(K, V)>, key: K, value: V, other: K)
    requires
        total_order::<K>(),
        keys_sorted(s),
    ensures
        lookup(upsert(s, key, value), key) == Some(value),
        other != key ==> lookup(upsert(s, key, value), other) == lookup(s, other),
{
    let t = upsert(s, key, value);
    lemma_upsert(s, key, value);
    if other != key {
        lemma_upsert_entries(s, key, value);
        lemma_contains_key(s, other);
        lemma_contains_key(t, other);
        lemma_rank(s, other);
        lemma_rank(t, other);
        if contains_key(s, other) {
            let j = rank(s, other);
            assert(s[j].0 != key);
            let i = choose|i: int| 0 <= i < t.len() && t[i] == s[j];
            lemma_rank_of_member(t, i);
        } else if contains_key(t, other) {
            let i = rank(t, other);
            assert(t[i] != (key, value));
            let j = choose|j: int| 0 <= j < s.len() && s[j] == t[i];
            assert(s[j].0 == other);
        }
    }
}

/// Binding a key that the map holds replaces its value and leaves the number
/// of entries as it was.
pub proof fn lemma_upsert_existing<K: Ord, V>(s: Seq<(K, V)>, key: K, value: V)
    requires
        total_order::<K>(),
        keys_sorted(s),
        contains_key(s, key),
    ensures
        upsert(s, key, value).len() == s.len(),
        lookup(upsert(s, key, value), key) == Some(value),
{
    lemma_upsert(s, key, value);
}

/// The map after the bindings `ops` were made one after the other, starting
/// from the empty map.
pub open spec fn inserted<K: Ord, V>(ops: Seq<(K, V)>) -> Seq<(K, V)>
    decreases ops.len(),
{
    if ops.len() == 0 {
        Seq::empty()
    } else {
        upsert(inserted(ops.drop_last()), ops.last().0, ops.last().1)
    }
}

/// The value that the last of the bindings `ops` for `key` gave it.
pub open spec fn last_bound<K, V>(ops: Seq<(K, V)>, key: K) -> Option<V>
    decreases ops.len(),
{
    if ops.len() == 0 {
        None
    } else if ops.last().0 == key {
        Some(ops.last().1)
    } else {
        last_bound(ops.drop_last(), key)
    }
}

/// After any sequence of bindings, a lookup gives the value that was bound to
/// the key last.
pub proof fn lemma_round_trip<K: Ord, V>(ops: Seq<(K, V)>, key: K)
    requires
        total_order::<K>(),
    ensures
        keys_sorted(inserted(ops)),
        lookup(inserted(ops), key) == last_bound(ops, key),
    decreases ops.len(),
{
    if ops.len() == 0 {
    } else {
        let before = inserted(ops.drop_last());
        lemma_round_trip(ops.drop_last(), key);
        lemma_upsert(before, ops.last().0, ops.last().1);
        lemma_lookup_upsert(before, ops.last().0, ops.last().1, key);
    }
}

/// Taking out a key that the map holds gives its entry, takes one from the
/// number of entries, and leaves the other keys as they were; taking out a
/// key that it does not hold gives nothing and changes nothing.
pub proof fn lemma_delete<K: Ord, V>(s: Seq<(K, V)>, key: K, other: K)
    requires
        total_order::<K>(),
        keys_sorted(s),
    ensures
        contains_key(s, key) ==> find(s, key) == Some((key, lookup(s, key).unwrap()))
            && without(s, key).len() == s.len() - 1,
        !contains_key(s, key) ==> find(s, key) == None::<(K, V)> && without(s, key) == s,
        lookup(without(s, key), key) == None::<V>,
        other != key ==> lookup(without(s, key), other) == lookup(s, other),
{
    let t = without(s, key);
    let p = rank(s, key);
    lemma_without(s, key);
    lemma_rank(s, key);
    if other != key && contains_key(s, key) {
        lemma_contains_key(s, other);
        lemma_contains_key(t, other);
        lemma_rank(s, other);
        lemma_rank(t, other);
        if contains_key(s, other) {
            let j = rank(s, other);
            let i = if j < p {
                j
            } else {
                j - 1
            };
            assert(t[i] == s[j]);
            lemma_rank_of_member(t, i);
        } else if contains_key(t, other) {
            let i = rank(t, other);
            let j = if i < p {
                i
            } else {
                i + 1
            };
            assert(s[j] == t[i]);
        }
    }
}

/// The map after the keys `keys` were taken out of `s` one after the other.
pub open spec fn removed<K: Ord, V>(s: Seq<(K, V)>, keys: Seq<K>) -> Seq<(K, V)>
    decreases keys.len(),
{
    if keys.len() == 0 {
        s
    } else {
        removed(without(s, keys[0]), keys.drop_first())
    }
}

/// Taking out every key of a map, in whatever order, leaves the empty map.
pub proof fn lemma_emptying<K: Ord, V>(s: Seq<(K, V)>, keys: Seq<K>)
    requires
        total_order::<K>(),
        keys_sorted(s),
        forall|i: int|
            0 <= i < s.len() ==> exists|j: int| 0 <= j < keys.len() && keys[j] == (#[trigger] s[i]).0,
    ensures
        removed(s, keys) == Seq::<(K, V)>::empty(),
        forall|key: K| lookup(removed(s, keys), key) == None::<V>,
    decreases keys.len(),
{
    if keys.len() == 0 {
        if s.len() > 0 {
            let j = choose|j: int| 0 <= j < keys.len() && keys[j] == s[0].0;
        }
        assert(s =~= Seq::<(K, V)>::empty());
    } else {
        let t = without(s, keys[0]);
        let rest = keys.drop_first();
        let p = rank(s, keys[0]);
        lemma_without(s, keys[0]);
        lemma_rank(s, keys[0]);
        lemma_contains_key(t, keys[0]);
        assert forall|i: int| 0 <= i < t.len() implies exists|j: int|
            0 <= j < rest.len() && rest[j] == (#[trigger] t[i]).0 by {
            let o = if contains_key(s, keys[0]) && i >= p {
                i + 1
            } else {
                i
            };
            assert(t[i] == s[o]);
            let j = choose|j: int| 0 <= j < keys.len() && keys[j] == s[o].0;
            assert(t[i].0 != keys[0]);
            assert(rest[j - 1] == keys[j]);
        }
        lemma_emptying(t, rest);
    }
}

} // verus!
