//! What the tree asks of its key and value types: a strict total order on keys
//! that agrees with equality, and clones that equal their source.

use std::cmp::Ordering;
use vstd::prelude::*;
use vstd::std_specs::cmp::OrdSpec;

verus! {

/// `a` sorts strictly before `b`.
pub open spec fn lt<K: Ord>(a: K, b: K) -> bool {
    a.cmp_spec(&b) == Ordering::Less
}

/// The comparison of `K` behaves as a strict total order: it is the one the
/// executable `cmp` computes, two keys compare equal exactly when they are the
/// same key, `a > b` exactly when `b < a`, and `<` is transitive.
pub open spec fn total_order<K: Ord>() -> bool {
    &&& K::obeys_cmp_spec()
    &&& forall|a: K, b: K| #![trigger a.cmp_spec(&b)] a.cmp_spec(&b) == Ordering::Equal <==> a == b
    &&& forall|a: K, b: K| #![trigger a.cmp_spec(&b)] a.cmp_spec(&b) == Ordering::Greater <==> lt(b, a)
    &&& forall|a: K, b: K, c: K| #![trigger lt(a, b), lt(b, c)] lt(a, b) && lt(b, c) ==> lt(a, c)
}

/// Every clone of a `T` equals the value it was cloned from.
pub open spec fn faithful_clone<T: Clone>() -> bool {
    forall|a: T, b: T| #![trigger cloned::<T>(a, b)] cloned::<T>(a, b) ==> a == b
}

/// The assumptions on the key type `K` and the value type `V` under which the
/// tree's contracts hold.
pub open spec fn lawful<K: Ord + Clone, V: Clone>() -> bool {
    &&& total_order::<K>()
    &&& faithful_clone::<K>()
    &&& faithful_clone::<V>()
}

/// Of two keys, exactly one of `a < b`, `a == b`, `b < a` holds.
pub proof fn lemma_trichotomy<K: Ord>(a: K, b: K)
    requires
        total_order::<K>(),
    ensures
        lt(a, b) || a == b || lt(b, a),
        !(lt(a, b) && a == b),
        !(lt(b, a) && a == b),
        !(lt(a, b) && lt(b, a)),
{
    let forth = a.cmp_spec(&b);
    let back = b.cmp_spec(&a);
    assert(forth == Ordering::Less || forth == Ordering::Equal || forth == Ordering::Greater);
    assert(back == Ordering::Less || back == Ordering::Equal || back == Ordering::Greater);
}

/// `<` on keys is transitive.
pub proof fn lemma_lt_transitive<K: Ord>(a: K, b: K, c: K)
    requires
        total_order::<K>(),
        lt(a, b),
        lt(b, c),
    ensures
        lt(a, c),
{
}

/// The built-in integer types are lawful keys and values.
pub proof fn lemma_integers_lawful()
    ensures
        lawful::<u8, u8>(),
        lawful::<u16, u16>(),
        lawful::<u32, u32>(),
        lawful::<u64, u64>(),
        lawful::<usize, usize>(),
        lawful::<i8, i8>(),
        lawful::<i16, i16>(),
        lawful::<i32, i32>(),
        lawful::<i64, i64>(),
        lawful::<isize, isize>(),
{
}

/// How one key stands to another.
#[derive(Clone, Copy, Debug, PartialEq, Eq, Structural)]
pub enum KeyOrder {
    Less,
    Equal,
    Greater,
}

/// Compares two keys.
pub fn compare<K: Ord>(a: &K, b: &K) -> (r: KeyOrder)
    requires
        total_order::<K>(),
    ensures
        r == KeyOrder::Less <==> lt(*a, *b),
        r == KeyOrder::Equal <==> *a == *b,
        r == KeyOrder::Greater <==> lt(*b, *a),
{
    match a.cmp(b) {
        Ordering::Less => KeyOrder::Less,
        Ordering::Equal => KeyOrder::Equal,
        Ordering::Greater => KeyOrder::Greater,
    }
}

} // verus!
