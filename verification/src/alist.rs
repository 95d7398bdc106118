//! Association lists: vectors of key-value pairs with pairwise-distinct keys,
//! viewed in specifications as mathematical maps.

use vstd::prelude::*;
use vstd::std_specs::cmp::PartialEqSpec;

verus! {

/// No two entries share a key.
pub open spec fn keys_distinct<K, V>(s: Seq<(K, V)>) -> bool {
    forall|i: int, j: int| 0 <= i < j < s.len() ==> s[i].0 != s[j].0
}

/// No element occurs twice.
pub open spec fn elems_distinct<T>(s: Seq<T>) -> bool {
    forall|i: int, j: int| 0 <= i < j < s.len() ==> s[i] != s[j]
}

/// Some entry has key `k`.
pub open spec fn has_key<K, V>(s: Seq<(K, V)>, k: K) -> bool {
    exists|i: int| 0 <= i < s.len() && s[i].0 == k
}

/// The map an association list stands for.  Later entries win, which makes no
/// difference once keys are distinct.
pub open spec fn map_of<K, V>(s: Seq<(K, V)>) -> Map<K, V>
    decreases s.len(),
{
    if s.len() == 0 {
        Map::empty()
    } else {
        map_of(s.drop_last()).insert(s.last().0, s.last().1)
    }
}

/// A key is in the map exactly when some entry holds it.
pub proof fn lemma_map_of_contains<K, V>(s: Seq<(K, V)>, k: K)
    ensures
        map_of(s).contains_key(k) <==> has_key(s, k),
    decreases s.len(),
{
    if s.len() > 0 {
        lemma_map_of_contains(s.drop_last(), k);
        if has_key(s.drop_last(), k) {
            let i = choose|i: int| 0 <= i < s.drop_last().len() && s.drop_last()[i].0 == k;
            assert(s[i].0 == k);
        }
        if s.last().0 == k {
            assert(s[s.len() - 1].0 == k);
        }
        if has_key(s, k) && s.last().0 != k {
            let i = choose|i: int| 0 <= i < s.len() && s[i].0 == k;
            assert(s.drop_last()[i].0 == k);
        }
    }
}

/// With distinct keys, the entry at `i` gives the value of its key.
pub proof fn lemma_map_of_index<K, V>(s: Seq<(K, V)>, i: int)
    requires
        keys_distinct(s),
        0 <= i < s.len(),
    ensures
        map_of(s).contains_key(s[i].0),
        map_of(s)[s[i].0] == s[i].1,
    decreases s.len(),
{
    lemma_map_of_contains(s, s[i].0);
    if i < s.len() - 1 {
        assert(s.drop_last()[i] == s[i]);
        lemma_map_of_index(s.drop_last(), i);
        assert(s.last().0 != s[i].0);
    }
}

/// Appending a fresh entry inserts its pair into the map.
pub proof fn lemma_map_of_push<K, V>(s: Seq<(K, V)>, k: K, v: V)
    ensures
        map_of(s.push((k, v))) == map_of(s).insert(k, v),
{
    assert(s.push((k, v)).drop_last() =~= s);
    assert(s.push((k, v)).last() == (k, v));
}

/// Overwriting the entry at `i` with the same key updates the map at that key.
pub proof fn lemma_map_of_update<K, V>(s: Seq<(K, V)>, i: int, v: V)
    requires
        keys_distinct(s),
        0 <= i < s.len(),
    ensures
        map_of(s.update(i, (s[i].0, v))) == map_of(s).insert(s[i].0, v),
    decreases s.len(),
{
    let k = s[i].0;
    let t = s.update(i, (k, v));
    if i == s.len() - 1 {
        assert(t.drop_last() =~= s.drop_last());
        assert(map_of(t) == map_of(s.drop_last()).insert(k, v));
        assert(map_of(s) == map_of(s.drop_last()).insert(k, s[i].1));
        assert(map_of(s).insert(k, v) =~= map_of(s.drop_last()).insert(k, v));
    } else {
        assert(t.drop_last() =~= s.drop_last().update(i, (k, v)));
        assert(s.drop_last()[i] == s[i]);
        lemma_map_of_update(s.drop_last(), i, v);
        assert(s.last().0 != k);
        assert(map_of(t) == map_of(s.drop_last()).insert(k, v).insert(s.last().0, s.last().1));
        assert(map_of(s).insert(k, v) =~= map_of(s.drop_last()).insert(k, v).insert(
            s.last().0,
            s.last().1,
        ));
    }
}

/// Removing the entry at `i` removes its key from the map.
pub proof fn lemma_map_of_remove<K, V>(s: Seq<(K, V)>, i: int)
    requires
        keys_distinct(s),
        0 <= i < s.len(),
    ensures
        map_of(s.remove(i)) == map_of(s).remove(s[i].0),
    decreases s.len(),
{
    let k = s[i].0;
    let t = s.remove(i);
    if i == s.len() - 1 {
        assert(t =~= s.drop_last());
        lemma_map_of_contains(s.drop_last(), k);
        assert(!has_key(s.drop_last(), k)) by {
            if has_key(s.drop_last(), k) {
                let j = choose|j: int|
                    0 <= j < s.drop_last().len() && s.drop_last()[j].0 == k;
                assert(s[j].0 == k);
            }
        }
        assert(map_of(s).remove(k) =~= map_of(s.drop_last()));
    } else {
        assert(t.drop_last() =~= s.drop_last().remove(i));
        assert(s.drop_last()[i] == s[i]);
        lemma_map_of_remove(s.drop_last(), i);
        assert(t.last() == s.last());
        assert(s.last().0 != k);
        assert(map_of(t) == map_of(s.drop_last()).remove(k).insert(s.last().0, s.last().1));
        assert(map_of(s).remove(k) =~= map_of(s.drop_last()).remove(k).insert(
            s.last().0,
            s.last().1,
        ));
    }
}

/// The key type's `==` decides equality.  All key types of this crate make
/// this true by defining `eq_spec` as equality itself.
pub open spec fn eq_is_equality<K: PartialEq>() -> bool {
    &&& <K as vstd::std_specs::cmp::PartialEqSpec>::obeys_eq_spec()
    &&& forall|x: K, y: K| #[trigger] x.eq_spec(&y) <==> x == y
}

/// Finds the index of the entry with the given key, if any.
pub fn alist_find<K: PartialEq, V>(v: &Vec<(K, V)>, k: &K) -> (r: Option<usize>)
    requires
        eq_is_equality::<K>(),
    ensures
        match r {
            Some(i) => i < v@.len() && v@[i as int].0 == *k,
            None => !has_key(v@, *k),
        },
{
    let mut i: usize = 0;
    while i < v.len()
        invariant
            eq_is_equality::<K>(),
            0 <= i <= v@.len(),
            forall|j: int| 0 <= j < i ==> v@[j].0 != *k,
        decreases v@.len() - i,
    {
        if v[i].0 == *k {
            return Some(i);
        }
        i += 1;
    }
    None
}

/// Looks up the value stored under a key.
pub fn alist_get<'a, K: PartialEq, V>(v: &'a Vec<(K, V)>, k: &K) -> (r: Option<&'a V>)
    requires
        eq_is_equality::<K>(),
        keys_distinct(v@),
    ensures
        match r {
            Some(value) => map_of(v@).contains_key(*k) && *value == map_of(v@)[*k],
            None => !map_of(v@).contains_key(*k),
        },
{
    proof {
        lemma_map_of_contains(v@, *k);
    }
    match alist_find(v, k) {
        Some(i) => {
            proof {
                lemma_map_of_index(v@, i as int);
            }
            Some(&v[i].1)
        },
        None => None,
    }
}

/// Stores a value under a key, overwriting any previous value.
pub fn alist_put<K: PartialEq + Copy, V>(v: &mut Vec<(K, V)>, k: K, value: V)
    requires
        eq_is_equality::<K>(),
        keys_distinct(old(v)@),
    ensures
        keys_distinct(final(v)@),
        map_of(final(v)@) == map_of(old(v)@).insert(k, value),
        final(v)@.len() <= old(v)@.len() + 1,
{
    match alist_find(v, &k) {
        Some(i) => {
            proof {
                lemma_map_of_update(v@, i as int, value);
                lemma_keys_distinct_update(v@, i as int, value);
            }
            vec_set(v, i, (k, value));
        },
        None => {
            proof {
                lemma_map_of_push(v@, k, value);
                lemma_keys_distinct_push(v@, k, value);
            }
            v.push((k, value));
        },
    }
}

/// Removes the entry with the given key, if any.
pub fn alist_remove<K: PartialEq, V>(v: &mut Vec<(K, V)>, k: &K)
    requires
        eq_is_equality::<K>(),
        keys_distinct(old(v)@),
    ensures
        keys_distinct(final(v)@),
        map_of(final(v)@) == map_of(old(v)@).remove(*k),
        final(v)@.len() <= old(v)@.len(),
{
    proof {
        lemma_map_of_contains(v@, *k);
    }
    match alist_find(v, k) {
        Some(i) => {
            proof {
                lemma_map_of_remove(v@, i as int);
                lemma_keys_distinct_remove(v@, i as int);
            }
            let removed = v.remove(i);
        },
        None => {
            proof {
                assert(map_of(v@).remove(*k) =~= map_of(v@));
            }
        },
    }
}

/// Whether a vector contains a value.
pub fn vec_contains<T: PartialEq>(v: &Vec<T>, x: &T) -> (r: bool)
    requires
        eq_is_equality::<T>(),
    ensures
        r == v@.contains(*x),
{
    let mut i: usize = 0;
    while i < v.len()
        invariant
            eq_is_equality::<T>(),
            0 <= i <= v@.len(),
            forall|j: int| 0 <= j < i ==> v@[j] != *x,
        decreases v@.len() - i,
    {
        if v[i] == *x {
            return true;
        }
        i += 1;
    }
    false
}

/// Overwrites one element of a vector.
pub fn vec_set<T>(v: &mut Vec<T>, i: usize, x: T)
    requires
        i < old(v).len(),
    ensures
        final(v)@ == old(v)@.update(i as int, x),
{
    let r = &mut v[i];
    *r = x;
}

/// Distinct keys survive an update that keeps the key at `i`.
pub proof fn lemma_keys_distinct_update<K, V>(s: Seq<(K, V)>, i: int, v: V)
    requires
        keys_distinct(s),
        0 <= i < s.len(),
    ensures
        keys_distinct(s.update(i, (s[i].0, v))),
{
}

/// Distinct keys survive a removal.
pub proof fn lemma_keys_distinct_remove<K, V>(s: Seq<(K, V)>, i: int)
    requires
        keys_distinct(s),
        0 <= i < s.len(),
    ensures
        keys_distinct(s.remove(i)),
{
    let t = s.remove(i);
    assert forall|p: int, q: int| 0 <= p < q < t.len() implies t[p].0 != t[q].0 by {
        let p0 = if p < i { p } else { p + 1 };
        let q0 = if q < i { q } else { q + 1 };
        assert(t[p] == s[p0]);
        assert(t[q] == s[q0]);
    }
}

/// Distinct keys survive appending a fresh key.
pub proof fn lemma_keys_distinct_push<K, V>(s: Seq<(K, V)>, k: K, v: V)
    requires
        keys_distinct(s),
        !has_key(s, k),
    ensures
        keys_distinct(s.push((k, v))),
{
    let t = s.push((k, v));
    assert forall|p: int, q: int| 0 <= p < q < t.len() implies t[p].0 != t[q].0 by {
        if q < s.len() {
            assert(t[p] == s[p]);
            assert(t[q] == s[q]);
        } else {
            assert(t[p] == s[p]);
            assert(t[q] == (k, v));
        }
    }
}

} // verus!
