//! Semantic comparison of two states: the durable data must match, while
//! representation order and the volatile last-checked cache are ignored.
//! The post-upgrade self-check replays the event log into a fresh state and
//! holds it against the pre-upgrade one with this comparison.

use vstd::prelude::*;

use crate::alist::{
    alist_find, alist_get, eq_is_equality, keys_distinct, map_of, vec_contains,
};
use crate::domain::{Account, Principal, Txid, Utxo};
use crate::records::{
    checked_utxo_eq, checked_utxo_eq_spec, finalized_retrieval_eq, in_flight_status_eq,
    request_eq, submitted_tx_eq, submitted_tx_eq_spec, u64_vec_eq, CheckedUtxo, InFlightStatus,
    RetrieveBtcRequest, SubmittedBtcTransaction,
};
use crate::state::{find_pending, find_tx_by_txid, CkBtcMinterState};

verus! {

/// Two maps given as duplicate-free association lists are equal when each
/// entry of one stands in the other.
pub proof fn lemma_alist_map_eq<K, V>(a: Seq<(K, V)>, b: Seq<(K, V)>)
    requires
        keys_distinct(a),
        keys_distinct(b),
        forall|i: int|
            0 <= i < a.len() ==> map_of(b).contains_key(#[trigger] a[i].0) && map_of(b)[a[i].0]
                == a[i].1,
        forall|j: int| 0 <= j < b.len() ==> map_of(a).contains_key(#[trigger] b[j].0),
    ensures
        map_of(a) == map_of(b),
{
    assert forall|k: K| #[trigger] map_of(a).dom().contains(k) implies map_of(
        b,
    ).dom().contains(k) && map_of(b)[k] == map_of(a)[k] by {
        assert(map_of(a).contains_key(k));
        crate::alist::lemma_map_of_contains(a, k);
        let i = choose|i: int| 0 <= i < a.len() && a[i].0 == k;
        crate::alist::lemma_map_of_index(a, i);
        assert(a[i].0 == k);
        assert(map_of(b).contains_key(a[i].0) && map_of(b)[a[i].0] == a[i].1);
    }
    assert forall|k: K| #[trigger] map_of(b).dom().contains(k) implies map_of(
        a,
    ).dom().contains(k) by {
        assert(map_of(b).contains_key(k));
        crate::alist::lemma_map_of_contains(b, k);
        let j = choose|j: int| 0 <= j < b.len() && b[j].0 == k;
        crate::alist::lemma_map_of_index(b, j);
        assert(map_of(a).contains_key(b[j].0));
    }
    assert(map_of(a).dom() =~= map_of(b).dom());
    assert(map_of(a) =~= map_of(b));
}

/// Compares the in-flight maps.
fn cmp_in_flight(a: &Vec<(u64, InFlightStatus)>, b: &Vec<(u64, InFlightStatus)>) -> (r: bool)
    requires
        keys_distinct(a@),
        keys_distinct(b@),
    ensures
        r == (map_of(a@) == map_of(b@)),
{
    proof {
        assert(eq_is_equality::<u64>());
    }
    let mut i: usize = 0;
    while i < a.len()
        invariant
            keys_distinct(a@),
            keys_distinct(b@),
            0 <= i <= a@.len(),
            forall|i2: int|
                0 <= i2 < i ==> map_of(b@).contains_key(#[trigger] a@[i2].0) && map_of(b@)[
                    a@[i2].0
                ] == a@[i2].1,
        decreases a@.len() - i,
    {
        let entry = a[i];
        proof {
            crate::alist::lemma_map_of_index(a@, i as int);
        }
        match alist_get(b, &entry.0) {
            Some(v) => {
                if !in_flight_status_eq(v, &entry.1) {
                    proof {
                        if map_of(a@) == map_of(b@) {
                            assert(map_of(a@)[entry.0] == entry.1);
                        }
                    }
                    return false;
                }
            },
            None => {
                proof {
                    if map_of(a@) == map_of(b@) {
                        assert(map_of(b@).contains_key(entry.0));
                    }
                }
                return false;
            },
        }
        i += 1;
    }
    let mut j: usize = 0;
    while j < b.len()
        invariant
            keys_distinct(a@),
            keys_distinct(b@),
            0 <= j <= b@.len(),
            forall|i2: int|
                0 <= i2 < a@.len() ==> map_of(b@).contains_key(#[trigger] a@[i2].0) && map_of(
                    b@,
                )[a@[i2].0] == a@[i2].1,
            forall|j2: int| 0 <= j2 < j ==> map_of(a@).contains_key(#[trigger] b@[j2].0),
        decreases b@.len() - j,
    {
        let entry = b[j];
        proof {
            crate::alist::lemma_map_of_index(b@, j as int);
        }
        match alist_get(a, &entry.0) {
            Some(_) => {},
            None => {
                proof {
                    if map_of(a@) == map_of(b@) {
                        assert(map_of(a@).contains_key(entry.0));
                    }
                }
                return false;
            },
        }
        j += 1;
    }
    proof {
        lemma_alist_map_eq(a@, b@);
    }
    true
}

/// Compares two replacement maps.
fn cmp_txid_map(a: &Vec<(Txid, Txid)>, b: &Vec<(Txid, Txid)>) -> (r: bool)
    requires
        keys_distinct(a@),
        keys_distinct(b@),
    ensures
        r == (map_of(a@) == map_of(b@)),
{
    proof {
        assert(eq_is_equality::<Txid>());
    }
    let mut i: usize = 0;
    while i < a.len()
        invariant
            keys_distinct(a@),
            keys_distinct(b@),
            0 <= i <= a@.len(),
            forall|i2: int|
                0 <= i2 < i ==> map_of(b@).contains_key(#[trigger] a@[i2].0) && map_of(b@)[
                    a@[i2].0
                ] == a@[i2].1,
        decreases a@.len() - i,
    {
        let entry = a[i];
        proof {
            crate::alist::lemma_map_of_index(a@, i as int);
        }
        match alist_get(b, &entry.0) {
            Some(v) => {
                if !(*v == entry.1) {
                    proof {
                        if map_of(a@) == map_of(b@) {
                            assert(map_of(a@)[entry.0] == entry.1);
                        }
                    }
                    return false;
                }
            },
            None => {
                proof {
                    if map_of(a@) == map_of(b@) {
                        assert(map_of(b@).contains_key(entry.0));
                    }
                }
                return false;
            },
        }
        i += 1;
    }
    let mut j: usize = 0;
    while j < b.len()
        invariant
            keys_distinct(a@),
            keys_distinct(b@),
            0 <= j <= b@.len(),
            forall|i2: int|
                0 <= i2 < a@.len() ==> map_of(b@).contains_key(#[trigger] a@[i2].0) && map_of(
                    b@,
                )[a@[i2].0] == a@[i2].1,
            forall|j2: int| 0 <= j2 < j ==> map_of(a@).contains_key(#[trigger] b@[j2].0),
        decreases b@.len() - j,
    {
        let entry = b[j];
        proof {
            crate::alist::lemma_map_of_index(b@, j as int);
        }
        match alist_get(a, &entry.0) {
            Some(_) => {},
            None => {
                proof {
                    if map_of(a@) == map_of(b@) {
                        assert(map_of(a@).contains_key(entry.0));
                    }
                }
                return false;
            },
        }
        j += 1;
    }
    proof {
        lemma_alist_map_eq(a@, b@);
    }
    true
}

/// Compares the owed balances.
fn cmp_owed(a: &Vec<(Principal, u64)>, b: &Vec<(Principal, u64)>) -> (r: bool)
    requires
        keys_distinct(a@),
        keys_distinct(b@),
    ensures
        r == (map_of(a@) == map_of(b@)),
{
    proof {
        assert(eq_is_equality::<Principal>());
    }
    let mut i: usize = 0;
    while i < a.len()
        invariant
            keys_distinct(a@),
            keys_distinct(b@),
            0 <= i <= a@.len(),
            forall|i2: int|
                0 <= i2 < i ==> map_of(b@).contains_key(#[trigger] a@[i2].0) && map_of(b@)[
                    a@[i2].0
                ] == a@[i2].1,
        decreases a@.len() - i,
    {
        let entry = a[i];
        proof {
            crate::alist::lemma_map_of_index(a@, i as int);
        }
        match alist_get(b, &entry.0) {
            Some(v) => {
                if !(*v == entry.1) {
                    proof {
                        if map_of(a@) == map_of(b@) {
                            assert(map_of(a@)[entry.0] == entry.1);
                        }
                    }
                    return false;
                }
            },
            None => {
                proof {
                    if map_of(a@) == map_of(b@) {
                        assert(map_of(b@).contains_key(entry.0));
                    }
                }
                return false;
            },
        }
        i += 1;
    }
    let mut j: usize = 0;
    while j < b.len()
        invariant
            keys_distinct(a@),
            keys_distinct(b@),
            0 <= j <= b@.len(),
            forall|i2: int|
                0 <= i2 < a@.len() ==> map_of(b@).contains_key(#[trigger] a@[i2].0) && map_of(
                    b@,
                )[a@[i2].0] == a@[i2].1,
            forall|j2: int| 0 <= j2 < j ==> map_of(a@).contains_key(#[trigger] b@[j2].0),
        decreases b@.len() - j,
    {
        let entry = b[j];
        proof {
            crate::alist::lemma_map_of_index(b@, j as int);
        }
        match alist_get(a, &entry.0) {
            Some(_) => {},
            None => {
                proof {
                    if map_of(a@) == map_of(b@) {
                        assert(map_of(a@).contains_key(entry.0));
                    }
                }
                return false;
            },
        }
        j += 1;
    }
    proof {
        lemma_alist_map_eq(a@, b@);
    }
    true
}

/// Whether two UTXO vectors hold the same set of UTXOs.
pub open spec fn utxo_set_eq(a: Seq<Utxo>, b: Seq<Utxo>) -> bool {
    forall|x: Utxo| a.contains(x) <==> b.contains(x)
}

/// Compares two UTXO sets.
fn cmp_utxo_set(a: &Vec<Utxo>, b: &Vec<Utxo>) -> (r: bool)
    ensures
        r == utxo_set_eq(a@, b@),
{
    proof {
        assert(eq_is_equality::<Utxo>());
    }
    let mut i: usize = 0;
    while i < a.len()
        invariant
            0 <= i <= a@.len(),
            forall|i2: int| 0 <= i2 < i ==> b@.contains(#[trigger] a@[i2]),
        decreases a@.len() - i,
    {
        let x = a[i];
        if !vec_contains(b, &x) {
            proof {
                assert(a@.contains(a@[i as int]));
            }
            return false;
        }
        i += 1;
    }
    let mut j: usize = 0;
    while j < b.len()
        invariant
            0 <= j <= b@.len(),
            forall|i2: int| 0 <= i2 < a@.len() ==> b@.contains(#[trigger] a@[i2]),
            forall|j2: int| 0 <= j2 < j ==> a@.contains(#[trigger] b@[j2]),
        decreases b@.len() - j,
    {
        let x = b[j];
        if !vec_contains(a, &x) {
            proof {
                assert(b@.contains(b@[j as int]));
            }
            return false;
        }
        j += 1;
    }
    proof {
        assert forall|x: Utxo| a@.contains(x) implies b@.contains(x) by {
            let i2 = choose|i2: int| 0 <= i2 < a@.len() && a@[i2] == x;
        }
        assert forall|x: Utxo| b@.contains(x) implies a@.contains(x) by {
            let j2 = choose|j2: int| 0 <= j2 < b@.len() && b@[j2] == x;
        }
    }
    true
}

/// Whether two bucket maps assign the same set of UTXOs to every key.
pub open spec fn buckets_sem_eq<K>(a: Seq<(K, Vec<Utxo>)>, b: Seq<(K, Vec<Utxo>)>) -> bool {
    &&& forall|k: K| map_of(a).contains_key(k) <==> map_of(b).contains_key(k)
    &&& forall|k: K|
        #[trigger] map_of(a).contains_key(k) ==> utxo_set_eq(map_of(a)[k]@, map_of(b)[k]@)
}

/// Compares two account-to-UTXO-set maps.
fn cmp_account_buckets(a: &Vec<(Account, Vec<Utxo>)>, b: &Vec<(Account, Vec<Utxo>)>) -> (r: bool)
    requires
        keys_distinct(a@),
        keys_distinct(b@),
    ensures
        r == buckets_sem_eq(a@, b@),
{
    proof {
        assert(eq_is_equality::<Account>());
    }
    let mut i: usize = 0;
    while i < a.len()
        invariant
            keys_distinct(a@),
            keys_distinct(b@),
            0 <= i <= a@.len(),
            forall|i2: int|
                0 <= i2 < i ==> map_of(b@).contains_key(#[trigger] a@[i2].0) && utxo_set_eq(
                    map_of(a@)[a@[i2].0]@,
                    map_of(b@)[a@[i2].0]@,
                ),
        decreases a@.len() - i,
    {
        proof {
            crate::alist::lemma_map_of_index(a@, i as int);
        }
        let key = a[i].0;
        let mine = &a[i].1;
        proof {
            assert(*mine == a@[i as int].1);
        }
        match alist_get(b, &key) {
            Some(other_bucket) => {
                let same = cmp_utxo_set(mine, other_bucket);
                proof {
                    assert(a@[i as int].1 == map_of(a@)[key]);
                    assert(*other_bucket == map_of(b@)[key]);
                    assert(same == utxo_set_eq(mine@, other_bucket@));
                    assert(mine@ == map_of(a@)[key]@);
                    assert(other_bucket@ == map_of(b@)[key]@);
                }
                if !same {
                    proof {
                        if buckets_sem_eq(a@, b@) {
                            assert(map_of(a@).contains_key(key));
                            assert(utxo_set_eq(map_of(a@)[key]@, map_of(b@)[key]@));
                        }
                    }
                    return false;
                }
                proof {
                    assert(utxo_set_eq(map_of(a@)[key]@, map_of(b@)[key]@));
                }
            },
            None => {
                proof {
                    if buckets_sem_eq(a@, b@) {
                        assert(map_of(a@).contains_key(key));
                    }
                }
                return false;
            },
        }
        i += 1;
    }
    let mut j: usize = 0;
    while j < b.len()
        invariant
            keys_distinct(a@),
            keys_distinct(b@),
            0 <= j <= b@.len(),
            forall|i2: int|
                0 <= i2 < a@.len() ==> map_of(b@).contains_key(#[trigger] a@[i2].0)
                    && utxo_set_eq(map_of(a@)[a@[i2].0]@, map_of(b@)[a@[i2].0]@),
            forall|j2: int| 0 <= j2 < j ==> map_of(a@).contains_key(#[trigger] b@[j2].0),
        decreases b@.len() - j,
    {
        proof {
            crate::alist::lemma_map_of_index(b@, j as int);
        }
        let key = b[j].0;
        match alist_find(a, &key) {
            Some(idx) => {
                proof {
                    assert(crate::alist::has_key(a@, key)) by {
                        assert(a@[idx as int].0 == key);
                    }
                    crate::alist::lemma_map_of_contains(a@, key);
                    assert(map_of(a@).contains_key(key));
                    assert(key == b@[j as int].0);
                }
            },
            None => {
                proof {
                    crate::alist::lemma_map_of_contains(a@, key);
                    if buckets_sem_eq(a@, b@) {
                        assert(map_of(a@).contains_key(key));
                    }
                }
                return false;
            },
        }
        j += 1;
    }
    proof {
        assert forall|k: Account| map_of(a@).contains_key(k) implies map_of(b@).contains_key(
            k,
        ) && utxo_set_eq(map_of(a@)[k]@, map_of(b@)[k]@) by {
            crate::alist::lemma_map_of_contains(a@, k);
            let i2 = choose|i2: int| 0 <= i2 < a@.len() && a@[i2].0 == k;
            crate::alist::lemma_map_of_index(a@, i2);
        }
        assert forall|k: Account| map_of(b@).contains_key(k) implies map_of(a@).contains_key(
            k,
        ) by {
            crate::alist::lemma_map_of_contains(b@, k);
            let j2 = choose|j2: int| 0 <= j2 < b@.len() && b@[j2].0 == k;
            crate::alist::lemma_map_of_index(b@, j2);
        }
    }
    true
}


/// Compares two suspension buckets as maps.
fn cmp_reason_bucket(
    a: &Vec<(Utxo, crate::records::SuspendedReason)>,
    b: &Vec<(Utxo, crate::records::SuspendedReason)>,
) -> (r: bool)
    requires
        keys_distinct(a@),
        keys_distinct(b@),
    ensures
        r == (map_of(a@) == map_of(b@)),
{
    proof {
        assert(eq_is_equality::<Utxo>());
    }
    let mut i: usize = 0;
    while i < a.len()
        invariant
            keys_distinct(a@),
            keys_distinct(b@),
            0 <= i <= a@.len(),
            forall|i2: int|
                0 <= i2 < i ==> map_of(b@).contains_key(#[trigger] a@[i2].0) && map_of(b@)[
                    a@[i2].0
                ] == a@[i2].1,
        decreases a@.len() - i,
    {
        let entry = a[i];
        proof {
            crate::alist::lemma_map_of_index(a@, i as int);
        }
        match alist_get(b, &entry.0) {
            Some(v) => {
                if !(*v == entry.1) {
                    proof {
                        if map_of(a@) == map_of(b@) {
                            assert(map_of(a@)[entry.0] == entry.1);
                        }
                    }
                    return false;
                }
            },
            None => {
                proof {
                    if map_of(a@) == map_of(b@) {
                        assert(map_of(b@).contains_key(entry.0));
                    }
                }
                return false;
            },
        }
        i += 1;
    }
    let mut j: usize = 0;
    while j < b.len()
        invariant
            keys_distinct(a@),
            keys_distinct(b@),
            0 <= j <= b@.len(),
            forall|i2: int|
                0 <= i2 < a@.len() ==> map_of(b@).contains_key(#[trigger] a@[i2].0) && map_of(
                    b@,
                )[a@[i2].0] == a@[i2].1,
            forall|j2: int| 0 <= j2 < j ==> map_of(a@).contains_key(#[trigger] b@[j2].0),
        decreases b@.len() - j,
    {
        let entry = b[j];
        proof {
            crate::alist::lemma_map_of_index(b@, j as int);
        }
        match alist_get(a, &entry.0) {
            Some(_) => {},
            None => {
                proof {
                    if map_of(a@) == map_of(b@) {
                        assert(map_of(a@).contains_key(entry.0));
                    }
                }
                return false;
            },
        }
        j += 1;
    }
    proof {
        lemma_alist_map_eq(a@, b@);
    }
    true
}

/// Whether two registries record the same suspensions, the volatile
/// last-checked cache aside.
pub open spec fn suspended_sem_eq(
    a: crate::suspended::SuspendedUtxos,
    b: crate::suspended::SuspendedUtxos,
) -> bool {
    &&& map_of(a.utxos_without_account@) == map_of(b.utxos_without_account@)
    &&& forall|k: Account| a.buckets().contains_key(k) <==> b.buckets().contains_key(k)
    &&& forall|k: Account|
        #[trigger] a.buckets().contains_key(k) ==> map_of(a.buckets()[k]@) == map_of(
            b.buckets()[k]@,
        )
}

/// Compares two suspended-UTXO registries, cache aside.
fn cmp_suspended(
    a: &crate::suspended::SuspendedUtxos,
    b: &crate::suspended::SuspendedUtxos,
) -> (r: bool)
    requires
        a.wf(),
        b.wf(),
    ensures
        r == suspended_sem_eq(*a, *b),
{
    proof {
        assert(eq_is_equality::<Account>());
    }
    if !cmp_reason_bucket(&a.utxos_without_account, &b.utxos_without_account) {
        return false;
    }
    let av = &a.utxos;
    let bv = &b.utxos;
    let mut i: usize = 0;
    while i < av.len()
        invariant
            a.wf(),
            b.wf(),
            av == &a.utxos,
            bv == &b.utxos,
            0 <= i <= av@.len(),
            forall|i2: int|
                0 <= i2 < i ==> map_of(bv@).contains_key(#[trigger] av@[i2].0) && map_of(
                    av@,
                )[av@[i2].0]@ =~= av@[i2].1@ && map_of(map_of(av@)[av@[i2].0]@) == map_of(
                    map_of(bv@)[av@[i2].0]@,
                ),
        decreases av@.len() - i,
    {
        proof {
            crate::alist::lemma_map_of_index(av@, i as int);
        }
        let key = av[i].0;
        let mine = &av[i].1;
        proof {
            assert(*mine == av@[i as int].1);
        }
        match alist_get(bv, &key) {
            Some(other_bucket) => {
                proof {
                    assert(keys_distinct(mine@));
                    crate::alist::lemma_map_of_contains(bv@, key);
                    let jb = choose|jb: int| 0 <= jb < bv@.len() && bv@[jb].0 == key;
                    crate::alist::lemma_map_of_index(bv@, jb);
                    assert(*other_bucket == bv@[jb].1);
                    assert(keys_distinct(other_bucket@));
                }
                let same = cmp_reason_bucket(mine, other_bucket);
                proof {
                    assert(av@[i as int].1 == map_of(av@)[key]);
                    assert(*other_bucket == map_of(bv@)[key]);
                }
                if !same {
                    proof {
                        if suspended_sem_eq(*a, *b) {
                            assert(a.buckets().contains_key(key));
                        }
                    }
                    return false;
                }
            },
            None => {
                proof {
                    crate::alist::lemma_map_of_contains(bv@, key);
                    if suspended_sem_eq(*a, *b) {
                        assert(a.buckets().contains_key(key));
                        assert(b.buckets().contains_key(key));
                    }
                }
                return false;
            },
        }
        i += 1;
    }
    let mut j: usize = 0;
    while j < bv.len()
        invariant
            a.wf(),
            b.wf(),
            av == &a.utxos,
            bv == &b.utxos,
            0 <= j <= bv@.len(),
            forall|i2: int|
                0 <= i2 < av@.len() ==> map_of(bv@).contains_key(#[trigger] av@[i2].0)
                    && map_of(map_of(av@)[av@[i2].0]@) == map_of(map_of(bv@)[av@[i2].0]@),
            forall|j2: int| 0 <= j2 < j ==> map_of(av@).contains_key(#[trigger] bv@[j2].0),
        decreases bv@.len() - j,
    {
        let key = bv[j].0;
        match alist_find(av, &key) {
            Some(idx) => {
                proof {
                    assert(crate::alist::has_key(av@, key)) by {
                        assert(av@[idx as int].0 == key);
                    }
                    crate::alist::lemma_map_of_contains(av@, key);
                    assert(key == bv@[j as int].0);
                }
            },
            None => {
                proof {
                    crate::alist::lemma_map_of_contains(av@, key);
                    if suspended_sem_eq(*a, *b) {
                        crate::alist::lemma_map_of_contains(bv@, key);
                        assert(b.buckets().contains_key(key)) by {
                            assert(bv@[j as int].0 == key);
                        }
                        assert(a.buckets().contains_key(key));
                    }
                }
                return false;
            },
        }
        j += 1;
    }
    proof {
        assert forall|k: Account| a.buckets().contains_key(k) implies b.buckets().contains_key(
            k,
        ) && map_of(a.buckets()[k]@) == map_of(b.buckets()[k]@) by {
            crate::alist::lemma_map_of_contains(av@, k);
            let i2 = choose|i2: int| 0 <= i2 < av@.len() && av@[i2].0 == k;
            crate::alist::lemma_map_of_index(av@, i2);
        }
        assert forall|k: Account| b.buckets().contains_key(k) implies a.buckets().contains_key(
            k,
        ) by {
            crate::alist::lemma_map_of_contains(bv@, k);
            let j2 = choose|j2: int| 0 <= j2 < bv@.len() && bv@[j2].0 == k;
            crate::alist::lemma_map_of_index(bv@, j2);
        }
    }
    true
}

/// Whether two screening tables record equivalent outcomes.
pub open spec fn checked_sem_eq(a: Seq<(Utxo, CheckedUtxo)>, b: Seq<(Utxo, CheckedUtxo)>) -> bool {
    &&& forall|u: Utxo| map_of(a).contains_key(u) <==> map_of(b).contains_key(u)
    &&& forall|u: Utxo|
        #[trigger] map_of(a).contains_key(u) ==> checked_utxo_eq_spec(map_of(a)[u], map_of(b)[u])
}

/// Compares two screening tables.
fn cmp_checked(a: &Vec<(Utxo, CheckedUtxo)>, b: &Vec<(Utxo, CheckedUtxo)>) -> (r: bool)
    requires
        keys_distinct(a@),
        keys_distinct(b@),
    ensures
        r == checked_sem_eq(a@, b@),
{
    proof {
        assert(eq_is_equality::<Utxo>());
    }
    let mut i: usize = 0;
    while i < a.len()
        invariant
            keys_distinct(a@),
            keys_distinct(b@),
            0 <= i <= a@.len(),
            forall|i2: int|
                0 <= i2 < i ==> map_of(b@).contains_key(#[trigger] a@[i2].0)
                    && checked_utxo_eq_spec(map_of(a@)[a@[i2].0], map_of(b@)[a@[i2].0]),
        decreases a@.len() - i,
    {
        proof {
            crate::alist::lemma_map_of_index(a@, i as int);
        }
        let key = a[i].0;
        let mine = &a[i].1;
        proof {
            assert(*mine == a@[i as int].1);
        }
        match alist_get(b, &key) {
            Some(v) => {
                let same = checked_utxo_eq(mine, v);
                proof {
                    assert(a@[i as int].1 == map_of(a@)[key]);
                    assert(*v == map_of(b@)[key]);
                }
                if !same {
                    proof {
                        if checked_sem_eq(a@, b@) {
                            assert(map_of(a@).contains_key(key));
                        }
                    }
                    return false;
                }
            },
            None => {
                proof {
                    if checked_sem_eq(a@, b@) {
                        assert(map_of(a@).contains_key(key));
                        assert(map_of(b@).contains_key(key));
                    }
                }
                return false;
            },
        }
        i += 1;
    }
    let mut j: usize = 0;
    while j < b.len()
        invariant
            keys_distinct(a@),
            keys_distinct(b@),
            0 <= j <= b@.len(),
            forall|i2: int|
                0 <= i2 < a@.len() ==> map_of(b@).contains_key(#[trigger] a@[i2].0)
                    && checked_utxo_eq_spec(map_of(a@)[a@[i2].0], map_of(b@)[a@[i2].0]),
            forall|j2: int| 0 <= j2 < j ==> map_of(a@).contains_key(#[trigger] b@[j2].0),
        decreases b@.len() - j,
    {
        let key = b[j].0;
        match alist_find(a, &key) {
            Some(idx) => {
                proof {
                    assert(crate::alist::has_key(a@, key)) by {
                        assert(a@[idx as int].0 == key);
                    }
                    crate::alist::lemma_map_of_contains(a@, key);
                    assert(key == b@[j as int].0);
                }
            },
            None => {
                proof {
                    crate::alist::lemma_map_of_contains(a@, key);
                    if checked_sem_eq(a@, b@) {
                        crate::alist::lemma_map_of_contains(b@, key);
                        assert(map_of(b@).contains_key(key)) by {
                            assert(b@[j as int].0 == key);
                        }
                        assert(map_of(a@).contains_key(key));
                    }
                }
                return false;
            },
        }
        j += 1;
    }
    proof {
        assert forall|u: Utxo| map_of(a@).contains_key(u) implies map_of(b@).contains_key(u)
            && checked_utxo_eq_spec(map_of(a@)[u], map_of(b@)[u]) by {
            crate::alist::lemma_map_of_contains(a@, u);
            let i2 = choose|i2: int| 0 <= i2 < a@.len() && a@[i2].0 == u;
            crate::alist::lemma_map_of_index(a@, i2);
        }
        assert forall|u: Utxo| map_of(b@).contains_key(u) implies map_of(a@).contains_key(u) by {
            crate::alist::lemma_map_of_contains(b@, u);
            let j2 = choose|j2: int| 0 <= j2 < b@.len() && b@[j2].0 == u;
            crate::alist::lemma_map_of_index(b@, j2);
        }
    }
    true
}

/// Whether two per-account block-index tables hold the same lists.
pub open spec fn indices_sem_eq(a: Seq<(Account, Vec<u64>)>, b: Seq<(Account, Vec<u64>)>) -> bool {
    &&& forall|k: Account| map_of(a).contains_key(k) <==> map_of(b).contains_key(k)
    &&& forall|k: Account| #[trigger] map_of(a).contains_key(k) ==> map_of(a)[k]@ == map_of(b)[k]@
}

/// Compares two per-account block-index tables.
fn cmp_indices(a: &Vec<(Account, Vec<u64>)>, b: &Vec<(Account, Vec<u64>)>) -> (r: bool)
    requires
        keys_distinct(a@),
        keys_distinct(b@),
    ensures
        r == indices_sem_eq(a@, b@),
{
    proof {
        assert(eq_is_equality::<Account>());
    }
    let mut i: usize = 0;
    while i < a.len()
        invariant
            keys_distinct(a@),
            keys_distinct(b@),
            0 <= i <= a@.len(),
            forall|i2: int|
                0 <= i2 < i ==> map_of(b@).contains_key(#[trigger] a@[i2].0) && map_of(a@)[
                    a@[i2].0
                ]@ == map_of(b@)[a@[i2].0]@,
        decreases a@.len() - i,
    {
        proof {
            crate::alist::lemma_map_of_index(a@, i as int);
        }
        let key = a[i].0;
        let mine = &a[i].1;
        proof {
            assert(*mine == a@[i as int].1);
        }
        match alist_get(b, &key) {
            Some(v) => {
                let same = u64_vec_eq(mine, v);
                proof {
                    assert(a@[i as int].1 == map_of(a@)[key]);
                    assert(*v == map_of(b@)[key]);
                }
                if !same {
                    proof {
                        if indices_sem_eq(a@, b@) {
                            assert(map_of(a@).contains_key(key));
                        }
                    }
                    return false;
                }
            },
            None => {
                proof {
                    if indices_sem_eq(a@, b@) {
                        assert(map_of(a@).contains_key(key));
                        assert(map_of(b@).contains_key(key));
                    }
                }
                return false;
            },
        }
        i += 1;
    }
    let mut j: usize = 0;
    while j < b.len()
        invariant
            keys_distinct(a@),
            keys_distinct(b@),
            0 <= j <= b@.len(),
            forall|i2: int|
                0 <= i2 < a@.len() ==> map_of(b@).contains_key(#[trigger] a@[i2].0) && map_of(
                    a@,
                )[a@[i2].0]@ == map_of(b@)[a@[i2].0]@,
            forall|j2: int| 0 <= j2 < j ==> map_of(a@).contains_key(#[trigger] b@[j2].0),
        decreases b@.len() - j,
    {
        let key = b[j].0;
        match alist_find(a, &key) {
            Some(idx) => {
                proof {
                    assert(crate::alist::has_key(a@, key)) by {
                        assert(a@[idx as int].0 == key);
                    }
                    crate::alist::lemma_map_of_contains(a@, key);
                    assert(key == b@[j as int].0);
                }
            },
            None => {
                proof {
                    crate::alist::lemma_map_of_contains(a@, key);
                    if indices_sem_eq(a@, b@) {
                        crate::alist::lemma_map_of_contains(b@, key);
                        assert(map_of(b@).contains_key(key)) by {
                            assert(b@[j as int].0 == key);
                        }
                        assert(map_of(a@).contains_key(key));
                    }
                }
                return false;
            },
        }
        j += 1;
    }
    proof {
        assert forall|k: Account| map_of(a@).contains_key(k) implies map_of(b@).contains_key(k)
            && map_of(a@)[k]@ == map_of(b@)[k]@ by {
            crate::alist::lemma_map_of_contains(a@, k);
            let i2 = choose|i2: int| 0 <= i2 < a@.len() && a@[i2].0 == k;
            crate::alist::lemma_map_of_index(a@, i2);
        }
        assert forall|k: Account| map_of(b@).contains_key(k) implies map_of(a@).contains_key(
            k,
        ) by {
            crate::alist::lemma_map_of_contains(b@, k);
            let j2 = choose|j2: int| 0 <= j2 < b@.len() && b@[j2].0 == k;
            crate::alist::lemma_map_of_index(b@, j2);
        }
    }
    true
}


/// Whether a queue holds the given request.
pub open spec fn seq_has_req(b: Seq<RetrieveBtcRequest>, x: RetrieveBtcRequest) -> bool {
    exists|j: int| 0 <= j < b.len() && b[j] == x
}

/// Whether two pending queues hold the same requests, in any order.
pub open spec fn pending_sem_eq(a: Seq<RetrieveBtcRequest>, b: Seq<RetrieveBtcRequest>) -> bool {
    &&& forall|i: int| 0 <= i < a.len() ==> seq_has_req(b, #[trigger] a[i])
    &&& forall|j: int|
        0 <= j < b.len() ==> crate::state::has_block(a, (#[trigger] b[j]).block_index)
}

/// Compares two pending queues by block index.
fn cmp_pending(a: &Vec<RetrieveBtcRequest>, b: &Vec<RetrieveBtcRequest>) -> (r: bool)
    requires
        crate::pipeline::blocks_distinct(a@),
        crate::pipeline::blocks_distinct(b@),
    ensures
        r == pending_sem_eq(a@, b@),
{
    let mut i: usize = 0;
    while i < a.len()
        invariant
            crate::pipeline::blocks_distinct(a@),
            crate::pipeline::blocks_distinct(b@),
            0 <= i <= a@.len(),
            forall|i2: int| 0 <= i2 < i ==> seq_has_req(b@, #[trigger] a@[i2]),
        decreases a@.len() - i,
    {
        let req = a[i];
        proof {
            assert(req == a@[i as int]);
        }
        match find_pending(b, req.block_index) {
            Some(j) => {
                if !request_eq(&b[j], &req) {
                    proof {
                        if pending_sem_eq(a@, b@) {
                            assert(seq_has_req(b@, a@[i as int]));
                            let j2 = choose|j2: int|
                                0 <= j2 < b@.len() && b@[j2] == a@[i as int];
                            assert(b@[j2].block_index == req.block_index);
                            assert(j2 == j);
                        }
                    }
                    return false;
                }
                proof {
                    assert(seq_has_req(b@, a@[i as int])) by {
                        assert(b@[j as int] == a@[i as int]);
                    }
                }
            },
            None => {
                proof {
                    if pending_sem_eq(a@, b@) {
                        assert(seq_has_req(b@, a@[i as int]));
                        let j2 = choose|j2: int| 0 <= j2 < b@.len() && b@[j2] == a@[i as int];
                        assert(b@[j2].block_index == req.block_index);
                    }
                }
                return false;
            },
        }
        i += 1;
    }
    let mut j: usize = 0;
    while j < b.len()
        invariant
            crate::pipeline::blocks_distinct(a@),
            crate::pipeline::blocks_distinct(b@),
            0 <= j <= b@.len(),
            forall|i2: int| 0 <= i2 < a@.len() ==> seq_has_req(b@, #[trigger] a@[i2]),
            forall|j2: int|
                0 <= j2 < j ==> crate::state::has_block(a@, (#[trigger] b@[j2]).block_index),
        decreases b@.len() - j,
    {
        let req = b[j];
        proof {
            assert(req == b@[j as int]);
        }
        match find_pending(a, req.block_index) {
            Some(idx) => {
                proof {
                    assert(crate::state::has_block(a@, b@[j as int].block_index)) by {
                        assert(a@[idx as int].block_index == b@[j as int].block_index);
                    }
                }
            },
            None => {
                proof {
                    if pending_sem_eq(a@, b@) {
                        assert(crate::state::has_block(a@, b@[j as int].block_index));
                        let i2 = choose|i2: int|
                            0 <= i2 < a@.len() && a@[i2].block_index == b@[
                                j as int
                            ].block_index;
                        assert(a@[i2].block_index == req.block_index);
                    }
                }
                return false;
            },
        }
        j += 1;
    }
    true
}

/// Whether a list holds a data-equal transaction under the same identifier.
pub open spec fn seq_has_matching_tx(
    b: Seq<SubmittedBtcTransaction>,
    x: SubmittedBtcTransaction,
) -> bool {
    exists|j: int| 0 <= j < b.len() && b[j].txid == x.txid && submitted_tx_eq_spec(x, b[j])
}

/// Whether a list holds a transaction with the given identifier.
pub open spec fn seq_has_txid(a: Seq<SubmittedBtcTransaction>, t: Txid) -> bool {
    exists|i: int| 0 <= i < a.len() && a[i].txid == t
}

/// Whether two submitted lists hold data-equal transactions under the same
/// identifiers, in any order.
pub open spec fn submitted_sem_eq(
    a: Seq<SubmittedBtcTransaction>,
    b: Seq<SubmittedBtcTransaction>,
) -> bool {
    &&& forall|i: int| 0 <= i < a.len() ==> seq_has_matching_tx(b, #[trigger] a[i])
    &&& forall|j: int| 0 <= j < b.len() ==> seq_has_txid(a, (#[trigger] b[j]).txid)
}

/// Compares two submitted lists by transaction identifier.
fn cmp_submitted(a: &Vec<SubmittedBtcTransaction>, b: &Vec<SubmittedBtcTransaction>) -> (r: bool)
    requires
        forall|i: int, j: int|
            0 <= i < j < a@.len() ==> (#[trigger] a@[i]).txid != (#[trigger] a@[j]).txid,
        forall|i: int, j: int|
            0 <= i < j < b@.len() ==> (#[trigger] b@[i]).txid != (#[trigger] b@[j]).txid,
    ensures
        r == submitted_sem_eq(a@, b@),
{
    let mut i: usize = 0;
    while i < a.len()
        invariant
            forall|i2: int, j2: int|
                0 <= i2 < j2 < a@.len() ==> (#[trigger] a@[i2]).txid != (#[trigger] a@[j2]).txid,
            forall|i2: int, j2: int|
                0 <= i2 < j2 < b@.len() ==> (#[trigger] b@[i2]).txid != (#[trigger] b@[j2]).txid,
            0 <= i <= a@.len(),
            forall|i2: int| 0 <= i2 < i ==> seq_has_matching_tx(b@, #[trigger] a@[i2]),
        decreases a@.len() - i,
    {
        let txid = a[i].txid;
        proof {
            assert(txid == a@[i as int].txid);
        }
        match find_tx_by_txid(b, &txid) {
            Some(j) => {
                if !submitted_tx_eq(&a[i], &b[j]) {
                    proof {
                        if submitted_sem_eq(a@, b@) {
                            assert(seq_has_matching_tx(b@, a@[i as int]));
                            let j2 = choose|j2: int|
                                0 <= j2 < b@.len() && b@[j2].txid == a@[i as int].txid
                                    && submitted_tx_eq_spec(a@[i as int], b@[j2]);
                            assert(j2 == j);
                        }
                    }
                    return false;
                }
                proof {
                    assert(seq_has_matching_tx(b@, a@[i as int])) by {
                        assert(b@[j as int].txid == a@[i as int].txid && submitted_tx_eq_spec(
                            a@[i as int],
                            b@[j as int],
                        ));
                    }
                }
            },
            None => {
                proof {
                    if submitted_sem_eq(a@, b@) {
                        assert(seq_has_matching_tx(b@, a@[i as int]));
                        let j2 = choose|j2: int|
                            0 <= j2 < b@.len() && b@[j2].txid == a@[i as int].txid
                                && submitted_tx_eq_spec(a@[i as int], b@[j2]);
                        assert(b@[j2].txid == txid);
                    }
                }
                return false;
            },
        }
        i += 1;
    }
    let mut j: usize = 0;
    while j < b.len()
        invariant
            0 <= j <= b@.len(),
            forall|i2: int| 0 <= i2 < a@.len() ==> seq_has_matching_tx(b@, #[trigger] a@[i2]),
            forall|j2: int| 0 <= j2 < j ==> seq_has_txid(a@, (#[trigger] b@[j2]).txid),
        decreases b@.len() - j,
    {
        let txid = b[j].txid;
        proof {
            assert(txid == b@[j as int].txid);
        }
        match find_tx_by_txid(a, &txid) {
            Some(idx) => {
                proof {
                    assert(seq_has_txid(a@, b@[j as int].txid)) by {
                        assert(a@[idx as int].txid == b@[j as int].txid);
                    }
                }
            },
            None => {
                proof {
                    if submitted_sem_eq(a@, b@) {
                        assert(seq_has_txid(a@, b@[j as int].txid));
                        let i2 = choose|i2: int|
                            0 <= i2 < a@.len() && a@[i2].txid == b@[j as int].txid;
                        assert(a@[i2].txid == txid);
                    }
                }
                return false;
            },
        }
        j += 1;
    }
    true
}

/// Whether two stuck lists hold data-equal transactions in the same order.
pub open spec fn stuck_sem_eq(
    a: Seq<SubmittedBtcTransaction>,
    b: Seq<SubmittedBtcTransaction>,
) -> bool {
    &&& a.len() == b.len()
    &&& forall|i: int| 0 <= i < a.len() ==> submitted_tx_eq_spec(#[trigger] a[i], b[i])
}

/// Compares two stuck lists in order.
fn cmp_stuck(a: &Vec<SubmittedBtcTransaction>, b: &Vec<SubmittedBtcTransaction>) -> (r: bool)
    ensures
        r == stuck_sem_eq(a@, b@),
{
    if a.len() != b.len() {
        return false;
    }
    let mut i: usize = 0;
    while i < a.len()
        invariant
            a@.len() == b@.len(),
            0 <= i <= a@.len(),
            forall|i2: int| 0 <= i2 < i ==> submitted_tx_eq_spec(#[trigger] a@[i2], b@[i2]),
        decreases a@.len() - i,
    {
        if !submitted_tx_eq(&a[i], &b[i]) {
            return false;
        }
        i += 1;
    }
    true
}

/// Compares two finalized rings in order.
fn cmp_finalized(
    a: &Vec<crate::records::FinalizedBtcRetrieval>,
    b: &Vec<crate::records::FinalizedBtcRetrieval>,
) -> (r: bool)
    ensures
        r == (a@ == b@),
{
    if a.len() != b.len() {
        return false;
    }
    let mut i: usize = 0;
    while i < a.len()
        invariant
            a@.len() == b@.len(),
            0 <= i <= a@.len(),
            forall|i2: int| 0 <= i2 < i ==> a@[i2] == b@[i2],
        decreases a@.len() - i,
    {
        if !finalized_retrieval_eq(&a[i], &b[i]) {
            proof {
                if a@ == b@ {
                    assert(a@[i as int] == b@[i as int]);
                }
            }
            return false;
        }
        i += 1;
    }
    proof {
        assert(a@ =~= b@);
    }
    true
}

/// Whether two states hold the same durable data: configuration identity,
/// the whole pipeline, the UTXO bookkeeping, the screening and fee records.
/// Sequences whose order is incidental are compared as maps or sets, and the
/// volatile last-checked cache is ignored.
pub open spec fn sem_eq(a: CkBtcMinterState, b: CkBtcMinterState) -> bool {
    &&& a.btc_network == b.btc_network
    &&& a.ecdsa_key_name@ == b.ecdsa_key_name@
    &&& a.min_confirmations == b.min_confirmations
    &&& a.ledger_id == b.ledger_id
    &&& a.finalized_requests@ == b.finalized_requests@
    &&& map_of(a.requests_in_flight@) == map_of(b.requests_in_flight@)
    &&& utxo_set_eq(a.available_utxos@, b.available_utxos@)
    &&& buckets_sem_eq(a.utxos_state_addresses@, b.utxos_state_addresses@)
    &&& suspended_sem_eq(a.suspended_utxos, b.suspended_utxos)
    &&& checked_sem_eq(a.checked_utxos@, b.checked_utxos@)
    &&& a.check_fee == b.check_fee
    &&& map_of(a.owed_kyt_amount@) == map_of(b.owed_kyt_amount@)
    &&& a.btc_checker_principal == b.btc_checker_principal
    &&& indices_sem_eq(
        a.retrieve_btc_account_to_block_indices@,
        b.retrieve_btc_account_to_block_indices@,
    )
    &&& submitted_sem_eq(a.submitted_transactions@, b.submitted_transactions@)
    &&& stuck_sem_eq(a.stuck_transactions@, b.stuck_transactions@)
    &&& pending_sem_eq(a.pending_retrieve_btc_requests@, b.pending_retrieve_btc_requests@)
    &&& map_of(a.replacement_txid@) == map_of(b.replacement_txid@)
    &&& map_of(a.rev_replacement_txid@) == map_of(b.rev_replacement_txid@)
}

impl CkBtcMinterState {
    /// Whether this state matches the other semantically: the same durable
    /// data, though maybe in another representation order.  Returns the
    /// first mismatching field otherwise.
    pub fn check_semantically_eq(&self, other: &CkBtcMinterState) -> (r: Result<(), String>)
        requires
            self.inv(),
            other.inv(),
            forall|i: int, j: int|
                0 <= i < j < self.submitted_transactions@.len()
                    ==> (#[trigger] self.submitted_transactions@[i]).txid != (
                #[trigger] self.submitted_transactions@[j]).txid,
            forall|i: int, j: int|
                0 <= i < j < other.submitted_transactions@.len()
                    ==> (#[trigger] other.submitted_transactions@[i]).txid != (
                #[trigger] other.submitted_transactions@[j]).txid,
        ensures
            r is Ok <==> sem_eq(*self, *other),
    {
        if !(self.btc_network == other.btc_network) {
            return Err("btc_network does not match".to_owned());
        }
        if !(self.ecdsa_key_name == other.ecdsa_key_name) {
            return Err("ecdsa_key_name does not match".to_owned());
        }
        if self.min_confirmations != other.min_confirmations {
            return Err("min_confirmations does not match".to_owned());
        }
        if !(self.ledger_id == other.ledger_id) {
            return Err("ledger_id does not match".to_owned());
        }
        if !cmp_finalized(&self.finalized_requests, &other.finalized_requests) {
            return Err("finalized_requests do not match".to_owned());
        }
        if !cmp_in_flight(&self.requests_in_flight, &other.requests_in_flight) {
            return Err("requests_in_flight do not match".to_owned());
        }
        if !cmp_utxo_set(&self.available_utxos, &other.available_utxos) {
            return Err("available_utxos do not match".to_owned());
        }
        if !cmp_account_buckets(&self.utxos_state_addresses, &other.utxos_state_addresses) {
            return Err("utxos_state_addresses do not match".to_owned());
        }
        if !cmp_suspended(&self.suspended_utxos, &other.suspended_utxos) {
            return Err("suspended_utxos do not match".to_owned());
        }
        if !cmp_checked(&self.checked_utxos, &other.checked_utxos) {
            return Err("checked_utxos do not match".to_owned());
        }
        if self.check_fee != other.check_fee {
            return Err("check_fee does not match".to_owned());
        }
        if !cmp_owed(&self.owed_kyt_amount, &other.owed_kyt_amount) {
            return Err("owed_kyt_amount does not match".to_owned());
        }
        let checker_matches = match (&self.btc_checker_principal, &other.btc_checker_principal) {
            (None, None) => true,
            (Some(x), Some(y)) => *x == *y,
            _ => false,
        };
        if !checker_matches {
            return Err("btc_checker_principal does not match".to_owned());
        }
        if !cmp_indices(
            &self.retrieve_btc_account_to_block_indices,
            &other.retrieve_btc_account_to_block_indices,
        ) {
            return Err("retrieve_btc_account_to_block_indices does not match".to_owned());
        }
        if !cmp_submitted(&self.submitted_transactions, &other.submitted_transactions) {
            return Err("submitted_transactions do not match".to_owned());
        }
        if !cmp_stuck(&self.stuck_transactions, &other.stuck_transactions) {
            return Err("stuck_transactions do not match".to_owned());
        }
        if !cmp_pending(
            &self.pending_retrieve_btc_requests,
            &other.pending_retrieve_btc_requests,
        ) {
            return Err("pending_retrieve_btc_requests do not match".to_owned());
        }
        if !cmp_txid_map(&self.replacement_txid, &other.replacement_txid) {
            return Err("replacement_txid maps do not match".to_owned());
        }
        if !cmp_txid_map(&self.rev_replacement_txid, &other.rev_replacement_txid) {
            return Err("rev_replacement_txid maps do not match".to_owned());
        }
        Ok(())
    }
}

} // verus!
