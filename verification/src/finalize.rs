//! Finalizing a confirmed transaction: freeing its UTXOs, recording its
//! requests as confirmed, and collapsing its replacement chain.

use vstd::prelude::*;

use crate::alist::{
    alist_find, alist_get, alist_remove, elems_distinct, eq_is_equality, keys_distinct,
    map_of, vec_contains,
};
use crate::domain::{Account, OutPoint, Txid, Utxo};
use crate::records::{FinalizedBtcRetrieval, FinalizedStatus, RetrieveBtcRequest, RetrieveBtcStatus, SubmittedBtcTransaction};
use crate::replacement::{
    acyclic, chain_linked, lemma_chain_not_self, lemma_chain_sides_disjoint, lemma_path_stops,
    path_defined, step_n,
};
use crate::resubmission::{lemma_path_distinct, lemma_path_prefix};
use crate::state::{
    bucket_of, fin_has, has_block, outpoint_agreement_fn, tx_has, txs_have, CkBtcMinterState,
    MAX_FINALIZED_REQUESTS,
};

verus! {

broadcast use vstd::seq_lib::lemma_seq_contains_after_push;

/// Removes one occurrence of a value from a duplicate-free vector.
fn remove_utxo_value(v: Vec<Utxo>, u: &Utxo) -> (r: Vec<Utxo>)
    requires
        elems_distinct(v@),
    ensures
        elems_distinct(r@),
        forall|x: Utxo| #[trigger] r@.contains(x) <==> (v@.contains(x) && x != *u),
{
    proof {
        assert(eq_is_equality::<Utxo>());
    }
    let mut out: Vec<Utxo> = Vec::new();
    let mut i: usize = 0;
    while i < v.len()
        invariant
            elems_distinct(v@),
            0 <= i <= v@.len(),
            forall|x: Utxo|
                #[trigger] out@.contains(x) <==> (v@.take(i as int).contains(x) && x != *u),
            elems_distinct(out@),
        decreases v@.len() - i,
    {
        let x = v[i];
        proof {
            assert(v@.take(i as int).push(v@[i as int]) =~= v@.take(i + 1));
            assert(forall|y: Utxo|
                #[trigger] v@.take(i + 1).contains(y) <==> (v@.take(i as int).contains(y) || y
                    == v@[i as int]));
            if v@.take(i as int).contains(v@[i as int]) {
                let j = choose|j: int|
                    0 <= j < i && v@.take(i as int)[j] == v@[i as int];
                assert(v@[j] == v@[i as int]);
            }
        }
        let ghost out_before = out@;
        if !(x == *u) {
            out.push(x);
            proof {
                assert(out@ == out_before.push(x));
                assert(forall|y: Utxo|
                    #[trigger] out@.contains(y) <==> (out_before.contains(y) || y == x));
                assert(!out_before.contains(x));
                assert(forall|k: int| 0 <= k < out_before.len() ==> out_before[k] != x);
                assert forall|p: int, q: int| 0 <= p < q < out@.len() implies out@[p]
                    != out@[q] by {
                    if q < out@.len() - 1 {
                        assert(out@[p] == out_before[p] && out@[q] == out_before[q]);
                    } else {
                        assert(out@[q] == x && out@[p] == out_before[p]);
                    }
                }
            }
        }
        proof {
            assert forall|y: Utxo| #[trigger] out@.contains(y) implies (v@.take(i + 1).contains(y)
                && y != *u) by {}
            assert forall|y: Utxo| (v@.take(i + 1).contains(y) && y != *u) implies
                #[trigger] out@.contains(y) by {}
        }
        i += 1;
    }
    proof {
        assert(v@.take(v@.len() as int) =~= v@);
    }
    out
}

/// Forgets one UTXO: unassigns its outpoint; if the owning account has an
/// update-balance call in progress, stashes the UTXO with that account; and
/// removes the UTXO from the account's credited bucket, dropping the bucket
/// when it empties.  The assignment, buckets and stash stay consistent.
#[verifier::spinoff_prover]
#[verifier::rlimit(50)]
fn forget_one(
    oa: &mut Vec<(OutPoint, Account)>,
    usa: &mut Vec<(Account, Vec<Utxo>)>,
    fu: &mut Vec<(Account, Vec<Utxo>)>,
    locked: &Vec<Account>,
    utxo: &Utxo,
)
    requires
        keys_distinct(old(oa)@),
        keys_distinct(old(usa)@),
        keys_distinct(old(fu)@),
        forall|i: int| 0 <= i < old(usa)@.len() ==> elems_distinct(#[trigger] old(usa)@[i].1@),
        forall|i: int| 0 <= i < old(fu)@.len() ==> elems_distinct(#[trigger] old(fu)@[i].1@),
        outpoint_agreement_fn(old(oa)@, old(usa)@),
        map_of(old(oa)@).contains_key(utxo.outpoint) ==> bucket_of(
            old(usa)@,
            map_of(old(oa)@)[utxo.outpoint],
        ).contains(*utxo),
    ensures
        keys_distinct(final(oa)@),
        keys_distinct(final(usa)@),
        keys_distinct(final(fu)@),
        forall|i: int|
            0 <= i < final(usa)@.len() ==> elems_distinct(#[trigger] final(usa)@[i].1@),
        forall|i: int| 0 <= i < final(fu)@.len() ==> elems_distinct(#[trigger] final(fu)@[i].1@),
        outpoint_agreement_fn(final(oa)@, final(usa)@),
        map_of(final(oa)@) == map_of(old(oa)@).remove(utxo.outpoint),
        forall|a: Account, x: Utxo|
            #[trigger] bucket_of(final(usa)@, a).contains(x) <==> (bucket_of(
                old(usa)@,
                a,
            ).contains(x) && x != *utxo),
        forall|a: Account, x: Utxo|
            #[trigger] bucket_of(final(fu)@, a).contains(x) <==> (bucket_of(
                old(fu)@,
                a,
            ).contains(x) || (x == *utxo && locked@.contains(a) && map_of(
                old(oa)@,
            ).contains_key(utxo.outpoint) && map_of(old(oa)@)[utxo.outpoint] == a)),
{
    proof {
        assert(eq_is_equality::<Account>());
        assert(eq_is_equality::<OutPoint>());
        assert(eq_is_equality::<Utxo>());
        crate::alist::lemma_map_of_contains(oa@, utxo.outpoint);
    }
    let account: Account = match alist_get(oa, &utxo.outpoint) {
        Some(a) => *a,
        None => {
            proof {
                assert(map_of(old(oa)@).remove(utxo.outpoint) =~= map_of(old(oa)@));
                assert forall|a: Account, x: Utxo|
                    #[trigger] bucket_of(usa@, a).contains(x) implies x != *utxo by {
                    if x == *utxo {
                        assert(map_of(oa@).contains_key(x.outpoint));
                    }
                }
            }
            return ;
        },
    };
    let ghost oa0 = oa@;
    let ghost usa_orig = usa@;
    let ghost fu_orig = fu@;
    proof {
        assert(map_of(oa0).contains_key(utxo.outpoint) && map_of(oa0)[utxo.outpoint] == account);
        assert(bucket_of(usa_orig, account).contains(*utxo));
        // Only the owning account's bucket can hold this UTXO.
        assert forall|a: Account| a != account implies !bucket_of(usa_orig, a).contains(
            *utxo,
        ) by {
            if bucket_of(usa_orig, a).contains(*utxo) {
                assert(map_of(oa0)[utxo.outpoint] == a);
            }
        }
    }
    alist_remove(oa, &utxo.outpoint);
    let is_locked = vec_contains(locked, &account);
    if is_locked {
        match alist_find(fu, &account) {
            Some(i) => {
                proof {
                    crate::alist::lemma_map_of_index(fu@, i as int);
                    crate::alist::lemma_map_of_remove(fu@, i as int);
                    crate::alist::lemma_keys_distinct_remove(fu@, i as int);
                }
                let ghost fu0 = fu@;
                let (acct, mut bucket) = fu.remove(i);
                let ghost bucket0 = bucket@;
                if !vec_contains(&bucket, utxo) {
                    bucket.push(*utxo);
                }
                proof {
                    assert(forall|x: Utxo|
                        #[trigger] bucket@.contains(x) <==> (bucket0.contains(x) || x == *utxo));
                    assert(elems_distinct(bucket@)) by {
                        if !bucket0.contains(*utxo) {
                            assert(forall|k: int|
                                0 <= k < bucket0.len() ==> bucket0[k] != *utxo);
                        }
                    }
                    crate::alist::lemma_map_of_contains(fu@, acct);
                    if crate::alist::has_key(fu@, acct) {
                        let j = choose|j: int| 0 <= j < fu@.len() && fu@[j].0 == acct;
                        assert(fu0[if j < i { j } else { j + 1 }].0 == acct);
                        assert(false);
                    }
                    crate::alist::lemma_map_of_push(fu@, acct, bucket);
                    crate::alist::lemma_keys_distinct_push(fu@, acct, bucket);
                }
                let ghost bucket_after = bucket@;
                fu.push((acct, bucket));
                proof {
                    assert(map_of(fu@) =~= map_of(fu_orig).insert(account, fu@.last().1));
                    assert(fu@.last().1@ == bucket_after);
                    assert forall|a: Account, x: Utxo|
                        #[trigger] bucket_of(fu@, a).contains(x) <==> (bucket_of(
                        fu_orig,
                        a,
                    ).contains(x) || (x == *utxo && a == account)) by {
                        if a == account {
                            assert(bucket_of(fu@, a) == bucket_after);
                            assert(bucket_of(fu_orig, a) == bucket0);
                        } else {
                            assert(map_of(fu@).contains_key(a) == map_of(fu_orig).contains_key(
                                a,
                            ));
                        }
                    }
                }
            },
            None => {
                proof {
                    crate::alist::lemma_map_of_contains(fu@, account);
                }
                let ghost fu0 = fu@;
                let mut bucket: Vec<Utxo> = Vec::new();
                bucket.push(*utxo);
                proof {
                    crate::alist::lemma_map_of_push(fu@, account, bucket);
                    crate::alist::lemma_keys_distinct_push(fu@, account, bucket);
                }
                let ghost bucket_after = bucket@;
                fu.push((account, bucket));
                proof {
                    assert(map_of(fu@) =~= map_of(fu_orig).insert(account, fu@.last().1));
                    assert forall|a: Account, x: Utxo|
                        #[trigger] bucket_of(fu@, a).contains(x) <==> (bucket_of(
                        fu_orig,
                        a,
                    ).contains(x) || (x == *utxo && a == account)) by {
                        if a == account {
                            assert(bucket_of(fu@, a) == bucket_after);
                            assert(!map_of(fu_orig).contains_key(a));
                            assert(bucket_of(fu_orig, a) =~= Seq::<Utxo>::empty());
                            assert(bucket_after =~= Seq::<Utxo>::empty().push(*utxo));
                        } else {
                            assert(map_of(fu@).contains_key(a) == map_of(fu_orig).contains_key(
                                a,
                            ));
                        }
                    }
                }
            },
        }
    }
    proof {
        crate::alist::lemma_map_of_contains(usa@, account);
        assert(map_of(usa@).contains_key(account)) by {
            assert(bucket_of(usa_orig, account).contains(*utxo));
            if !map_of(usa_orig).contains_key(account) {
                assert(bucket_of(usa_orig, account) =~= Seq::<Utxo>::empty());
            }
        }
    }
    match alist_find(usa, &account) {
        Some(i) => {
            proof {
                crate::alist::lemma_map_of_index(usa@, i as int);
                crate::alist::lemma_map_of_remove(usa@, i as int);
                crate::alist::lemma_keys_distinct_remove(usa@, i as int);
            }
            let ghost usa0 = usa@;
            let (acct, bucket_with) = usa.remove(i);
            let ghost bucket0 = bucket_with@;
            let bucket = remove_utxo_value(bucket_with, utxo);
            let ghost bucket_after = bucket@;
            if bucket.len() > 0 {
                proof {
                    crate::alist::lemma_map_of_contains(usa@, acct);
                    if crate::alist::has_key(usa@, acct) {
                        let j = choose|j: int| 0 <= j < usa@.len() && usa@[j].0 == acct;
                        assert(usa0[if j < i { j } else { j + 1 }].0 == acct);
                        assert(false);
                    }
                    crate::alist::lemma_map_of_push(usa@, acct, bucket);
                    crate::alist::lemma_keys_distinct_push(usa@, acct, bucket);
                }
                usa.push((acct, bucket));
                proof {
                    assert(map_of(usa@) =~= map_of(usa_orig).insert(account, usa@.last().1));
                    assert(usa@.last().1@ == bucket_after);
                }
            } else {
                proof {
                    assert(map_of(usa@) =~= map_of(usa_orig).remove(acct));
                    assert(bucket_after.len() == 0);
                }
            }
            proof {
                assert(bucket_of(usa_orig, account) == bucket0);
                assert forall|a: Account, x: Utxo|
                    #[trigger] bucket_of(usa@, a).contains(x) <==> (bucket_of(
                    usa_orig,
                    a,
                ).contains(x) && x != *utxo) by {
                    if a == account {
                        if bucket_after.len() > 0 {
                            assert(bucket_of(usa@, a) == bucket_after);
                        } else {
                            assert(!map_of(usa@).contains_key(a));
                            assert(bucket_of(usa@, a) =~= Seq::<Utxo>::empty());
                            if bucket_of(usa_orig, a).contains(x) && x != *utxo {
                                assert(bucket_after.contains(x));
                            }
                        }
                    } else {
                        assert(map_of(usa@).contains_key(a) == map_of(usa_orig).contains_key(a));
                        assert(!bucket_of(usa_orig, a).contains(*utxo));
                    }
                }
            }
        },
        None => {
            proof {
                assert(false);
            }
        },
    }
    proof {
        if !is_locked {
            assert forall|a: Account, x: Utxo|
                #[trigger] bucket_of(fu@, a).contains(x) <==> (bucket_of(fu_orig, a).contains(x)
                    || (x == *utxo && locked@.contains(a) && map_of(oa0).contains_key(
                    utxo.outpoint,
                ) && map_of(oa0)[utxo.outpoint] == a)) by {
                if x == *utxo && locked@.contains(a) && map_of(oa0).contains_key(utxo.outpoint)
                    && map_of(oa0)[utxo.outpoint] == a {
                    assert(a == account);
                    assert(locked@.contains(account));
                }
            }
        }
        lemma_forget_agreement(oa0, usa_orig, final(oa)@, final(usa)@, *utxo, account);
    }
}

/// After forgetting a stored UTXO, the assignment and the buckets still
/// agree.
proof fn lemma_forget_agreement(
    oa0: Seq<(OutPoint, Account)>,
    usa0: Seq<(Account, Vec<Utxo>)>,
    oa1: Seq<(OutPoint, Account)>,
    usa1: Seq<(Account, Vec<Utxo>)>,
    utxo: Utxo,
    account: Account,
)
    requires
        outpoint_agreement_fn(oa0, usa0),
        map_of(oa0).contains_key(utxo.outpoint),
        map_of(oa0)[utxo.outpoint] == account,
        bucket_of(usa0, account).contains(utxo),
        map_of(oa1) == map_of(oa0).remove(utxo.outpoint),
        forall|a: Account, x: Utxo|
            #[trigger] bucket_of(usa1, a).contains(x) <==> (bucket_of(usa0, a).contains(x) && x
                != utxo),
    ensures
        outpoint_agreement_fn(oa1, usa1),
{
    assert forall|o: OutPoint| #[trigger] map_of(oa1).contains_key(o) implies exists|u: Utxo|
        bucket_of(usa1, map_of(oa1)[o]).contains(u) && u.outpoint == o by {
        assert(map_of(oa0).contains_key(o));
        assert(o != utxo.outpoint);
        let a = map_of(oa0)[o];
        assert(map_of(oa1)[o] == a);
        assert(exists|u: Utxo| bucket_of(usa0, map_of(oa0)[o]).contains(u) && u.outpoint == o);
        let u = choose|u: Utxo| bucket_of(usa0, a).contains(u) && u.outpoint == o;
        assert(u != utxo);
        assert(bucket_of(usa1, a).contains(u));
        assert(bucket_of(usa1, map_of(oa1)[o]).contains(u) && u.outpoint == o);
    }
    assert forall|a: Account, u: Utxo| #[trigger] bucket_of(usa1, a).contains(u) implies map_of(
        oa1,
    ).contains_key(u.outpoint) && map_of(oa1)[u.outpoint] == a by {
        assert(bucket_of(usa0, a).contains(u));
        assert(map_of(oa0).contains_key(u.outpoint) && map_of(oa0)[u.outpoint] == a);
        if u.outpoint == utxo.outpoint {
            assert(bucket_of(usa0, account).contains(utxo));
            assert(u == utxo && a == account);
        }
    }
    assert forall|a1: Account, a2: Account, u1: Utxo, u2: Utxo|
        #[trigger] bucket_of(usa1, a1).contains(u1) && #[trigger] bucket_of(usa1, a2).contains(
            u2,
        ) && u1.outpoint == u2.outpoint implies u1 == u2 && a1 == a2 by {
        assert(bucket_of(usa0, a1).contains(u1));
        assert(bucket_of(usa0, a2).contains(u2));
    }
}

} // verus!
// Chain cleanup and transaction finalization.
verus! {

/// The transactions whose identifier the replacement chain does not connect
/// to the confirmed one, in their original order.
pub open spec fn off_chain_txs(
    s: Seq<SubmittedBtcTransaction>,
    repl: Map<Txid, Txid>,
    rev: Map<Txid, Txid>,
    c: Txid,
) -> Seq<SubmittedBtcTransaction>
    decreases s.len(),
{
    if s.len() == 0 {
        Seq::empty()
    } else if chain_linked(repl, rev, c, s.last().txid) {
        off_chain_txs(s.drop_last(), repl, rev, c)
    } else {
        off_chain_txs(s.drop_last(), repl, rev, c).push(s.last())
    }
}

/// The transactions that outlive a finalization: those whose identifier is
/// neither the confirmed one nor connected to it through the replacement
/// chain, in their original order.
pub open spec fn surviving_txs(
    s: Seq<SubmittedBtcTransaction>,
    repl: Map<Txid, Txid>,
    rev: Map<Txid, Txid>,
    c: Txid,
) -> Seq<SubmittedBtcTransaction>
    decreases s.len(),
{
    if s.len() == 0 {
        Seq::empty()
    } else if s.last().txid == c || chain_linked(repl, rev, c, s.last().txid) {
        surviving_txs(s.drop_last(), repl, rev, c)
    } else {
        surviving_txs(s.drop_last(), repl, rev, c).push(s.last())
    }
}

/// The transactions whose identifier is not among the excluded ones, in
/// their original order.
pub open spec fn retained_txs(s: Seq<SubmittedBtcTransaction>, excluded: Seq<Txid>) -> Seq<
    SubmittedBtcTransaction,
>
    decreases s.len(),
{
    if s.len() == 0 {
        Seq::empty()
    } else if excluded.contains(s.last().txid) {
        retained_txs(s.drop_last(), excluded)
    } else {
        retained_txs(s.drop_last(), excluded).push(s.last())
    }
}

/// When the excluded identifiers are exactly the chain-connected ones, the
/// two filters agree.
pub proof fn lemma_retained_matches_chain(
    s: Seq<SubmittedBtcTransaction>,
    excluded: Seq<Txid>,
    repl: Map<Txid, Txid>,
    rev: Map<Txid, Txid>,
    c: Txid,
)
    requires
        forall|x: Txid| #[trigger] excluded.contains(x) <==> chain_linked(repl, rev, c, x),
    ensures
        retained_txs(s, excluded) == off_chain_txs(s, repl, rev, c),
    decreases s.len(),
{
    if s.len() > 0 {
        lemma_retained_matches_chain(s.drop_last(), excluded, repl, rev, c);
    }
}

/// The chain filter keeps exactly the off-chain transactions of its input.
pub proof fn lemma_off_chain_membership(
    s: Seq<SubmittedBtcTransaction>,
    repl: Map<Txid, Txid>,
    rev: Map<Txid, Txid>,
    c: Txid,
)
    ensures
        forall|x: SubmittedBtcTransaction|
            #[trigger] off_chain_txs(s, repl, rev, c).contains(x) <==> (s.contains(x)
                && !chain_linked(repl, rev, c, x.txid)),
    decreases s.len(),
{
    let off = off_chain_txs(s, repl, rev, c);
    if s.len() > 0 {
        lemma_off_chain_membership(s.drop_last(), repl, rev, c);
        let prefix = off_chain_txs(s.drop_last(), repl, rev, c);
        assert(s.drop_last().push(s.last()) =~= s);
        assert forall|x: SubmittedBtcTransaction| #[trigger] off.contains(x) implies (s.contains(
            x,
        ) && !chain_linked(repl, rev, c, x.txid)) by {
            if !prefix.contains(x) {
                assert(x == s.last());
            } else {
                assert(s.drop_last().contains(x));
            }
        }
        assert forall|x: SubmittedBtcTransaction|
            s.contains(x) && !chain_linked(repl, rev, c, x.txid) implies #[trigger] off.contains(
            x,
        ) by {
            if s.drop_last().contains(x) {
                assert(prefix.contains(x));
                if !chain_linked(repl, rev, c, s.last().txid) {
                    assert(off == prefix.push(s.last()));
                }
            } else {
                assert(x == s.last());
                assert(off == prefix.push(s.last()));
            }
        }
    } else {
        assert forall|x: SubmittedBtcTransaction| #[trigger] off.contains(x) implies false by {}
    }
}

/// The chain filter keeps a transaction identifier unique when it was
/// unique in the input.
pub proof fn lemma_off_chain_at_most_one(
    s: Seq<SubmittedBtcTransaction>,
    repl: Map<Txid, Txid>,
    rev: Map<Txid, Txid>,
    c: Txid,
    t: Txid,
)
    requires
        forall|i: int, j: int|
            0 <= i < s.len() && 0 <= j < s.len() && #[trigger] s[i].txid == t
                && #[trigger] s[j].txid == t ==> i == j,
    ensures
        forall|i: int, j: int|
            0 <= i < off_chain_txs(s, repl, rev, c).len() && 0 <= j < off_chain_txs(
                s,
                repl,
                rev,
                c,
            ).len() && #[trigger] off_chain_txs(s, repl, rev, c)[i].txid == t
                && #[trigger] off_chain_txs(s, repl, rev, c)[j].txid == t ==> i == j,
    decreases s.len(),
{
    let off = off_chain_txs(s, repl, rev, c);
    if s.len() > 0 {
        let prefix = off_chain_txs(s.drop_last(), repl, rev, c);
        lemma_off_chain_at_most_one(s.drop_last(), repl, rev, c, t);
        lemma_off_chain_membership(s.drop_last(), repl, rev, c);
        assert forall|i: int, j: int|
            0 <= i < off.len() && 0 <= j < off.len() && #[trigger] off[i].txid == t
                && #[trigger] off[j].txid == t implies i == j by {
            if !chain_linked(repl, rev, c, s.last().txid) {
                assert(off == prefix.push(s.last()));
                if i < prefix.len() && j < prefix.len() {
                    assert(prefix[i].txid == t && prefix[j].txid == t);
                } else if i != j {
                    let p = if i < j { i } else { j };
                    assert(off[p] == prefix[p]);
                    assert(prefix.contains(prefix[p]));
                    assert(s.drop_last().contains(prefix[p]));
                    let k = choose|k: int|
                        0 <= k < s.drop_last().len() && s.drop_last()[k] == prefix[p];
                    assert(s[k].txid == t);
                    assert(s[s.len() - 1].txid == t);
                }
            } else {
                assert(off == prefix);
                assert(prefix[i].txid == t && prefix[j].txid == t);
            }
        }
    }
}

/// Removing the single transaction that bears the confirmed identifier from
/// the chain filter's result is filtering that identifier out as well.
pub proof fn lemma_survivors_remove(
    s: Seq<SubmittedBtcTransaction>,
    repl: Map<Txid, Txid>,
    rev: Map<Txid, Txid>,
    c: Txid,
    p: int,
)
    requires
        0 <= p < off_chain_txs(s, repl, rev, c).len(),
        off_chain_txs(s, repl, rev, c)[p].txid == c,
        forall|i: int, j: int|
            0 <= i < off_chain_txs(s, repl, rev, c).len() && 0 <= j < off_chain_txs(
                s,
                repl,
                rev,
                c,
            ).len() && #[trigger] off_chain_txs(s, repl, rev, c)[i].txid == c
                && #[trigger] off_chain_txs(s, repl, rev, c)[j].txid == c ==> i == j,
    ensures
        off_chain_txs(s, repl, rev, c).remove(p) == surviving_txs(s, repl, rev, c),
    decreases s.len(),
{
    let off = off_chain_txs(s, repl, rev, c);
    let prefix = off_chain_txs(s.drop_last(), repl, rev, c);
    if chain_linked(repl, rev, c, s.last().txid) {
        assert(off == prefix);
        lemma_survivors_remove(s.drop_last(), repl, rev, c, p);
    } else if s.last().txid == c {
        assert(off == prefix.push(s.last()));
        assert(off[off.len() - 1].txid == c);
        assert(p == off.len() - 1);
        assert(off.remove(p) =~= prefix);
        assert forall|i: int| 0 <= i < prefix.len() implies prefix[i].txid != c by {
            assert(off[i] == prefix[i]);
            if off[i].txid == c {
                assert(i == off.len() - 1);
            }
        }
        lemma_off_chain_no_confirmed(s.drop_last(), repl, rev, c);
    } else {
        assert(off == prefix.push(s.last()));
        assert(p < prefix.len()) by {
            if p == off.len() - 1 {
                assert(off[p] == s.last());
            }
        }
        assert(off.remove(p) =~= prefix.remove(p).push(s.last()));
        assert forall|i: int, j: int|
            0 <= i < prefix.len() && 0 <= j < prefix.len() && #[trigger] prefix[i].txid == c
                && #[trigger] prefix[j].txid == c implies i == j by {
            assert(off[i] == prefix[i] && off[j] == prefix[j]);
        }
        assert(prefix[p] == off[p]);
        lemma_survivors_remove(s.drop_last(), repl, rev, c, p);
    }
}

/// When no kept transaction bears the confirmed identifier, the two filters
/// agree.
pub proof fn lemma_off_chain_no_confirmed(
    s: Seq<SubmittedBtcTransaction>,
    repl: Map<Txid, Txid>,
    rev: Map<Txid, Txid>,
    c: Txid,
)
    requires
        forall|i: int|
            0 <= i < off_chain_txs(s, repl, rev, c).len() ==> (#[trigger] off_chain_txs(
                s,
                repl,
                rev,
                c,
            )[i]).txid != c,
    ensures
        surviving_txs(s, repl, rev, c) == off_chain_txs(s, repl, rev, c),
    decreases s.len(),
{
    let off = off_chain_txs(s, repl, rev, c);
    let prefix = off_chain_txs(s.drop_last(), repl, rev, c);
    if s.len() > 0 {
        if chain_linked(repl, rev, c, s.last().txid) {
            assert(off == prefix);
            lemma_off_chain_no_confirmed(s.drop_last(), repl, rev, c);
        } else {
            assert(off == prefix.push(s.last()));
            assert forall|i: int| 0 <= i < prefix.len() implies (#[trigger] prefix[i]).txid
                != c by {
                assert(off[i] == prefix[i]);
            }
            lemma_off_chain_no_confirmed(s.drop_last(), repl, rev, c);
            assert(s.last().txid != c) by {
                assert(off[off.len() - 1] == s.last());
            }
        }
    }
}

/// Keeps the transactions whose identifier is not among the excluded ones,
/// in order.
fn retain_without_txids(
    v: Vec<SubmittedBtcTransaction>,
    excluded: &Vec<Txid>,
) -> (r: Vec<SubmittedBtcTransaction>)
    requires
        forall|i: int, j: int, b: u64|
            0 <= i < j < v@.len() ==> !(#[trigger] tx_has(v@[i], b) && #[trigger] tx_has(
                v@[j],
                b,
            )),
    ensures
        r@ == retained_txs(v@, excluded@),
        forall|b: u64| #[trigger] txs_have(r@, b) ==> txs_have(v@, b),
        forall|x: SubmittedBtcTransaction| #[trigger] r@.contains(x) ==> v@.contains(x),
        forall|i: int, j: int, b: u64|
            0 <= i < j < r@.len() ==> !(#[trigger] tx_has(r@[i], b) && #[trigger] tx_has(
                r@[j],
                b,
            )),
{
    proof {
        assert(eq_is_equality::<Txid>());
    }
    let ghost orig = v@;
    let total = v.len();
    let mut rest = v;
    let mut out: Vec<SubmittedBtcTransaction> = Vec::new();
    let mut i: usize = 0;
    proof {
        assert(rest@ =~= orig.skip(0));
        assert(orig.take(0) =~= Seq::<SubmittedBtcTransaction>::empty());
    }
    while rest.len() > 0
        invariant
            orig.len() == total,
            i <= orig.len(),
            rest@ == orig.skip(i as int),
            out@ == retained_txs(orig.take(i as int), excluded@),
            forall|i2: int, j2: int, b: u64|
                0 <= i2 < j2 < orig.len() ==> !(#[trigger] tx_has(orig[i2], b)
                    && #[trigger] tx_has(orig[j2], b)),
            forall|b: u64| #[trigger] txs_have(out@, b) ==> txs_have(orig, b),
            forall|x: SubmittedBtcTransaction| #[trigger] out@.contains(x) ==> orig.contains(x),
            forall|b: u64| #[trigger] txs_have(out@, b) ==> !txs_have(rest@, b),
            forall|i2: int, j2: int, b: u64|
                0 <= i2 < j2 < out@.len() ==> !(#[trigger] tx_has(out@[i2], b)
                    && #[trigger] tx_has(out@[j2], b)),
        decreases rest@.len(),
    {
        let ghost rest0 = rest@;
        let tx = rest.remove(0);
        proof {
            assert(tx == orig[i as int]);
            assert(rest@ =~= orig.skip(i + 1));
        }
        let keep = !crate::alist::vec_contains(excluded, &tx.txid);
        let ghost out0 = out@;
        if keep {
            out.push(tx);
        }
        proof {
            assert(orig.take(i + 1).drop_last() =~= orig.take(i as int));
            assert(orig.take(i + 1).last() == orig[i as int]);
            assert(out@ == retained_txs(orig.take(i + 1), excluded@));
            if keep {
                crate::state::lemma_txs_have_push(out0, orig[i as int]);
                assert forall|b: u64| #[trigger] txs_have(out@, b) implies txs_have(orig, b) by {
                    if txs_have(out0, b) {
                    } else {
                        assert(tx_has(orig[i as int], b));
                    }
                }
                assert forall|x: SubmittedBtcTransaction| #[trigger] out@.contains(x) implies
                    orig.contains(x) by {
                    if !out0.contains(x) {
                        assert(x == orig[i as int]);
                    }
                }
                assert forall|b: u64| #[trigger] txs_have(out@, b) implies !txs_have(
                    rest@,
                    b,
                ) by {
                    if txs_have(rest@, b) {
                        let k = choose|k: int|
                            0 <= k < rest@.len() && tx_has(#[trigger] rest@[k], b);
                        assert(rest@[k] == orig[k + i + 1]);
                        assert(txs_have(rest0, b)) by {
                            assert(rest0[k + 1] == orig[k + i + 1]);
                            assert(tx_has(rest0[k + 1], b));
                        }
                        if txs_have(out0, b) {
                        } else {
                            assert(tx_has(orig[i as int], b));
                            assert(tx_has(orig[k + i + 1], b));
                        }
                    }
                }
                assert forall|i2: int, j2: int, b: u64| 0 <= i2 < j2 < out@.len() implies !(
                #[trigger] tx_has(out@[i2], b) && #[trigger] tx_has(out@[j2], b)) by {
                    if j2 < out@.len() - 1 {
                        assert(out@[i2] == out0[i2] && out@[j2] == out0[j2]);
                    } else {
                        assert(out@[j2] == orig[i as int]);
                        assert(out@[i2] == out0[i2]);
                        if tx_has(out0[i2], b) && tx_has(orig[i as int], b) {
                            assert(txs_have(out0, b));
                            assert(tx_has(rest0[0], b));
                            assert(txs_have(rest0, b));
                        }
                    }
                }
            } else {
                assert forall|b: u64| #[trigger] txs_have(out@, b) implies !txs_have(
                    rest@,
                    b,
                ) by {
                    if txs_have(rest@, b) {
                        let k = choose|k: int|
                            0 <= k < rest@.len() && tx_has(#[trigger] rest@[k], b);
                        assert(rest0[k + 1] == rest@[k]);
                        assert(tx_has(rest0[k + 1], b));
                        assert(txs_have(rest0, b));
                    }
                }
            }
        }
        i += 1;
    }
    proof {
        assert(orig.take(orig.len() as int) =~= orig);
    }
    out
}

impl CkBtcMinterState {
    /// Unassigns a UTXO's outpoint, stashes the UTXO for its account when
    /// that account has an update-balance call in progress, and removes it
    /// from the account's credited bucket.
    pub(crate) fn forget_utxo(&mut self, utxo: &Utxo)
        requires
            old(self).inv(),
            old(self).outpoint_map().contains_key(utxo.outpoint) ==> old(self).account_utxos(
                old(self).outpoint_map()[utxo.outpoint],
            ).contains(*utxo),
        ensures
            final(self).inv(),
            final(self).outpoint_map() == old(self).outpoint_map().remove(utxo.outpoint),
            forall|a: Account, x: Utxo|
                #[trigger] final(self).account_utxos(a).contains(x) <==> (old(
                    self,
                ).account_utxos(a).contains(x) && x != *utxo),
            forall|a: Account, x: Utxo|
                #[trigger] final(self).account_finalized_utxos(a).contains(x) <==> (old(
                    self,
                ).account_finalized_utxos(a).contains(x) || (x == *utxo && old(
                    self,
                ).update_balance_accounts@.contains(a) && old(self).outpoint_map().contains_key(
                    utxo.outpoint,
                ) && old(self).outpoint_map()[utxo.outpoint] == a)),
            *final(self) == (CkBtcMinterState {
                outpoint_account: final(self).outpoint_account,
                utxos_state_addresses: final(self).utxos_state_addresses,
                finalized_utxos: final(self).finalized_utxos,
                ..*old(self)
            }),
    {
        let mut oa: Vec<(OutPoint, Account)> = Vec::new();
        core::mem::swap(&mut oa, &mut self.outpoint_account);
        let mut usa: Vec<(Account, Vec<Utxo>)> = Vec::new();
        core::mem::swap(&mut usa, &mut self.utxos_state_addresses);
        let mut fu: Vec<(Account, Vec<Utxo>)> = Vec::new();
        core::mem::swap(&mut fu, &mut self.finalized_utxos);
        forget_one(&mut oa, &mut usa, &mut fu, &self.update_balance_accounts, utxo);
        self.outpoint_account = oa;
        self.utxos_state_addresses = usa;
        self.finalized_utxos = fu;
    }
}

impl CkBtcMinterState {
    /// Collapses the replacement chain around a confirmed transaction:
    /// walking forward to its replacements and backward to the transactions
    /// it replaced, every identifier the chain connects to the confirmed one
    /// loses its edges in both maps and its transactions in the submitted
    /// and stuck lists; every other transaction and edge is kept, in order.
    #[verifier::rlimit(60)]
    pub(crate) fn cleanup_tx_replacement_chain(&mut self, confirmed_txid: &Txid)
        requires
            old(self).inv(),
        ensures
            final(self).inv(),
            // Chain members, the confirmed identifier included, lose their
            // edges in both maps.
            forall|x: Txid|
                x == *confirmed_txid || chain_linked(
                    old(self).repl_map(),
                    old(self).rev_map(),
                    *confirmed_txid,
                    x,
                ) ==> !final(self).repl_map().contains_key(x)
                    && !final(self).rev_map().contains_key(x),
            // Edges off the chain are kept, with their values.
            forall|x: Txid|
                #[trigger] old(self).repl_map().contains_key(x) && x != *confirmed_txid
                    && !chain_linked(
                    old(self).repl_map(),
                    old(self).rev_map(),
                    *confirmed_txid,
                    x,
                ) ==> final(self).repl_map().contains_key(x),
            forall|x: Txid|
                #[trigger] old(self).rev_map().contains_key(x) && x != *confirmed_txid
                    && !chain_linked(
                    old(self).repl_map(),
                    old(self).rev_map(),
                    *confirmed_txid,
                    x,
                ) ==> final(self).rev_map().contains_key(x),
            forall|x: Txid|
                #[trigger] final(self).repl_map().contains_key(x) ==> old(
                    self,
                ).repl_map().contains_key(x) && final(self).repl_map()[x] == old(
                    self,
                ).repl_map()[x],
            forall|x: Txid|
                #[trigger] final(self).rev_map().contains_key(x) ==> old(
                    self,
                ).rev_map().contains_key(x) && final(self).rev_map()[x] == old(self).rev_map()[x],
            // The lists keep exactly the off-chain transactions, in order.
            final(self).submitted_transactions@ == off_chain_txs(
                old(self).submitted_transactions@,
                old(self).repl_map(),
                old(self).rev_map(),
                *confirmed_txid,
            ),
            final(self).stuck_transactions@ == off_chain_txs(
                old(self).stuck_transactions@,
                old(self).repl_map(),
                old(self).rev_map(),
                *confirmed_txid,
            ),
            *final(self) == (CkBtcMinterState {
                submitted_transactions: final(self).submitted_transactions,
                stuck_transactions: final(self).stuck_transactions,
                replacement_txid: final(self).replacement_txid,
                rev_replacement_txid: final(self).rev_replacement_txid,
                ..*old(self)
            }),
    {
        proof {
            assert(eq_is_equality::<Txid>());
        }
        let ghost repl_orig = self.replacement_txid@;
        let ghost rev_orig = self.rev_replacement_txid@;
        let ghost replm_o = map_of(repl_orig);
        let ghost revm_o = map_of(rev_orig);
        let ghost c = *confirmed_txid;
        proof {
            assert forall|x: Txid, y: Txid|
                (#[trigger] replm_o.contains_key(x) && replm_o[x] == y) <==> (
            #[trigger] revm_o.contains_key(y) && revm_o[y] == x) by {
                assert((map_of(repl_orig).contains_key(x) && map_of(repl_orig)[x] == y) <==> (
                map_of(rev_orig).contains_key(y) && map_of(rev_orig)[y] == x));
            }
            assert(step_n(replm_o, c, 0) == c);
            assert(step_n(revm_o, c, 0) == c);
        }
        let mut repl: Vec<(Txid, Txid)> = Vec::new();
        core::mem::swap(&mut repl, &mut self.replacement_txid);
        let mut rev: Vec<(Txid, Txid)> = Vec::new();
        core::mem::swap(&mut rev, &mut self.rev_replacement_txid);
        let mut collected: Vec<Txid> = Vec::new();
        // Walk forward, dropping each replacement edge together with its
        // mirror image, and counting the steps taken.
        let mut current: Txid = *confirmed_txid;
        let ghost mut fsteps: nat = 0;
        loop
            invariant
                keys_distinct(repl@),
                keys_distinct(rev@),
                crate::state::replacement_bijection_fn(repl@, rev@),
                acyclic(map_of(repl@)),
                acyclic(map_of(rev@)),
                c == *confirmed_txid,
                replm_o == map_of(repl_orig),
                revm_o == map_of(rev_orig),
                acyclic(replm_o),
                acyclic(revm_o),
                forall|x: Txid, y: Txid|
                    (#[trigger] replm_o.contains_key(x) && replm_o[x] == y) <==> (
                    #[trigger] revm_o.contains_key(y) && revm_o[y] == x),
                path_defined(replm_o, c, fsteps),
                current == step_n(replm_o, c, fsteps),
                forall|x: Txid|
                    #[trigger] map_of(repl@).contains_key(x) ==> replm_o.contains_key(x)
                        && map_of(repl@)[x] == replm_o[x],
                forall|x: Txid|
                    #[trigger] map_of(rev@).contains_key(x) ==> revm_o.contains_key(x) && map_of(
                        rev@,
                    )[x] == revm_o[x],
                forall|x: Txid|
                    replm_o.contains_key(x) ==> (#[trigger] map_of(repl@).contains_key(x) <==> !(
                    exists|n: nat| n < fsteps && step_n(replm_o, c, n) == x)),
                forall|x: Txid|
                    revm_o.contains_key(x) ==> (#[trigger] map_of(rev@).contains_key(x) <==> !(
                    exists|n: nat| 1 <= n <= fsteps && step_n(replm_o, c, n) == x)),
                forall|x: Txid|
                    #[trigger] collected@.contains(x) <==> (exists|n: nat|
                        1 <= n <= fsteps && step_n(replm_o, c, n) == x),
            ensures
                keys_distinct(repl@),
                keys_distinct(rev@),
                crate::state::replacement_bijection_fn(repl@, rev@),
                acyclic(map_of(repl@)),
                acyclic(map_of(rev@)),
                forall|x: Txid|
                    #[trigger] map_of(repl@).contains_key(x) ==> replm_o.contains_key(x)
                        && map_of(repl@)[x] == replm_o[x],
                forall|x: Txid|
                    #[trigger] map_of(rev@).contains_key(x) ==> revm_o.contains_key(x) && map_of(
                        rev@,
                    )[x] == revm_o[x],
                path_defined(replm_o, c, fsteps),
                !replm_o.contains_key(step_n(replm_o, c, fsteps)),
                forall|x: Txid|
                    replm_o.contains_key(x) ==> (#[trigger] map_of(repl@).contains_key(x) <==> !(
                    exists|n: nat| n < fsteps && step_n(replm_o, c, n) == x)),
                forall|x: Txid|
                    revm_o.contains_key(x) ==> (#[trigger] map_of(rev@).contains_key(x) <==> !(
                    exists|n: nat| 1 <= n <= fsteps && step_n(replm_o, c, n) == x)),
                forall|x: Txid|
                    #[trigger] collected@.contains(x) <==> (exists|n: nat|
                        1 <= n <= fsteps && step_n(replm_o, c, n) == x),
            decreases map_of(repl@).dom().len(),
        {
            proof {
                crate::alist::lemma_map_of_contains(repl@, current);
                crate::resubmission::lemma_map_of_dom_len(repl@);
            }
            match crate::alist::alist_find(&repl, &current) {
                Some(idx) => {
                    proof {
                        crate::alist::lemma_map_of_index(repl@, idx as int);
                    }
                    let next = repl[idx].1;
                    let ghost repl_seq0 = repl@;
                    let ghost rev_seq0 = rev@;
                    let ghost replm0 = map_of(repl@);
                    let ghost revm0 = map_of(rev@);
                    proof {
                        crate::state::lemma_bijection_forward(repl_seq0, rev_seq0, current, next);
                    }
                    crate::alist::alist_remove(&mut repl, &current);
                    crate::alist::alist_remove(&mut rev, &next);
                    let ghost collected0 = collected@;
                    collected.push(next);
                    proof {
                        assert(revm0.contains_key(next) && revm0[next] == current);
                        let replm = map_of(repl@);
                        let revm = map_of(rev@);
                        assert(replm == replm0.remove(current));
                        assert(revm == revm0.remove(next));
                        assert forall|x: Txid, y: Txid|
                            (#[trigger] replm.contains_key(x) && replm[x] == y) <==> (
                        #[trigger] revm.contains_key(y) && revm[y] == x) by {
                            if replm.contains_key(x) && replm[x] == y {
                                assert(revm0.contains_key(y) && revm0[y] == x);
                                if y == next {
                                    assert(x == current);
                                }
                            }
                            if revm.contains_key(y) && revm[y] == x {
                                assert(replm0.contains_key(x) && replm0[x] == y);
                                if x == current {
                                    assert(y == next);
                                }
                            }
                        }
                        crate::replacement::lemma_acyclic_remove(replm0, current);
                        crate::replacement::lemma_acyclic_remove(revm0, next);
                        crate::resubmission::lemma_map_of_dom_len(repl@);
                        assert(map_of(repl@).dom().len() < replm0.dom().len()) by {
                            assert(map_of(repl@).dom() =~= replm0.dom().remove(current));
                            vstd::set_lib::lemma_len_subset(map_of(repl@).dom(), replm0.dom());
                            if map_of(repl@).dom().len() == replm0.dom().len() {
                                vstd::set_lib::lemma_len_subset(replm0.dom(), map_of(repl@).dom());
                            }
                        }
                        // The walk advanced one step along the original map.
                        assert(replm_o.contains_key(current) && replm_o[current] == next);
                        assert(path_defined(replm_o, c, fsteps + 1));
                        assert(step_n(replm_o, c, fsteps + 1) == next);
                        assert forall|x: Txid| replm_o.contains_key(x) implies (
                        #[trigger] replm.contains_key(x) <==> !(exists|n: nat|
                            n < fsteps + 1 && step_n(replm_o, c, n) == x)) by {
                            if replm.contains_key(x) {
                                assert(replm0.contains_key(x) && x != current);
                                if exists|n: nat| n < fsteps + 1 && step_n(replm_o, c, n) == x {
                                    let n = choose|n: nat|
                                        n < fsteps + 1 && step_n(replm_o, c, n) == x;
                                    if n < fsteps {
                                        assert(!replm0.contains_key(x));
                                    } else {
                                        assert(x == current);
                                    }
                                }
                            } else {
                                if !(exists|n: nat| n < fsteps + 1 && step_n(replm_o, c, n) == x) {
                                    assert(!(exists|n: nat|
                                        n < fsteps && step_n(replm_o, c, n) == x));
                                    assert(replm0.contains_key(x));
                                    assert(x != current) by {
                                        if x == current {
                                            assert(step_n(replm_o, c, fsteps) == x);
                                        }
                                    }
                                    assert(replm.contains_key(x));
                                }
                            }
                        }
                        assert forall|x: Txid| revm_o.contains_key(x) implies (
                        #[trigger] revm.contains_key(x) <==> !(exists|n: nat|
                            1 <= n <= fsteps + 1 && step_n(replm_o, c, n) == x)) by {
                            if revm.contains_key(x) {
                                assert(revm0.contains_key(x) && x != next);
                                if exists|n: nat|
                                    1 <= n <= fsteps + 1 && step_n(replm_o, c, n) == x {
                                    let n = choose|n: nat|
                                        1 <= n <= fsteps + 1 && step_n(replm_o, c, n) == x;
                                    if n <= fsteps {
                                        assert(!revm0.contains_key(x));
                                    } else {
                                        assert(x == next);
                                    }
                                }
                            } else {
                                if !(exists|n: nat|
                                    1 <= n <= fsteps + 1 && step_n(replm_o, c, n) == x) {
                                    assert(!(exists|n: nat|
                                        1 <= n <= fsteps && step_n(replm_o, c, n) == x));
                                    assert(revm0.contains_key(x));
                                    assert(x != next) by {
                                        if x == next {
                                            assert(step_n(replm_o, c, fsteps + 1) == x);
                                        }
                                    }
                                    assert(revm.contains_key(x));
                                }
                            }
                        }
                        assert forall|x: Txid| #[trigger] collected@.contains(x) <==> (exists|
                            n: nat,
                        |
                            1 <= n <= fsteps + 1 && step_n(replm_o, c, n) == x) by {
                            assert(collected@ == collected0.push(next));
                            if collected@.contains(x) {
                                if collected0.contains(x) {
                                    let n = choose|n: nat|
                                        1 <= n <= fsteps && step_n(replm_o, c, n) == x;
                                    assert(1 <= n <= fsteps + 1 && step_n(replm_o, c, n) == x);
                                } else {
                                    assert(x == next);
                                    assert(step_n(replm_o, c, fsteps + 1) == x);
                                }
                            }
                            if exists|n: nat| 1 <= n <= fsteps + 1 && step_n(replm_o, c, n) == x {
                                let n = choose|n: nat|
                                    1 <= n <= fsteps + 1 && step_n(replm_o, c, n) == x;
                                if n <= fsteps {
                                    assert(collected0.contains(x));
                                } else {
                                    assert(x == next);
                                }
                                assert(collected@.contains(x));
                            }
                        }
                        fsteps = fsteps + 1;
                    }
                    current = next;
                },
                None => {
                    proof {
                        assert(!map_of(repl@).contains_key(current));
                        if replm_o.contains_key(current) {
                            assert forall|n: nat| n < fsteps implies step_n(replm_o, c, n)
                                != current by {
                                lemma_path_distinct(replm_o, c, n, fsteps, fsteps);
                            }
                            assert(map_of(repl@).contains_key(current));
                        }
                        assert(!replm_o.contains_key(step_n(replm_o, c, fsteps)));
                    }
                    break ;
                },
            }
        }
        // Walk backward, the same way.
        let mut current2: Txid = *confirmed_txid;
        let ghost mut bsteps: nat = 0;
        loop
            invariant
                keys_distinct(repl@),
                keys_distinct(rev@),
                crate::state::replacement_bijection_fn(repl@, rev@),
                acyclic(map_of(repl@)),
                acyclic(map_of(rev@)),
                c == *confirmed_txid,
                replm_o == map_of(repl_orig),
                revm_o == map_of(rev_orig),
                acyclic(replm_o),
                acyclic(revm_o),
                forall|x: Txid, y: Txid|
                    (#[trigger] replm_o.contains_key(x) && replm_o[x] == y) <==> (
                    #[trigger] revm_o.contains_key(y) && revm_o[y] == x),
                path_defined(replm_o, c, fsteps),
                !replm_o.contains_key(step_n(replm_o, c, fsteps)),
                path_defined(revm_o, c, bsteps),
                current2 == step_n(revm_o, c, bsteps),
                forall|x: Txid|
                    #[trigger] map_of(repl@).contains_key(x) ==> replm_o.contains_key(x)
                        && map_of(repl@)[x] == replm_o[x],
                forall|x: Txid|
                    #[trigger] map_of(rev@).contains_key(x) ==> revm_o.contains_key(x) && map_of(
                        rev@,
                    )[x] == revm_o[x],
                forall|x: Txid|
                    replm_o.contains_key(x) ==> (#[trigger] map_of(repl@).contains_key(x) <==> (
                    !(exists|n: nat| n < fsteps && step_n(replm_o, c, n) == x) && !(exists|n: nat|
                        1 <= n <= bsteps && step_n(revm_o, c, n) == x))),
                forall|x: Txid|
                    revm_o.contains_key(x) ==> (#[trigger] map_of(rev@).contains_key(x) <==> (!(
                    exists|n: nat| 1 <= n <= fsteps && step_n(replm_o, c, n) == x) && !(exists|
                        n: nat,
                    | n < bsteps && step_n(revm_o, c, n) == x))),
                forall|x: Txid|
                    #[trigger] collected@.contains(x) <==> ((exists|n: nat|
                        1 <= n <= fsteps && step_n(replm_o, c, n) == x) || (exists|n: nat|
                        1 <= n <= bsteps && step_n(revm_o, c, n) == x)),
            ensures
                keys_distinct(repl@),
                keys_distinct(rev@),
                crate::state::replacement_bijection_fn(repl@, rev@),
                acyclic(map_of(repl@)),
                acyclic(map_of(rev@)),
                forall|x: Txid|
                    #[trigger] map_of(repl@).contains_key(x) ==> replm_o.contains_key(x)
                        && map_of(repl@)[x] == replm_o[x],
                forall|x: Txid|
                    #[trigger] map_of(rev@).contains_key(x) ==> revm_o.contains_key(x) && map_of(
                        rev@,
                    )[x] == revm_o[x],
                path_defined(replm_o, c, fsteps),
                !replm_o.contains_key(step_n(replm_o, c, fsteps)),
                path_defined(revm_o, c, bsteps),
                !revm_o.contains_key(step_n(revm_o, c, bsteps)),
                forall|x: Txid|
                    replm_o.contains_key(x) ==> (#[trigger] map_of(repl@).contains_key(x) <==> (
                    !(exists|n: nat| n < fsteps && step_n(replm_o, c, n) == x) && !(exists|n: nat|
                        1 <= n <= bsteps && step_n(revm_o, c, n) == x))),
                forall|x: Txid|
                    revm_o.contains_key(x) ==> (#[trigger] map_of(rev@).contains_key(x) <==> (!(
                    exists|n: nat| 1 <= n <= fsteps && step_n(replm_o, c, n) == x) && !(exists|
                        n: nat,
                    | n < bsteps && step_n(revm_o, c, n) == x))),
                forall|x: Txid|
                    #[trigger] collected@.contains(x) <==> ((exists|n: nat|
                        1 <= n <= fsteps && step_n(replm_o, c, n) == x) || (exists|n: nat|
                        1 <= n <= bsteps && step_n(revm_o, c, n) == x)),
            decreases map_of(rev@).dom().len(),
        {
            proof {
                crate::alist::lemma_map_of_contains(rev@, current2);
                crate::resubmission::lemma_map_of_dom_len(rev@);
            }
            match crate::alist::alist_find(&rev, &current2) {
                Some(idx) => {
                    proof {
                        crate::alist::lemma_map_of_index(rev@, idx as int);
                    }
                    let prev = rev[idx].1;
                    let ghost repl_seq0 = repl@;
                    let ghost rev_seq0 = rev@;
                    let ghost replm0 = map_of(repl@);
                    let ghost revm0 = map_of(rev@);
                    proof {
                        crate::state::lemma_bijection_backward(
                            repl_seq0,
                            rev_seq0,
                            prev,
                            current2,
                        );
                    }
                    crate::alist::alist_remove(&mut rev, &current2);
                    crate::alist::alist_remove(&mut repl, &prev);
                    let ghost collected0 = collected@;
                    collected.push(prev);
                    proof {
                        assert(replm0.contains_key(prev) && replm0[prev] == current2);
                        let replm = map_of(repl@);
                        let revm = map_of(rev@);
                        assert(replm == replm0.remove(prev));
                        assert(revm == revm0.remove(current2));
                        assert forall|x: Txid, y: Txid|
                            (#[trigger] replm.contains_key(x) && replm[x] == y) <==> (
                        #[trigger] revm.contains_key(y) && revm[y] == x) by {
                            if replm.contains_key(x) && replm[x] == y {
                                assert(revm0.contains_key(y) && revm0[y] == x);
                                if y == current2 {
                                    assert(x == prev);
                                }
                            }
                            if revm.contains_key(y) && revm[y] == x {
                                assert(replm0.contains_key(x) && replm0[x] == y);
                                if x == prev {
                                    assert(y == current2);
                                }
                            }
                        }
                        crate::replacement::lemma_acyclic_remove(replm0, prev);
                        crate::replacement::lemma_acyclic_remove(revm0, current2);
                        crate::resubmission::lemma_map_of_dom_len(rev@);
                        assert(map_of(rev@).dom().len() < revm0.dom().len()) by {
                            assert(map_of(rev@).dom() =~= revm0.dom().remove(current2));
                            vstd::set_lib::lemma_len_subset(map_of(rev@).dom(), revm0.dom());
                            if map_of(rev@).dom().len() == revm0.dom().len() {
                                vstd::set_lib::lemma_len_subset(revm0.dom(), map_of(rev@).dom());
                            }
                        }
                        // The backward walk advanced one step along the
                        // original reverse map.
                        assert(revm_o.contains_key(current2) && revm_o[current2] == prev);
                        assert(path_defined(revm_o, c, bsteps + 1));
                        assert(step_n(revm_o, c, bsteps + 1) == prev);
                        assert forall|x: Txid| revm_o.contains_key(x) implies (
                        #[trigger] revm.contains_key(x) <==> (!(exists|n: nat|
                            1 <= n <= fsteps && step_n(replm_o, c, n) == x) && !(exists|n: nat|
                            n < bsteps + 1 && step_n(revm_o, c, n) == x))) by {
                            if revm.contains_key(x) {
                                assert(revm0.contains_key(x) && x != current2);
                                if exists|n: nat| n < bsteps + 1 && step_n(revm_o, c, n) == x {
                                    let n = choose|n: nat|
                                        n < bsteps + 1 && step_n(revm_o, c, n) == x;
                                    if n < bsteps {
                                        assert(!revm0.contains_key(x));
                                    } else {
                                        assert(x == current2);
                                    }
                                }
                            } else {
                                if !(exists|n: nat|
                                    1 <= n <= fsteps && step_n(replm_o, c, n) == x) && !(exists|
                                    n: nat,
                                | n < bsteps + 1 && step_n(revm_o, c, n) == x) {
                                    assert(!(exists|n: nat|
                                        n < bsteps && step_n(revm_o, c, n) == x));
                                    assert(revm0.contains_key(x));
                                    assert(x != current2) by {
                                        if x == current2 {
                                            assert(step_n(revm_o, c, bsteps) == x);
                                        }
                                    }
                                    assert(revm.contains_key(x));
                                }
                            }
                        }
                        assert forall|x: Txid| replm_o.contains_key(x) implies (
                        #[trigger] replm.contains_key(x) <==> (!(exists|n: nat|
                            n < fsteps && step_n(replm_o, c, n) == x) && !(exists|n: nat|
                            1 <= n <= bsteps + 1 && step_n(revm_o, c, n) == x))) by {
                            if replm.contains_key(x) {
                                assert(replm0.contains_key(x) && x != prev);
                                if exists|n: nat|
                                    1 <= n <= bsteps + 1 && step_n(revm_o, c, n) == x {
                                    let n = choose|n: nat|
                                        1 <= n <= bsteps + 1 && step_n(revm_o, c, n) == x;
                                    if n <= bsteps {
                                        assert(!replm0.contains_key(x));
                                    } else {
                                        assert(x == prev);
                                    }
                                }
                            } else {
                                if !(exists|n: nat| n < fsteps && step_n(replm_o, c, n) == x)
                                    && !(exists|n: nat|
                                    1 <= n <= bsteps + 1 && step_n(revm_o, c, n) == x) {
                                    assert(!(exists|n: nat|
                                        1 <= n <= bsteps && step_n(revm_o, c, n) == x));
                                    assert(replm0.contains_key(x));
                                    assert(x != prev) by {
                                        if x == prev {
                                            assert(step_n(revm_o, c, bsteps + 1) == x);
                                        }
                                    }
                                    assert(replm.contains_key(x));
                                }
                            }
                        }
                        assert forall|x: Txid| #[trigger] collected@.contains(x) <==> ((exists|
                            n: nat,
                        |
                            1 <= n <= fsteps && step_n(replm_o, c, n) == x) || (exists|n: nat|
                            1 <= n <= bsteps + 1 && step_n(revm_o, c, n) == x)) by {
                            assert(collected@ == collected0.push(prev));
                            if collected@.contains(x) {
                                if collected0.contains(x) {
                                } else {
                                    assert(x == prev);
                                    assert(step_n(revm_o, c, bsteps + 1) == x);
                                }
                            }
                            if (exists|n: nat| 1 <= n <= fsteps && step_n(replm_o, c, n) == x) || (
                            exists|n: nat| 1 <= n <= bsteps + 1 && step_n(revm_o, c, n) == x) {
                                if exists|n: nat|
                                    1 <= n <= fsteps && step_n(replm_o, c, n) == x {
                                    assert(collected0.contains(x));
                                } else {
                                    let n = choose|n: nat|
                                        1 <= n <= bsteps + 1 && step_n(revm_o, c, n) == x;
                                    if n <= bsteps {
                                        assert(collected0.contains(x));
                                    } else {
                                        assert(x == prev);
                                    }
                                }
                                assert(collected@.contains(x));
                            }
                        }
                        bsteps = bsteps + 1;
                    }
                    current2 = prev;
                },
                None => {
                    proof {
                        assert(!map_of(rev@).contains_key(current2));
                        if revm_o.contains_key(current2) {
                            assert forall|n: nat| n < bsteps implies step_n(revm_o, c, n)
                                != current2 by {
                                lemma_path_distinct(revm_o, c, n, bsteps, bsteps);
                            }
                            assert forall|n: nat| 1 <= n <= fsteps implies step_n(replm_o, c, n)
                                != current2 by {
                                lemma_path_prefix(replm_o, c, n, fsteps);
                                lemma_chain_sides_disjoint(replm_o, revm_o, c, n, bsteps);
                            }
                            assert(map_of(rev@).contains_key(current2));
                        }
                        assert(!revm_o.contains_key(step_n(revm_o, c, bsteps)));
                    }
                    break ;
                },
            }
        }
        self.replacement_txid = repl;
        self.rev_replacement_txid = rev;
        proof {
            // The collected identifiers are exactly the chain.
            assert forall|x: Txid| #[trigger] collected@.contains(x) <==> chain_linked(
                replm_o,
                revm_o,
                c,
                x,
            ) by {
                if collected@.contains(x) {
                    if exists|n: nat| 1 <= n <= fsteps && step_n(replm_o, c, n) == x {
                        let n = choose|n: nat| 1 <= n <= fsteps && step_n(replm_o, c, n) == x;
                        lemma_path_prefix(replm_o, c, n, fsteps);
                        assert(1 <= n && path_defined(replm_o, c, n) && step_n(replm_o, c, n)
                            == x);
                    } else {
                        let n = choose|n: nat| 1 <= n <= bsteps && step_n(revm_o, c, n) == x;
                        lemma_path_prefix(revm_o, c, n, bsteps);
                        assert(1 <= n && path_defined(revm_o, c, n) && step_n(revm_o, c, n) == x);
                    }
                }
                if chain_linked(replm_o, revm_o, c, x) {
                    if exists|n: nat|
                        1 <= n && #[trigger] path_defined(replm_o, c, n) && step_n(
                            replm_o,
                            c,
                            n,
                        ) == x {
                        let n = choose|n: nat|
                            1 <= n && #[trigger] path_defined(replm_o, c, n) && step_n(
                                replm_o,
                                c,
                                n,
                            ) == x;
                        if n > fsteps {
                            lemma_path_stops(replm_o, c, fsteps, n);
                        }
                        assert(collected@.contains(x));
                    } else {
                        let n = choose|n: nat|
                            1 <= n && #[trigger] path_defined(revm_o, c, n) && step_n(
                                revm_o,
                                c,
                                n,
                            ) == x;
                        if n > bsteps {
                            lemma_path_stops(revm_o, c, bsteps, n);
                        }
                        assert(collected@.contains(x));
                    }
                }
            }
            let replm_f = map_of(self.replacement_txid@);
            let revm_f = map_of(self.rev_replacement_txid@);
            // No chain member keeps an edge.
            assert forall|x: Txid| x == c || chain_linked(replm_o, revm_o, c, x) implies (
            !replm_f.contains_key(x) && !revm_f.contains_key(x)) by {
                if replm_f.contains_key(x) {
                    assert(replm_o.contains_key(x));
                    assert(!(exists|n: nat| n < fsteps && step_n(replm_o, c, n) == x));
                    assert(!(exists|n: nat| 1 <= n <= bsteps && step_n(revm_o, c, n) == x));
                    if x == c {
                        if fsteps == 0 {
                            assert(!replm_o.contains_key(c));
                        } else {
                            assert(step_n(replm_o, c, 0) == x);
                        }
                    } else {
                        assert(collected@.contains(x));
                        if exists|n: nat| 1 <= n <= fsteps && step_n(replm_o, c, n) == x {
                            let n = choose|n: nat|
                                1 <= n <= fsteps && step_n(replm_o, c, n) == x;
                            if n < fsteps {
                                assert(step_n(replm_o, c, n) == x);
                                assert(!replm_f.contains_key(x));
                            } else {
                                assert(!replm_o.contains_key(x));
                            }
                        }
                    }
                }
                if revm_f.contains_key(x) {
                    assert(revm_o.contains_key(x));
                    assert(!(exists|n: nat| 1 <= n <= fsteps && step_n(replm_o, c, n) == x));
                    assert(!(exists|n: nat| n < bsteps && step_n(revm_o, c, n) == x));
                    if x == c {
                        if bsteps == 0 {
                            assert(!revm_o.contains_key(c));
                        } else {
                            assert(step_n(revm_o, c, 0) == x);
                        }
                    } else {
                        assert(collected@.contains(x));
                        if exists|n: nat| 1 <= n <= bsteps && step_n(revm_o, c, n) == x {
                            let n = choose|n: nat| 1 <= n <= bsteps && step_n(revm_o, c, n) == x;
                            if n < bsteps {
                                assert(step_n(revm_o, c, n) == x);
                                assert(!revm_f.contains_key(x));
                            } else {
                                assert(!revm_o.contains_key(x));
                            }
                        }
                    }
                }
            }
            // Every edge off the chain is kept.
            assert forall|x: Txid|
                #[trigger] replm_o.contains_key(x) && x != c && !chain_linked(
                    replm_o,
                    revm_o,
                    c,
                    x,
                ) implies replm_f.contains_key(x) by {
                assert(!(exists|n: nat| n < fsteps && step_n(replm_o, c, n) == x)) by {
                    if exists|n: nat| n < fsteps && step_n(replm_o, c, n) == x {
                        let n = choose|n: nat| n < fsteps && step_n(replm_o, c, n) == x;
                        if n == 0 {
                            assert(x == c);
                        } else {
                            lemma_path_prefix(replm_o, c, n, fsteps);
                            assert(1 <= n && path_defined(replm_o, c, n) && step_n(
                                replm_o,
                                c,
                                n,
                            ) == x);
                        }
                    }
                }
                assert(!(exists|n: nat| 1 <= n <= bsteps && step_n(revm_o, c, n) == x)) by {
                    if exists|n: nat| 1 <= n <= bsteps && step_n(revm_o, c, n) == x {
                        let n = choose|n: nat| 1 <= n <= bsteps && step_n(revm_o, c, n) == x;
                        lemma_path_prefix(revm_o, c, n, bsteps);
                        assert(1 <= n && path_defined(revm_o, c, n) && step_n(revm_o, c, n) == x);
                    }
                }
            }
            assert forall|x: Txid|
                #[trigger] revm_o.contains_key(x) && x != c && !chain_linked(
                    replm_o,
                    revm_o,
                    c,
                    x,
                ) implies revm_f.contains_key(x) by {
                assert(!(exists|n: nat| 1 <= n <= fsteps && step_n(replm_o, c, n) == x)) by {
                    if exists|n: nat| 1 <= n <= fsteps && step_n(replm_o, c, n) == x {
                        let n = choose|n: nat| 1 <= n <= fsteps && step_n(replm_o, c, n) == x;
                        lemma_path_prefix(replm_o, c, n, fsteps);
                        assert(1 <= n && path_defined(replm_o, c, n) && step_n(replm_o, c, n)
                            == x);
                    }
                }
                assert(!(exists|n: nat| n < bsteps && step_n(revm_o, c, n) == x)) by {
                    if exists|n: nat| n < bsteps && step_n(revm_o, c, n) == x {
                        let n = choose|n: nat| n < bsteps && step_n(revm_o, c, n) == x;
                        if n == 0 {
                            assert(x == c);
                        } else {
                            lemma_path_prefix(revm_o, c, n, bsteps);
                            assert(1 <= n && path_defined(revm_o, c, n) && step_n(
                                revm_o,
                                c,
                                n,
                            ) == x);
                        }
                    }
                }
            }
        }
        let mut submitted: Vec<SubmittedBtcTransaction> = Vec::new();
        core::mem::swap(&mut submitted, &mut self.submitted_transactions);
        let ghost submitted_orig = submitted@;
        let kept_submitted = retain_without_txids(submitted, &collected);
        self.submitted_transactions = kept_submitted;
        let mut stuck: Vec<SubmittedBtcTransaction> = Vec::new();
        core::mem::swap(&mut stuck, &mut self.stuck_transactions);
        let ghost stuck_orig = stuck@;
        let kept_stuck = retain_any_without_txids(stuck, &collected);
        self.stuck_transactions = kept_stuck;
        proof {
            lemma_retained_matches_chain(submitted_orig, collected@, replm_o, revm_o, c);
            lemma_retained_matches_chain(stuck_orig, collected@, replm_o, revm_o, c);
            assert(final(self).submitted_transactions@ == off_chain_txs(
                old(self).submitted_transactions@,
                replm_o,
                revm_o,
                c,
            ));
            assert(final(self).stuck_transactions@ == off_chain_txs(
                old(self).stuck_transactions@,
                replm_o,
                revm_o,
                c,
            ));
            assert forall|b: u64|
                #[trigger] has_block(self.pending_retrieve_btc_requests@, b) implies (!map_of(
                self.requests_in_flight@,
            ).contains_key(b) && !txs_have(final(self).submitted_transactions@, b) && !txs_have(
                final(self).stuck_transactions@,
                b,
            ) && !fin_has(self.finalized_requests@, b)) by {
                assert(old(self).pending_has(b));
            }
            assert forall|b: u64|
                #[trigger] map_of(self.requests_in_flight@).contains_key(b) implies (!txs_have(
                final(self).submitted_transactions@,
                b,
            ) && !fin_has(self.finalized_requests@, b)) by {
                assert(old(self).in_flight_map().contains_key(b));
            }
            assert forall|b: u64|
                #[trigger] txs_have(final(self).submitted_transactions@, b) implies !fin_has(
                self.finalized_requests@,
                b,
            ) by {
                assert(old(self).submitted_has(b));
            }
            assert forall|i2: int|
                0 <= i2 < final(self).submitted_transactions@.len() implies
                crate::state::keys_unique_in_tx(
                #[trigger] final(self).submitted_transactions@[i2],
            ) by {
                assert(final(self).submitted_transactions@.contains(
                    final(self).submitted_transactions@[i2],
                ));
                let x = final(self).submitted_transactions@[i2];
                assert(old(self).submitted_transactions@.contains(x));
                let k = choose|k: int|
                    0 <= k < old(self).submitted_transactions@.len() && old(
                        self,
                    ).submitted_transactions@[k] == x;
                assert(crate::state::keys_unique_in_tx(old(self).submitted_transactions@[k]));
            }
        }
    }
}

/// Keeps the transactions whose identifier is not among the excluded ones,
/// in order; nothing is required of the input.
fn retain_any_without_txids(
    v: Vec<SubmittedBtcTransaction>,
    excluded: &Vec<Txid>,
) -> (r: Vec<SubmittedBtcTransaction>)
    ensures
        r@ == retained_txs(v@, excluded@),
        forall|b: u64| #[trigger] txs_have(r@, b) ==> txs_have(v@, b),
        forall|x: SubmittedBtcTransaction| #[trigger] r@.contains(x) ==> v@.contains(x),
{
    proof {
        assert(eq_is_equality::<Txid>());
    }
    let ghost orig = v@;
    let total = v.len();
    let mut rest = v;
    let mut out: Vec<SubmittedBtcTransaction> = Vec::new();
    let mut i: usize = 0;
    proof {
        assert(rest@ =~= orig.skip(0));
        assert(orig.take(0) =~= Seq::<SubmittedBtcTransaction>::empty());
    }
    while rest.len() > 0
        invariant
            orig.len() == total,
            i <= orig.len(),
            rest@ == orig.skip(i as int),
            out@ == retained_txs(orig.take(i as int), excluded@),
            forall|b: u64| #[trigger] txs_have(out@, b) ==> txs_have(orig, b),
            forall|x: SubmittedBtcTransaction| #[trigger] out@.contains(x) ==> orig.contains(x),
        decreases rest@.len(),
    {
        let tx = rest.remove(0);
        proof {
            assert(tx == orig[i as int]);
            assert(rest@ =~= orig.skip(i + 1));
        }
        let keep = !crate::alist::vec_contains(excluded, &tx.txid);
        let ghost out0 = out@;
        proof {
            assert(orig.take(i + 1).drop_last() =~= orig.take(i as int));
            assert(orig.take(i + 1).last() == orig[i as int]);
        }
        if keep {
            out.push(tx);
            proof {
                assert(out@ == retained_txs(orig.take(i + 1), excluded@));
                crate::state::lemma_txs_have_push(out0, orig[i as int]);
                assert forall|b: u64| #[trigger] txs_have(out@, b) implies txs_have(orig, b) by {
                    if !txs_have(out0, b) {
                        assert(tx_has(orig[i as int], b));
                    }
                }
                assert forall|x: SubmittedBtcTransaction| #[trigger] out@.contains(x) implies
                    orig.contains(x) by {
                    if !out0.contains(x) {
                        assert(x == orig[i as int]);
                    }
                }
            }
        } else {
            proof {
                assert(out@ == retained_txs(orig.take(i + 1), excluded@));
            }
        }
        i += 1;
    }
    proof {
        assert(orig.take(orig.len() as int) =~= orig);
    }
    out
}

/// The confirmed records of a transaction's requests.
pub open spec fn confirmed_records(reqs: Seq<RetrieveBtcRequest>, txid: Txid) -> Seq<
    FinalizedBtcRetrieval,
> {
    reqs.map_values(
        |r: RetrieveBtcRequest|
            FinalizedBtcRetrieval { request: r, state: FinalizedStatus::Confirmed { txid } },
    )
}

impl CkBtcMinterState {
    /// The transaction a finalization targets: the submitted one with the
    /// given identifier, or failing that the stuck one.
    pub open spec fn located_tx(self, txid: Txid) -> SubmittedBtcTransaction {
        if exists|i: int|
            0 <= i < self.submitted_transactions@.len() && self.submitted_transactions@[i].txid
                == txid {
            self.submitted_transactions@[
                choose|i: int|
                    0 <= i < self.submitted_transactions@.len()
                        && self.submitted_transactions@[i].txid == txid
            ]
        } else {
            self.stuck_transactions@[
                choose|i: int|
                    0 <= i < self.stuck_transactions@.len() && self.stuck_transactions@[i].txid
                        == txid
            ]
        }
    }

    /// Marks a transaction as confirmed: its replacement chain collapses,
    /// taking the stuck ancestors and replacements out of both lists, the
    /// transaction itself leaves the submitted or stuck list, its UTXOs are
    /// forgotten, and its requests enter the finalized ring as confirmed.
    #[verifier::rlimit(60)]
    pub fn finalize_transaction(&mut self, txid: &Txid)
        requires
            old(self).inv(),
            // The transaction exists, and its identifier is unambiguous.
            (exists|i: int|
                0 <= i < old(self).submitted_transactions@.len() && old(
                    self,
                ).submitted_transactions@[i].txid == *txid) || (exists|i: int|
                0 <= i < old(self).stuck_transactions@.len() && old(
                    self,
                ).stuck_transactions@[i].txid == *txid),
            forall|i: int, j: int|
                0 <= i < old(self).submitted_transactions@.len() && 0 <= j < old(
                    self,
                ).submitted_transactions@.len() && #[trigger] old(
                    self,
                ).submitted_transactions@[i].txid == *txid && #[trigger] old(
                    self,
                ).submitted_transactions@[j].txid == *txid ==> i == j,
            forall|i: int, j: int|
                0 <= i < old(self).stuck_transactions@.len() && 0 <= j < old(
                    self,
                ).stuck_transactions@.len() && #[trigger] old(self).stuck_transactions@[i].txid
                    == *txid && #[trigger] old(self).stuck_transactions@[j].txid == *txid ==> i
                    == j,
            // When the transaction is only in the stuck list, its requests
            // live on in its replacements: every submitted transaction that
            // holds one of its block indices must lie on its replacement
            // chain, and the indices may not be in flight or finalized.
            !(exists|i: int|
                0 <= i < old(self).submitted_transactions@.len() && old(
                    self,
                ).submitted_transactions@[i].txid == *txid) ==> forall|b: u64|
                #[trigger] tx_has(old(self).located_tx(*txid), b) ==> !old(
                    self,
                ).in_flight_map().contains_key(b) && !old(self).finalized_has(b),
            !(exists|i: int|
                0 <= i < old(self).submitted_transactions@.len() && old(
                    self,
                ).submitted_transactions@[i].txid == *txid) ==> forall|i: int, b: u64|
                0 <= i < old(self).submitted_transactions@.len() && #[trigger] tx_has(
                    old(self).submitted_transactions@[i],
                    b,
                ) && tx_has(old(self).located_tx(*txid), b) ==> chain_linked(
                    old(self).repl_map(),
                    old(self).rev_map(),
                    *txid,
                    old(self).submitted_transactions@[i].txid,
                ),
            crate::state::keys_unique_in_tx(old(self).located_tx(*txid)),
            // Counters and storage limits.
            old(self).finalized_requests_count + old(self).located_tx(*txid).requests@.len()
                <= u64::MAX,
            // The used UTXOs carry distinct outpoints, stored exactly.
            forall|k: int, l: int|
                0 <= k < l < old(self).located_tx(*txid).used_utxos@.len() ==> (#[trigger] old(
                    self,
                ).located_tx(*txid).used_utxos@[k]).outpoint != (#[trigger] old(
                    self,
                ).located_tx(*txid).used_utxos@[l]).outpoint,
            forall|k: int|
                0 <= k < old(self).located_tx(*txid).used_utxos@.len() && old(
                    self,
                ).outpoint_map().contains_key(
                    (#[trigger] old(self).located_tx(*txid).used_utxos@[k]).outpoint,
                ) ==> old(self).account_utxos(
                    old(self).outpoint_map()[old(self).located_tx(*txid).used_utxos@[k].outpoint],
                ).contains(old(self).located_tx(*txid).used_utxos@[k]),
        ensures
            final(self).inv(),
            final(self).finalized_requests_count == old(self).finalized_requests_count + old(
                self,
            ).located_tx(*txid).requests@.len(),
            // Until the ring evicts, every request of the transaction reads
            // back as confirmed by it.
            old(self).finalized_requests@.len() + old(self).located_tx(*txid).requests@.len()
                <= MAX_FINALIZED_REQUESTS ==> forall|b: u64|
                #[trigger] tx_has(old(self).located_tx(*txid), b) ==> final(self).status_spec(b)
                    == (RetrieveBtcStatus::Confirmed { txid: *txid }),
            old(self).finalized_requests@.len() + old(self).located_tx(*txid).requests@.len()
                <= MAX_FINALIZED_REQUESTS ==> final(self).finalized_requests@ == old(
                self,
            ).finalized_requests@ + confirmed_records(
                old(self).located_tx(*txid).requests@,
                *txid,
            ),
            // The transaction's outpoints are unassigned and its UTXOs leave
            // the account buckets.
            forall|o: OutPoint|
                #[trigger] final(self).outpoint_map().contains_key(o) <==> (old(
                    self,
                ).outpoint_map().contains_key(o) && !has_used_outpoint(
                    old(self).located_tx(*txid).used_utxos@,
                    o,
                )),
            forall|a: Account, x: Utxo|
                #[trigger] final(self).account_utxos(a).contains(x) <==> (old(
                    self,
                ).account_utxos(a).contains(x) && !old(self).located_tx(
                    *txid,
                ).used_utxos@.contains(x)),
            // The replacement chain around the transaction is gone: the
            // confirmed identifier and everything the chain connects it to
            // lose their edges; all other edges stay, with their values.
            forall|x: Txid|
                x == *txid || chain_linked(old(self).repl_map(), old(self).rev_map(), *txid, x)
                    ==> !final(self).repl_map().contains_key(x)
                    && !final(self).rev_map().contains_key(x),
            forall|x: Txid|
                #[trigger] final(self).repl_map().contains_key(x) ==> old(
                    self,
                ).repl_map().contains_key(x) && final(self).repl_map()[x] == old(
                    self,
                ).repl_map()[x],
            forall|x: Txid|
                #[trigger] final(self).rev_map().contains_key(x) ==> old(
                    self,
                ).rev_map().contains_key(x) && final(self).rev_map()[x] == old(self).rev_map()[x],
            forall|x: Txid|
                #[trigger] old(self).repl_map().contains_key(x) && x != *txid && !chain_linked(
                    old(self).repl_map(),
                    old(self).rev_map(),
                    *txid,
                    x,
                ) ==> final(self).repl_map().contains_key(x),
            forall|x: Txid|
                #[trigger] old(self).rev_map().contains_key(x) && x != *txid && !chain_linked(
                    old(self).repl_map(),
                    old(self).rev_map(),
                    *txid,
                    x,
                ) ==> final(self).rev_map().contains_key(x),
            // The lists keep exactly the off-chain transactions, in order,
            // the confirmed one removed from wherever it stood.
            (exists|i: int|
                0 <= i < old(self).submitted_transactions@.len() && old(
                    self,
                ).submitted_transactions@[i].txid == *txid)
                ==> final(self).submitted_transactions@ == surviving_txs(
                old(self).submitted_transactions@,
                old(self).repl_map(),
                old(self).rev_map(),
                *txid,
            ) && final(self).stuck_transactions@ == off_chain_txs(
                old(self).stuck_transactions@,
                old(self).repl_map(),
                old(self).rev_map(),
                *txid,
            ),
            !(exists|i: int|
                0 <= i < old(self).submitted_transactions@.len() && old(
                    self,
                ).submitted_transactions@[i].txid == *txid)
                ==> final(self).submitted_transactions@ == off_chain_txs(
                old(self).submitted_transactions@,
                old(self).repl_map(),
                old(self).rev_map(),
                *txid,
            ) && final(self).stuck_transactions@ == surviving_txs(
                old(self).stuck_transactions@,
                old(self).repl_map(),
                old(self).rev_map(),
                *txid,
            ),
            final(self).tokens_minted == old(self).tokens_minted,
            final(self).tokens_burned == old(self).tokens_burned,
            final(self).pending_retrieve_btc_requests@ == old(
                self,
            ).pending_retrieve_btc_requests@,
            final(self).in_flight_map() == old(self).in_flight_map(),
    {
        proof {
            assert(eq_is_equality::<Txid>());
        }
        let ghost tx_spec = old(self).located_tx(*txid);
        let ghost replm_o = old(self).repl_map();
        let ghost revm_o = old(self).rev_map();
        proof {
            // The confirmed transaction is not chain-connected to itself, so
            // the chain collapse leaves it in place.
            lemma_chain_not_self(replm_o, revm_o, *txid);
        }
        self.cleanup_tx_replacement_chain(txid);
        let ghost mid0 = *self;
        proof {
            lemma_off_chain_membership(old(self).submitted_transactions@, replm_o, revm_o, *txid);
            lemma_off_chain_membership(old(self).stuck_transactions@, replm_o, revm_o, *txid);
        }
        let finalized_tx: SubmittedBtcTransaction = match crate::state::find_tx_by_txid(
            &self.submitted_transactions,
            txid,
        ) {
            Some(pos) => {
                proof {
                    let e = mid0.submitted_transactions@[pos as int];
                    assert(mid0.submitted_transactions@.contains(e));
                    assert(old(self).submitted_transactions@.contains(e));
                    let j = choose|j: int|
                        0 <= j < old(self).submitted_transactions@.len() && old(
                            self,
                        ).submitted_transactions@[j] == e;
                    let i0 = choose|i: int|
                        0 <= i < old(self).submitted_transactions@.len() && old(
                            self,
                        ).submitted_transactions@[i].txid == *txid;
                    assert(old(self).submitted_transactions@[j].txid == *txid);
                    assert(j == i0);
                    assert(e == tx_spec);
                    crate::state::lemma_txs_have_remove(mid0.submitted_transactions@, pos as int);
                    lemma_off_chain_at_most_one(
                        old(self).submitted_transactions@,
                        replm_o,
                        revm_o,
                        *txid,
                        *txid,
                    );
                }
                let t = self.submitted_transactions.remove(pos);
                proof {
                    assert(t == tx_spec);
                    lemma_survivors_remove(
                        old(self).submitted_transactions@,
                        replm_o,
                        revm_o,
                        *txid,
                        pos as int,
                    );
                    assert(self.submitted_transactions@ == surviving_txs(
                        old(self).submitted_transactions@,
                        replm_o,
                        revm_o,
                        *txid,
                    ));
                    assert forall|b: u64| #[trigger] tx_has(t, b) implies (!mid0.pending_has(b)
                        && !mid0.in_flight_map().contains_key(b) && !txs_have(
                        self.submitted_transactions@,
                        b,
                    ) && !mid0.finalized_has(b)) by {
                        assert(tx_has(mid0.submitted_transactions@[pos as int], b));
                        assert(txs_have(mid0.submitted_transactions@, b)) by {
                            assert(tx_has(mid0.submitted_transactions@[pos as int], b));
                        }
                        if mid0.pending_has(b) {
                            assert(has_block(mid0.pending_retrieve_btc_requests@, b));
                            assert(!txs_have(mid0.submitted_transactions@, b));
                        }
                        if mid0.in_flight_map().contains_key(b) {
                            assert(map_of(mid0.requests_in_flight@).contains_key(b));
                            assert(!txs_have(mid0.submitted_transactions@, b));
                        }
                        if mid0.finalized_has(b) {
                            assert(fin_has(mid0.finalized_requests@, b));
                            assert(!fin_has(mid0.finalized_requests@, b));
                        }
                        if txs_have(self.submitted_transactions@, b) {
                            let i2 = choose|i2: int|
                                0 <= i2 < self.submitted_transactions@.len() && tx_has(
                                    #[trigger] self.submitted_transactions@[i2],
                                    b,
                                );
                            let i3 = if i2 < pos {
                                i2
                            } else {
                                i2 + 1
                            };
                            assert(self.submitted_transactions@[i2]
                                == mid0.submitted_transactions@[i3]);
                            assert(tx_has(mid0.submitted_transactions@[i3], b));
                            assert(tx_has(mid0.submitted_transactions@[pos as int], b));
                        }
                    }
                }
                t
            },
            None => {
                proof {
                    // The identifier is then nowhere in the submitted list.
                    if exists|i: int|
                        0 <= i < old(self).submitted_transactions@.len() && old(
                            self,
                        ).submitted_transactions@[i].txid == *txid {
                        let i0 = choose|i: int|
                            0 <= i < old(self).submitted_transactions@.len() && old(
                                self,
                            ).submitted_transactions@[i].txid == *txid;
                        let e = old(self).submitted_transactions@[i0];
                        assert(old(self).submitted_transactions@.contains(e));
                        assert(mid0.submitted_transactions@.contains(e));
                        let k = choose|k: int|
                            0 <= k < mid0.submitted_transactions@.len()
                                && mid0.submitted_transactions@[k] == e;
                        assert(mid0.submitted_transactions@[k].txid == *txid);
                        assert(false);
                    }
                }
                let pos = match crate::state::find_tx_by_txid(&self.stuck_transactions, txid) {
                    Some(pos) => pos,
                    None => {
                        proof {
                            let i0 = choose|i: int|
                                0 <= i < old(self).stuck_transactions@.len() && old(
                                    self,
                                ).stuck_transactions@[i].txid == *txid;
                            let e = old(self).stuck_transactions@[i0];
                            assert(old(self).stuck_transactions@.contains(e));
                            assert(mid0.stuck_transactions@.contains(e));
                            let k = choose|k: int|
                                0 <= k < mid0.stuck_transactions@.len()
                                    && mid0.stuck_transactions@[k] == e;
                            assert(mid0.stuck_transactions@[k].txid == *txid);
                            assert(false);
                        }
                        0
                    },
                };
                proof {
                    let e = mid0.stuck_transactions@[pos as int];
                    assert(mid0.stuck_transactions@.contains(e));
                    assert(old(self).stuck_transactions@.contains(e));
                    let j = choose|j: int|
                        0 <= j < old(self).stuck_transactions@.len() && old(
                            self,
                        ).stuck_transactions@[j] == e;
                    let i0 = choose|i: int|
                        0 <= i < old(self).stuck_transactions@.len() && old(
                            self,
                        ).stuck_transactions@[i].txid == *txid;
                    assert(old(self).stuck_transactions@[j].txid == *txid);
                    assert(j == i0);
                    assert(e == tx_spec);
                    crate::state::lemma_txs_have_remove(mid0.stuck_transactions@, pos as int);
                    lemma_off_chain_at_most_one(
                        old(self).stuck_transactions@,
                        replm_o,
                        revm_o,
                        *txid,
                        *txid,
                    );
                }
                let t = self.stuck_transactions.remove(pos);
                proof {
                    assert(t == tx_spec);
                    lemma_survivors_remove(
                        old(self).stuck_transactions@,
                        replm_o,
                        revm_o,
                        *txid,
                        pos as int,
                    );
                    assert(self.stuck_transactions@ == surviving_txs(
                        old(self).stuck_transactions@,
                        replm_o,
                        revm_o,
                        *txid,
                    ));
                    assert forall|b: u64| #[trigger] tx_has(t, b) implies (!mid0.pending_has(b)
                        && !mid0.in_flight_map().contains_key(b) && !txs_have(
                        self.submitted_transactions@,
                        b,
                    ) && !mid0.finalized_has(b)) by {
                        assert(tx_has(mid0.stuck_transactions@[pos as int], b));
                        // A pending block index is in no stuck transaction.
                        if mid0.pending_has(b) {
                            assert(has_block(mid0.pending_retrieve_btc_requests@, b));
                            assert(txs_have(mid0.stuck_transactions@, b)) by {
                                assert(tx_has(mid0.stuck_transactions@[pos as int], b));
                            }
                        }
                        // In flight and finalized: excluded by this
                        // function's own precondition, unchanged so far.
                        assert(!old(self).in_flight_map().contains_key(b));
                        assert(!old(self).finalized_has(b));
                        // Submitted: any transaction sharing the block index
                        // lay on the chain, and the chain collapse took it.
                        if txs_have(self.submitted_transactions@, b) {
                            let i2 = choose|i2: int|
                                0 <= i2 < self.submitted_transactions@.len() && tx_has(
                                    #[trigger] self.submitted_transactions@[i2],
                                    b,
                                );
                            let e2 = self.submitted_transactions@[i2];
                            assert(self.submitted_transactions@.contains(e2));
                            assert(old(self).submitted_transactions@.contains(e2));
                            assert(!chain_linked(replm_o, revm_o, *txid, e2.txid));
                            let j2 = choose|j2: int|
                                0 <= j2 < old(self).submitted_transactions@.len() && old(
                                    self,
                                ).submitted_transactions@[j2] == e2;
                            assert(tx_has(old(self).submitted_transactions@[j2], b));
                            assert(chain_linked(
                                replm_o,
                                revm_o,
                                *txid,
                                old(self).submitted_transactions@[j2].txid,
                            ));
                        }
                    }
                }
                t
            },
        };
        proof {
            assert(finalized_tx == tx_spec);
        }
        let ghost mid1 = *self;
        proof {
            assert(mid1.inv()) by {
                assert forall|b: u64|
                    #[trigger] has_block(mid1.pending_retrieve_btc_requests@, b) implies (
                !map_of(mid1.requests_in_flight@).contains_key(b) && !txs_have(
                    mid1.submitted_transactions@,
                    b,
                ) && !txs_have(mid1.stuck_transactions@, b) && !fin_has(
                    mid1.finalized_requests@,
                    b,
                )) by {
                    assert(mid0.pending_has(b));
                    if txs_have(mid1.submitted_transactions@, b) {
                        let i2 = choose|i2: int|
                            0 <= i2 < mid1.submitted_transactions@.len() && tx_has(
                                #[trigger] mid1.submitted_transactions@[i2],
                                b,
                            );
                        assert(mid1.submitted_transactions@.contains(
                            mid1.submitted_transactions@[i2],
                        ));
                        assert(mid0.submitted_transactions@.contains(
                            mid1.submitted_transactions@[i2],
                        ));
                        let k = choose|k: int|
                            0 <= k < mid0.submitted_transactions@.len()
                                && mid0.submitted_transactions@[k]
                                == mid1.submitted_transactions@[i2];
                        assert(tx_has(mid0.submitted_transactions@[k], b));
                    }
                    if txs_have(mid1.stuck_transactions@, b) {
                        let i2 = choose|i2: int|
                            0 <= i2 < mid1.stuck_transactions@.len() && tx_has(
                                #[trigger] mid1.stuck_transactions@[i2],
                                b,
                            );
                        assert(mid1.stuck_transactions@.contains(mid1.stuck_transactions@[i2]));
                        assert(mid0.stuck_transactions@.contains(mid1.stuck_transactions@[i2]));
                        let k = choose|k: int|
                            0 <= k < mid0.stuck_transactions@.len()
                                && mid0.stuck_transactions@[k] == mid1.stuck_transactions@[i2];
                        assert(tx_has(mid0.stuck_transactions@[k], b));
                    }
                }
                assert forall|b: u64|
                    #[trigger] map_of(mid1.requests_in_flight@).contains_key(b) implies (
                !txs_have(mid1.submitted_transactions@, b) && !fin_has(
                    mid1.finalized_requests@,
                    b,
                )) by {
                    assert(mid0.in_flight_map().contains_key(b));
                    if txs_have(mid1.submitted_transactions@, b) {
                        let i2 = choose|i2: int|
                            0 <= i2 < mid1.submitted_transactions@.len() && tx_has(
                                #[trigger] mid1.submitted_transactions@[i2],
                                b,
                            );
                        assert(mid1.submitted_transactions@.contains(
                            mid1.submitted_transactions@[i2],
                        ));
                        assert(mid0.submitted_transactions@.contains(
                            mid1.submitted_transactions@[i2],
                        ));
                        let k = choose|k: int|
                            0 <= k < mid0.submitted_transactions@.len()
                                && mid0.submitted_transactions@[k]
                                == mid1.submitted_transactions@[i2];
                        assert(tx_has(mid0.submitted_transactions@[k], b));
                    }
                }
                assert forall|b: u64| #[trigger] txs_have(mid1.submitted_transactions@, b)
                    implies !fin_has(mid1.finalized_requests@, b) by {
                    let i2 = choose|i2: int|
                        0 <= i2 < mid1.submitted_transactions@.len() && tx_has(
                            #[trigger] mid1.submitted_transactions@[i2],
                            b,
                        );
                    assert(mid1.submitted_transactions@.contains(
                        mid1.submitted_transactions@[i2],
                    ));
                    assert(mid0.submitted_transactions@.contains(
                        mid1.submitted_transactions@[i2],
                    ));
                    let k = choose|k: int|
                        0 <= k < mid0.submitted_transactions@.len()
                            && mid0.submitted_transactions@[k] == mid1.submitted_transactions@[i2];
                    assert(tx_has(mid0.submitted_transactions@[k], b));
                    assert(mid0.submitted_has(b));
                }
                assert forall|i2: int| 0 <= i2 < mid1.submitted_transactions@.len() implies
                    crate::state::keys_unique_in_tx(
                    #[trigger] mid1.submitted_transactions@[i2],
                ) by {
                    assert(mid1.submitted_transactions@.contains(
                        mid1.submitted_transactions@[i2],
                    ));
                    assert(mid0.submitted_transactions@.contains(
                        mid1.submitted_transactions@[i2],
                    ));
                    let k = choose|k: int|
                        0 <= k < mid0.submitted_transactions@.len()
                            && mid0.submitted_transactions@[k] == mid1.submitted_transactions@[i2];
                    assert(crate::state::keys_unique_in_tx(mid0.submitted_transactions@[k]));
                }
                assert forall|i2: int, j2: int, b: u64|
                    0 <= i2 < j2 < mid1.submitted_transactions@.len() implies !(#[trigger] tx_has(
                    mid1.submitted_transactions@[i2],
                    b,
                ) && #[trigger] tx_has(mid1.submitted_transactions@[j2], b)) by {
                    if mid1.submitted_transactions@ == mid0.submitted_transactions@ {
                    } else {
                        // one element was removed at some position
                        let pos = choose|p: int|
                            0 <= p <= mid1.submitted_transactions@.len()
                                && mid1.submitted_transactions@ == mid0.submitted_transactions@
                                .remove(p);
                        let i3 = if i2 < pos {
                            i2
                        } else {
                            i2 + 1
                        };
                        let j3 = if j2 < pos {
                            j2
                        } else {
                            j2 + 1
                        };
                        assert(mid1.submitted_transactions@[i2]
                            == mid0.submitted_transactions@[i3]);
                        assert(mid1.submitted_transactions@[j2]
                            == mid0.submitted_transactions@[j3]);
                    }
                }
            }
        }
        self.finalize_requests_and_utxos(&finalized_tx, txid);
        proof {
            assert(final(self).submitted_transactions == mid1.submitted_transactions);
            assert(final(self).stuck_transactions == mid1.stuck_transactions);
            assert(final(self).replacement_txid == mid0.replacement_txid);
            assert(final(self).rev_replacement_txid == mid0.rev_replacement_txid);
            assert(final(self).repl_map() == mid0.repl_map());
            assert(final(self).rev_map() == mid0.rev_map());
            assert forall|x: Txid|
                x == *txid || chain_linked(old(self).repl_map(), old(self).rev_map(), *txid, x)
                    implies !final(self).repl_map().contains_key(x)
                    && !final(self).rev_map().contains_key(x) by {
                assert(!mid0.repl_map().contains_key(x) && !mid0.rev_map().contains_key(x));
            }
            assert forall|x: Txid| #[trigger] final(self).repl_map().contains_key(x) implies old(
                self,
            ).repl_map().contains_key(x) && final(self).repl_map()[x] == old(
                self,
            ).repl_map()[x] by {
                assert(mid0.repl_map().contains_key(x));
            }
            assert forall|x: Txid| #[trigger] final(self).rev_map().contains_key(x) implies old(
                self,
            ).rev_map().contains_key(x) && final(self).rev_map()[x] == old(
                self,
            ).rev_map()[x] by {
                assert(mid0.rev_map().contains_key(x));
            }
            assert forall|o: OutPoint|
                #[trigger] final(self).outpoint_map().contains_key(o) <==> (old(
                self,
            ).outpoint_map().contains_key(o) && !has_used_outpoint(
                tx_spec.used_utxos@,
                o,
            )) by {
                assert(mid1.outpoint_map() == old(self).outpoint_map());
                assert(final(self).outpoint_map().contains_key(o) <==> (mid1.outpoint_map(
                ).contains_key(o) && !has_used_outpoint(finalized_tx.used_utxos@, o)));
            }
            assert forall|a: Account, x: Utxo|
                #[trigger] final(self).account_utxos(a).contains(x) <==> (old(
                self,
            ).account_utxos(a).contains(x) && !tx_spec.used_utxos@.contains(x)) by {
                assert(mid1.account_utxos(a) == old(self).account_utxos(a));
                assert(final(self).account_utxos(a).contains(x) <==> (mid1.account_utxos(
                    a,
                ).contains(x) && !finalized_tx.used_utxos@.contains(x)));
            }
            let f0 = old(self).finalized_requests@;
            assert(mid1.finalized_requests@ == f0);
            if old(self).finalized_requests@.len() + tx_spec.requests@.len()
                <= MAX_FINALIZED_REQUESTS {
                assert(final(self).finalized_requests@ == f0 + confirmed_records(
                    tx_spec.requests@,
                    *txid,
                ));
                let fin = final(self).finalized_requests@;
                let records = confirmed_records(tx_spec.requests@, *txid);
                assert forall|b: u64| #[trigger] tx_has(tx_spec, b) implies final(self).status_spec(
                    b,
                ) == (RetrieveBtcStatus::Confirmed { txid: *txid }) by {
                    assert(tx_has(finalized_tx, b));
                    assert(!final(self).pending_has(b)) by {
                        assert(final(self).pending_retrieve_btc_requests@
                            == mid0.pending_retrieve_btc_requests@);
                        if final(self).pending_has(b) {
                            assert(mid0.pending_has(b));
                        }
                    }
                    assert(!final(self).in_flight_map().contains_key(b)) by {
                        assert(final(self).requests_in_flight == mid0.requests_in_flight);
                    }
                    assert(!final(self).submitted_has(b)) by {
                        if txs_have(final(self).submitted_transactions@, b) {
                            assert(txs_have(mid1.submitted_transactions@, b));
                        }
                    }
                    let k = choose|k: int|
                        0 <= k < tx_spec.requests@.len() && tx_spec.requests@[k].block_index == b;
                    let idx = f0.len() + k;
                    assert(fin[idx as int] == records[k]);
                    assert(records[k] == (FinalizedBtcRetrieval {
                        request: tx_spec.requests@[k],
                        state: FinalizedStatus::Confirmed { txid: *txid },
                    }));
                    assert(fin[idx as int].request.block_index == b);
                    assert(final(self).finalized_has(b)) by {
                        assert(fin_has(fin, b)) by {
                            assert(fin[idx as int].request.block_index == b);
                        }
                    }
                    let i2 = choose|i2: int|
                        0 <= i2 < fin.len() && fin[i2].request.block_index == b;
                    assert(i2 == idx) by {
                        if i2 != idx {
                            assert(fin[i2].request.block_index != fin[
                                idx as int
                            ].request.block_index);
                        }
                    }
                    assert(fin[i2].state == (FinalizedStatus::Confirmed { txid: *txid }));
                }
            }
        }
    }
}

/// Whether some used UTXO carries the given outpoint.
pub open spec fn has_used_outpoint(used: Seq<Utxo>, o: OutPoint) -> bool {
    exists|k: int| 0 <= k < used.len() && used[k].outpoint == o
}


impl CkBtcMinterState {
    /// Forgets a confirmed transaction's UTXOs, counts its requests and
    /// records them in the finalized ring as confirmed.  The transaction must
    /// already be out of the pipeline, and none of its requests may be
    /// recorded anywhere.
    pub(crate) fn finalize_requests_and_utxos(&mut self, tx: &SubmittedBtcTransaction, txid: &Txid)
        requires
            old(self).inv(),
            forall|b: u64|
                #[trigger] tx_has(*tx, b) ==> !old(self).pending_has(b) && !old(
                    self,
                ).in_flight_map().contains_key(b) && !old(self).submitted_has(b) && !old(
                    self,
                ).finalized_has(b),
            crate::state::keys_unique_in_tx(*tx),
            old(self).finalized_requests_count + tx.requests@.len() <= u64::MAX,
            forall|k: int, l: int|
                0 <= k < l < tx.used_utxos@.len() ==> (#[trigger] tx.used_utxos@[k]).outpoint
                    != (#[trigger] tx.used_utxos@[l]).outpoint,
            forall|k: int|
                0 <= k < tx.used_utxos@.len() && old(self).outpoint_map().contains_key(
                    (#[trigger] tx.used_utxos@[k]).outpoint,
                ) ==> old(self).account_utxos(
                    old(self).outpoint_map()[tx.used_utxos@[k].outpoint],
                ).contains(tx.used_utxos@[k]),
        ensures
            final(self).inv(),
            final(self).finalized_requests_count == old(self).finalized_requests_count
                + tx.requests@.len(),
            old(self).finalized_requests@.len() + tx.requests@.len() <= MAX_FINALIZED_REQUESTS
                ==> final(self).finalized_requests@ == old(self).finalized_requests@
                + confirmed_records(tx.requests@, *txid),
            forall|b: u64|
                #[trigger] fin_has(final(self).finalized_requests@, b) ==> fin_has(
                    old(self).finalized_requests@,
                    b,
                ) || tx_has(*tx, b),
            forall|o: OutPoint|
                #[trigger] final(self).outpoint_map().contains_key(o) <==> (old(
                    self,
                ).outpoint_map().contains_key(o) && !has_used_outpoint(tx.used_utxos@, o)),
            forall|a: Account, x: Utxo|
                #[trigger] final(self).account_utxos(a).contains(x) <==> (old(
                    self,
                ).account_utxos(a).contains(x) && !tx.used_utxos@.contains(x)),
            *final(self) == (CkBtcMinterState {
                outpoint_account: final(self).outpoint_account,
                utxos_state_addresses: final(self).utxos_state_addresses,
                finalized_utxos: final(self).finalized_utxos,
                finalized_requests: final(self).finalized_requests,
                finalized_requests_count: final(self).finalized_requests_count,
                ..*old(self)
            }),
    {
        let mut k: usize = 0;
        let used = &tx.used_utxos;
        proof {
            assert(used@.take(0) =~= Seq::<Utxo>::empty());
        }
        while k < used.len()
            invariant
                self.inv(),
                used == &tx.used_utxos,
                0 <= k <= used@.len(),
                forall|k2: int, l2: int|
                    0 <= k2 < l2 < used@.len() ==> (#[trigger] used@[k2]).outpoint != (
                    #[trigger] used@[l2]).outpoint,
                forall|o: OutPoint|
                    #[trigger] self.outpoint_map().contains_key(o) <==> (old(
                        self,
                    ).outpoint_map().contains_key(o) && !has_used_outpoint(
                        used@.take(k as int),
                        o,
                    )),
                forall|o: OutPoint|
                    #[trigger] self.outpoint_map().contains_key(o) ==> self.outpoint_map()[o]
                        == old(self).outpoint_map()[o],
                forall|a: Account, x: Utxo|
                    #[trigger] self.account_utxos(a).contains(x) <==> (old(
                        self,
                    ).account_utxos(a).contains(x) && !used@.take(k as int).contains(x)),
                forall|k2: int|
                    0 <= k2 < used@.len() && old(self).outpoint_map().contains_key(
                        (#[trigger] used@[k2]).outpoint,
                    ) ==> old(self).account_utxos(
                        old(self).outpoint_map()[used@[k2].outpoint],
                    ).contains(used@[k2]),
                *self == (CkBtcMinterState {
                    outpoint_account: self.outpoint_account,
                    utxos_state_addresses: self.utxos_state_addresses,
                    finalized_utxos: self.finalized_utxos,
                    ..*old(self)
                }),
            decreases used@.len() - k,
        {
            let u = used[k];
            proof {
                assert(u == used@[k as int]);
                assert(used@.take(k + 1).drop_last() =~= used@.take(k as int));
                assert(used@.take(k + 1).last() == used@[k as int]);
                let ghost cur = used@.take(k + 1);
                let ghost prev = used@.take(k as int);
                assert forall|o: OutPoint|
                    #[trigger] has_used_outpoint(cur, o) <==> (has_used_outpoint(prev, o) || o
                    == used@[k as int].outpoint) by {
                    if has_used_outpoint(cur, o) {
                        let k2 = choose|k2: int| 0 <= k2 < cur.len() && cur[k2].outpoint == o;
                        if k2 < k {
                            assert(prev[k2].outpoint == o);
                        }
                    }
                    if has_used_outpoint(prev, o) {
                        let k2 = choose|k2: int| 0 <= k2 < prev.len() && prev[k2].outpoint == o;
                        assert(cur[k2].outpoint == o);
                    }
                    if o == used@[k as int].outpoint {
                        assert(cur[k as int].outpoint == o);
                    }
                }
                assert(forall|y: Utxo|
                    #[trigger] used@.take(k + 1).contains(y) <==> (used@.take(
                        k as int,
                    ).contains(y) || y == used@[k as int]));
                if self.outpoint_map().contains_key(u.outpoint) {
                    assert(old(self).outpoint_map().contains_key(u.outpoint));
                    assert(old(self).account_utxos(old(self).outpoint_map()[u.outpoint]).contains(
                        u,
                    ));
                    assert(self.outpoint_map()[u.outpoint] == old(
                        self,
                    ).outpoint_map()[u.outpoint]);
                    assert(!used@.take(k as int).contains(u)) by {
                        if used@.take(k as int).contains(u) {
                            let k2 = choose|k2: int| 0 <= k2 < k && used@.take(k as int)[k2] == u;
                            assert(used@[k2].outpoint == used@[k as int].outpoint);
                        }
                    }
                    assert(self.account_utxos(self.outpoint_map()[u.outpoint]).contains(u));
                }
            }
            let ghost before = *self;
            self.forget_utxo(&u);
            proof {
                assert forall|o: OutPoint|
                    #[trigger] self.outpoint_map().contains_key(o) <==> (old(
                    self,
                ).outpoint_map().contains_key(o) && !has_used_outpoint(used@.take(k + 1), o)) by {
                    assert(self.outpoint_map() == before.outpoint_map().remove(u.outpoint));
                }
                assert forall|o: OutPoint|
                    #[trigger] self.outpoint_map().contains_key(o) implies self.outpoint_map()[o]
                    == old(self).outpoint_map()[o] by {
                    assert(self.outpoint_map() == before.outpoint_map().remove(u.outpoint));
                    assert(before.outpoint_map().contains_key(o));
                }
                assert forall|a: Account, x: Utxo|
                    #[trigger] self.account_utxos(a).contains(x) <==> (old(
                    self,
                ).account_utxos(a).contains(x) && !used@.take(k + 1).contains(x)) by {
                    assert(self.account_utxos(a).contains(x) <==> (before.account_utxos(
                        a,
                    ).contains(x) && x != u));
                }
            }
            k += 1;
        }
        proof {
            assert(used@.take(used@.len() as int) =~= used@);
        }
        let ghost after_forget = *self;
        self.finalized_requests_count = self.finalized_requests_count + (tx.requests.len() as u64);
        let ghost f0 = self.finalized_requests@;
        let ghost no_evict = f0.len() + tx.requests@.len() <= MAX_FINALIZED_REQUESTS;
        let mut ring: Vec<FinalizedBtcRetrieval> = Vec::new();
        core::mem::swap(&mut ring, &mut self.finalized_requests);
        let mut r: usize = 0;
        proof {
            assert(confirmed_records(tx.requests@.take(0), *txid) =~= Seq::<
                FinalizedBtcRetrieval,
            >::empty());
            assert(f0 + confirmed_records(tx.requests@.take(0), *txid) =~= f0);
            assert forall|b: u64| #[trigger] tx_has(*tx, b) implies !fin_has(f0, b) by {
                assert(!old(self).finalized_has(b));
            }
        }
        while r < tx.requests.len()
            invariant
                0 <= r <= tx.requests@.len(),
                crate::state::keys_unique_in_tx(*tx),
                forall|b: u64| #[trigger] tx_has(*tx, b) ==> !fin_has(f0, b),
                crate::state::finalized_ring_wf(f0),
                crate::state::finalized_ring_wf(ring@),
                forall|b: u64|
                    #[trigger] fin_has(ring@, b) ==> fin_has(f0, b) || has_block(
                        tx.requests@.take(r as int),
                        b,
                    ),
                no_evict == (f0.len() + tx.requests@.len() <= MAX_FINALIZED_REQUESTS),
                no_evict ==> ring@ == f0 + confirmed_records(tx.requests@.take(r as int), *txid),
                forall|i2: int|
                    0 <= i2 < ring@.len() && !fin_has(f0, #[trigger] ring@[i2].request.block_index)
                        ==> ring@[i2].state == (FinalizedStatus::Confirmed { txid: *txid }),
            decreases tx.requests@.len() - r,
        {
            let request = tx.requests[r];
            let record = FinalizedBtcRetrieval {
                request,
                state: FinalizedStatus::Confirmed { txid: *txid },
            };
            proof {
                assert(request == tx.requests@[r as int]);
                assert(tx_has(*tx, request.block_index)) by {
                    assert(tx.requests@[r as int].block_index == request.block_index);
                }
                assert(tx.requests@.take(r + 1).drop_last() =~= tx.requests@.take(r as int));
                assert(tx.requests@.take(r + 1).last() == tx.requests@[r as int]);
                crate::state::lemma_has_block_push(tx.requests@.take(r as int), request);
                assert(tx.requests@.take(r as int).push(request) =~= tx.requests@.take(r + 1));
            }
            let ghost ring0 = ring@;
            if ring.len() >= MAX_FINALIZED_REQUESTS {
                let evicted = ring.remove(0);
                proof {
                    crate::state::lemma_fin_has_remove(ring0, 0);
                    assert forall|p: int, q: int| 0 <= p < q < ring@.len() implies
                        ring@[p].request.block_index != ring@[q].request.block_index by {
                        assert(ring@[p] == ring0[p + 1] && ring@[q] == ring0[q + 1]);
                    }
                }
            }
            let ghost ring1 = ring@;
            ring.push(record);
            proof {
                crate::state::lemma_fin_has_push(ring1, record);
                assert forall|p: int, q: int| 0 <= p < q < ring@.len() implies
                    ring@[p].request.block_index != ring@[q].request.block_index by {
                    if q == ring@.len() - 1 {
                        assert(ring@[p] == ring1[p]);
                        assert(ring@[q] == record);
                        if ring1[p].request.block_index == request.block_index {
                            assert(fin_has(ring1, request.block_index)) by {
                                assert(ring1[p].request.block_index == request.block_index);
                            }
                            if fin_has(f0, request.block_index) {
                            } else {
                                assert(has_block(
                                    tx.requests@.take(r as int),
                                    request.block_index,
                                ));
                                let k2 = choose|k2: int|
                                    0 <= k2 < r && tx.requests@.take(r as int)[k2].block_index
                                        == request.block_index;
                                assert(tx.requests@[k2].block_index == tx.requests@[
                                    r as int
                                ].block_index);
                            }
                        }
                    } else {
                        assert(ring@[p] == ring1[p] && ring@[q] == ring1[q]);
                    }
                }
                if no_evict {
                    assert(ring1 == ring0);
                    assert(confirmed_records(tx.requests@.take(r + 1), *txid)
                        =~= confirmed_records(tx.requests@.take(r as int), *txid).push(record));
                    assert(ring@ =~= f0 + confirmed_records(tx.requests@.take(r + 1), *txid));
                }
                assert forall|i2: int|
                    0 <= i2 < ring@.len() && !fin_has(
                        f0,
                        #[trigger] ring@[i2].request.block_index,
                    ) implies ring@[i2].state == (FinalizedStatus::Confirmed { txid: *txid }) by {
                    if i2 < ring@.len() - 1 {
                        assert(ring@[i2] == ring1[i2]);
                        if ring0.len() > ring1.len() {
                            assert(ring1[i2] == ring0[i2 + 1]);
                        }
                    } else {
                        assert(ring@[i2] == record);
                    }
                }
            }
            r += 1;
        }
        self.finalized_requests = ring;
        proof {
            assert(tx.requests@.take(tx.requests@.len() as int) =~= tx.requests@);
            let fin = final(self).finalized_requests@;
            assert forall|b: u64|
                #[trigger] has_block(self.pending_retrieve_btc_requests@, b) implies (!map_of(
                self.requests_in_flight@,
            ).contains_key(b) && !txs_have(self.submitted_transactions@, b) && !txs_have(
                self.stuck_transactions@,
                b,
            ) && !fin_has(fin, b)) by {
                assert(old(self).pending_has(b));
                if fin_has(fin, b) {
                    assert(fin_has(f0, b) || tx_has(*tx, b));
                }
            }
            assert forall|b: u64|
                #[trigger] map_of(self.requests_in_flight@).contains_key(b) implies (!txs_have(
                self.submitted_transactions@,
                b,
            ) && !fin_has(fin, b)) by {
                assert(old(self).in_flight_map().contains_key(b));
                if fin_has(fin, b) {
                    assert(fin_has(f0, b) || tx_has(*tx, b));
                }
            }
            assert forall|b: u64| #[trigger] txs_have(self.submitted_transactions@, b) implies
                !fin_has(fin, b) by {
                assert(old(self).submitted_has(b));
                if fin_has(fin, b) {
                    assert(fin_has(f0, b) || tx_has(*tx, b));
                }
            }
            assert(final(self).outpoint_account == after_forget.outpoint_account);
            assert(final(self).utxos_state_addresses == after_forget.utxos_state_addresses);
            assert forall|o: OutPoint|
                #[trigger] final(self).outpoint_map().contains_key(o) <==> (old(
                self,
            ).outpoint_map().contains_key(o) && !has_used_outpoint(tx.used_utxos@, o)) by {
                assert(final(self).outpoint_map() == after_forget.outpoint_map());
                assert(after_forget.outpoint_map().contains_key(o) <==> (old(
                    self,
                ).outpoint_map().contains_key(o) && !has_used_outpoint(used@, o)));
            }
            assert forall|a: Account, x: Utxo|
                #[trigger] final(self).account_utxos(a).contains(x) <==> (old(
                self,
            ).account_utxos(a).contains(x) && !tx.used_utxos@.contains(x)) by {
                assert(final(self).account_utxos(a) == after_forget.account_utxos(a));
                assert(after_forget.account_utxos(a).contains(x) <==> (old(
                    self,
                ).account_utxos(a).contains(x) && !used@.contains(x)));
            }
        }
    }
}

} // verus!
