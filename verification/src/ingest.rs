//! Crediting observed UTXOs to accounts, suspending them, and recording
//! screening outcomes.

use vstd::prelude::*;

use crate::alist::{
    alist_get, alist_put, alist_remove, elems_distinct, eq_is_equality, has_key, keys_distinct,
    map_of, vec_contains,
};
use crate::domain::{Account, OutPoint, Principal, Timestamp, Utxo};
use crate::processable::{ProcessableUtxos, SuspendedUtxo};
use crate::records::{CheckedUtxo, SuspendedReason, UtxoCheckStatus};
use crate::state::{bucket_of, sum_values, CkBtcMinterState};

verus! {

broadcast use vstd::seq_lib::lemma_seq_contains_after_push;

impl CkBtcMinterState {
    /// Whether suspending a UTXO for the given reason is consistent with the
    /// configured check fee.
    pub open spec fn reason_consistent(self, utxo: Utxo, reason: SuspendedReason) -> bool {
        reason == SuspendedReason::ValueTooSmall ==> utxo.value <= self.check_fee
    }

    /// Suspends a UTXO under an account, recording the evaluation time.
    /// Returns `false` when the identical suspension was already recorded.
    pub fn suspend_utxo(
        &mut self,
        utxo: Utxo,
        account: Account,
        reason: SuspendedReason,
        now: Timestamp,
    ) -> (r: bool)
        requires
            old(self).inv(),
            old(self).reason_consistent(utxo, reason),
        ensures
            final(self).inv(),
            r == !(old(self).suspended_utxos.reason_map(account).contains_key(utxo) && old(self).suspended_utxos.reason_map(account)[utxo] == reason),
            final(self).suspended_utxos.cache_map() == old(self).suspended_utxos.cache_map().insert(utxo, now),
            r ==> final(self).suspended_utxos.wa_map() == old(self).suspended_utxos.wa_map().remove(utxo),
            r ==> final(self).suspended_utxos.reason_map(account) == old(self).suspended_utxos.reason_map(account).insert(utxo, reason),
            forall|b: Account|
                b != account ==> final(self).suspended_utxos.reason_map(b) == old(self).suspended_utxos.reason_map(b),
            *final(self) == (CkBtcMinterState {
                suspended_utxos: final(self).suspended_utxos,
                ..*old(self)
            }),
    {
        let r = self.suspended_utxos.insert(account, utxo, reason, Some(now));
        proof {
            let fee = self.check_fee;
            assert forall|u: Utxo|
                #[trigger] final(self).suspended_utxos.wa_map().contains_key(u) && final(self).suspended_utxos.wa_map()[u] == SuspendedReason::ValueTooSmall implies u.value
                <= fee by {
                assert(old(self).suspended_utxos.wa_map().contains_key(u));
            }
            assert forall|a: Account, u: Utxo|
                #[trigger] final(self).suspended_utxos.reason_map(a).contains_key(u) && final(self).suspended_utxos.reason_map(a)[u] == SuspendedReason::ValueTooSmall implies
                u.value <= fee by {
                if a == account && r {
                    if u != utxo {
                        assert(old(self).suspended_utxos.reason_map(a).contains_key(u));
                    }
                } else {
                    assert(final(self).suspended_utxos.reason_map(a) == old(self).suspended_utxos.reason_map(a));
                }
            }
        }
        r
    }

    /// Suspends a UTXO in the legacy partition, without account information.
    /// The UTXO may not be recorded under any account.
    pub fn discard_utxo_without_account(&mut self, utxo: Utxo, reason: SuspendedReason)
        requires
            old(self).inv(),
            old(self).reason_consistent(utxo, reason),
            forall|i: int|
                0 <= i < old(self).suspended_utxos.utxos@.len() ==> !has_key(
                    #[trigger] old(self).suspended_utxos.utxos@[i].1@,
                    utxo,
                ),
        ensures
            final(self).inv(),
            final(self).suspended_utxos.wa_map() == old(self).suspended_utxos.wa_map().insert(
                utxo,
                reason,
            ),
            forall|b: Account|
                #[trigger] final(self).suspended_utxos.reason_map(b) == old(
                    self,
                ).suspended_utxos.reason_map(b),
            final(self).suspended_utxos.cache_map() == old(self).suspended_utxos.cache_map(),
            *final(self) == (CkBtcMinterState {
                suspended_utxos: final(self).suspended_utxos,
                ..*old(self)
            }),
    {
        self.suspended_utxos.insert_without_account(utxo, reason);
        proof {
            let fee = self.check_fee;
            assert forall|u: Utxo|
                #[trigger] final(self).suspended_utxos.wa_map().contains_key(u) && final(self).suspended_utxos.wa_map()[u] == SuspendedReason::ValueTooSmall implies u.value
                <= fee by {
                if u != utxo {
                    assert(old(self).suspended_utxos.wa_map().contains_key(u));
                }
            }
            assert(forall|a: Account|
                #[trigger] final(self).suspended_utxos.reason_map(a) == old(self).suspended_utxos.reason_map(a));
        }
    }

    /// Records a clean screening outcome for a UTXO observed at an account:
    /// the suspension is lifted and the outcome remembered until the UTXO is
    /// credited.
    pub fn mark_utxo_checked_v2(&mut self, utxo: Utxo, account: &Account)
        requires
            old(self).inv(),
        ensures
            final(self).inv(),
            final(self).checked_map() == old(self).checked_map().insert(
                utxo,
                CheckedUtxo {
                    status: UtxoCheckStatus::Clean,
                    uuid: None,
                    kyt_provider: None,
                },
            ),
            final(self).suspended_utxos.wa_map() == old(self).suspended_utxos.wa_map().remove(
                utxo,
            ),
            final(self).suspended_utxos.reason_map(*account) == old(self).suspended_utxos.reason_map(*account).remove(utxo),
            forall|b: Account|
                b != *account ==> final(self).suspended_utxos.reason_map(b) == old(self).suspended_utxos.reason_map(b),
            final(self).suspended_utxos.cache_map() == old(self).suspended_utxos.cache_map().remove(utxo),
            *final(self) == (CkBtcMinterState {
                suspended_utxos: final(self).suspended_utxos,
                checked_utxos: final(self).checked_utxos,
                ..*old(self)
            }),
    {
        proof {
            assert(eq_is_equality::<Utxo>());
        }
        self.suspended_utxos.remove(account, &utxo);
        alist_put(
            &mut self.checked_utxos,
            utxo,
            CheckedUtxo { status: UtxoCheckStatus::Clean, uuid: None, kyt_provider: None },
        );
        proof {
            lemma_value_bound_shrinks(*old(self), *self, *account, utxo);
        }
    }

    /// Records a clean screening outcome whose mint attempt had an unknown
    /// outcome.  The UTXO may not be suspended at that account.
    pub fn mark_utxo_checked_mint_unknown(&mut self, utxo: Utxo, account: &Account)
        requires
            old(self).inv(),
            old(self).suspended_utxos.lookup_reason(utxo, *account) is None,
            !old(self).suspended_utxos.cache_map().contains_key(utxo),
        ensures
            final(self).inv(),
            final(self).checked_map() == old(self).checked_map().insert(
                utxo,
                CheckedUtxo {
                    status: UtxoCheckStatus::CleanButMintUnknown,
                    uuid: None,
                    kyt_provider: None,
                },
            ),
            *final(self) == (CkBtcMinterState {
                checked_utxos: final(self).checked_utxos,
                ..*old(self)
            }),
    {
        proof {
            assert(eq_is_equality::<Utxo>());
        }
        alist_put(
            &mut self.checked_utxos,
            utxo,
            CheckedUtxo {
                status: UtxoCheckStatus::CleanButMintUnknown,
                uuid: None,
                kyt_provider: None,
            },
        );
    }

    /// Records a clean screening outcome the legacy way: the legacy
    /// suspension is lifted, and the screening fee is credited to the
    /// provider the first time the UTXO is marked.
    pub fn mark_utxo_checked(
        &mut self,
        utxo: Utxo,
        uuid: Option<String>,
        kyt_provider: Option<Principal>,
    )
        requires
            old(self).inv(),
            forall|i: int, j: int|
                0 <= i < j < old(self).suspended_utxos.utxos@.len() ==> !(has_key(
                    #[trigger] old(self).suspended_utxos.utxos@[i].1@,
                    utxo,
                ) && has_key(#[trigger] old(self).suspended_utxos.utxos@[j].1@, utxo)),
            (kyt_provider matches Some(p) && !old(self).checked_map().contains_key(utxo)) ==> (
            if old(self).owed_map().contains_key(kyt_provider->0) {
                old(self).owed_map()[kyt_provider->0] as int
            } else {
                0
            }) + old(self).check_fee <= u64::MAX,
        ensures
            final(self).inv(),
            final(self).checked_map() == old(self).checked_map().insert(
                utxo,
                (CheckedUtxo { status: UtxoCheckStatus::Clean, uuid, kyt_provider }),
            ),
            final(self).suspended_utxos.wa_map() == old(self).suspended_utxos.wa_map().remove(
                utxo,
            ),
            forall|b: Account|
                final(self).suspended_utxos.reason_map(b) == old(self).suspended_utxos.reason_map(b).remove(utxo),
            final(self).suspended_utxos.cache_map() == old(self).suspended_utxos.cache_map().remove(utxo),
            (old(self).checked_map().contains_key(utxo) || kyt_provider is None) ==> final(self).owed_map() == old(self).owed_map(),
            (!old(self).checked_map().contains_key(utxo) && kyt_provider is Some) ==> final(self).owed_map() == old(self).owed_map().insert(
                kyt_provider->0,
                (((if old(self).owed_map().contains_key(kyt_provider->0) {
                    old(self).owed_map()[kyt_provider->0] as int
                } else {
                    0int
                }) + old(self).check_fee) as u64),
            ),
            *final(self) == (CkBtcMinterState {
                suspended_utxos: final(self).suspended_utxos,
                checked_utxos: final(self).checked_utxos,
                owed_kyt_amount: final(self).owed_kyt_amount,
                ..*old(self)
            }),
    {
        proof {
            assert(eq_is_equality::<Utxo>());
            assert(eq_is_equality::<Principal>());
            crate::alist::lemma_map_of_contains(self.checked_utxos@, utxo);
        }
        self.suspended_utxos.remove_without_account(&utxo);
        let was_absent = alist_get(&self.checked_utxos, &utxo).is_none();
        alist_put(
            &mut self.checked_utxos,
            utxo,
            CheckedUtxo { status: UtxoCheckStatus::Clean, uuid, kyt_provider },
        );
        if was_absent {
            match &kyt_provider {
                Some(provider) => {
                    proof {
                        crate::alist::lemma_map_of_contains(self.owed_kyt_amount@, *provider);
                    }
                    let current: u64 = match alist_get(&self.owed_kyt_amount, provider) {
                        Some(v) => *v,
                        None => 0,
                    };
                    let fee = self.check_fee;
                    alist_put(&mut self.owed_kyt_amount, *provider, current + fee);
                },
                None => {},
            }
        }
        proof {
            let fee = self.check_fee;
            assert forall|u: Utxo|
                #[trigger] final(self).suspended_utxos.wa_map().contains_key(u) && final(self).suspended_utxos.wa_map()[u] == SuspendedReason::ValueTooSmall implies u.value
                <= fee by {
                assert(old(self).suspended_utxos.wa_map().contains_key(u));
            }
            assert forall|a: Account, u: Utxo|
                #[trigger] final(self).suspended_utxos.reason_map(a).contains_key(u) && final(self).suspended_utxos.reason_map(a)[u] == SuspendedReason::ValueTooSmall implies
                u.value <= fee by {
                assert(final(self).suspended_utxos.reason_map(a) == old(self).suspended_utxos.reason_map(a).remove(utxo));
                assert(old(self).suspended_utxos.reason_map(a).contains_key(u));
            }
        }
    }
}

/// Lifting one UTXO's suspension keeps every remaining value within the fee.
proof fn lemma_value_bound_shrinks(
    pre: CkBtcMinterState,
    post: CkBtcMinterState,
    account: Account,
    utxo: Utxo,
)
    requires
        pre.suspended_utxos.value_bound(pre.check_fee),
        post.check_fee == pre.check_fee,
        post.suspended_utxos.wa_map() == pre.suspended_utxos.wa_map().remove(utxo),
        post.suspended_utxos.reason_map(account) == pre.suspended_utxos.reason_map(
            account,
        ).remove(utxo),
        forall|b: Account|
            b != account ==> post.suspended_utxos.reason_map(b) == pre.suspended_utxos.reason_map(
                b,
            ),
    ensures
        post.suspended_utxos.value_bound(post.check_fee),
{
    let fee = pre.check_fee;
    assert forall|u: Utxo|
        #[trigger] post.suspended_utxos.wa_map().contains_key(u) && post.suspended_utxos.wa_map()[
            u
        ] == SuspendedReason::ValueTooSmall implies u.value <= fee by {
        assert(pre.suspended_utxos.wa_map().contains_key(u));
    }
    assert forall|a: Account, u: Utxo|
        #[trigger] post.suspended_utxos.reason_map(a).contains_key(u)
            && post.suspended_utxos.reason_map(a)[u] == SuspendedReason::ValueTooSmall implies
        u.value <= fee by {
        if a == account {
            assert(pre.suspended_utxos.reason_map(a).contains_key(u));
        } else {
            assert(post.suspended_utxos.reason_map(a) == pre.suspended_utxos.reason_map(a));
        }
    }
}


impl CkBtcMinterState {
    /// Credits freshly observed UTXOs to an account: the minted total grows
    /// by their value, each outpoint is assigned to the account, each UTXO
    /// joins the account's bucket and the available set, and any screening
    /// record for it is dropped.  An empty list changes nothing.
    pub fn add_utxos(&mut self, account: Account, utxos: Vec<Utxo>)
        requires
            old(self).inv(),
            forall|k: int, l: int|
                0 <= k < l < utxos@.len() ==> (#[trigger] utxos@[k]).outpoint != (
                #[trigger] utxos@[l]).outpoint,
            forall|k: int|
                0 <= k < utxos@.len() ==> !old(self).outpoint_map().contains_key(
                    (#[trigger] utxos@[k]).outpoint,
                ),
            old(self).tokens_minted + sum_values(utxos@) <= u64::MAX,
        ensures
            final(self).inv(),
            utxos@.len() == 0 ==> *final(self) == *old(self),
            utxos@.len() > 0 ==> final(self).tokens_minted == old(self).tokens_minted
                + sum_values(utxos@),
            utxos@.len() > 0 ==> forall|o: OutPoint|
                #[trigger] final(self).outpoint_map().contains_key(o) <==> (old(self).outpoint_map().contains_key(o) || crate::finalize::has_used_outpoint(
                    utxos@,
                    o,
                )),
            utxos@.len() > 0 ==> forall|k: int|
                0 <= k < utxos@.len() ==> final(self).outpoint_map()[(
                #[trigger] utxos@[k]).outpoint] == account,
            utxos@.len() > 0 ==> forall|x: Utxo|
                #[trigger] final(self).account_utxos(account).contains(x) <==> (old(self).account_utxos(account).contains(x) || utxos@.contains(x)),
            utxos@.len() > 0 ==> forall|b: Account|
                b != account ==> final(self).account_utxos(b) == old(self).account_utxos(b),
            utxos@.len() > 0 ==> forall|x: Utxo|
                #[trigger] final(self).available_utxos@.contains(x) <==> (old(self).available_utxos@.contains(x) || utxos@.contains(x)),
            utxos@.len() > 0 ==> forall|u: Utxo|
                #[trigger] final(self).checked_map().contains_key(u) <==> (old(self).checked_map().contains_key(u) && !utxos@.contains(u)),
            *final(self) == (CkBtcMinterState {
                tokens_minted: final(self).tokens_minted,
                outpoint_account: final(self).outpoint_account,
                utxos_state_addresses: final(self).utxos_state_addresses,
                available_utxos: final(self).available_utxos,
                checked_utxos: final(self).checked_utxos,
                ..*old(self)
            }),
    {
        proof {
            assert(eq_is_equality::<Utxo>());
            assert(eq_is_equality::<OutPoint>());
            assert(eq_is_equality::<Account>());
        }
        if utxos.len() == 0 {
            return ;
        }
        let total = utxo_values_total(&utxos);
        self.tokens_minted = self.tokens_minted + total;
        let mut oa: Vec<(OutPoint, Account)> = Vec::new();
        core::mem::swap(&mut oa, &mut self.outpoint_account);
        let mut avail: Vec<Utxo> = Vec::new();
        core::mem::swap(&mut avail, &mut self.available_utxos);
        let mut checked: Vec<(Utxo, CheckedUtxo)> = Vec::new();
        core::mem::swap(&mut checked, &mut self.checked_utxos);
        let mut usa: Vec<(Account, Vec<Utxo>)> = Vec::new();
        core::mem::swap(&mut usa, &mut self.utxos_state_addresses);
        let ghost oa0 = oa@;
        let ghost avail0 = avail@;
        let ghost checked0 = checked@;
        let ghost usa0 = usa@;
        proof {
            crate::alist::lemma_map_of_contains(usa@, account);
        }
        let mut bucket: Vec<Utxo> = match crate::alist::alist_find(&usa, &account) {
            Some(i) => {
                proof {
                    crate::alist::lemma_map_of_index(usa@, i as int);
                    crate::alist::lemma_map_of_remove(usa@, i as int);
                    crate::alist::lemma_keys_distinct_remove(usa@, i as int);
                }
                let (_acct, b) = usa.remove(i);
                b
            },
            None => Vec::new(),
        };
        let ghost bucket0 = bucket@;
        proof {
            assert(bucket0 == old(self).account_utxos(account)) by {
                if !map_of(usa0).contains_key(account) {
                    assert(bucket_of(usa0, account) =~= Seq::<Utxo>::empty());
                    assert(bucket0 =~= Seq::<Utxo>::empty());
                }
            }
            assert(!has_key(usa@, account)) by {
                if has_key(usa@, account) {
                    if map_of(usa0).contains_key(account) {
                        let i0 = choose|i0: int| 0 <= i0 < usa0.len() && usa0[i0].0 == account;
                        let j = choose|j: int| 0 <= j < usa@.len() && usa@[j].0 == account;
                    } else {
                        crate::alist::lemma_map_of_contains(usa0, account);
                        let j = choose|j: int| 0 <= j < usa@.len() && usa@[j].0 == account;
                    }
                }
            }
            assert(elems_distinct(bucket0)) by {
                if map_of(usa0).contains_key(account) {
                    crate::state::lemma_bucket_elems_distinct(usa0, account);
                }
            }
            assert(forall|j: int|
                0 <= j < usa@.len() ==> map_of(usa0).contains_key(#[trigger] usa@[j].0)
                    && map_of(usa0)[usa@[j].0]@ == bucket_of(usa0, usa@[j].0)) by {
                assert forall|j: int| 0 <= j < usa@.len() implies map_of(usa0).contains_key(
                    #[trigger] usa@[j].0,
                ) && map_of(usa0)[usa@[j].0]@ == bucket_of(usa0, usa@[j].0) by {
                    if map_of(usa0).contains_key(account) {
                        let i0 = choose|i0: int|
                            0 <= i0 < usa0.len() && usa0[i0].0 == account;
                        let j0 = if j < i0 { j } else { j + 1 };
                        assert(usa@[j] == usa0[j0]);
                        crate::alist::lemma_map_of_index(usa0, j0);
                    } else {
                        crate::alist::lemma_map_of_index(usa0, j);
                    }
                }
            }
        }
        let mut k: usize = 0;
        while k < utxos.len()
            invariant
                0 <= k <= utxos@.len(),
                forall|k2: int, l2: int|
                    0 <= k2 < l2 < utxos@.len() ==> (#[trigger] utxos@[k2]).outpoint != (
                    #[trigger] utxos@[l2]).outpoint,
                forall|k2: int|
                    0 <= k2 < utxos@.len() ==> !map_of(oa0).contains_key(
                        (#[trigger] utxos@[k2]).outpoint,
                    ),
                keys_distinct(oa@),
                forall|o: OutPoint|
                    #[trigger] map_of(oa@).contains_key(o) <==> (map_of(oa0).contains_key(o)
                        || crate::finalize::has_used_outpoint(utxos@.take(k as int), o)),
                forall|o: OutPoint|
                    map_of(oa0).contains_key(o) ==> #[trigger] map_of(oa@)[o] == map_of(oa0)[o],
                forall|k2: int|
                    0 <= k2 < k ==> map_of(oa@)[(#[trigger] utxos@[k2]).outpoint] == account,
                elems_distinct(bucket@),
                forall|x: Utxo|
                    #[trigger] bucket@.contains(x) <==> (bucket0.contains(x) || utxos@.take(
                        k as int,
                    ).contains(x)),
                elems_distinct(avail@),
                forall|x: Utxo|
                    #[trigger] avail@.contains(x) <==> (avail0.contains(x) || utxos@.take(
                        k as int,
                    ).contains(x)),
                keys_distinct(checked@),
                forall|u: Utxo|
                    #[trigger] map_of(checked@).contains_key(u) <==> (map_of(
                        checked0,
                    ).contains_key(u) && !utxos@.take(k as int).contains(u)),
            decreases utxos@.len() - k,
        {
            let u = utxos[k];
            proof {
                assert(u == utxos@[k as int]);
                assert(utxos@.take(k + 1).drop_last() =~= utxos@.take(k as int));
                assert(utxos@.take(k + 1).last() == utxos@[k as int]);
                assert(forall|y: Utxo|
                    #[trigger] utxos@.take(k + 1).contains(y) <==> (utxos@.take(
                        k as int,
                    ).contains(y) || y == utxos@[k as int]));
                let ghost cur = utxos@.take(k + 1);
                let ghost prev = utxos@.take(k as int);
                assert forall|o: OutPoint|
                    #[trigger] crate::finalize::has_used_outpoint(cur, o) <==> (
                crate::finalize::has_used_outpoint(prev, o) || o == utxos@[k as int].outpoint) by {
                    if crate::finalize::has_used_outpoint(cur, o) {
                        let k2 = choose|k2: int| 0 <= k2 < cur.len() && cur[k2].outpoint == o;
                        if k2 < k {
                            assert(prev[k2].outpoint == o);
                        }
                    }
                    if crate::finalize::has_used_outpoint(prev, o) {
                        let k2 = choose|k2: int| 0 <= k2 < prev.len() && prev[k2].outpoint == o;
                        assert(cur[k2].outpoint == o);
                    }
                    if o == utxos@[k as int].outpoint {
                        assert(cur[k as int].outpoint == o);
                    }
                }
            }
            alist_put(&mut oa, u.outpoint, account);
            let ghost bucket_before = bucket@;
            if !vec_contains(&bucket, &u) {
                bucket.push(u);
            }
            proof {
                assert(forall|x: Utxo|
                    #[trigger] bucket@.contains(x) <==> (bucket_before.contains(x) || x == u));
                assert(elems_distinct(bucket@)) by {
                    if !bucket_before.contains(u) {
                        assert(forall|k2: int|
                            0 <= k2 < bucket_before.len() ==> bucket_before[k2] != u);
                    }
                }
            }
            let ghost avail_before = avail@;
            if !vec_contains(&avail, &u) {
                avail.push(u);
            }
            proof {
                assert(forall|x: Utxo|
                    #[trigger] avail@.contains(x) <==> (avail_before.contains(x) || x == u));
                assert(elems_distinct(avail@)) by {
                    if !avail_before.contains(u) {
                        assert(forall|k2: int|
                            0 <= k2 < avail_before.len() ==> avail_before[k2] != u);
                    }
                }
            }
            alist_remove(&mut checked, &u);
            k += 1;
        }
        proof {
            assert(utxos@.take(utxos@.len() as int) =~= utxos@);
        }
        proof {
            crate::alist::lemma_map_of_push(usa@, account, bucket);
            crate::alist::lemma_keys_distinct_push(usa@, account, bucket);
        }
        let ghost bucket_final = bucket@;
        let ghost usa_mid = usa@;
        usa.push((account, bucket));
        proof {
            assert(map_of(usa@) =~= map_of(usa0).remove(account).insert(account, usa@.last().1));
            assert(usa@.last().1@ == bucket_final);
        }
        self.outpoint_account = oa;
        self.available_utxos = avail;
        self.checked_utxos = checked;
        self.utxos_state_addresses = usa;
        proof {
            assert forall|b: Account| b != account implies final(self).account_utxos(b) == old(self).account_utxos(b) by {
                assert(map_of(final(self).utxos_state_addresses@).contains_key(b) == map_of(
                    usa0,
                ).contains_key(b));
            }
            assert forall|x: Utxo|
                #[trigger] final(self).account_utxos(account).contains(x) <==> (old(self).account_utxos(account).contains(x) || utxos@.contains(x)) by {
                assert(final(self).account_utxos(account) == bucket_final);
            }
            // The assignment and the buckets agree again.
            let oam = map_of(final(self).outpoint_account@);
            let usaf = final(self).utxos_state_addresses@;
            assert forall|o: OutPoint| #[trigger] oam.contains_key(o) implies exists|w: Utxo|
                bucket_of(usaf, oam[o]).contains(w) && w.outpoint == o by {
                if map_of(oa0).contains_key(o) {
                    assert(old(self).outpoint_map().contains_key(o));
                    let w = choose|w: Utxo|
                        old(self).account_utxos(old(self).outpoint_map()[o]).contains(w)
                            && w.outpoint == o;
                    assert(oam[o] == map_of(oa0)[o]);
                    assert(final(self).account_utxos(oam[o]).contains(w) && w.outpoint == o);
                    assert(bucket_of(usaf, oam[o]).contains(w));
                } else {
                    assert(crate::finalize::has_used_outpoint(utxos@, o));
                    let k2 = choose|k2: int|
                        0 <= k2 < utxos@.len() && utxos@[k2].outpoint == o;
                    let w = utxos@[k2];
                    assert(utxos@.contains(w));
                    assert(oam[o] == account);
                    assert(final(self).account_utxos(account).contains(w) && w.outpoint == o);
                    assert(bucket_of(usaf, oam[o]).contains(w));
                }
            }
            assert forall|a: Account, w: Utxo|
                #[trigger] bucket_of(usaf, a).contains(w) implies oam.contains_key(
                w.outpoint,
            ) && oam[w.outpoint] == a by {
                assert(final(self).account_utxos(a).contains(w));
                if a == account {
                    if bucket0.contains(w) {
                        assert(old(self).account_utxos(account).contains(w));
                        assert(map_of(oa0).contains_key(w.outpoint) && map_of(oa0)[w.outpoint]
                            == account);
                        assert(oam.contains_key(w.outpoint));
                        assert(oam[w.outpoint] == map_of(oa0)[w.outpoint]);
                    } else {
                        assert(utxos@.contains(w));
                        let k2 = choose|k2: int| 0 <= k2 < utxos@.len() && utxos@[k2] == w;
                        assert(crate::finalize::has_used_outpoint(utxos@, w.outpoint)) by {
                            assert(utxos@[k2].outpoint == w.outpoint);
                        }
                        assert(oam.contains_key(w.outpoint));
                        assert(map_of(final(self).outpoint_account@)[utxos@[k2].outpoint]
                            == account);
                    }
                } else {
                    assert(old(self).account_utxos(a).contains(w));
                    assert(map_of(oa0).contains_key(w.outpoint) && map_of(oa0)[w.outpoint] == a);
                    assert(oam.contains_key(w.outpoint));
                    assert(oam[w.outpoint] == map_of(oa0)[w.outpoint]);
                }
            }
            assert forall|a1: Account, a2: Account, u1: Utxo, u2: Utxo|
                #[trigger] bucket_of(usaf, a1).contains(u1) && #[trigger] bucket_of(
                usaf,
                a2,
            ).contains(u2) && u1.outpoint == u2.outpoint implies u1 == u2 && a1 == a2 by {
                assert(final(self).account_utxos(a1).contains(u1));
                assert(final(self).account_utxos(a2).contains(u2));
                let in_old_1 = old(self).account_utxos(a1).contains(u1);
                let in_old_2 = old(self).account_utxos(a2).contains(u2);
                if in_old_1 && in_old_2 {
                } else if in_old_1 && !in_old_2 {
                    assert(utxos@.contains(u2));
                    let k2 = choose|k2: int| 0 <= k2 < utxos@.len() && utxos@[k2] == u2;
                    assert(old(self).outpoint_map().contains_key(u1.outpoint));
                    assert(!map_of(oa0).contains_key(utxos@[k2].outpoint));
                } else if !in_old_1 && in_old_2 {
                    assert(utxos@.contains(u1));
                    let k2 = choose|k2: int| 0 <= k2 < utxos@.len() && utxos@[k2] == u1;
                    assert(old(self).outpoint_map().contains_key(u2.outpoint));
                    assert(!map_of(oa0).contains_key(utxos@[k2].outpoint));
                } else {
                    assert(utxos@.contains(u1) && utxos@.contains(u2));
                    let k1 = choose|k1: int| 0 <= k1 < utxos@.len() && utxos@[k1] == u1;
                    let k2 = choose|k2: int| 0 <= k2 < utxos@.len() && utxos@[k2] == u2;
                    if k1 != k2 {
                        assert(utxos@[k1].outpoint != utxos@[k2].outpoint);
                    }
                }
            }
        }
    }
}

/// The total value of a vector of UTXOs.
fn utxo_values_total(v: &Vec<Utxo>) -> (r: u64)
    requires
        sum_values(v@) <= u64::MAX,
    ensures
        r == sum_values(v@),
{
    let mut total: u64 = 0;
    let mut i: usize = 0;
    proof {
        assert(sum_values(v@.take(0)) == 0);
    }
    while i < v.len()
        invariant
            0 <= i <= v@.len(),
            sum_values(v@) <= u64::MAX,
            total == sum_values(v@.take(i as int)),
        decreases v@.len() - i,
    {
        proof {
            crate::state::lemma_sum_values_take(v@, i as int);
        }
        total = total + v[i].value;
        i += 1;
    }
    proof {
        assert(v@.take(v@.len() as int) =~= v@);
    }
    total
}


/// A day, in nanoseconds: how long a suspended UTXO rests before it is
/// evaluated again.
pub const DAY_NANOS: u64 = 86_400_000_000_000;

impl CkBtcMinterState {
    /// The UTXO is unknown to the minter and not suspended.
    pub open spec fn classifies_new(self, x: Utxo, a: Account) -> bool {
        &&& self.suspended_utxos.lookup_reason(x, a) is None
        &&& !self.account_utxos(a).contains(x)
        &&& !self.account_finalized_utxos(a).contains(x)
    }

    /// The UTXO is suspended and due for re-evaluation: it was never
    /// evaluated, or a day has passed since it was.
    pub open spec fn classifies_reevaluable(self, x: Utxo, a: Account, now: Timestamp) -> bool {
        &&& self.suspended_utxos.lookup_reason(x, a) is Some
        &&& match map_get(self.suspended_utxos.cache_map(), x) {
            Some(t) => t.nanos + DAY_NANOS <= now.nanos,
            None => true,
        }
    }

    /// The UTXO is suspended and was evaluated less than a day ago.
    pub open spec fn classifies_still_suspended(self, x: Utxo, a: Account, now: Timestamp) -> bool {
        &&& self.suspended_utxos.lookup_reason(x, a) is Some
        &&& match map_get(self.suspended_utxos.cache_map(), x) {
            Some(t) => !(t.nanos + DAY_NANOS <= now.nanos),
            None => false,
        }
    }

    /// Partitions an account's observed UTXOs into the ones processable now
    /// (new, previously ignored, previously quarantined) and the ones still
    /// suspended, each reported with its earliest retry time.
    pub fn processable_utxos_for_account(
        &self,
        all_utxos_for_account: Vec<Utxo>,
        account: &Account,
        now: &Timestamp,
    ) -> (r: (ProcessableUtxos, Vec<SuspendedUtxo>))
        requires
            self.inv(),
            elems_distinct(all_utxos_for_account@),
        ensures
            r.0.wf(),
            forall|x: Utxo|
                #[trigger] r.0.new_utxos@.contains(x) <==> (all_utxos_for_account@.contains(x)
                    && self.classifies_new(x, *account)),
            forall|x: Utxo|
                #[trigger] r.0.previously_ignored_utxos@.contains(x) <==> (
                all_utxos_for_account@.contains(x) && self.classifies_reevaluable(
                    x,
                    *account,
                    *now,
                ) && self.suspended_utxos.lookup_reason(x, *account)
                    == Some(SuspendedReason::ValueTooSmall)),
            forall|x: Utxo|
                #[trigger] r.0.previously_quarantined_utxos@.contains(x) <==> (
                all_utxos_for_account@.contains(x) && self.classifies_reevaluable(
                    x,
                    *account,
                    *now,
                ) && self.suspended_utxos.lookup_reason(x, *account)
                    == Some(SuspendedReason::Quarantined)),
            forall|j: int|
                0 <= j < r.1@.len() ==> {
                    let e = #[trigger] r.1@[j];
                    &&& all_utxos_for_account@.contains(e.utxo)
                    &&& self.classifies_still_suspended(e.utxo, *account, *now)
                    &&& Some(e.reason) == self.suspended_utxos.lookup_reason(e.utxo, *account)
                    &&& e.earliest_retry == saturating_add_spec(
                        map_get(self.suspended_utxos.cache_map(), e.utxo)->0.nanos,
                        DAY_NANOS,
                    )
                },
            forall|x: Utxo|
                all_utxos_for_account@.contains(x) && self.classifies_still_suspended(
                    x,
                    *account,
                    *now,
                ) ==> exists|j: int| 0 <= j < r.1@.len() && (#[trigger] r.1@[j]).utxo == x,
    {
        let mut processable = ProcessableUtxos::new();
        let mut suspended: Vec<SuspendedUtxo> = Vec::new();
        let v = &all_utxos_for_account;
        let mut i: usize = 0;
        proof {
            assert(eq_is_equality::<Account>());
            assert(eq_is_equality::<Utxo>());
        }
        while i < v.len()
            invariant
                self.inv(),
                v == &all_utxos_for_account,
                elems_distinct(v@),
                0 <= i <= v@.len(),
                processable.wf(),
                forall|x: Utxo|
                    #[trigger] processable.new_utxos@.contains(x) <==> (v@.take(
                        i as int,
                    ).contains(x) && self.classifies_new(x, *account)),
                forall|x: Utxo|
                    #[trigger] processable.previously_ignored_utxos@.contains(x) <==> (v@.take(
                        i as int,
                    ).contains(x) && self.classifies_reevaluable(x, *account, *now)
                        && self.suspended_utxos.lookup_reason(x, *account) == Some(
                        SuspendedReason::ValueTooSmall,
                    )),
                forall|x: Utxo|
                    #[trigger] processable.previously_quarantined_utxos@.contains(x) <==> (
                    v@.take(i as int).contains(x) && self.classifies_reevaluable(
                        x,
                        *account,
                        *now,
                    ) && self.suspended_utxos.lookup_reason(x, *account) == Some(
                        SuspendedReason::Quarantined,
                    )),
                forall|j: int|
                    0 <= j < suspended@.len() ==> {
                        let e = #[trigger] suspended@[j];
                        &&& v@.take(i as int).contains(e.utxo)
                        &&& self.classifies_still_suspended(e.utxo, *account, *now)
                        &&& Some(e.reason) == self.suspended_utxos.lookup_reason(
                            e.utxo,
                            *account,
                        )
                        &&& e.earliest_retry == saturating_add_spec(
                            map_get(self.suspended_utxos.cache_map(), e.utxo)->0.nanos,
                            DAY_NANOS,
                        )
                    },
                forall|x: Utxo|
                    v@.take(i as int).contains(x) && self.classifies_still_suspended(
                        x,
                        *account,
                        *now,
                    ) ==> exists|j: int|
                        0 <= j < suspended@.len() && (#[trigger] suspended@[j]).utxo == x,
            decreases v@.len() - i,
        {
            let utxo = v[i];
            proof {
                assert(utxo == v@[i as int]);
                assert(v@.take(i + 1).drop_last() =~= v@.take(i as int));
                assert(v@.take(i + 1).last() == v@[i as int]);
                assert(forall|y: Utxo|
                    #[trigger] v@.take(i + 1).contains(y) <==> (v@.take(i as int).contains(y)
                        || y == v@[i as int]));
                assert(!v@.take(i as int).contains(utxo)) by {
                    if v@.take(i as int).contains(utxo) {
                        let j = choose|j: int| 0 <= j < i && v@.take(i as int)[j] == utxo;
                        assert(v@[j] == v@[i as int]);
                    }
                }
            }
            let (last_time_checked, reason) = self.suspended_utxos.contains_utxo(&utxo, account);
            match (last_time_checked, reason) {
                (Some(checked_at), Some(found_reason)) => {
                    let elapsed = now.checked_duration_since(&checked_at);
                    let reevaluable = match elapsed {
                        Some(e) => e >= DAY_NANOS,
                        None => false,
                    };
                    if reevaluable {
                        processable.insert_once_suspended_utxo(utxo, &found_reason);
                    } else {
                        let entry = SuspendedUtxo {
                            utxo,
                            reason: found_reason,
                            earliest_retry: checked_at.saturating_add_nanos(
                                DAY_NANOS,
                            ).as_nanos_since_unix_epoch(),
                        };
                        let ghost s0 = suspended@;
                        suspended.push(entry);
                        proof {
                            assert forall|x: Utxo|
                                v@.take(i + 1).contains(x) && self.classifies_still_suspended(
                                    x,
                                    *account,
                                    *now,
                                ) implies exists|j: int|
                                0 <= j < suspended@.len() && (#[trigger] suspended@[j]).utxo
                                    == x by {
                                if x == utxo {
                                    assert(suspended@[suspended@.len() - 1].utxo == x);
                                } else {
                                    assert(v@.take(i as int).contains(x));
                                    let j = choose|j: int|
                                        0 <= j < s0.len() && (#[trigger] s0[j]).utxo == x;
                                    assert(suspended@[j].utxo == x);
                                }
                            }
                        }
                    }
                },
                (None, Some(found_reason)) => {
                    processable.insert_once_suspended_utxo(utxo, &found_reason);
                },
                (_, None) => {
                    let known = match alist_get(&self.utxos_state_addresses, account) {
                        Some(b) => vec_contains(b, &utxo),
                        None => false,
                    } || (match alist_get(&self.finalized_utxos, account) {
                        Some(b) => vec_contains(b, &utxo),
                        None => false,
                    });
                    if !known {
                        processable.insert_once_new_utxo(utxo);
                    }
                },
            }
            proof {
                assert forall|x: Utxo|
                    v@.take(i + 1).contains(x) && self.classifies_still_suspended(
                        x,
                        *account,
                        *now,
                    ) implies exists|j: int|
                    0 <= j < suspended@.len() && (#[trigger] suspended@[j]).utxo == x by {
                    if x != utxo {
                        assert(v@.take(i as int).contains(x));
                    }
                }
            }
            i += 1;
        }
        proof {
            assert(v@.take(v@.len() as int) =~= v@);
        }
        (processable, suspended)
    }
}

/// The value a map holds under a key, if any.
pub open spec fn map_get<K, V>(m: Map<K, V>, k: K) -> Option<V> {
    if m.contains_key(k) {
        Some(m[k])
    } else {
        None
    }
}

/// Addition clamped at the largest representable value.
pub open spec fn saturating_add_spec(a: u64, b: u64) -> u64 {
    if a + b <= u64::MAX {
        (a + b) as u64
    } else {
        u64::MAX
    }
}

} // verus!
