//! The registry of suspended UTXOs: UTXOs temporarily excluded from minting,
//! each with the reason for its exclusion and, transiently, the time it was
//! last evaluated.
//!
//! Two partitions exist for backward compatibility: a legacy one without
//! account information and one keyed by account.  The last-checked cache is
//! volatile and not part of the registry's durable contents.

use vstd::prelude::*;

use crate::alist::{
    alist_find, alist_get, alist_put, alist_remove, eq_is_equality, has_key, keys_distinct,
    map_of,
};
use crate::domain::{Account, Timestamp, Utxo};
use crate::records::SuspendedReason;

verus! {

/// UTXOs that cannot be processed yet.
#[derive(PartialEq, Debug)]
pub struct SuspendedUtxos {
    /// Suspended UTXOs recorded before accounts were tracked.
    pub utxos_without_account: Vec<(Utxo, SuspendedReason)>,
    /// Suspended UTXOs by the account that observed them.
    pub utxos: Vec<(Account, Vec<(Utxo, SuspendedReason)>)>,
    /// When each suspended UTXO was last evaluated; not kept across upgrades.
    pub last_time_checked_cache: Vec<(Utxo, Timestamp)>,
}

/// The number of entries in a sequence of account buckets.
pub open spec fn bucket_total(s: Seq<(Account, Vec<(Utxo, SuspendedReason)>)>) -> int
    decreases s.len(),
{
    if s.len() == 0 {
        0
    } else {
        bucket_total(s.drop_last()) + s.last().1@.len()
    }
}

/// Bucket entry counts are not negative.
pub proof fn lemma_bucket_total_nonneg(s: Seq<(Account, Vec<(Utxo, SuspendedReason)>)>)
    ensures
        bucket_total(s) >= 0,
    decreases s.len(),
{
    if s.len() > 0 {
        lemma_bucket_total_nonneg(s.drop_last());
    }
}

/// Entry counts grow bucket by bucket.
pub proof fn lemma_bucket_total_take(s: Seq<(Account, Vec<(Utxo, SuspendedReason)>)>, i: int)
    requires
        0 <= i < s.len(),
    ensures
        bucket_total(s.take(i + 1)) == bucket_total(s.take(i)) + s[i].1@.len(),
        bucket_total(s.take(i + 1)) <= bucket_total(s),
    decreases s.len() - i,
{
    assert(s.take(i + 1).drop_last() =~= s.take(i));
    assert(s.take(i + 1).last() == s[i]);
    if i + 1 == s.len() {
        assert(s.take(i + 1) =~= s);
    } else {
        lemma_bucket_total_take(s, i + 1);
        lemma_bucket_total_nonneg(s.take(i + 1));
        assert(bucket_total(s.take(i + 2)) == bucket_total(s.take(i + 1)) + s[i + 1].1@.len());
    }
}

/// All entries of a sequence of account buckets, in order.
pub open spec fn flatten_buckets(s: Seq<(Account, Vec<(Utxo, SuspendedReason)>)>) -> Seq<
    (Utxo, SuspendedReason),
>
    decreases s.len(),
{
    if s.len() == 0 {
        Seq::empty()
    } else {
        flatten_buckets(s.drop_last()) + s.last().1@
    }
}

impl SuspendedUtxos {
    /// The legacy partition as a map.
    pub open spec fn wa_map(self) -> Map<Utxo, SuspendedReason> {
        map_of(self.utxos_without_account@)
    }

    /// The account partition: account to bucket.
    pub open spec fn buckets(self) -> Map<Account, Vec<(Utxo, SuspendedReason)>> {
        map_of(self.utxos@)
    }

    /// The suspensions recorded under one account, as a map.
    pub open spec fn reason_map(self, a: Account) -> Map<Utxo, SuspendedReason> {
        if self.buckets().contains_key(a) {
            map_of(self.buckets()[a]@)
        } else {
            Map::empty()
        }
    }

    /// The last-checked cache as a map.
    pub open spec fn cache_map(self) -> Map<Utxo, Timestamp> {
        map_of(self.last_time_checked_cache@)
    }

    /// All entries, legacy ones first.
    pub open spec fn all_entries(self) -> Seq<(Utxo, SuspendedReason)> {
        self.utxos_without_account@ + flatten_buckets(self.utxos@)
    }

    /// Every partition keyed without duplicates.
    pub open spec fn wf(self) -> bool {
        &&& keys_distinct(self.utxos_without_account@)
        &&& keys_distinct(self.utxos@)
        &&& forall|i: int|
            0 <= i < self.utxos@.len() ==> keys_distinct(#[trigger] self.utxos@[i].1@)
        &&& keys_distinct(self.last_time_checked_cache@)
    }

    /// The reason a UTXO is suspended for, the account partition preferred.
    pub open spec fn lookup_reason(self, utxo: Utxo, account: Account) -> Option<SuspendedReason> {
        if self.reason_map(account).contains_key(utxo) {
            Some(self.reason_map(account)[utxo])
        } else if self.wa_map().contains_key(utxo) {
            Some(self.wa_map()[utxo])
        } else {
            None
        }
    }

    /// Every `ValueTooSmall` entry has a value within the given fee.
    pub open spec fn value_bound(self, fee: u64) -> bool {
        &&& forall|u: Utxo|
            #[trigger] self.wa_map().contains_key(u) && self.wa_map()[u]
                == SuspendedReason::ValueTooSmall ==> u.value <= fee
        &&& forall|a: Account, u: Utxo|
            #[trigger] self.reason_map(a).contains_key(u) && self.reason_map(a)[u]
                == SuspendedReason::ValueTooSmall ==> u.value <= fee
    }

    /// An empty registry.
    pub fn new() -> (r: SuspendedUtxos)
        ensures
            r.wf(),
            r.wa_map() == Map::<Utxo, SuspendedReason>::empty(),
            r.cache_map() == Map::<Utxo, Timestamp>::empty(),
            forall|a: Account| r.reason_map(a) == Map::<Utxo, SuspendedReason>::empty(),
            r.all_entries() == Seq::<(Utxo, SuspendedReason)>::empty(),
            r.utxos_without_account@.len() == 0,
            r.utxos@.len() == 0,
            r.last_time_checked_cache@.len() == 0,
    {
        let r = SuspendedUtxos {
            utxos_without_account: Vec::new(),
            utxos: Vec::new(),
            last_time_checked_cache: Vec::new(),
        };
        proof {
            assert(r.all_entries() =~= Seq::<(Utxo, SuspendedReason)>::empty());
        }
        r
    }

    /// Records a suspension under an account, updating the last-checked cache
    /// when a time is given.  Returns `false`, changing nothing else, when the
    /// same suspension is already recorded; otherwise it removes any legacy
    /// entry for the UTXO and stores the reason under the account.
    pub fn insert(
        &mut self,
        account: Account,
        utxo: Utxo,
        reason: SuspendedReason,
        now: Option<Timestamp>,
    ) -> (r: bool)
        requires
            old(self).wf(),
        ensures
            final(self).wf(),
            final(self).cache_map() == (match now {
                Some(t) => old(self).cache_map().insert(utxo, t),
                None => old(self).cache_map(),
            }),
            r == !(old(self).reason_map(account).contains_key(utxo) && old(self).reason_map(
                account,
            )[utxo] == reason),
            r ==> final(self).wa_map() == old(self).wa_map().remove(utxo),
            r ==> final(self).reason_map(account) == old(self).reason_map(account).insert(
                utxo,
                reason,
            ),
            !r ==> final(self).wa_map() == old(self).wa_map(),
            !r ==> forall|b: Account| final(self).reason_map(b) == old(self).reason_map(b),
            forall|b: Account|
                b != account ==> final(self).reason_map(b) == old(self).reason_map(b),
    {
        proof {
            assert(eq_is_equality::<Utxo>());
            assert(eq_is_equality::<Account>());
        }
        if let Some(t) = now {
            alist_put(&mut self.last_time_checked_cache, utxo, t);
        }
        let existing: Option<SuspendedReason> = match alist_find(&self.utxos, &account) {
            Some(i) => {
                proof {
                    crate::alist::lemma_map_of_index(self.utxos@, i as int);
                }
                match alist_get(&self.utxos[i].1, &utxo) {
                    Some(r0) => Some(*r0),
                    None => None,
                }
            },
            None => {
                proof {
                    crate::alist::lemma_map_of_contains(self.utxos@, account);
                }
                None
            },
        };
        let already = match existing {
            Some(r0) => r0 == reason,
            None => false,
        };
        if already {
            return false;
        }
        alist_remove(&mut self.utxos_without_account, &utxo);
        match alist_find(&self.utxos, &account) {
            Some(i) => {
                proof {
                    crate::alist::lemma_map_of_index(self.utxos@, i as int);
                    crate::alist::lemma_map_of_remove(self.utxos@, i as int);
                    crate::alist::lemma_keys_distinct_remove(self.utxos@, i as int);
                }
                let (acct, mut bucket) = self.utxos.remove(i);
                alist_put(&mut bucket, utxo, reason);
                proof {
                    crate::alist::lemma_map_of_contains(self.utxos@, acct);
                    if has_key(self.utxos@, acct) {
                        let j = choose|j: int|
                            0 <= j < self.utxos@.len() && self.utxos@[j].0 == acct;
                        assert(old(self).utxos@[if j < i { j } else { j + 1 }].0 == acct);
                        assert(false);
                    }
                    crate::alist::lemma_map_of_push(self.utxos@, acct, bucket);
                    crate::alist::lemma_keys_distinct_push(self.utxos@, acct, bucket);
                }
                self.utxos.push((acct, bucket));
                proof {
                    assert(final(self).buckets() =~= old(self).buckets().insert(acct, bucket));
                }
            },
            None => {
                proof {
                    crate::alist::lemma_map_of_contains(self.utxos@, account);
                }
                let mut bucket: Vec<(Utxo, SuspendedReason)> = Vec::new();
                bucket.push((utxo, reason));
                proof {
                    crate::alist::lemma_map_of_push(self.utxos@, account, bucket);
                    crate::alist::lemma_keys_distinct_push(self.utxos@, account, bucket);
                    let e = Seq::<(Utxo, SuspendedReason)>::empty();
                    crate::alist::lemma_map_of_push(e, utxo, reason);
                    assert(map_of(e) =~= Map::<Utxo, SuspendedReason>::empty());
                    assert(bucket@ =~= e.push((utxo, reason)));
                    assert(map_of(bucket@) =~= Map::<Utxo, SuspendedReason>::empty().insert(
                        utxo,
                        reason,
                    ));
                }
                self.utxos.push((account, bucket));
                proof {
                    assert(final(self).buckets() =~= old(self).buckets().insert(account, bucket));
                }
            },
        }
        true
    }

    /// Records a suspension in the legacy partition.  The UTXO must not be
    /// recorded under any account.
    pub fn insert_without_account(&mut self, utxo: Utxo, reason: SuspendedReason)
        requires
            old(self).wf(),
            forall|i: int|
                0 <= i < old(self).utxos@.len() ==> !has_key(
                    #[trigger] old(self).utxos@[i].1@,
                    utxo,
                ),
        ensures
            final(self).wf(),
            final(self).wa_map() == old(self).wa_map().insert(utxo, reason),
            final(self).utxos@ == old(self).utxos@,
            final(self).cache_map() == old(self).cache_map(),
    {
        proof {
            assert(eq_is_equality::<Utxo>());
        }
        alist_put(&mut self.utxos_without_account, utxo, reason);
    }

    /// All suspended entries: the legacy ones, then the account-tagged ones.
    pub fn iter(&self) -> (r: Vec<(Utxo, SuspendedReason)>)
        ensures
            r@ == self.all_entries(),
    {
        let mut out: Vec<(Utxo, SuspendedReason)> = Vec::new();
        let mut i: usize = 0;
        while i < self.utxos_without_account.len()
            invariant
                0 <= i <= self.utxos_without_account@.len(),
                out@ == self.utxos_without_account@.take(i as int),
            decreases self.utxos_without_account@.len() - i,
        {
            let e = self.utxos_without_account[i];
            out.push(e);
            proof {
                assert(out@ =~= self.utxos_without_account@.take(i + 1));
            }
            i += 1;
        }
        proof {
            assert(self.utxos_without_account@.take(
                self.utxos_without_account@.len() as int,
            ) =~= self.utxos_without_account@);
            assert(flatten_buckets(self.utxos@.take(0)) =~= Seq::<(Utxo, SuspendedReason)>::empty());
            assert(out@ =~= self.utxos_without_account@ + flatten_buckets(self.utxos@.take(0)));
        }
        let mut a: usize = 0;
        while a < self.utxos.len()
            invariant
                0 <= a <= self.utxos@.len(),
                out@ == self.utxos_without_account@ + flatten_buckets(self.utxos@.take(a as int)),
            decreases self.utxos@.len() - a,
        {
            let ghost prefix = out@;
            let bucket_len = self.utxos[a].1.len();
            let mut j: usize = 0;
            while j < bucket_len
                invariant
                    0 <= j <= bucket_len,
                    a < self.utxos@.len(),
                    bucket_len == self.utxos@[a as int].1@.len(),
                    out@ == prefix + self.utxos@[a as int].1@.take(j as int),
                decreases bucket_len - j,
            {
                let e = self.utxos[a].1[j];
                out.push(e);
                proof {
                    assert(out@ =~= prefix + self.utxos@[a as int].1@.take(j + 1));
                }
                j += 1;
            }
            proof {
                assert(self.utxos@.take(a + 1).drop_last() =~= self.utxos@.take(a as int));
                assert(self.utxos@[a as int].1@.take(bucket_len as int) =~= self.utxos@[a as int].1@);
                assert(out@ =~= self.utxos_without_account@ + flatten_buckets(
                    self.utxos@.take(a + 1),
                ));
            }
            a += 1;
        }
        proof {
            assert(self.utxos@.take(self.utxos@.len() as int) =~= self.utxos@);
        }
        out
    }

    /// The last-checked time and the suspension reason of a UTXO, preferring
    /// the account-tagged reason and falling back to the legacy partition.
    pub fn contains_utxo(&self, utxo: &Utxo, account: &Account) -> (r: (
        Option<Timestamp>,
        Option<SuspendedReason>,
    ))
        requires
            self.wf(),
        ensures
            r.0 == (if self.cache_map().contains_key(*utxo) {
                Some(self.cache_map()[*utxo])
            } else {
                None::<Timestamp>
            }),
            r.1 == self.lookup_reason(*utxo, *account),
    {
        proof {
            assert(eq_is_equality::<Utxo>());
            assert(eq_is_equality::<Account>());
        }
        let last_time_checked: Option<Timestamp> = match alist_get(
            &self.last_time_checked_cache,
            utxo,
        ) {
            Some(t) => Some(*t),
            None => None,
        };
        let account_reason: Option<SuspendedReason> = match alist_find(&self.utxos, account) {
            Some(i) => {
                proof {
                    crate::alist::lemma_map_of_index(self.utxos@, i as int);
                }
                match alist_get(&self.utxos[i].1, utxo) {
                    Some(r0) => Some(*r0),
                    None => None,
                }
            },
            None => {
                proof {
                    crate::alist::lemma_map_of_contains(self.utxos@, *account);
                }
                None
            },
        };
        let reason: Option<SuspendedReason> = match account_reason {
            Some(r0) => Some(r0),
            None => match alist_get(&self.utxos_without_account, utxo) {
                Some(r0) => Some(*r0),
                None => None,
            },
        };
        (last_time_checked, reason)
    }

    /// Drops a UTXO's cache entry, legacy entry and account entry.
    pub fn remove(&mut self, account: &Account, utxo: &Utxo)
        requires
            old(self).wf(),
        ensures
            final(self).wf(),
            final(self).cache_map() == old(self).cache_map().remove(*utxo),
            final(self).wa_map() == old(self).wa_map().remove(*utxo),
            final(self).reason_map(*account) == old(self).reason_map(*account).remove(*utxo),
            forall|b: Account|
                b != *account ==> final(self).reason_map(b) == old(self).reason_map(b),
    {
        proof {
            assert(eq_is_equality::<Utxo>());
            assert(eq_is_equality::<Account>());
        }
        alist_remove(&mut self.last_time_checked_cache, utxo);
        alist_remove(&mut self.utxos_without_account, utxo);
        match alist_find(&self.utxos, account) {
            Some(i) => {
                proof {
                    crate::alist::lemma_map_of_index(self.utxos@, i as int);
                    crate::alist::lemma_map_of_remove(self.utxos@, i as int);
                    crate::alist::lemma_keys_distinct_remove(self.utxos@, i as int);
                }
                let (acct, mut bucket) = self.utxos.remove(i);
                alist_remove(&mut bucket, utxo);
                proof {
                    crate::alist::lemma_map_of_contains(self.utxos@, acct);
                    if has_key(self.utxos@, acct) {
                        let j = choose|j: int|
                            0 <= j < self.utxos@.len() && self.utxos@[j].0 == acct;
                        assert(old(self).utxos@[if j < i { j } else { j + 1 }].0 == acct);
                        assert(false);
                    }
                    crate::alist::lemma_map_of_push(self.utxos@, acct, bucket);
                    crate::alist::lemma_keys_distinct_push(self.utxos@, acct, bucket);
                }
                self.utxos.push((acct, bucket));
                proof {
                    assert(final(self).buckets() =~= old(self).buckets().insert(acct, bucket));
                }
            },
            None => {
                proof {
                    crate::alist::lemma_map_of_contains(self.utxos@, *account);
                    assert(old(self).reason_map(*account).remove(*utxo) =~= old(self).reason_map(
                        *account,
                    ));
                }
            },
        }
    }

    /// Drops a UTXO's cache entry, legacy entry, and its account entry
    /// wherever it is recorded.  A UTXO belongs to at most one account.
    pub fn remove_without_account(&mut self, utxo: &Utxo)
        requires
            old(self).wf(),
            forall|i: int, j: int|
                0 <= i < j < old(self).utxos@.len() ==> !(has_key(
                    #[trigger] old(self).utxos@[i].1@,
                    *utxo,
                ) && has_key(#[trigger] old(self).utxos@[j].1@, *utxo)),
        ensures
            final(self).wf(),
            final(self).cache_map() == old(self).cache_map().remove(*utxo),
            final(self).wa_map() == old(self).wa_map().remove(*utxo),
            forall|b: Account|
                final(self).reason_map(b) == old(self).reason_map(b).remove(*utxo),
    {
        proof {
            assert(eq_is_equality::<Utxo>());
        }
        alist_remove(&mut self.last_time_checked_cache, utxo);
        alist_remove(&mut self.utxos_without_account, utxo);
        let hit = find_bucket_with(&self.utxos, utxo);
        match hit {
            Some(i) => {
                proof {
                    crate::alist::lemma_map_of_index(self.utxos@, i as int);
                    crate::alist::lemma_map_of_remove(self.utxos@, i as int);
                    crate::alist::lemma_keys_distinct_remove(self.utxos@, i as int);
                }
                let (acct, mut bucket) = self.utxos.remove(i);
                alist_remove(&mut bucket, utxo);
                proof {
                    crate::alist::lemma_map_of_contains(self.utxos@, acct);
                    if has_key(self.utxos@, acct) {
                        let j = choose|j: int|
                            0 <= j < self.utxos@.len() && self.utxos@[j].0 == acct;
                        assert(old(self).utxos@[if j < i { j } else { j + 1 }].0 == acct);
                        assert(false);
                    }
                    crate::alist::lemma_map_of_push(self.utxos@, acct, bucket);
                    crate::alist::lemma_keys_distinct_push(self.utxos@, acct, bucket);
                }
                self.utxos.push((acct, bucket));
                proof {
                    assert(final(self).buckets() =~= old(self).buckets().insert(acct, bucket));
                    assert forall|b: Account| final(self).reason_map(b) == old(self).reason_map(
                        b,
                    ).remove(*utxo) by {
                        if b == acct {
                        } else {
                            if old(self).buckets().contains_key(b) {
                                crate::alist::lemma_map_of_contains(old(self).utxos@, b);
                                let j = choose|j: int|
                                    0 <= j < old(self).utxos@.len() && old(self).utxos@[j].0 == b;
                                crate::alist::lemma_map_of_index(old(self).utxos@, j);
                                crate::alist::lemma_map_of_contains(
                                    old(self).buckets()[b]@,
                                    *utxo,
                                );
                                if has_key(old(self).buckets()[b]@, *utxo) {
                                    assert(j != i);
                                    assert(has_key(old(self).utxos@[i as int].1@, *utxo));
                                    assert(false);
                                }
                                assert(old(self).reason_map(b).remove(*utxo) =~= old(
                                    self,
                                ).reason_map(b));
                            } else {
                                assert(old(self).reason_map(b).remove(*utxo) =~= old(
                                    self,
                                ).reason_map(b));
                            }
                        }
                    }
                }
            },
            None => {
                proof {
                    assert forall|b: Account| final(self).reason_map(b) == old(self).reason_map(
                        b,
                    ).remove(*utxo) by {
                        if old(self).buckets().contains_key(b) {
                            crate::alist::lemma_map_of_contains(old(self).utxos@, b);
                            let j = choose|j: int|
                                0 <= j < old(self).utxos@.len() && old(self).utxos@[j].0 == b;
                            crate::alist::lemma_map_of_index(old(self).utxos@, j);
                            crate::alist::lemma_map_of_contains(old(self).buckets()[b]@, *utxo);
                            assert(!has_key(old(self).utxos@[j].1@, *utxo));
                            assert(old(self).reason_map(b).remove(*utxo) =~= old(self).reason_map(
                                b,
                            ));
                        } else {
                            assert(old(self).reason_map(b).remove(*utxo) =~= old(self).reason_map(
                                b,
                            ));
                        }
                    }
                }
            },
        }
    }

    /// The number of suspended UTXOs in both partitions.
    pub fn num_utxos(&self) -> (r: usize)
        requires
            self.utxos_without_account@.len() + bucket_total(self.utxos@) <= usize::MAX,
        ensures
            r == self.utxos_without_account@.len() + bucket_total(self.utxos@),
    {
        let mut total: usize = self.utxos_without_account.len();
        let mut i: usize = 0;
        proof {
            assert(bucket_total(self.utxos@.take(0)) == 0);
        }
        while i < self.utxos.len()
            invariant
                0 <= i <= self.utxos@.len(),
                self.utxos_without_account@.len() + bucket_total(self.utxos@) <= usize::MAX,
                total == self.utxos_without_account@.len() + bucket_total(
                    self.utxos@.take(i as int),
                ),
            decreases self.utxos@.len() - i,
        {
            proof {
                lemma_bucket_total_take(self.utxos@, i as int);
            }
            total = total + self.utxos[i].1.len();
            i += 1;
        }
        proof {
            assert(self.utxos@.take(self.utxos@.len() as int) =~= self.utxos@);
        }
        total
    }

    /// The legacy partition.
    pub fn utxos_without_account(&self) -> (r: &Vec<(Utxo, SuspendedReason)>)
        ensures
            r@ == self.utxos_without_account@,
            map_of(r@) == self.wa_map(),
    {
        &self.utxos_without_account
    }
}

/// Finds the first account bucket containing a UTXO.
fn find_bucket_with(
    v: &Vec<(Account, Vec<(Utxo, SuspendedReason)>)>,
    utxo: &Utxo,
) -> (r: Option<usize>)
    requires
        forall|i: int| 0 <= i < v@.len() ==> keys_distinct(#[trigger] v@[i].1@),
    ensures
        match r {
            Some(i) => i < v@.len() && has_key(v@[i as int].1@, *utxo),
            None => forall|i: int| 0 <= i < v@.len() ==> !has_key(#[trigger] v@[i].1@, *utxo),
        },
{
    proof {
        assert(eq_is_equality::<Utxo>());
    }
    let mut i: usize = 0;
    while i < v.len()
        invariant
            0 <= i <= v@.len(),
            forall|j: int| 0 <= j < v@.len() ==> keys_distinct(#[trigger] v@[j].1@),
            forall|j: int| 0 <= j < i ==> !has_key(#[trigger] v@[j].1@, *utxo),
        decreases v@.len() - i,
    {
        proof {
            crate::alist::lemma_map_of_contains(v@[i as int].1@, *utxo);
        }
        if alist_get(&v[i].1, utxo).is_some() {
            return Some(i);
        }
        i += 1;
    }
    None
}

} // verus!
