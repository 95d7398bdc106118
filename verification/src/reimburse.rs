//! The reimbursement ledger and the owed-fee balances.

use vstd::prelude::*;

use crate::alist::{alist_find, alist_get, alist_put, alist_remove, eq_is_equality, map_of};
use crate::domain::{Account, Principal};
use crate::records::{Overdraft, ReimburseDepositTask, ReimbursedDeposit, ReimbursementReason};
use crate::state::CkBtcMinterState;

verus! {

impl CkBtcMinterState {
    /// Pays out part of what is owed to a provider.  The owed balance
    /// decreases even on an overdraft, because the tokens were already
    /// minted; the shortfall is returned to the caller.
    pub fn distribute_kyt_fee(&mut self, provider: Principal, amount: u64) -> (r: Result<
        (),
        Overdraft,
    >)
        requires
            old(self).inv(),
        ensures
            final(self).inv(),
            r is Ok <==> (amount == 0 || (old(self).owed_map().contains_key(provider) && amount
                <= old(self).owed_map()[provider])),
            amount == 0 ==> *final(self) == *old(self),
            amount > 0 && !old(self).owed_map().contains_key(provider) ==> (*final(self)
                == *old(self) && r == Err::<(), Overdraft>(Overdraft(amount))),
            amount > 0 && old(self).owed_map().contains_key(provider) && amount > old(self).owed_map()[provider] ==> (final(self).owed_map() == old(self).owed_map().remove(
                provider,
            ) && r == Err::<(), Overdraft>(
                Overdraft((amount - old(self).owed_map()[provider]) as u64),
            )),
            amount > 0 && old(self).owed_map().contains_key(provider) && amount == old(self).owed_map()[provider] ==> (final(self).owed_map() == old(self).owed_map().remove(
                provider,
            ) && r is Ok),
            amount > 0 && old(self).owed_map().contains_key(provider) && amount < old(self).owed_map()[provider] ==> (final(self).owed_map() == old(self).owed_map().insert(
                provider,
                (old(self).owed_map()[provider] - amount) as u64,
            ) && r is Ok),
            *final(self) == (CkBtcMinterState {
                owed_kyt_amount: final(self).owed_kyt_amount,
                ..*old(self)
            }),
    {
        proof {
            assert(eq_is_equality::<Principal>());
            crate::alist::lemma_map_of_contains(self.owed_kyt_amount@, provider);
        }
        if amount == 0 {
            return Ok(());
        }
        let balance: u64 = match alist_get(&self.owed_kyt_amount, &provider) {
            Some(v) => *v,
            None => {
                return Err(Overdraft(amount));
            },
        };
        if amount > balance {
            alist_remove(&mut self.owed_kyt_amount, &provider);
            Err(Overdraft(amount - balance))
        } else if amount == balance {
            alist_remove(&mut self.owed_kyt_amount, &provider);
            Ok(())
        } else {
            alist_put(&mut self.owed_kyt_amount, provider, balance - amount);
            Ok(())
        }
    }

    /// Schedules the re-mint of a failed deposit: the screening fee, if one
    /// was charged, is credited to its provider; the burn block index is
    /// recorded under the task's account; and the task enters the pending
    /// reimbursements.
    pub fn schedule_deposit_reimbursement(
        &mut self,
        burn_block_index: u64,
        reimburse_deposit_task: ReimburseDepositTask,
    )
        requires
            old(self).inv(),
            (match reimburse_deposit_task.reason {
                ReimbursementReason::TaintedDestination { kyt_provider, kyt_fee } => kyt_fee > 0
                    ==> (if old(self).owed_map().contains_key(kyt_provider) {
                    old(self).owed_map()[kyt_provider] as int
                } else {
                    0
                }) + kyt_fee <= u64::MAX,
                ReimbursementReason::CallFailed => true,
            }),
        ensures
            final(self).inv(),
            final(self).reimb_pending_map() == old(self).reimb_pending_map().insert(
                burn_block_index,
                reimburse_deposit_task,
            ),
            final(self).account_indices(reimburse_deposit_task.account) == old(self).account_indices(reimburse_deposit_task.account).push(burn_block_index),
            forall|b: Account|
                b != reimburse_deposit_task.account ==> final(self).account_indices(b) == old(self).account_indices(b),
            (match reimburse_deposit_task.reason {
                ReimbursementReason::TaintedDestination { kyt_provider, kyt_fee } => if kyt_fee
                    > 0 {
                    final(self).owed_map() == old(self).owed_map().insert(
                        kyt_provider,
                        (((if old(self).owed_map().contains_key(kyt_provider) {
                            old(self).owed_map()[kyt_provider] as int
                        } else {
                            0
                        }) + kyt_fee) as u64),
                    )
                } else {
                    final(self).owed_map() == old(self).owed_map()
                },
                ReimbursementReason::CallFailed => final(self).owed_map() == old(self).owed_map(),
            }),
            *final(self) == (CkBtcMinterState {
                owed_kyt_amount: final(self).owed_kyt_amount,
                retrieve_btc_account_to_block_indices: final(self).retrieve_btc_account_to_block_indices,
                pending_reimbursements: final(self).pending_reimbursements,
                ..*old(self)
            }),
    {
        proof {
            assert(eq_is_equality::<Principal>());
            assert(eq_is_equality::<Account>());
            assert(eq_is_equality::<u64>());
        }
        match &reimburse_deposit_task.reason {
            ReimbursementReason::TaintedDestination { kyt_provider, kyt_fee } => {
                if *kyt_fee > 0 {
                    proof {
                        crate::alist::lemma_map_of_contains(self.owed_kyt_amount@, *kyt_provider);
                    }
                    let current: u64 = match alist_get(&self.owed_kyt_amount, kyt_provider) {
                        Some(v) => *v,
                        None => 0,
                    };
                    let fee = *kyt_fee;
                    alist_put(&mut self.owed_kyt_amount, *kyt_provider, current + fee);
                }
            },
            ReimbursementReason::CallFailed => {},
        }
        let account = reimburse_deposit_task.account;
        proof {
            crate::alist::lemma_map_of_contains(
                self.retrieve_btc_account_to_block_indices@,
                account,
            );
        }
        let ghost idx0 = self.retrieve_btc_account_to_block_indices@;
        match alist_find(&self.retrieve_btc_account_to_block_indices, &account) {
            Some(i) => {
                proof {
                    crate::alist::lemma_map_of_index(idx0, i as int);
                    crate::alist::lemma_map_of_remove(idx0, i as int);
                    crate::alist::lemma_keys_distinct_remove(idx0, i as int);
                }
                let (acct, mut indices) = self.retrieve_btc_account_to_block_indices.remove(i);
                indices.push(burn_block_index);
                proof {
                    crate::alist::lemma_map_of_contains(
                        self.retrieve_btc_account_to_block_indices@,
                        acct,
                    );
                    if crate::alist::has_key(self.retrieve_btc_account_to_block_indices@, acct) {
                        let j = choose|j: int|
                            0 <= j < self.retrieve_btc_account_to_block_indices@.len()
                                && self.retrieve_btc_account_to_block_indices@[j].0 == acct;
                        assert(idx0[if j < i { j } else { j + 1 }].0 == acct);
                        assert(false);
                    }
                    crate::alist::lemma_map_of_push(
                        self.retrieve_btc_account_to_block_indices@,
                        acct,
                        indices,
                    );
                    crate::alist::lemma_keys_distinct_push(
                        self.retrieve_btc_account_to_block_indices@,
                        acct,
                        indices,
                    );
                }
                self.retrieve_btc_account_to_block_indices.push((acct, indices));
                proof {
                    assert(map_of(self.retrieve_btc_account_to_block_indices@)
                        =~= map_of(idx0).insert(
                        account,
                        self.retrieve_btc_account_to_block_indices@.last().1,
                    ));
                }
            },
            None => {
                let mut indices: Vec<u64> = Vec::new();
                indices.push(burn_block_index);
                proof {
                    crate::alist::lemma_map_of_push(
                        self.retrieve_btc_account_to_block_indices@,
                        account,
                        indices,
                    );
                    crate::alist::lemma_keys_distinct_push(
                        self.retrieve_btc_account_to_block_indices@,
                        account,
                        indices,
                    );
                }
                self.retrieve_btc_account_to_block_indices.push((account, indices));
                proof {
                    assert(map_of(self.retrieve_btc_account_to_block_indices@)
                        =~= map_of(idx0).insert(
                        account,
                        self.retrieve_btc_account_to_block_indices@.last().1,
                    ));
                    assert(old(self).account_indices(account) =~= Seq::<u64>::empty());
                }
            },
        }
        alist_put(&mut self.pending_reimbursements, burn_block_index, reimburse_deposit_task);
    }

    /// Completes a reimbursement: the pending task, once executed by the
    /// mint with the given block index, moves to the executed ledger.
    pub fn complete_reimbursement(&mut self, burn_block_index: u64, mint_block_index: u64)
        requires
            old(self).inv(),
            old(self).reimb_pending_map().contains_key(burn_block_index),
        ensures
            final(self).inv(),
            final(self).reimb_pending_map() == old(self).reimb_pending_map().remove(
                burn_block_index,
            ),
            final(self).reimbursed_map() == old(self).reimbursed_map().insert(
                burn_block_index,
                (ReimbursedDeposit {
                    account: old(self).reimb_pending_map()[burn_block_index].account,
                    amount: old(self).reimb_pending_map()[burn_block_index].amount,
                    reason: old(self).reimb_pending_map()[burn_block_index].reason,
                    mint_block_index,
                }),
            ),
            *final(self) == (CkBtcMinterState {
                pending_reimbursements: final(self).pending_reimbursements,
                reimbursed_transactions: final(self).reimbursed_transactions,
                ..*old(self)
            }),
    {
        proof {
            assert(eq_is_equality::<u64>());
            crate::alist::lemma_map_of_contains(self.pending_reimbursements@, burn_block_index);
        }
        let task: ReimburseDepositTask = match alist_get(
            &self.pending_reimbursements,
            &burn_block_index,
        ) {
            Some(t) => *t,
            None => {
                proof {
                    assert(false);
                }
                ReimburseDepositTask {
                    account: Account { owner: Principal { bytes: [0u8; 29] }, subaccount: None },
                    amount: 0,
                    reason: ReimbursementReason::CallFailed,
                }
            },
        };
        alist_remove(&mut self.pending_reimbursements, &burn_block_index);
        alist_put(
            &mut self.reimbursed_transactions,
            burn_block_index,
            ReimbursedDeposit {
                account: task.account,
                amount: task.amount,
                reason: task.reason,
                mint_block_index,
            },
        );
    }
}

} // verus!
