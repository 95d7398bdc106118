//! Initialization, re-initialization and upgrade of the minter state, and
//! the validation of its configuration.

use vstd::prelude::*;

use crate::domain::{CanisterId, Network};
use crate::fees::GetUtxosCache;
use crate::mode::Mode;
use crate::state::CkBtcMinterState;
use crate::suspended::SuspendedUtxos;

verus! {

/// The default number of confirmations required on the Bitcoin chain.
pub const DEFAULT_MIN_CONFIRMATIONS: u32 = 6;

/// The default fee of one screening request, in satoshi.
pub const DEFAULT_CHECK_FEE: u64 = 100;

/// The arguments a minter is created with.
pub struct InitArgs {
    pub btc_network: Network,
    pub ecdsa_key_name: String,
    pub retrieve_btc_min_amount: u64,
    pub ledger_id: CanisterId,
    pub max_time_in_queue_nanos: u64,
    pub min_confirmations: Option<u32>,
    pub mode: Mode,
    pub check_fee: Option<u64>,
    pub btc_checker_principal: Option<CanisterId>,
    /// Accepted for compatibility with old argument records; unused.
    pub kyt_principal: Option<CanisterId>,
    /// The legacy name of the check fee; used when `check_fee` is absent.
    pub kyt_fee: Option<u64>,
    pub get_utxos_cache_expiration_seconds: Option<u64>,
}

/// The overrides an upgrade may carry.
pub struct UpgradeArgs {
    pub retrieve_btc_min_amount: Option<u64>,
    pub max_time_in_queue_nanos: Option<u64>,
    pub min_confirmations: Option<u32>,
    pub mode: Option<Mode>,
    pub check_fee: Option<u64>,
    pub btc_checker_principal: Option<CanisterId>,
    /// Accepted for compatibility with old argument records; unused.
    pub kyt_principal: Option<CanisterId>,
    /// The legacy name of the check fee; used when `check_fee` is absent.
    pub kyt_fee: Option<u64>,
    pub get_utxos_cache_expiration_seconds: Option<u64>,
}

/// The check fee that a set of creation arguments carries.
pub open spec fn init_check_fee(args: InitArgs) -> u64 {
    match args.check_fee {
        Some(f) => f,
        None => match args.kyt_fee {
            Some(f) => f,
            None => DEFAULT_CHECK_FEE,
        },
    }
}

/// The check fee that a re-initialization leaves in place.
pub open spec fn reinit_check_fee(args: InitArgs, current: u64) -> u64 {
    match args.check_fee {
        Some(f) => f,
        None => match args.kyt_fee {
            Some(f) => f,
            None => current,
        },
    }
}

/// The check fee that an upgrade leaves in place.
pub open spec fn upgrade_check_fee(args: UpgradeArgs, current: u64) -> u64 {
    match args.check_fee {
        Some(f) => f,
        None => match args.kyt_fee {
            Some(f) => f,
            None => current,
        },
    }
}

/// The minimum withdrawal that an upgrade leaves in place.
pub open spec fn upgrade_min_amount(args: UpgradeArgs, current: u64) -> u64 {
    match args.retrieve_btc_min_amount {
        Some(v) => v,
        None => current,
    }
}

impl CkBtcMinterState {
    /// A fresh state from creation arguments: empty bookkeeping, defaults
    /// filled in, and the fee percentiles seeded with ones so that an early
    /// batch never lacks a median.
    pub fn init(args: InitArgs) -> (r: CkBtcMinterState)
        requires
            init_check_fee(args) <= args.retrieve_btc_min_amount,
        ensures
            r.inv(),
            r.btc_network == args.btc_network,
            r.ecdsa_key_name@ == args.ecdsa_key_name@,
            r.ecdsa_public_key is None,
            r.min_confirmations == (match args.min_confirmations {
                Some(c) => c,
                None => DEFAULT_MIN_CONFIRMATIONS,
            }),
            r.max_time_in_queue_nanos == args.max_time_in_queue_nanos,
            r.retrieve_btc_min_amount == args.retrieve_btc_min_amount,
            r.fee_based_retrieve_btc_min_amount == args.retrieve_btc_min_amount,
            r.ledger_id == args.ledger_id,
            r.btc_checker_principal == args.btc_checker_principal,
            r.mode == args.mode,
            r.check_fee == init_check_fee(args),
            r.last_fee_per_vbyte@ == Seq::<u64>::new(100, |i: int| 1u64),
            r.tokens_minted == 0,
            r.tokens_burned == 0,
            r.finalized_requests_count == 0,
            r.pending_retrieve_btc_requests@.len() == 0,
            r.requests_in_flight@.len() == 0,
            r.submitted_transactions@.len() == 0,
            r.stuck_transactions@.len() == 0,
            r.finalized_requests@.len() == 0,
            r.available_utxos@.len() == 0,
            r.outpoint_account@.len() == 0,
            r.utxos_state_addresses@.len() == 0,
            r.finalized_utxos@.len() == 0,
            r.replacement_txid@.len() == 0,
            r.rev_replacement_txid@.len() == 0,
            r.owed_kyt_amount@.len() == 0,
            r.checked_utxos@.len() == 0,
            r.pending_reimbursements@.len() == 0,
            r.reimbursed_transactions@.len() == 0,
            r.retrieve_btc_account_to_block_indices@.len() == 0,
            r.update_balance_accounts@.len() == 0,
            r.retrieve_btc_accounts@.len() == 0,
            r.suspended_utxos.utxos_without_account@.len() == 0,
            r.suspended_utxos.utxos@.len() == 0,
            r.suspended_utxos.last_time_checked_cache@.len() == 0,
            r.is_timer_running == false,
            r.is_distributing_fee == false,
            r.last_transaction_submission_time_ns is None,
            r.get_utxos_cache.expiration_seconds == (match args.get_utxos_cache_expiration_seconds {
                Some(e) => e,
                None => 0,
            }),
    {
        let check_fee = match args.check_fee {
            Some(f) => f,
            None => match args.kyt_fee {
                Some(f) => f,
                None => DEFAULT_CHECK_FEE,
            },
        };
        let min_confirmations = match args.min_confirmations {
            Some(c) => c,
            None => DEFAULT_MIN_CONFIRMATIONS,
        };
        let cache_expiration = match args.get_utxos_cache_expiration_seconds {
            Some(e) => e,
            None => 0,
        };
        let mut last_fee_per_vbyte: Vec<u64> = Vec::new();
        let mut i: usize = 0;
        while i < 100
            invariant
                0 <= i <= 100,
                last_fee_per_vbyte@ =~= Seq::<u64>::new(i as nat, |j: int| 1u64),
            decreases 100 - i,
        {
            last_fee_per_vbyte.push(1);
            proof {
                assert(last_fee_per_vbyte@ =~= Seq::<u64>::new((i + 1) as nat, |j: int| 1u64));
            }
            i += 1;
        }
        let r = CkBtcMinterState {
            btc_network: args.btc_network,
            ecdsa_key_name: args.ecdsa_key_name,
            ecdsa_public_key: None,
            min_confirmations,
            max_time_in_queue_nanos: args.max_time_in_queue_nanos,
            update_balance_accounts: Vec::new(),
            retrieve_btc_accounts: Vec::new(),
            retrieve_btc_min_amount: args.retrieve_btc_min_amount,
            fee_based_retrieve_btc_min_amount: args.retrieve_btc_min_amount,
            pending_retrieve_btc_requests: Vec::new(),
            retrieve_btc_account_to_block_indices: Vec::new(),
            requests_in_flight: Vec::new(),
            last_transaction_submission_time_ns: None,
            submitted_transactions: Vec::new(),
            stuck_transactions: Vec::new(),
            replacement_txid: Vec::new(),
            rev_replacement_txid: Vec::new(),
            finalized_requests: Vec::new(),
            finalized_requests_count: 0,
            tokens_minted: 0,
            tokens_burned: 0,
            ledger_id: args.ledger_id,
            btc_checker_principal: args.btc_checker_principal,
            available_utxos: Vec::new(),
            outpoint_account: Vec::new(),
            utxos_state_addresses: Vec::new(),
            finalized_utxos: Vec::new(),
            is_timer_running: false,
            is_distributing_fee: false,
            mode: args.mode,
            last_fee_per_vbyte,
            check_fee,
            owed_kyt_amount: Vec::new(),
            checked_utxos: Vec::new(),
            suspended_utxos: SuspendedUtxos::new(),
            pending_reimbursements: Vec::new(),
            reimbursed_transactions: Vec::new(),
            get_utxos_cache: GetUtxosCache::new(cache_expiration),
        };
        proof {
            lemma_empty_maps_inv(r);
        }
        r
    }

    /// Re-applies creation semantics onto an existing state: the
    /// configuration fields are overwritten, the bookkeeping stays.
    pub fn reinit(&mut self, args: InitArgs)
        requires
            old(self).inv(),
            reinit_check_fee(args, old(self).check_fee) <= args.retrieve_btc_min_amount,
            old(self).suspended_utxos.value_bound(reinit_check_fee(args, old(self).check_fee)),
        ensures
            final(self).inv(),
            final(self).btc_network == args.btc_network,
            final(self).ecdsa_key_name@ == args.ecdsa_key_name@,
            final(self).retrieve_btc_min_amount == args.retrieve_btc_min_amount,
            final(self).fee_based_retrieve_btc_min_amount == args.retrieve_btc_min_amount,
            final(self).ledger_id == args.ledger_id,
            final(self).max_time_in_queue_nanos == args.max_time_in_queue_nanos,
            final(self).mode == args.mode,
            final(self).btc_checker_principal == args.btc_checker_principal,
            final(self).check_fee == reinit_check_fee(args, old(self).check_fee),
            final(self).min_confirmations == (match args.min_confirmations {
                Some(c) => c,
                None => old(self).min_confirmations,
            }),
            final(self).get_utxos_cache.expiration_seconds == (
            match args.get_utxos_cache_expiration_seconds {
                Some(e) => e,
                None => old(self).get_utxos_cache.expiration_seconds,
            }),
            *final(self) == (CkBtcMinterState {
                btc_network: final(self).btc_network,
                ecdsa_key_name: final(self).ecdsa_key_name,
                retrieve_btc_min_amount: final(self).retrieve_btc_min_amount,
                fee_based_retrieve_btc_min_amount: final(self).fee_based_retrieve_btc_min_amount,
                ledger_id: final(self).ledger_id,
                max_time_in_queue_nanos: final(self).max_time_in_queue_nanos,
                mode: final(self).mode,
                btc_checker_principal: final(self).btc_checker_principal,
                check_fee: final(self).check_fee,
                min_confirmations: final(self).min_confirmations,
                get_utxos_cache: final(self).get_utxos_cache,
                ..*old(self)
            }),
    {
        self.btc_network = args.btc_network;
        self.ecdsa_key_name = args.ecdsa_key_name;
        self.retrieve_btc_min_amount = args.retrieve_btc_min_amount;
        self.fee_based_retrieve_btc_min_amount = args.retrieve_btc_min_amount;
        self.ledger_id = args.ledger_id;
        self.max_time_in_queue_nanos = args.max_time_in_queue_nanos;
        self.mode = args.mode;
        self.btc_checker_principal = args.btc_checker_principal;
        match args.check_fee {
            Some(check_fee) => {
                self.check_fee = check_fee;
            },
            None => {
                match args.kyt_fee {
                    Some(kyt_fee) => {
                        self.check_fee = kyt_fee;
                    },
                    None => {},
                }
            },
        }
        match args.min_confirmations {
            Some(min_confirmations) => {
                self.min_confirmations = min_confirmations;
            },
            None => {},
        }
        match args.get_utxos_cache_expiration_seconds {
            Some(expiration) => {
                self.get_utxos_cache.set_expiration(expiration);
            },
            None => {},
        }
    }

    /// Applies upgrade overrides.  The number of confirmations may only
    /// decrease; an attempt to raise it is ignored.
    pub fn upgrade(&mut self, args: UpgradeArgs)
        requires
            old(self).inv(),
            upgrade_check_fee(args, old(self).check_fee) <= upgrade_min_amount(
                args,
                old(self).retrieve_btc_min_amount,
            ),
            old(self).suspended_utxos.value_bound(upgrade_check_fee(args, old(self).check_fee)),
        ensures
            final(self).inv(),
            final(self).retrieve_btc_min_amount == upgrade_min_amount(
                args,
                old(self).retrieve_btc_min_amount,
            ),
            args.retrieve_btc_min_amount is Some ==> final(self).fee_based_retrieve_btc_min_amount == args.retrieve_btc_min_amount->0,
            final(self).max_time_in_queue_nanos == (match args.max_time_in_queue_nanos {
                Some(v) => v,
                None => old(self).max_time_in_queue_nanos,
            }),
            final(self).min_confirmations == (match args.min_confirmations {
                Some(c) => if c < old(self).min_confirmations {
                    c
                } else {
                    old(self).min_confirmations
                },
                None => old(self).min_confirmations,
            }),
            final(self).mode == (match args.mode {
                Some(m) => m,
                None => old(self).mode,
            }),
            final(self).btc_checker_principal == (match args.btc_checker_principal {
                Some(p) => Some(p),
                None => old(self).btc_checker_principal,
            }),
            final(self).check_fee == upgrade_check_fee(args, old(self).check_fee),
            *final(self) == (CkBtcMinterState {
                retrieve_btc_min_amount: final(self).retrieve_btc_min_amount,
                fee_based_retrieve_btc_min_amount: final(self).fee_based_retrieve_btc_min_amount,
                max_time_in_queue_nanos: final(self).max_time_in_queue_nanos,
                min_confirmations: final(self).min_confirmations,
                mode: final(self).mode,
                btc_checker_principal: final(self).btc_checker_principal,
                check_fee: final(self).check_fee,
                get_utxos_cache: final(self).get_utxos_cache,
                ..*old(self)
            }),
    {
        match args.retrieve_btc_min_amount {
            Some(retrieve_btc_min_amount) => {
                self.retrieve_btc_min_amount = retrieve_btc_min_amount;
                self.fee_based_retrieve_btc_min_amount = retrieve_btc_min_amount;
            },
            None => {},
        }
        match args.max_time_in_queue_nanos {
            Some(max_time_in_queue_nanos) => {
                self.max_time_in_queue_nanos = max_time_in_queue_nanos;
            },
            None => {},
        }
        match args.min_confirmations {
            Some(min_conf) => {
                if min_conf < self.min_confirmations {
                    self.min_confirmations = min_conf;
                }
            },
            None => {},
        }
        match args.mode {
            Some(mode) => {
                self.mode = mode;
            },
            None => {},
        }
        match args.btc_checker_principal {
            Some(btc_checker_principal) => {
                self.btc_checker_principal = Some(btc_checker_principal);
            },
            None => {},
        }
        match args.check_fee {
            Some(check_fee) => {
                self.check_fee = check_fee;
            },
            None => {
                match args.kyt_fee {
                    Some(kyt_fee) => {
                        self.check_fee = kyt_fee;
                    },
                    None => {},
                }
            },
        }
        match args.get_utxos_cache_expiration_seconds {
            Some(expiration) => {
                self.get_utxos_cache.set_expiration(expiration);
            },
            None => {},
        }
    }

    /// Checks the configuration: the check fee within the minimum
    /// withdrawal, a named ECDSA key, and a screening canister.
    pub fn validate_config(&self) -> (r: Result<(), String>)
        ensures
            r is Ok <==> (self.check_fee <= self.retrieve_btc_min_amount
                && self.ecdsa_key_name@.len() > 0 && self.btc_checker_principal is Some),
    {
        if self.check_fee > self.retrieve_btc_min_amount {
            return Err("check_fee cannot be greater than retrieve_btc_min_amount".to_owned());
        }
        if self.ecdsa_key_name.as_str().unicode_len() == 0 {
            return Err("ecdsa_key_name is not set".to_owned());
        }
        if self.btc_checker_principal.is_none() {
            return Err("Bitcoin checker principal is not set".to_owned());
        }
        Ok(())
    }
}

/// A state whose collections are all empty satisfies the global invariant,
/// as long as its check fee is within the minimum withdrawal.
proof fn lemma_empty_maps_inv(r: CkBtcMinterState)
    requires
        r.pending_retrieve_btc_requests@.len() == 0,
        r.requests_in_flight@.len() == 0,
        r.submitted_transactions@.len() == 0,
        r.stuck_transactions@.len() == 0,
        r.finalized_requests@.len() == 0,
        r.outpoint_account@.len() == 0,
        r.utxos_state_addresses@.len() == 0,
        r.finalized_utxos@.len() == 0,
        r.replacement_txid@.len() == 0,
        r.rev_replacement_txid@.len() == 0,
        r.owed_kyt_amount@.len() == 0,
        r.checked_utxos@.len() == 0,
        r.pending_reimbursements@.len() == 0,
        r.reimbursed_transactions@.len() == 0,
        r.retrieve_btc_account_to_block_indices@.len() == 0,
        r.update_balance_accounts@.len() == 0,
        r.retrieve_btc_accounts@.len() == 0,
        r.available_utxos@.len() == 0,
        r.suspended_utxos.wf(),
        r.suspended_utxos.utxos_without_account@.len() == 0,
        r.suspended_utxos.utxos@.len() == 0,
        r.check_fee <= r.retrieve_btc_min_amount,
    ensures
        r.inv(),
{
    assert(crate::alist::map_of(r.replacement_txid@) =~= Map::<
        crate::domain::Txid,
        crate::domain::Txid,
    >::empty());
    assert(crate::alist::map_of(r.rev_replacement_txid@) =~= Map::<
        crate::domain::Txid,
        crate::domain::Txid,
    >::empty());
    assert forall|t: crate::domain::Txid, n: nat|
        1 <= n && #[trigger] crate::replacement::path_defined(
            crate::alist::map_of(r.replacement_txid@),
            t,
            n,
        ) implies crate::replacement::step_n(
        crate::alist::map_of(r.replacement_txid@),
        t,
        n,
    ) != t by {
        crate::replacement::lemma_path_positions(
            crate::alist::map_of(r.replacement_txid@),
            t,
            n,
            0,
        );
    }
    assert forall|t: crate::domain::Txid, n: nat|
        1 <= n && #[trigger] crate::replacement::path_defined(
            crate::alist::map_of(r.rev_replacement_txid@),
            t,
            n,
        ) implies crate::replacement::step_n(
        crate::alist::map_of(r.rev_replacement_txid@),
        t,
        n,
    ) != t by {
        crate::replacement::lemma_path_positions(
            crate::alist::map_of(r.rev_replacement_txid@),
            t,
            n,
            0,
        );
    }
    assert(crate::alist::map_of(r.outpoint_account@) =~= Map::<
        crate::domain::OutPoint,
        crate::domain::Account,
    >::empty());
    assert(crate::alist::map_of(r.utxos_state_addresses@) =~= Map::<
        crate::domain::Account,
        Vec<crate::domain::Utxo>,
    >::empty());
    assert forall|a: crate::domain::Account, u: crate::domain::Utxo|
        #[trigger] crate::state::bucket_of(r.utxos_state_addresses@, a).contains(u) implies
        false by {
        assert(crate::state::bucket_of(r.utxos_state_addresses@, a) =~= Seq::<
            crate::domain::Utxo,
        >::empty());
    }
    assert forall|u: crate::domain::Utxo|
        #[trigger] r.suspended_utxos.wa_map().contains_key(u) implies false by {
        crate::alist::lemma_map_of_contains(r.suspended_utxos.utxos_without_account@, u);
    }
    assert forall|a: crate::domain::Account, u: crate::domain::Utxo|
        #[trigger] r.suspended_utxos.reason_map(a).contains_key(u) implies false by {
        crate::alist::lemma_map_of_contains(r.suspended_utxos.utxos@, a);
        if r.suspended_utxos.buckets().contains_key(a) {
        }
    }
}

} // verus!
