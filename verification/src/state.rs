//! The minter's state: every piece of bookkeeping lives in one struct, and
//! every transition is a method with a contract.
//!
//! The global invariant [`CkBtcMinterState::inv`] is established by the
//! constructor and preserved by every transition: the withdrawal pipeline
//! partitions the requests, the replacement maps form an acyclic bijection,
//! the pending queue is ordered, outpoints agree with the account buckets,
//! suspended values respect the check fee, and the finalized ring is bounded.

use vstd::prelude::*;

use crate::alist::{elems_distinct, keys_distinct, map_of};
use crate::domain::{Account, CanisterId, EcdsaPublicKey, Network, OutPoint, Principal, Txid, Utxo};
use crate::fees::GetUtxosCache;
use crate::mode::Mode;
use crate::records::{
    CheckedUtxo, FinalizedBtcRetrieval, FinalizedStatus, InFlightStatus, ReimburseDepositTask,
    ReimbursedDeposit, RetrieveBtcRequest, RetrieveBtcStatus, SubmittedBtcTransaction,
};
use crate::replacement::acyclic;
use crate::suspended::SuspendedUtxos;

verus! {

broadcast use vstd::seq_lib::lemma_seq_contains_after_push;

/// The most finalized requests kept in the history ring.
pub const MAX_FINALIZED_REQUESTS: usize = 100;

/// The state of the minter.
#[derive(Debug)]
pub struct CkBtcMinterState {
    /// The Bitcoin network the minter connects to.
    pub btc_network: Network,
    /// The name of the threshold-ECDSA key.
    pub ecdsa_key_name: String,
    /// The minter's ECDSA public key, once fetched.
    pub ecdsa_public_key: Option<EcdsaPublicKey>,
    /// The minimum number of confirmations on the Bitcoin chain.
    pub min_confirmations: u32,
    /// The longest a request may wait in the queue before a batch is forced.
    pub max_time_in_queue_nanos: u64,
    /// Accounts with an update-balance call in progress.
    pub update_balance_accounts: Vec<Account>,
    /// Accounts with a withdrawal initiation in progress.
    pub retrieve_btc_accounts: Vec<Account>,
    /// The configured minimum withdrawal, in satoshi.
    pub retrieve_btc_min_amount: u64,
    /// The minimum withdrawal recomputed from recent fees.
    pub fee_based_retrieve_btc_min_amount: u64,
    /// Withdrawal requests waiting to be served, ordered by `received_at`.
    pub pending_retrieve_btc_requests: Vec<RetrieveBtcRequest>,
    /// The burn block indices of each account's withdrawal requests.
    pub retrieve_btc_account_to_block_indices: Vec<(Account, Vec<u64>)>,
    /// Requests whose transaction is being signed or sent.
    pub requests_in_flight: Vec<(u64, InFlightStatus)>,
    /// When a transaction was last submitted.
    pub last_transaction_submission_time_ns: Option<u64>,
    /// Transactions sent to the network, waiting for confirmations.
    pub submitted_transactions: Vec<SubmittedBtcTransaction>,
    /// Transactions that likely did not make it into the mempool.
    pub stuck_transactions: Vec<SubmittedBtcTransaction>,
    /// Stuck transaction to its replacement.
    pub replacement_txid: Vec<(Txid, Txid)>,
    /// Replacement transaction to the stuck one it replaces.
    pub rev_replacement_txid: Vec<(Txid, Txid)>,
    /// The most recent finalized requests, oldest first.
    pub finalized_requests: Vec<FinalizedBtcRetrieval>,
    /// How many requests have ever been finalized.
    pub finalized_requests_count: u64,
    /// The total amount of tokens minted, in satoshi.
    pub tokens_minted: u64,
    /// The total amount of tokens burned, in satoshi.
    pub tokens_burned: u64,
    /// The ledger this minter mints on.
    pub ledger_id: CanisterId,
    /// The address-screening canister.
    pub btc_checker_principal: Option<CanisterId>,
    /// UTXOs owned by the minter and not used by any in-flight transaction.
    pub available_utxos: Vec<Utxo>,
    /// The account each outpoint was credited to.
    pub outpoint_account: Vec<(OutPoint, Account)>,
    /// The UTXOs credited to each account.
    pub utxos_state_addresses: Vec<(Account, Vec<Utxo>)>,
    /// UTXOs removed by a finalization while an update-balance call for their
    /// account was in progress; drained when that call completes.
    pub finalized_utxos: Vec<(Account, Vec<Utxo>)>,
    /// Whether the timer task is running.
    pub is_timer_running: bool,
    /// Whether a fee distribution pass is running.
    pub is_distributing_fee: bool,
    /// The mode the minter runs in.
    pub mode: Mode,
    /// The last observed fee percentiles, in millisatoshi per vbyte.
    pub last_fee_per_vbyte: Vec<u64>,
    /// The fee of one screening request, in satoshi.
    pub check_fee: u64,
    /// What the minter owes each screening provider, in satoshi.
    pub owed_kyt_amount: Vec<(Principal, u64)>,
    /// Screening outcomes for UTXOs not yet minted.
    pub checked_utxos: Vec<(Utxo, CheckedUtxo)>,
    /// UTXOs excluded from minting.
    pub suspended_utxos: SuspendedUtxos,
    /// Reimbursements to execute, by burn block index.
    pub pending_reimbursements: Vec<(u64, ReimburseDepositTask)>,
    /// Reimbursements executed, by burn block index.
    pub reimbursed_transactions: Vec<(u64, ReimbursedDeposit)>,
    /// The cache of UTXO query results.
    pub get_utxos_cache: GetUtxosCache,
}

/// Whether a request sequence holds the given block index.
pub open spec fn has_block(s: Seq<RetrieveBtcRequest>, block_index: u64) -> bool {
    exists|j: int| 0 <= j < s.len() && s[j].block_index == block_index
}

/// Whether a transaction serves the request with the given block index.
pub open spec fn tx_has(tx: SubmittedBtcTransaction, block_index: u64) -> bool {
    has_block(tx.requests@, block_index)
}

/// Whether any transaction of a sequence serves the given block index.
pub open spec fn txs_have(s: Seq<SubmittedBtcTransaction>, block_index: u64) -> bool {
    exists|i: int| 0 <= i < s.len() && tx_has(#[trigger] s[i], block_index)
}

/// Whether a finalized-record sequence holds the given block index.
pub open spec fn fin_has(s: Seq<FinalizedBtcRetrieval>, block_index: u64) -> bool {
    exists|i: int| 0 <= i < s.len() && s[i].request.block_index == block_index
}

/// Appending a request adds exactly its block index.
pub proof fn lemma_has_block_push(s: Seq<RetrieveBtcRequest>, r: RetrieveBtcRequest)
    ensures
        forall|b: u64|
            #[trigger] has_block(s.push(r), b) <==> (has_block(s, b) || r.block_index == b),
{
    assert forall|b: u64| #[trigger] has_block(s.push(r), b) implies (has_block(s, b)
        || r.block_index == b) by {
        let j = choose|j: int| 0 <= j < s.push(r).len() && s.push(r)[j].block_index == b;
        if j < s.len() {
            assert(s[j].block_index == b);
        }
    }
    assert forall|b: u64| (has_block(s, b) || r.block_index == b) implies #[trigger] has_block(
        s.push(r),
        b,
    ) by {
        if has_block(s, b) {
            let j = choose|j: int| 0 <= j < s.len() && s[j].block_index == b;
            assert(s.push(r)[j].block_index == b);
        } else {
            assert(s.push(r)[s.len() as int].block_index == b);
        }
    }
}

/// Removing a request removes at most its block index.
pub proof fn lemma_has_block_remove(s: Seq<RetrieveBtcRequest>, i: int)
    requires
        0 <= i < s.len(),
    ensures
        forall|b: u64| #[trigger] has_block(s.remove(i), b) ==> has_block(s, b),
        forall|b: u64|
            #[trigger] has_block(s, b) ==> (has_block(s.remove(i), b) || s[i].block_index == b),
{
    let t = s.remove(i);
    assert forall|b: u64| #[trigger] has_block(t, b) implies has_block(s, b) by {
        let j = choose|j: int| 0 <= j < t.len() && t[j].block_index == b;
        let j0 = if j < i { j } else { j + 1 };
        assert(s[j0].block_index == b);
    }
    assert forall|b: u64| #[trigger] has_block(s, b) implies (has_block(t, b)
        || s[i].block_index == b) by {
        let j = choose|j: int| 0 <= j < s.len() && s[j].block_index == b;
        if j != i {
            let j0 = if j < i { j } else { j - 1 };
            assert(t[j0].block_index == b);
        }
    }
}

/// Appending a transaction adds exactly its requests' block indices.
pub proof fn lemma_txs_have_push(s: Seq<SubmittedBtcTransaction>, tx: SubmittedBtcTransaction)
    ensures
        forall|b: u64|
            #[trigger] txs_have(s.push(tx), b) <==> (txs_have(s, b) || tx_has(tx, b)),
{
    assert forall|b: u64| #[trigger] txs_have(s.push(tx), b) implies (txs_have(s, b) || tx_has(
        tx,
        b,
    )) by {
        let j = choose|j: int| 0 <= j < s.push(tx).len() && tx_has(#[trigger] s.push(tx)[j], b);
        if j < s.len() {
            assert(tx_has(s[j], b));
        }
    }
    assert forall|b: u64| (txs_have(s, b) || tx_has(tx, b)) implies #[trigger] txs_have(
        s.push(tx),
        b,
    ) by {
        if txs_have(s, b) {
            let j = choose|j: int| 0 <= j < s.len() && tx_has(#[trigger] s[j], b);
            assert(tx_has(s.push(tx)[j], b));
        } else {
            assert(tx_has(s.push(tx)[s.len() as int], b));
        }
    }
}

/// Removing a transaction removes at most its requests' block indices.
pub proof fn lemma_txs_have_remove(s: Seq<SubmittedBtcTransaction>, i: int)
    requires
        0 <= i < s.len(),
    ensures
        forall|b: u64| #[trigger] txs_have(s.remove(i), b) ==> txs_have(s, b),
        forall|b: u64|
            #[trigger] txs_have(s, b) ==> (txs_have(s.remove(i), b) || tx_has(s[i], b)),
{
    let t = s.remove(i);
    assert forall|b: u64| #[trigger] txs_have(t, b) implies txs_have(s, b) by {
        let j = choose|j: int| 0 <= j < t.len() && tx_has(#[trigger] t[j], b);
        let j0 = if j < i { j } else { j + 1 };
        assert(tx_has(s[j0], b));
    }
    assert forall|b: u64| #[trigger] txs_have(s, b) implies (txs_have(t, b) || tx_has(
        s[i],
        b,
    )) by {
        let j = choose|j: int| 0 <= j < s.len() && tx_has(#[trigger] s[j], b);
        if j != i {
            let j0 = if j < i { j } else { j - 1 };
            assert(tx_has(t[j0], b));
        }
    }
}

/// Appending a finalized record adds exactly its block index.
pub proof fn lemma_fin_has_push(s: Seq<FinalizedBtcRetrieval>, r: FinalizedBtcRetrieval)
    ensures
        forall|b: u64|
            #[trigger] fin_has(s.push(r), b) <==> (fin_has(s, b) || r.request.block_index == b),
{
    assert forall|b: u64| #[trigger] fin_has(s.push(r), b) implies (fin_has(s, b)
        || r.request.block_index == b) by {
        let j = choose|j: int|
            0 <= j < s.push(r).len() && s.push(r)[j].request.block_index == b;
        if j < s.len() {
            assert(s[j].request.block_index == b);
        }
    }
    assert forall|b: u64| (fin_has(s, b) || r.request.block_index == b) implies
        #[trigger] fin_has(s.push(r), b) by {
        if fin_has(s, b) {
            let j = choose|j: int| 0 <= j < s.len() && s[j].request.block_index == b;
            assert(s.push(r)[j].request.block_index == b);
        } else {
            assert(s.push(r)[s.len() as int].request.block_index == b);
        }
    }
}

/// Removing a finalized record removes at most its block index.
pub proof fn lemma_fin_has_remove(s: Seq<FinalizedBtcRetrieval>, i: int)
    requires
        0 <= i < s.len(),
    ensures
        forall|b: u64| #[trigger] fin_has(s.remove(i), b) ==> fin_has(s, b),
        forall|b: u64|
            #[trigger] fin_has(s, b) ==> (fin_has(s.remove(i), b) || s[i].request.block_index
                == b),
{
    let t = s.remove(i);
    assert forall|b: u64| #[trigger] fin_has(t, b) implies fin_has(s, b) by {
        let j = choose|j: int| 0 <= j < t.len() && t[j].request.block_index == b;
        let j0 = if j < i { j } else { j + 1 };
        assert(s[j0].request.block_index == b);
    }
    assert forall|b: u64| #[trigger] fin_has(s, b) implies (fin_has(t, b)
        || s[i].request.block_index == b) by {
        let j = choose|j: int| 0 <= j < s.len() && s[j].request.block_index == b;
        if j != i {
            let j0 = if j < i { j } else { j - 1 };
            assert(t[j0].request.block_index == b);
        }
    }
}

/// Whether a request sequence is ordered by arrival time.
pub open spec fn sorted_by_received_at(s: Seq<RetrieveBtcRequest>) -> bool {
    forall|i: int, j: int| 0 <= i < j < s.len() ==> s[i].received_at <= s[j].received_at
}

/// The total value of a sequence of UTXOs, in satoshi.
pub open spec fn sum_values(s: Seq<Utxo>) -> int
    decreases s.len(),
{
    if s.len() == 0 {
        0
    } else {
        sum_values(s.drop_last()) + s.last().value
    }
}

/// UTXO value totals are not negative.
pub proof fn lemma_sum_values_nonneg(s: Seq<Utxo>)
    ensures
        sum_values(s) >= 0,
    decreases s.len(),
{
    if s.len() > 0 {
        lemma_sum_values_nonneg(s.drop_last());
    }
}

/// Value totals grow element by element.
pub proof fn lemma_sum_values_take(s: Seq<Utxo>, i: int)
    requires
        0 <= i < s.len(),
    ensures
        sum_values(s.take(i + 1)) == sum_values(s.take(i)) + s[i].value,
        sum_values(s.take(i + 1)) <= sum_values(s),
    decreases s.len() - i,
{
    assert(s.take(i + 1).drop_last() =~= s.take(i));
    assert(s.take(i + 1).last() == s[i]);
    if i + 1 == s.len() {
        assert(s.take(i + 1) =~= s);
    } else {
        lemma_sum_values_take(s, i + 1);
        lemma_sum_values_nonneg(s.take(i + 1));
    }
}

/// The number of requests across a sequence of transactions.
pub open spec fn total_requests(s: Seq<SubmittedBtcTransaction>) -> int
    decreases s.len(),
{
    if s.len() == 0 {
        0
    } else {
        total_requests(s.drop_last()) + s.last().requests@.len()
    }
}

impl CkBtcMinterState {
    /// The in-flight requests as a map.
    pub open spec fn in_flight_map(self) -> Map<u64, InFlightStatus> {
        map_of(self.requests_in_flight@)
    }

    /// The owed screening fees as a map.
    pub open spec fn owed_map(self) -> Map<Principal, u64> {
        map_of(self.owed_kyt_amount@)
    }

    /// The outpoint-to-account assignment as a map.
    pub open spec fn outpoint_map(self) -> Map<OutPoint, Account> {
        map_of(self.outpoint_account@)
    }

    /// The account buckets of credited UTXOs as a map.
    pub open spec fn utxos_map(self) -> Map<Account, Vec<Utxo>> {
        map_of(self.utxos_state_addresses@)
    }

    /// The UTXOs credited to one account.
    pub open spec fn account_utxos(self, a: Account) -> Seq<Utxo> {
        bucket_of(self.utxos_state_addresses@, a)
    }

    /// The stashed finalized UTXOs as a map.
    pub open spec fn finalized_utxos_map(self) -> Map<Account, Vec<Utxo>> {
        map_of(self.finalized_utxos@)
    }

    /// The finalized UTXOs stashed for one account.
    pub open spec fn account_finalized_utxos(self, a: Account) -> Seq<Utxo> {
        bucket_of(self.finalized_utxos@, a)
    }

    /// The screening outcomes as a map.
    pub open spec fn checked_map(self) -> Map<Utxo, CheckedUtxo> {
        map_of(self.checked_utxos@)
    }

    /// Stuck transaction to replacement, as a map.
    pub open spec fn repl_map(self) -> Map<Txid, Txid> {
        map_of(self.replacement_txid@)
    }

    /// Replacement transaction to the stuck one, as a map.
    pub open spec fn rev_map(self) -> Map<Txid, Txid> {
        map_of(self.rev_replacement_txid@)
    }

    /// The reimbursements still to execute, as a map.
    pub open spec fn reimb_pending_map(self) -> Map<u64, ReimburseDepositTask> {
        map_of(self.pending_reimbursements@)
    }

    /// The executed reimbursements, as a map.
    pub open spec fn reimbursed_map(self) -> Map<u64, ReimbursedDeposit> {
        map_of(self.reimbursed_transactions@)
    }

    /// Each account's burn block indices, as a map.
    pub open spec fn indices_map(self) -> Map<Account, Vec<u64>> {
        map_of(self.retrieve_btc_account_to_block_indices@)
    }

    /// The burn block indices recorded for one account.
    pub open spec fn account_indices(self, a: Account) -> Seq<u64> {
        if self.indices_map().contains_key(a) {
            self.indices_map()[a]@
        } else {
            Seq::empty()
        }
    }

    /// Whether a pending request has the given block index.
    pub open spec fn pending_has(self, b: u64) -> bool {
        exists|i: int|
            0 <= i < self.pending_retrieve_btc_requests@.len()
                && self.pending_retrieve_btc_requests@[i].block_index == b
    }

    /// Whether a submitted transaction serves the given block index.
    pub open spec fn submitted_has(self, b: u64) -> bool {
        exists|i: int|
            0 <= i < self.submitted_transactions@.len() && tx_has(
                #[trigger] self.submitted_transactions@[i],
                b,
            )
    }

    /// Whether a stuck transaction serves the given block index.
    pub open spec fn stuck_has(self, b: u64) -> bool {
        exists|i: int|
            0 <= i < self.stuck_transactions@.len() && tx_has(
                #[trigger] self.stuck_transactions@[i],
                b,
            )
    }

    /// Whether a finalized record has the given block index.
    pub open spec fn finalized_has(self, b: u64) -> bool {
        exists|i: int|
            0 <= i < self.finalized_requests@.len()
                && self.finalized_requests@[i].request.block_index == b
    }

    /// Every keyed collection is free of duplicate keys.
    pub open spec fn maps_wf(self) -> bool {
        &&& keys_distinct(self.requests_in_flight@)
        &&& keys_distinct(self.owed_kyt_amount@)
        &&& keys_distinct(self.outpoint_account@)
        &&& keys_distinct(self.utxos_state_addresses@)
        &&& keys_distinct(self.finalized_utxos@)
        &&& keys_distinct(self.checked_utxos@)
        &&& keys_distinct(self.pending_reimbursements@)
        &&& keys_distinct(self.reimbursed_transactions@)
        &&& keys_distinct(self.retrieve_btc_account_to_block_indices@)
        &&& keys_distinct(self.replacement_txid@)
        &&& keys_distinct(self.rev_replacement_txid@)
        &&& elems_distinct(self.update_balance_accounts@)
        &&& elems_distinct(self.retrieve_btc_accounts@)
        &&& elems_distinct(self.available_utxos@)
        &&& forall|i: int|
            0 <= i < self.utxos_state_addresses@.len() ==> elems_distinct(
                #[trigger] self.utxos_state_addresses@[i].1@,
            )
        &&& forall|i: int|
            0 <= i < self.finalized_utxos@.len() ==> elems_distinct(
                #[trigger] self.finalized_utxos@[i].1@,
            )
        &&& self.suspended_utxos.wf()
    }

    /// The pending queue is ordered and its block indices are unique.
    pub open spec fn pending_wf(self) -> bool {
        pending_queue_wf(self.pending_retrieve_btc_requests@)
    }

    /// No pending block index occurs anywhere else in the pipeline.
    pub open spec fn pending_disjoint(self) -> bool {
        pending_disjoint_fn(
            self.pending_retrieve_btc_requests@,
            self.requests_in_flight@,
            self.submitted_transactions@,
            self.stuck_transactions@,
            self.finalized_requests@,
        )
    }

    /// No in-flight block index occurs among submitted or finalized requests.
    pub open spec fn in_flight_disjoint(self) -> bool {
        in_flight_disjoint_fn(
            self.requests_in_flight@,
            self.submitted_transactions@,
            self.finalized_requests@,
        )
    }

    /// Submitted transactions carry each block index at most once, and none
    /// that is already finalized.
    pub open spec fn submitted_wf(self) -> bool {
        submitted_group_wf(self.submitted_transactions@, self.finalized_requests@)
    }

    /// Finalized records carry each block index at most once, within the
    /// ring's bound.
    pub open spec fn finalized_wf(self) -> bool {
        finalized_ring_wf(self.finalized_requests@)
    }

    /// The two replacement maps are inverses of one another.
    pub open spec fn replacement_bijection(self) -> bool {
        replacement_bijection_fn(self.replacement_txid@, self.rev_replacement_txid@)
    }

    /// An outpoint is assigned to an account exactly when a credited UTXO of
    /// that account carries it.
    pub open spec fn outpoint_agreement(self) -> bool {
        outpoint_agreement_fn(self.outpoint_account@, self.utxos_state_addresses@)
    }

    /// The global invariant: holds of the initial state and is preserved by
    /// every transition.
    pub open spec fn inv(self) -> bool {
        &&& self.maps_wf()
        &&& self.pending_wf()
        &&& self.pending_disjoint()
        &&& self.in_flight_disjoint()
        &&& self.submitted_wf()
        &&& self.finalized_wf()
        &&& self.replacement_bijection()
        &&& acyclic(map_of(self.replacement_txid@))
        &&& acyclic(map_of(self.rev_replacement_txid@))
        &&& self.outpoint_agreement()
        &&& self.suspended_utxos.value_bound(self.check_fee)
        &&& self.check_fee <= self.retrieve_btc_min_amount
    }
}

/// The pending queue is ordered by arrival and free of duplicate block
/// indices.
pub open spec fn pending_queue_wf(p: Seq<RetrieveBtcRequest>) -> bool {
    &&& sorted_by_received_at(p)
    &&& forall|i: int, j: int| 0 <= i < j < p.len() ==> p[i].block_index != p[j].block_index
}

/// No pending block index occurs in flight, in a submitted or stuck
/// transaction, or among the finalized records.
pub open spec fn pending_disjoint_fn(
    p: Seq<RetrieveBtcRequest>,
    in_flight: Seq<(u64, InFlightStatus)>,
    submitted: Seq<SubmittedBtcTransaction>,
    stuck: Seq<SubmittedBtcTransaction>,
    finalized: Seq<FinalizedBtcRetrieval>,
) -> bool {
    forall|b: u64|
        #[trigger] has_block(p, b) ==> !map_of(in_flight).contains_key(b) && !txs_have(
            submitted,
            b,
        ) && !txs_have(stuck, b) && !fin_has(finalized, b)
}

/// No in-flight block index occurs in a submitted transaction or among the
/// finalized records.
pub open spec fn in_flight_disjoint_fn(
    in_flight: Seq<(u64, InFlightStatus)>,
    submitted: Seq<SubmittedBtcTransaction>,
    finalized: Seq<FinalizedBtcRetrieval>,
) -> bool {
    forall|b: u64|
        #[trigger] map_of(in_flight).contains_key(b) ==> !txs_have(submitted, b) && !fin_has(
            finalized,
            b,
        )
}

/// Submitted transactions carry each block index at most once among them and
/// never one that is already finalized.
pub open spec fn submitted_group_wf(
    submitted: Seq<SubmittedBtcTransaction>,
    finalized: Seq<FinalizedBtcRetrieval>,
) -> bool {
    &&& forall|i: int|
        0 <= i < submitted.len() ==> keys_unique_in_tx(#[trigger] submitted[i])
    &&& forall|i: int, j: int, b: u64|
        0 <= i < j < submitted.len() ==> !(#[trigger] tx_has(submitted[i], b)
            && #[trigger] tx_has(submitted[j], b))
    &&& forall|b: u64| #[trigger] txs_have(submitted, b) ==> !fin_has(finalized, b)
}

/// The finalized ring holds each block index at most once and stays within
/// its bound.
pub open spec fn finalized_ring_wf(finalized: Seq<FinalizedBtcRetrieval>) -> bool {
    &&& forall|i: int, j: int|
        0 <= i < j < finalized.len() ==> finalized[i].request.block_index
            != finalized[j].request.block_index
    &&& finalized.len() <= MAX_FINALIZED_REQUESTS
}

/// The two replacement association lists stand for inverse maps.
pub open spec fn replacement_bijection_fn(
    repl: Seq<(Txid, Txid)>,
    rev: Seq<(Txid, Txid)>,
) -> bool {
    forall|x: Txid, y: Txid|
        (#[trigger] map_of(repl).contains_key(x) && map_of(repl)[x] == y) <==> (
        #[trigger] map_of(rev).contains_key(y) && map_of(rev)[y] == x)
}

/// An outpoint is assigned to an account exactly when a credited UTXO of
/// that account carries it.
pub open spec fn outpoint_agreement_fn(
    oa: Seq<(OutPoint, Account)>,
    usa: Seq<(Account, Vec<Utxo>)>,
) -> bool {
    &&& forall|o: OutPoint|
        #[trigger] map_of(oa).contains_key(o) ==> exists|u: Utxo|
            bucket_of(usa, map_of(oa)[o]).contains(u) && u.outpoint == o
    &&& forall|a: Account, u: Utxo|
        #[trigger] bucket_of(usa, a).contains(u) ==> map_of(oa).contains_key(u.outpoint)
            && map_of(oa)[u.outpoint] == a
    &&& forall|a1: Account, a2: Account, u1: Utxo, u2: Utxo|
        #[trigger] bucket_of(usa, a1).contains(u1) && #[trigger] bucket_of(usa, a2).contains(u2)
            && u1.outpoint == u2.outpoint ==> u1 == u2 && a1 == a2
}

/// Follows a forward replacement edge through its mirror image.
pub proof fn lemma_bijection_forward(
    repl: Seq<(Txid, Txid)>,
    rev: Seq<(Txid, Txid)>,
    x: Txid,
    y: Txid,
)
    requires
        replacement_bijection_fn(repl, rev),
        map_of(repl).contains_key(x),
        map_of(repl)[x] == y,
    ensures
        map_of(rev).contains_key(y),
        map_of(rev)[y] == x,
{
    assert((map_of(repl).contains_key(x) && map_of(repl)[x] == y) <==> (map_of(
        rev,
    ).contains_key(y) && map_of(rev)[y] == x));
}

/// Follows a backward replacement edge through its mirror image.
pub proof fn lemma_bijection_backward(
    repl: Seq<(Txid, Txid)>,
    rev: Seq<(Txid, Txid)>,
    x: Txid,
    y: Txid,
)
    requires
        replacement_bijection_fn(repl, rev),
        map_of(rev).contains_key(y),
        map_of(rev)[y] == x,
    ensures
        map_of(repl).contains_key(x),
        map_of(repl)[x] == y,
{
    assert((map_of(repl).contains_key(x) && map_of(repl)[x] == y) <==> (map_of(
        rev,
    ).contains_key(y) && map_of(rev)[y] == x));
}

/// The UTXOs a bucket map holds under an account.
pub open spec fn bucket_of(usa: Seq<(Account, Vec<Utxo>)>, a: Account) -> Seq<Utxo> {
    if map_of(usa).contains_key(a) {
        map_of(usa)[a]@
    } else {
        Seq::empty()
    }
}

/// Whether a transaction carries each block index at most once.
pub open spec fn keys_unique_in_tx(tx: SubmittedBtcTransaction) -> bool {
    forall|i: int, j: int|
        0 <= i < j < tx.requests@.len() ==> tx.requests@[i].block_index
            != tx.requests@[j].block_index
}

/// The change-output value of a sequence of transactions, in satoshi.
pub open spec fn sum_change(s: Seq<SubmittedBtcTransaction>) -> int
    decreases s.len(),
{
    if s.len() == 0 {
        0
    } else {
        sum_change(s.drop_last()) + (match s.last().change_output {
            Some(c) => c.value as int,
            None => 0,
        })
    }
}

/// Change totals are not negative.
pub proof fn lemma_sum_change_nonneg(s: Seq<SubmittedBtcTransaction>)
    ensures
        sum_change(s) >= 0,
    decreases s.len(),
{
    if s.len() > 0 {
        lemma_sum_change_nonneg(s.drop_last());
    }
}

/// Change totals grow transaction by transaction.
pub proof fn lemma_sum_change_take(s: Seq<SubmittedBtcTransaction>, i: int)
    requires
        0 <= i < s.len(),
    ensures
        sum_change(s.take(i + 1)) == sum_change(s.take(i)) + (match s[i].change_output {
            Some(c) => c.value as int,
            None => 0,
        }),
        sum_change(s.take(i + 1)) <= sum_change(s),
    decreases s.len() - i,
{
    assert(s.take(i + 1).drop_last() =~= s.take(i));
    assert(s.take(i + 1).last() == s[i]);
    if i + 1 == s.len() {
        assert(s.take(i + 1) =~= s);
    } else {
        lemma_sum_change_take(s, i + 1);
        lemma_sum_change_nonneg(s.take(i + 1));
    }
}

/// Request totals are not negative.
pub proof fn lemma_total_requests_nonneg(s: Seq<SubmittedBtcTransaction>)
    ensures
        total_requests(s) >= 0,
    decreases s.len(),
{
    if s.len() > 0 {
        lemma_total_requests_nonneg(s.drop_last());
    }
}

/// Request totals grow transaction by transaction.
pub proof fn lemma_total_requests_take(s: Seq<SubmittedBtcTransaction>, i: int)
    requires
        0 <= i < s.len(),
    ensures
        total_requests(s.take(i + 1)) == total_requests(s.take(i)) + s[i].requests@.len(),
        total_requests(s.take(i + 1)) <= total_requests(s),
    decreases s.len() - i,
{
    assert(s.take(i + 1).drop_last() =~= s.take(i));
    assert(s.take(i + 1).last() == s[i]);
    if i + 1 == s.len() {
        assert(s.take(i + 1) =~= s);
    } else {
        lemma_total_requests_take(s, i + 1);
        lemma_total_requests_nonneg(s.take(i + 1));
    }
}

/// The UTXOs of suspended entries whose value was too small.
pub open spec fn ignored_of(s: Seq<(Utxo, crate::records::SuspendedReason)>) -> Seq<Utxo>
    decreases s.len(),
{
    if s.len() == 0 {
        Seq::empty()
    } else {
        ignored_of(s.drop_last()) + (if s.last().1 == crate::records::SuspendedReason::ValueTooSmall {
            seq![s.last().0]
        } else {
            Seq::empty()
        })
    }
}

/// The UTXOs of suspended entries that were quarantined.
pub open spec fn quarantined_of(s: Seq<(Utxo, crate::records::SuspendedReason)>) -> Seq<Utxo>
    decreases s.len(),
{
    if s.len() == 0 {
        Seq::empty()
    } else {
        quarantined_of(s.drop_last()) + (if s.last().1 == crate::records::SuspendedReason::Quarantined {
            seq![s.last().0]
        } else {
            Seq::empty()
        })
    }
}

/// The UTXOs whose screening ended clean but whose mint outcome is unknown.
pub open spec fn mint_unknown_of(s: Seq<(Utxo, CheckedUtxo)>) -> Seq<Utxo>
    decreases s.len(),
{
    if s.len() == 0 {
        Seq::empty()
    } else {
        mint_unknown_of(s.drop_last()) + (if s.last().1.status
            == crate::records::UtxoCheckStatus::CleanButMintUnknown {
            seq![s.last().0]
        } else {
            Seq::empty()
        })
    }
}

/// Finds the first pending request with the given block index.
pub(crate) fn find_pending(v: &Vec<RetrieveBtcRequest>, block_index: u64) -> (r: Option<usize>)
    ensures
        match r {
            Some(i) => i < v@.len() && v@[i as int].block_index == block_index,
            None => forall|i: int| 0 <= i < v@.len() ==> v@[i].block_index != block_index,
        },
{
    let mut i: usize = 0;
    while i < v.len()
        invariant
            0 <= i <= v@.len(),
            forall|j: int| 0 <= j < i ==> v@[j].block_index != block_index,
        decreases v@.len() - i,
    {
        if v[i].block_index == block_index {
            return Some(i);
        }
        i += 1;
    }
    None
}

/// Whether a request list holds the given block index.
pub(crate) fn requests_contain_block(reqs: &Vec<RetrieveBtcRequest>, block_index: u64) -> (r:
    bool)
    ensures
        r == has_block(reqs@, block_index),
{
    match find_pending(reqs, block_index) {
        Some(_) => true,
        None => false,
    }
}

/// Whether a transaction serves the request with the given block index.
pub(crate) fn tx_contains_block(tx: &SubmittedBtcTransaction, block_index: u64) -> (r: bool)
    ensures
        r == tx_has(*tx, block_index),
{
    match find_pending(&tx.requests, block_index) {
        Some(_) => true,
        None => false,
    }
}

/// Finds the first transaction serving the given block index.
pub(crate) fn find_tx_by_block(v: &Vec<SubmittedBtcTransaction>, block_index: u64) -> (r: Option<
    usize,
>)
    ensures
        match r {
            Some(i) => i < v@.len() && tx_has(v@[i as int], block_index),
            None => forall|i: int| 0 <= i < v@.len() ==> !tx_has(#[trigger] v@[i], block_index),
        },
{
    let mut i: usize = 0;
    while i < v.len()
        invariant
            0 <= i <= v@.len(),
            forall|j: int| 0 <= j < i ==> !tx_has(#[trigger] v@[j], block_index),
        decreases v@.len() - i,
    {
        if tx_contains_block(&v[i], block_index) {
            return Some(i);
        }
        i += 1;
    }
    None
}

/// Finds the first transaction with the given identifier.
pub(crate) fn find_tx_by_txid(v: &Vec<SubmittedBtcTransaction>, txid: &Txid) -> (r: Option<usize>)
    ensures
        match r {
            Some(i) => i < v@.len() && v@[i as int].txid == *txid,
            None => forall|i: int| 0 <= i < v@.len() ==> v@[i].txid != *txid,
        },
{
    let mut i: usize = 0;
    while i < v.len()
        invariant
            0 <= i <= v@.len(),
            forall|j: int| 0 <= j < i ==> v@[j].txid != *txid,
        decreases v@.len() - i,
    {
        if v[i].txid == *txid {
            return Some(i);
        }
        i += 1;
    }
    None
}

/// Finds the first finalized record with the given block index.
pub(crate) fn find_finalized(v: &Vec<FinalizedBtcRetrieval>, block_index: u64) -> (r: Option<
    usize,
>)
    ensures
        match r {
            Some(i) => i < v@.len() && v@[i as int].request.block_index == block_index,
            None => forall|i: int|
                0 <= i < v@.len() ==> v@[i].request.block_index != block_index,
        },
{
    let mut i: usize = 0;
    while i < v.len()
        invariant
            0 <= i <= v@.len(),
            forall|j: int| 0 <= j < i ==> v@[j].request.block_index != block_index,
        decreases v@.len() - i,
    {
        if v[i].request.block_index == block_index {
            return Some(i);
        }
        i += 1;
    }
    None
}

/// Appends to `base` the elements of `extra` that it misses, in order.
pub open spec fn union_missing(base: Seq<Utxo>, extra: Seq<Utxo>) -> Seq<Utxo>
    decreases extra.len(),
{
    if extra.len() == 0 {
        base
    } else {
        let prev = union_missing(base, extra.drop_last());
        if prev.contains(extra.last()) {
            prev
        } else {
            prev.push(extra.last())
        }
    }
}

/// The union keeps elements distinct and holds exactly the elements of both
/// sequences.
pub proof fn lemma_union_missing(base: Seq<Utxo>, extra: Seq<Utxo>)
    requires
        elems_distinct(base),
    ensures
        elems_distinct(union_missing(base, extra)),
        forall|x: Utxo|
            union_missing(base, extra).contains(x) <==> (base.contains(x) || extra.contains(x)),
    decreases extra.len(),
{
    if extra.len() > 0 {
        lemma_union_missing(base, extra.drop_last());
        let prev = union_missing(base, extra.drop_last());
        let whole = union_missing(base, extra);
        assert forall|x: Utxo| whole.contains(x) implies (base.contains(x) || extra.contains(
            x,
        )) by {
            if prev.contains(x) {
                if extra.drop_last().contains(x) {
                    let j = choose|j: int|
                        0 <= j < extra.drop_last().len() && extra.drop_last()[j] == x;
                    assert(extra[j] == x);
                    assert(extra.contains(x));
                }
            }
        }
        assert forall|x: Utxo| (base.contains(x) || extra.contains(x)) implies whole.contains(
            x,
        ) by {
            if extra.contains(x) {
                let j = choose|j: int| 0 <= j < extra.len() && extra[j] == x;
                if j < extra.len() - 1 {
                    assert(extra.drop_last()[j] == x);
                    assert(extra.drop_last().contains(x));
                    assert(prev.contains(x));
                } else {
                    assert(x == extra.last());
                }
            }
            if prev.contains(x) && !whole.contains(x) {
                assert(whole == prev.push(extra.last()));
                let j = choose|j: int| 0 <= j < prev.len() && prev[j] == x;
                assert(whole[j] == x);
            }
        }
        if !prev.contains(extra.last()) {
            assert(elems_distinct(prev.push(extra.last()))) by {
                assert(forall|k: int| 0 <= k < prev.len() ==> prev[k] != extra.last());
            }
        }
    }
}

/// The bucket a map holds under a key whose buckets are all duplicate-free is
/// itself duplicate-free.
pub proof fn lemma_bucket_elems_distinct(s: Seq<(Account, Vec<Utxo>)>, a: Account)
    requires
        keys_distinct(s),
        map_of(s).contains_key(a),
        forall|i: int| 0 <= i < s.len() ==> elems_distinct(#[trigger] s[i].1@),
    ensures
        elems_distinct(map_of(s)[a]@),
{
    crate::alist::lemma_map_of_contains(s, a);
    let j = choose|j: int| 0 <= j < s.len() && s[j].0 == a;
    crate::alist::lemma_map_of_index(s, j);
}

impl CkBtcMinterState {
    /// The status a request's block index scans to, in priority order:
    /// pending, in flight, submitted, finalized, unknown.
    pub open spec fn status_spec(self, b: u64) -> RetrieveBtcStatus {
        if self.pending_has(b) {
            RetrieveBtcStatus::Pending
        } else if self.in_flight_map().contains_key(b) {
            match self.in_flight_map()[b] {
                InFlightStatus::Signing => RetrieveBtcStatus::Signing,
                InFlightStatus::Sending { txid } => RetrieveBtcStatus::Sending { txid },
            }
        } else if self.submitted_has(b) {
            let i = choose|i: int|
                0 <= i < self.submitted_transactions@.len() && tx_has(
                    #[trigger] self.submitted_transactions@[i],
                    b,
                );
            RetrieveBtcStatus::Submitted { txid: self.submitted_transactions@[i].txid }
        } else if self.finalized_has(b) {
            let i = choose|i: int|
                0 <= i < self.finalized_requests@.len()
                    && self.finalized_requests@[i].request.block_index == b;
            match self.finalized_requests@[i].state {
                FinalizedStatus::AmountTooLow => RetrieveBtcStatus::AmountTooLow,
                FinalizedStatus::Confirmed { txid } => RetrieveBtcStatus::Confirmed { txid },
            }
        } else {
            RetrieveBtcStatus::Unknown
        }
    }

    /// The extended status: reimbursements first, then the plain status.
    pub open spec fn status_v2_spec(self, b: u64) -> crate::records::RetrieveBtcStatusV2 {
        if self.reimb_pending_map().contains_key(b) {
            crate::records::RetrieveBtcStatusV2::WillReimburse(self.reimb_pending_map()[b])
        } else if self.reimbursed_map().contains_key(b) {
            crate::records::RetrieveBtcStatusV2::Reimbursed(self.reimbursed_map()[b])
        } else {
            crate::records::status_v2_of(self.status_spec(b))
        }
    }

    /// Whether a pending request carries the given block index.
    pub fn has_pending_request(&self, block_index: u64) -> (r: bool)
        ensures
            r == self.pending_has(block_index),
    {
        match find_pending(&self.pending_retrieve_btc_requests, block_index) {
            Some(_) => true,
            None => false,
        }
    }

    /// The status of the withdrawal request with the given block index.
    pub fn retrieve_btc_status(&self, block_index: u64) -> (r: RetrieveBtcStatus)
        requires
            self.inv(),
        ensures
            r == self.status_spec(block_index),
    {
        if self.has_pending_request(block_index) {
            return RetrieveBtcStatus::Pending;
        }
        proof {
            assert(crate::alist::eq_is_equality::<u64>());
        }
        match crate::alist::alist_get(&self.requests_in_flight, &block_index) {
            Some(status) => {
                return match status {
                    InFlightStatus::Signing => RetrieveBtcStatus::Signing,
                    InFlightStatus::Sending { txid } => RetrieveBtcStatus::Sending {
                        txid: *txid,
                    },
                };
            },
            None => {},
        }
        match find_tx_by_block(&self.submitted_transactions, block_index) {
            Some(i) => {
                proof {
                    let j = choose|j: int|
                        0 <= j < self.submitted_transactions@.len() && tx_has(
                            #[trigger] self.submitted_transactions@[j],
                            block_index,
                        );
                    assert(j == i);
                }
                return RetrieveBtcStatus::Submitted { txid: self.submitted_transactions[i].txid };
            },
            None => {},
        }
        match find_finalized(&self.finalized_requests, block_index) {
            Some(i) => {
                proof {
                    let j = choose|j: int|
                        0 <= j < self.finalized_requests@.len()
                            && self.finalized_requests@[j].request.block_index == block_index;
                    assert(j == i);
                }
                return match &self.finalized_requests[i].state {
                    FinalizedStatus::AmountTooLow => RetrieveBtcStatus::AmountTooLow,
                    FinalizedStatus::Confirmed { txid } => RetrieveBtcStatus::Confirmed {
                        txid: *txid,
                    },
                };
            },
            None => {},
        }
        RetrieveBtcStatus::Unknown
    }

    /// The extended status of the request with the given block index:
    /// reimbursements take precedence over the pipeline.
    pub fn retrieve_btc_status_v2(&self, block_index: u64) -> (r: crate::records::RetrieveBtcStatusV2)
        requires
            self.inv(),
        ensures
            r == self.status_v2_spec(block_index),
    {
        proof {
            assert(crate::alist::eq_is_equality::<u64>());
        }
        match crate::alist::alist_get(&self.pending_reimbursements, &block_index) {
            Some(task) => {
                return crate::records::RetrieveBtcStatusV2::WillReimburse(*task);
            },
            None => {},
        }
        match crate::alist::alist_get(&self.reimbursed_transactions, &block_index) {
            Some(deposit) => {
                return crate::records::RetrieveBtcStatusV2::Reimbursed(*deposit);
            },
            None => {},
        }
        self.retrieve_btc_status(block_index).into_v2()
    }

    /// The block indices and statuses of the given account's withdrawal
    /// requests.
    pub fn retrieve_btc_status_v2_by_account(&self, target: Account) -> (r: Vec<
        crate::records::BtcRetrievalStatusV2,
    >)
        requires
            self.inv(),
        ensures
            r@.len() == self.account_indices(target).len(),
            forall|i: int|
                0 <= i < r@.len() ==> r@[i] == (crate::records::BtcRetrievalStatusV2 {
                    block_index: self.account_indices(target)[i],
                    status_v2: Some(self.status_v2_spec(self.account_indices(target)[i])),
                }),
    {
        proof {
            assert(crate::alist::eq_is_equality::<Account>());
        }
        let mut out: Vec<crate::records::BtcRetrievalStatusV2> = Vec::new();
        let indices: &Vec<u64> = match crate::alist::alist_get(
            &self.retrieve_btc_account_to_block_indices,
            &target,
        ) {
            Some(v) => v,
            None => {
                return out;
            },
        };
        let mut i: usize = 0;
        while i < indices.len()
            invariant
                self.inv(),
                0 <= i <= indices@.len(),
                indices@ == self.account_indices(target),
                out@.len() == i,
                forall|j: int|
                    0 <= j < i ==> out@[j] == (crate::records::BtcRetrievalStatusV2 {
                        block_index: indices@[j],
                        status_v2: Some(self.status_v2_spec(indices@[j])),
                    }),
            decreases indices@.len() - i,
        {
            let b = indices[i];
            let status = self.retrieve_btc_status_v2(b);
            out.push(
                crate::records::BtcRetrievalStatusV2 { block_index: b, status_v2: Some(status) },
            );
            i += 1;
        }
        out
    }

    /// The number of withdrawal requests not yet finalized.
    pub fn count_incomplete_retrieve_btc_requests(&self) -> (r: usize)
        requires
            self.pending_retrieve_btc_requests@.len() + self.requests_in_flight@.len()
                + total_requests(self.submitted_transactions@) <= usize::MAX,
        ensures
            r == self.pending_retrieve_btc_requests@.len() + self.requests_in_flight@.len()
                + total_requests(self.submitted_transactions@),
    {
        let mut total: usize = self.pending_retrieve_btc_requests.len();
        proof {
            lemma_total_requests_nonneg(self.submitted_transactions@);
        }
        total = total + self.requests_in_flight.len();
        let mut i: usize = 0;
        proof {
            assert(total_requests(self.submitted_transactions@.take(0)) == 0);
        }
        while i < self.submitted_transactions.len()
            invariant
                0 <= i <= self.submitted_transactions@.len(),
                self.pending_retrieve_btc_requests@.len() + self.requests_in_flight@.len()
                    + total_requests(self.submitted_transactions@) <= usize::MAX,
                total == self.pending_retrieve_btc_requests@.len()
                    + self.requests_in_flight@.len() + total_requests(
                    self.submitted_transactions@.take(i as int),
                ),
            decreases self.submitted_transactions@.len() - i,
        {
            proof {
                lemma_total_requests_take(self.submitted_transactions@, i as int);
            }
            total = total + self.submitted_transactions[i].requests.len();
            i += 1;
        }
        proof {
            assert(self.submitted_transactions@.take(self.submitted_transactions@.len() as int)
                =~= self.submitted_transactions@);
        }
        total
    }

    /// The change still to come back from submitted transactions plus the
    /// value of the available UTXOs, in satoshi.
    pub fn get_total_btc_managed(&self) -> (r: u64)
        requires
            sum_change(self.submitted_transactions@) + sum_values(self.available_utxos@)
                <= u64::MAX,
        ensures
            r == sum_change(self.submitted_transactions@) + sum_values(self.available_utxos@),
    {
        let mut total: u64 = 0;
        let mut i: usize = 0;
        proof {
            assert(sum_change(self.submitted_transactions@.take(0)) == 0);
            lemma_sum_values_nonneg(self.available_utxos@);
        }
        while i < self.submitted_transactions.len()
            invariant
                0 <= i <= self.submitted_transactions@.len(),
                sum_change(self.submitted_transactions@) + sum_values(self.available_utxos@)
                    <= u64::MAX,
                sum_values(self.available_utxos@) >= 0,
                total == sum_change(self.submitted_transactions@.take(i as int)),
            decreases self.submitted_transactions@.len() - i,
        {
            proof {
                lemma_sum_change_take(self.submitted_transactions@, i as int);
            }
            match &self.submitted_transactions[i].change_output {
                Some(change_output) => {
                    total = total + change_output.value;
                },
                None => {},
            }
            i += 1;
        }
        proof {
            assert(self.submitted_transactions@.take(self.submitted_transactions@.len() as int)
                =~= self.submitted_transactions@);
            assert(sum_values(self.available_utxos@.take(0)) == 0);
        }
        let mut j: usize = 0;
        while j < self.available_utxos.len()
            invariant
                0 <= j <= self.available_utxos@.len(),
                sum_change(self.submitted_transactions@) + sum_values(self.available_utxos@)
                    <= u64::MAX,
                total == sum_change(self.submitted_transactions@) + sum_values(
                    self.available_utxos@.take(j as int),
                ),
            decreases self.available_utxos@.len() - j,
        {
            proof {
                lemma_sum_values_take(self.available_utxos@, j as int);
                lemma_sum_change_nonneg(self.submitted_transactions@);
            }
            total = total + self.available_utxos[j].value;
            j += 1;
        }
        proof {
            assert(self.available_utxos@.take(self.available_utxos@.len() as int)
                =~= self.available_utxos@);
        }
        total
    }

    /// The UTXOs of the given account known to the minter: the credited ones
    /// and the ones stashed by a concurrent finalization.
    pub fn known_utxos_for_account(&self, account: &Account) -> (r: Vec<Utxo>)
        requires
            self.inv(),
        ensures
            elems_distinct(r@),
            forall|u: Utxo|
                r@.contains(u) <==> (self.account_utxos(*account).contains(u)
                    || self.account_finalized_utxos(*account).contains(u)),
    {
        proof {
            assert(crate::alist::eq_is_equality::<Account>());
            assert(crate::alist::eq_is_equality::<Utxo>());
        }
        let mut out: Vec<Utxo> = Vec::new();
        match crate::alist::alist_get(&self.utxos_state_addresses, account) {
            Some(bucket) => {
                proof {
                    lemma_bucket_elems_distinct(self.utxos_state_addresses@, *account);
                }
                let mut i: usize = 0;
                while i < bucket.len()
                    invariant
                        0 <= i <= bucket@.len(),
                        out@ == bucket@.take(i as int),
                    decreases bucket@.len() - i,
                {
                    let u = bucket[i];
                    out.push(u);
                    proof {
                        assert(out@ =~= bucket@.take(i + 1));
                    }
                    i += 1;
                }
                proof {
                    assert(bucket@.take(bucket@.len() as int) =~= bucket@);
                }
            },
            None => {},
        }
        match crate::alist::alist_get(&self.finalized_utxos, account) {
            Some(bucket) => {
                proof {
                    lemma_bucket_elems_distinct(self.finalized_utxos@, *account);
                    lemma_union_missing(out@, bucket@);
                }
                let ghost prefix = out@;
                let mut i: usize = 0;
                while i < bucket.len()
                    invariant
                        0 <= i <= bucket@.len(),
                        out@ == union_missing(prefix, bucket@.take(i as int)),
                    decreases bucket@.len() - i,
                {
                    let u = bucket[i];
                    proof {
                        assert(bucket@.take(i + 1).drop_last() =~= bucket@.take(i as int));
                        assert(bucket@.take(i + 1).last() == bucket@[i as int]);
                    }
                    if !crate::alist::vec_contains(&out, &u) {
                        out.push(u);
                    }
                    proof {
                        assert(out@ =~= union_missing(prefix, bucket@.take(i + 1)));
                    }
                    i += 1;
                }
                proof {
                    assert(bucket@.take(bucket@.len() as int) =~= bucket@);
                }
            },
            None => {},
        }
        out
    }

    /// The suspended UTXOs whose value was too small.
    pub fn ignored_utxos(&self) -> (r: Vec<Utxo>)
        ensures
            r@ == ignored_of(self.suspended_utxos.all_entries()),
    {
        let entries = self.suspended_utxos.iter();
        let mut out: Vec<Utxo> = Vec::new();
        let mut i: usize = 0;
        while i < entries.len()
            invariant
                0 <= i <= entries@.len(),
                out@ == ignored_of(entries@.take(i as int)),
            decreases entries@.len() - i,
        {
            proof {
                assert(entries@.take(i + 1).drop_last() =~= entries@.take(i as int));
                assert(entries@.take(i + 1).last() == entries@[i as int]);
            }
            let (u, reason) = entries[i];
            if matches!(reason, crate::records::SuspendedReason::ValueTooSmall) {
                out.push(u);
            }
            proof {
                assert(out@ =~= ignored_of(entries@.take(i + 1)));
            }
            i += 1;
        }
        proof {
            assert(entries@.take(entries@.len() as int) =~= entries@);
        }
        out
    }

    /// The suspended UTXOs that the screener flagged.
    pub fn quarantined_utxos(&self) -> (r: Vec<Utxo>)
        ensures
            r@ == quarantined_of(self.suspended_utxos.all_entries()),
    {
        let entries = self.suspended_utxos.iter();
        let mut out: Vec<Utxo> = Vec::new();
        let mut i: usize = 0;
        while i < entries.len()
            invariant
                0 <= i <= entries@.len(),
                out@ == quarantined_of(entries@.take(i as int)),
            decreases entries@.len() - i,
        {
            proof {
                assert(entries@.take(i + 1).drop_last() =~= entries@.take(i as int));
                assert(entries@.take(i + 1).last() == entries@[i as int]);
            }
            let (u, reason) = entries[i];
            if matches!(reason, crate::records::SuspendedReason::Quarantined) {
                out.push(u);
            }
            proof {
                assert(out@ =~= quarantined_of(entries@.take(i + 1)));
            }
            i += 1;
        }
        proof {
            assert(entries@.take(entries@.len() as int) =~= entries@);
        }
        out
    }

    /// The UTXOs screened clean whose mint outcome is unknown.
    pub fn mint_status_unknown_utxos(&self) -> (r: Vec<Utxo>)
        ensures
            r@ == mint_unknown_of(self.checked_utxos@),
    {
        let mut out: Vec<Utxo> = Vec::new();
        let mut i: usize = 0;
        while i < self.checked_utxos.len()
            invariant
                0 <= i <= self.checked_utxos@.len(),
                out@ == mint_unknown_of(self.checked_utxos@.take(i as int)),
            decreases self.checked_utxos@.len() - i,
        {
            proof {
                assert(self.checked_utxos@.take(i + 1).drop_last() =~= self.checked_utxos@.take(
                    i as int,
                ));
                assert(self.checked_utxos@.take(i + 1).last() == self.checked_utxos@[i as int]);
            }
            let u = self.checked_utxos[i].0;
            if matches!(
                self.checked_utxos[i].1.status,
                crate::records::UtxoCheckStatus::CleanButMintUnknown
            ) {
                out.push(u);
            }
            proof {
                assert(out@ =~= mint_unknown_of(self.checked_utxos@.take(i + 1)));
            }
            i += 1;
        }
        proof {
            assert(self.checked_utxos@.take(self.checked_utxos@.len() as int)
                =~= self.checked_utxos@);
        }
        out
    }
}

} // verus!
