//! Scenario tests for the minter state: deposits, batches, replacement
//! chains, suspensions, reimbursements and fees.

use ckbtc_minter::domain::{Account, BitcoinAddress, CanisterId, Network, OutPoint, Principal, Timestamp, Txid, Utxo};
use ckbtc_minter::lifecycle::InitArgs;
use ckbtc_minter::mode::Mode;
use ckbtc_minter::records::{
    InFlightStatus, Overdraft, ReimburseDepositTask, ReimbursementReason, RetrieveBtcRequest,
    RetrieveBtcStatus, RetrieveBtcStatusV2, SubmittedBtcTransaction, SuspendedReason,
};
use ckbtc_minter::state::CkBtcMinterState;

fn principal(tag: u8) -> Principal {
    Principal { bytes: [tag; 29] }
}

fn account(tag: u8) -> Account {
    Account { owner: principal(tag), subaccount: None }
}

fn txid(tag: u8) -> Txid {
    Txid { bytes: [tag; 32] }
}

fn outpoint(tag: u8, vout: u32) -> OutPoint {
    OutPoint { txid: txid(tag), vout }
}

fn utxo(tag: u8, vout: u32, value: u64) -> Utxo {
    Utxo { outpoint: outpoint(tag, vout), value, height: 10 }
}

fn address() -> BitcoinAddress {
    BitcoinAddress::P2wpkhV0([7u8; 20])
}

fn request(block_index: u64, amount: u64, received_at: u64) -> RetrieveBtcRequest {
    RetrieveBtcRequest {
        amount,
        address: address(),
        block_index,
        received_at,
        kyt_provider: None,
        reimbursement_account: None,
    }
}

fn submitted(tag: u8, requests: Vec<RetrieveBtcRequest>, used: Vec<Utxo>) -> SubmittedBtcTransaction {
    SubmittedBtcTransaction {
        requests,
        txid: txid(tag),
        used_utxos: used,
        submitted_at: 1_000,
        change_output: None,
        fee_per_vbyte: None,
    }
}

fn base_state() -> CkBtcMinterState {
    CkBtcMinterState::init(InitArgs {
        btc_network: Network::Mainnet,
        ecdsa_key_name: "main_key".to_string(),
        retrieve_btc_min_amount: 10_000,
        ledger_id: CanisterId { bytes: [9u8; 29] },
        max_time_in_queue_nanos: 1_000_000,
        min_confirmations: Some(6),
        mode: Mode::GeneralAvailability,
        check_fee: Some(1_000),
        btc_checker_principal: Some(CanisterId { bytes: [8u8; 29] }),
        kyt_principal: None,
        kyt_fee: None,
        get_utxos_cache_expiration_seconds: None,
    })
}

#[test]
fn single_deposit_mint() {
    let mut state = base_state();
    let alice = account(1);
    let u = utxo(11, 0, 50_000);
    state.add_utxos(alice, vec![u]);
    assert_eq!(state.tokens_minted, 50_000);
    assert_eq!(state.available_utxos, vec![u]);
    assert_eq!(state.known_utxos_for_account(&alice), vec![u]);
    assert_eq!(state.outpoint_account, vec![(outpoint(11, 0), alice)]);
    assert!(state.check_invariants().is_ok());
}

#[test]
fn batch_build_under_liquidity() {
    let mut state = base_state();
    state.add_utxos(account(1), vec![utxo(11, 0, 100_000)]);
    state.push_back_pending_request(request(1, 60_000, 100));
    state.push_back_pending_request(request(2, 50_000, 200));
    state.push_back_pending_request(request(3, 20_000, 300));
    let batch = state.build_batch(10);
    let amounts: Vec<u64> = batch.iter().map(|r| r.amount).collect();
    assert_eq!(amounts, vec![60_000, 20_000]);
    let remaining: Vec<u64> = state
        .pending_retrieve_btc_requests
        .iter()
        .map(|r| r.amount)
        .collect();
    assert_eq!(remaining, vec![50_000]);
}

#[test]
fn batch_respects_max_size() {
    let mut state = base_state();
    state.add_utxos(account(1), vec![utxo(11, 0, 100_000)]);
    state.push_back_pending_request(request(1, 10_000, 100));
    state.push_back_pending_request(request(2, 10_000, 200));
    state.push_back_pending_request(request(3, 10_000, 300));
    let batch = state.build_batch(2);
    assert_eq!(batch.len(), 2);
    assert_eq!(state.pending_retrieve_btc_requests.len(), 1);
}

#[test]
fn rbf_chain_finalization() {
    let mut state = base_state();
    let r = request(1, 20_000, 100);
    state.push_submitted_transaction(submitted(21, vec![r], vec![]));
    state.replace_transaction(&txid(21), submitted(22, vec![r], vec![]));
    state.replace_transaction(&txid(22), submitted(23, vec![r], vec![]));
    assert_eq!(state.submitted_transactions.len(), 1);
    assert_eq!(state.stuck_transactions.len(), 2);
    assert_eq!(state.find_last_replacement_tx(&txid(21)), Some(txid(23)));
    assert_eq!(state.longest_resubmission_chain_size(), 2);
    state.finalize_transaction(&txid(23));
    assert!(state.replacement_txid.is_empty());
    assert!(state.rev_replacement_txid.is_empty());
    assert!(state.submitted_transactions.is_empty());
    assert!(state.stuck_transactions.is_empty());
    assert_eq!(
        state.retrieve_btc_status(1),
        RetrieveBtcStatus::Confirmed { txid: txid(23) }
    );
    assert_eq!(state.finalized_requests_count, 1);
    assert!(state.check_invariants().is_ok());
}

#[test]
fn suspended_utxo_reevaluation() {
    let hour = 3_600_000_000_000u64;
    let t0 = Timestamp { nanos: 1_000 };
    let mut state = base_state();
    let alice = account(1);
    let u = utxo(31, 0, 25_000);
    assert!(state.suspend_utxo(u, alice, SuspendedReason::Quarantined, t0));
    let at_23h = Timestamp { nanos: t0.nanos + 23 * hour };
    let (processable, still) = state.processable_utxos_for_account(vec![u], &alice, &at_23h);
    assert!(processable.iter().is_empty());
    assert_eq!(still.len(), 1);
    assert_eq!(still[0].utxo, u);
    assert_eq!(still[0].reason, SuspendedReason::Quarantined);
    assert_eq!(still[0].earliest_retry, t0.nanos + 24 * hour);
    let at_25h = Timestamp { nanos: t0.nanos + 25 * hour };
    let (processable, still) = state.processable_utxos_for_account(vec![u], &alice, &at_25h);
    assert!(still.is_empty());
    assert_eq!(processable.previously_quarantined_utxos, vec![u]);
    assert!(processable.new_utxos.is_empty());
    assert!(processable.previously_ignored_utxos.is_empty());
}

#[test]
fn overdraft_distribution() {
    let mut state = base_state();
    let provider = principal(5);
    state.owed_kyt_amount = vec![(provider, 500)];
    let r = state.distribute_kyt_fee(provider, 800);
    match r {
        Err(Overdraft(shortfall)) => assert_eq!(shortfall, 300),
        Ok(()) => panic!("expected an overdraft"),
    }
    assert!(state.owed_kyt_amount.is_empty());
}

#[test]
fn distribution_success_paths() {
    let mut state = base_state();
    let provider = principal(5);
    state.owed_kyt_amount = vec![(provider, 500)];
    assert!(state.distribute_kyt_fee(provider, 0).is_ok());
    assert_eq!(state.owed_kyt_amount, vec![(provider, 500)]);
    assert!(state.distribute_kyt_fee(provider, 200).is_ok());
    assert_eq!(state.owed_kyt_amount, vec![(provider, 300)]);
    assert!(state.distribute_kyt_fee(provider, 300).is_ok());
    assert!(state.owed_kyt_amount.is_empty());
    assert!(state.distribute_kyt_fee(provider, 1).is_err());
}

#[test]
fn reimbursement_then_query() {
    let mut state = base_state();
    let alice = account(1);
    let task = ReimburseDepositTask {
        account: alice,
        amount: 42,
        reason: ReimbursementReason::CallFailed,
    };
    state.schedule_deposit_reimbursement(7, task);
    assert_eq!(
        state.retrieve_btc_status_v2(7),
        RetrieveBtcStatusV2::WillReimburse(task)
    );
    let by_account = state.retrieve_btc_status_v2_by_account(alice);
    assert_eq!(by_account.len(), 1);
    assert_eq!(by_account[0].block_index, 7);
    state.complete_reimbursement(7, 8);
    match state.retrieve_btc_status_v2(7) {
        RetrieveBtcStatusV2::Reimbursed(deposit) => {
            assert_eq!(deposit.mint_block_index, 8);
            assert_eq!(deposit.amount, 42);
            assert_eq!(deposit.account, alice);
        }
        other => panic!("unexpected status {:?}", other),
    }
}

#[test]
fn tainted_reimbursement_credits_provider() {
    let mut state = base_state();
    let provider = principal(6);
    let task = ReimburseDepositTask {
        account: account(1),
        amount: 10,
        reason: ReimbursementReason::TaintedDestination {
            kyt_provider: provider,
            kyt_fee: 77,
        },
    };
    state.schedule_deposit_reimbursement(9, task);
    assert_eq!(state.owed_kyt_amount, vec![(provider, 77)]);
}

#[test]
fn status_priority_order() {
    let mut state = base_state();
    assert_eq!(state.retrieve_btc_status(99), RetrieveBtcStatus::Unknown);
    state.push_back_pending_request(request(4, 15_000, 50));
    assert_eq!(state.retrieve_btc_status(4), RetrieveBtcStatus::Pending);
    let removed = state.remove_pending_request(4);
    assert_eq!(removed, Some(request(4, 15_000, 50)));
    state.push_in_flight_request(4, InFlightStatus::Signing);
    assert_eq!(state.retrieve_btc_status(4), RetrieveBtcStatus::Signing);
    state.push_in_flight_request(4, InFlightStatus::Sending { txid: txid(41) });
    assert_eq!(
        state.retrieve_btc_status(4),
        RetrieveBtcStatus::Sending { txid: txid(41) }
    );
    state.push_submitted_transaction(submitted(41, vec![request(4, 15_000, 50)], vec![]));
    assert!(state.requests_in_flight.is_empty());
    assert_eq!(
        state.retrieve_btc_status(4),
        RetrieveBtcStatus::Submitted { txid: txid(41) }
    );
    state.finalize_transaction(&txid(41));
    assert_eq!(
        state.retrieve_btc_status(4),
        RetrieveBtcStatus::Confirmed { txid: txid(41) }
    );
}

#[test]
fn amount_too_low_finalization() {
    let mut state = base_state();
    state.finalize_amount_too_low(request(12, 500, 10));
    assert_eq!(state.retrieve_btc_status(12), RetrieveBtcStatus::AmountTooLow);
    assert_eq!(
        state.retrieve_btc_status_v2(12),
        RetrieveBtcStatusV2::AmountTooLow
    );
}

#[test]
fn in_flight_requests_return_to_queue_sorted() {
    let mut state = base_state();
    state.push_in_flight_request(2, InFlightStatus::Signing);
    state.push_in_flight_request(1, InFlightStatus::Signing);
    state.push_back_pending_request(request(3, 12_000, 150));
    state.push_from_in_flight_to_pending_requests(vec![
        request(2, 11_000, 200),
        request(1, 10_500, 100),
    ]);
    assert!(state.requests_in_flight.is_empty());
    let order: Vec<u64> = state
        .pending_retrieve_btc_requests
        .iter()
        .map(|r| r.block_index)
        .collect();
    assert_eq!(order, vec![1, 3, 2]);
    assert!(state.check_invariants().is_ok());
}

#[test]
fn queue_monotonicity_preserved() {
    let mut state = base_state();
    state.push_back_pending_request(request(1, 10_000, 100));
    state.push_back_pending_request(request(2, 10_000, 100));
    state.push_back_pending_request(request(3, 10_000, 250));
    let times: Vec<u64> = state
        .pending_retrieve_btc_requests
        .iter()
        .map(|r| r.received_at)
        .collect();
    assert_eq!(times, vec![100, 100, 250]);
    assert!(state.check_invariants().is_ok());
}

#[test]
fn finalization_stashes_utxos_of_locked_accounts() {
    let mut state = base_state();
    let alice = account(1);
    let u = utxo(11, 0, 40_000);
    state.add_utxos(alice, vec![u]);
    // An update-balance call for alice is in progress.
    state.update_balance_accounts.push(alice);
    state.push_submitted_transaction(submitted(51, vec![request(6, 20_000, 10)], vec![u]));
    state.finalize_transaction(&txid(51));
    // The freed UTXO is stashed for the in-flight call instead of vanishing.
    assert_eq!(state.finalized_utxos, vec![(alice, vec![u])]);
    assert!(state.utxos_state_addresses.is_empty());
    assert!(state.outpoint_account.is_empty());
    assert_eq!(state.known_utxos_for_account(&alice), vec![u]);
    assert!(state.check_invariants().is_ok());
}

#[test]
fn finalization_forgets_utxos_of_unlocked_accounts() {
    let mut state = base_state();
    let alice = account(1);
    let u = utxo(11, 0, 40_000);
    state.add_utxos(alice, vec![u]);
    state.push_submitted_transaction(submitted(52, vec![request(6, 20_000, 10)], vec![u]));
    state.finalize_transaction(&txid(52));
    assert!(state.finalized_utxos.is_empty());
    assert!(state.utxos_state_addresses.is_empty());
    assert!(state.known_utxos_for_account(&alice).is_empty());
}

#[test]
fn total_managed_includes_change() {
    let mut state = base_state();
    state.add_utxos(account(1), vec![utxo(11, 0, 30_000)]);
    let mut tx = submitted(53, vec![request(6, 20_000, 10)], vec![]);
    tx.change_output = Some(ckbtc_minter::records::ChangeOutput { vout: 1, value: 4_000 });
    state.push_submitted_transaction(tx);
    assert_eq!(state.get_total_btc_managed(), 34_000);
}

#[test]
fn batch_without_liquidity_keeps_the_queue() {
    let mut state = base_state();
    state.push_back_pending_request(request(1, 60_000, 100));
    let batch = state.build_batch(10);
    assert!(batch.is_empty());
    assert_eq!(state.pending_retrieve_btc_requests.len(), 1);
}

#[test]
fn counters_never_decrease() {
    let mut state = base_state();
    let minted0 = state.tokens_minted;
    let burned0 = state.tokens_burned;
    let finalized0 = state.finalized_requests_count;
    state.add_utxos(account(1), vec![utxo(11, 0, 30_000)]);
    state.push_back_pending_request(request(1, 15_000, 100));
    let _ = state.build_batch(10);
    state.push_submitted_transaction(submitted(54, vec![request(1, 15_000, 100)], vec![]));
    state.finalize_transaction(&txid(54));
    assert!(state.tokens_minted >= minted0);
    assert!(state.tokens_burned >= burned0);
    assert!(state.finalized_requests_count >= finalized0);
    assert_eq!(state.finalized_requests_count, 1);
}

#[test]
fn enqueue_credits_screening_provider() {
    let mut state = base_state();
    let provider = principal(5);
    let mut r = request(1, 15_000, 100);
    r.kyt_provider = Some(provider);
    state.push_back_pending_request(r);
    assert_eq!(state.owed_kyt_amount, vec![(provider, 1_000)]);
    assert_eq!(state.tokens_burned, 15_000);
}

#[test]
fn replacement_queries_on_fresh_state() {
    let mut state = base_state();
    assert_eq!(state.find_last_replacement_tx(&txid(1)), None);
    assert_eq!(state.longest_resubmission_chain_size(), 0);
    assert_eq!(state.remove_pending_request(1), None);
}

#[test]
fn each_request_sits_in_one_place() {
    let mut state = base_state();
    state.add_utxos(account(1), vec![utxo(11, 0, 100_000)]);
    state.push_back_pending_request(request(1, 15_000, 100));
    let in_pending = |s: &CkBtcMinterState| {
        s.pending_retrieve_btc_requests.iter().any(|r| r.block_index == 1)
    };
    let in_flight = |s: &CkBtcMinterState| s.requests_in_flight.iter().any(|e| e.0 == 1);
    let in_submitted = |s: &CkBtcMinterState| {
        s.submitted_transactions
            .iter()
            .any(|t| t.requests.iter().any(|r| r.block_index == 1))
    };
    let in_finalized = |s: &CkBtcMinterState| {
        s.finalized_requests.iter().any(|f| f.request.block_index == 1)
    };
    assert!(in_pending(&state) && !in_flight(&state) && !in_submitted(&state) && !in_finalized(&state));
    let batch = state.build_batch(10);
    state.push_in_flight_request(1, InFlightStatus::Signing);
    assert!(!in_pending(&state) && in_flight(&state) && !in_submitted(&state) && !in_finalized(&state));
    state.push_submitted_transaction(submitted(61, batch, vec![]));
    assert!(!in_pending(&state) && !in_flight(&state) && in_submitted(&state) && !in_finalized(&state));
    state.finalize_transaction(&txid(61));
    assert!(!in_pending(&state) && !in_flight(&state) && !in_submitted(&state) && in_finalized(&state));
}

#[test]
fn replacement_edges_are_inverse() {
    let mut state = base_state();
    let r = request(1, 20_000, 100);
    state.push_submitted_transaction(submitted(21, vec![r], vec![]));
    state.replace_transaction(&txid(21), submitted(22, vec![r], vec![]));
    assert_eq!(state.replacement_txid, vec![(txid(21), txid(22))]);
    assert_eq!(state.rev_replacement_txid, vec![(txid(22), txid(21))]);
    assert!(state.check_invariants().is_ok());
}

#[test]
fn finalized_ring_evicts_beyond_its_bound() {
    let mut state = base_state();
    let requests: Vec<RetrieveBtcRequest> =
        (0..105).map(|b| request(b, 10_000, 100)).collect();
    state.push_submitted_transaction(submitted(62, requests, vec![]));
    state.finalize_transaction(&txid(62));
    assert_eq!(state.finalized_requests.len(), 100);
    assert_eq!(state.finalized_requests_count, 105);
    // The five oldest records were evicted; their status is unknown again.
    assert_eq!(state.retrieve_btc_status(0), RetrieveBtcStatus::Unknown);
    assert_eq!(state.retrieve_btc_status(4), RetrieveBtcStatus::Unknown);
    assert_eq!(
        state.retrieve_btc_status(5),
        RetrieveBtcStatus::Confirmed { txid: txid(62) }
    );
    assert_eq!(
        state.retrieve_btc_status(104),
        RetrieveBtcStatus::Confirmed { txid: txid(62) }
    );
}
