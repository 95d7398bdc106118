//! Tests of the mode decisions, the fee formulas, the lifecycle, the
//! suspended registry, the audit and the semantic comparison.

use ckbtc_minter::domain::{Account, BitcoinAddress, CanisterId, Network, OutPoint, Principal, Timestamp, Txid, Utxo};
use ckbtc_minter::fees::compute_min_withdrawal_amount;
use ckbtc_minter::lifecycle::{InitArgs, UpgradeArgs};
use ckbtc_minter::mode::Mode;
use ckbtc_minter::records::{RetrieveBtcRequest, SuspendedReason};
use ckbtc_minter::state::CkBtcMinterState;
use ckbtc_minter::suspended::SuspendedUtxos;
use ckbtc_minter::util::as_sorted_vec;

fn principal(tag: u8) -> Principal {
    Principal { bytes: [tag; 29] }
}

fn account(tag: u8) -> Account {
    Account { owner: principal(tag), subaccount: None }
}

fn utxo(tag: u8, vout: u32, value: u64) -> Utxo {
    Utxo {
        outpoint: OutPoint { txid: Txid { bytes: [tag; 32] }, vout },
        value,
        height: 10,
    }
}

fn base_args() -> InitArgs {
    InitArgs {
        btc_network: Network::Mainnet,
        ecdsa_key_name: "main_key".to_string(),
        retrieve_btc_min_amount: 10_000,
        ledger_id: CanisterId { bytes: [9u8; 29] },
        max_time_in_queue_nanos: 1_000_000,
        min_confirmations: Some(6),
        mode: Mode::GeneralAvailability,
        check_fee: Some(1_000),
        btc_checker_principal: Some(CanisterId { bytes: [8u8; 29] }),
        kyt_principal: None,
        kyt_fee: None,
        get_utxos_cache_expiration_seconds: None,
    }
}

fn base_state() -> CkBtcMinterState {
    CkBtcMinterState::init(base_args())
}

#[test]
fn mode_decides_deposits() {
    let p = principal(1);
    let q = principal(2);
    assert!(Mode::GeneralAvailability.is_deposit_available_for(&p).is_ok());
    assert_eq!(
        Mode::ReadOnly.is_deposit_available_for(&p),
        Err("the minter is in read-only mode".to_string())
    );
    let restricted = Mode::RestrictedTo(vec![p]);
    assert!(restricted.is_deposit_available_for(&p).is_ok());
    assert_eq!(
        restricted.is_deposit_available_for(&q),
        Err("access to the minter is temporarily restricted".to_string())
    );
    let deposits = Mode::DepositsRestrictedTo(vec![p]);
    assert!(deposits.is_deposit_available_for(&p).is_ok());
    assert_eq!(
        deposits.is_deposit_available_for(&q),
        Err("BTC deposits are temporarily restricted".to_string())
    );
}

#[test]
fn mode_decides_withdrawals() {
    let p = principal(1);
    let q = principal(2);
    assert!(Mode::GeneralAvailability.is_withdrawal_available_for(&p).is_ok());
    assert_eq!(
        Mode::ReadOnly.is_withdrawal_available_for(&p),
        Err("the minter is in read-only mode".to_string())
    );
    let restricted = Mode::RestrictedTo(vec![p]);
    assert!(restricted.is_withdrawal_available_for(&p).is_ok());
    assert_eq!(
        restricted.is_withdrawal_available_for(&q),
        Err("BTC withdrawals are temporarily restricted".to_string())
    );
    let deposits_only = Mode::DepositsRestrictedTo(vec![p]);
    assert!(deposits_only.is_withdrawal_available_for(&q).is_ok());
}

#[test]
fn fee_floors_by_network() {
    let mut state = base_state();
    assert_eq!(state.minimum_fee_per_vbyte(), 1_500);
    state.btc_network = Network::Testnet;
    assert_eq!(state.minimum_fee_per_vbyte(), 1_000);
    state.btc_network = Network::Regtest;
    assert_eq!(state.minimum_fee_per_vbyte(), 0);
    assert_eq!(state.estimate_median_fee_per_vbyte(), Some(5_000));
}

#[test]
fn fee_estimate_applies_floor() {
    let state = base_state();
    // The fresh state holds a hundred one-millisatoshi samples.
    assert_eq!(state.estimate_median_fee_per_vbyte(), Some(1_500));
}

#[test]
fn fee_update_recomputes_minimum() {
    let mut state = base_state();
    assert_eq!(state.update_median_fee_per_vbyte(vec![2_000; 99]), None);
    let r = state.update_median_fee_per_vbyte(vec![2_000; 100]);
    assert_eq!(r, Some(2_000));
    // 22_100 + 221 * 2 + 305 + 1_000, with the check fee on top.
    assert_eq!(state.fee_based_retrieve_btc_min_amount, 24_847);
    assert_eq!(compute_min_withdrawal_amount(2_000, 10_000, 1_000), 24_847);
}

#[test]
fn min_withdrawal_keeps_configured_floor() {
    // The per-request bound stays below the configured minimum here, so the
    // configured minimum wins: (100_000 - 1_000) + 1_000.
    assert_eq!(compute_min_withdrawal_amount(0, 100_000, 1_000), 100_000);
}

#[test]
fn can_form_a_batch_rules() {
    let mut state = base_state();
    assert!(!state.can_form_a_batch(1, 0));
    state.push_back_pending_request(RetrieveBtcRequest {
        amount: 15_000,
        address: BitcoinAddress::P2wpkhV0([7u8; 20]),
        block_index: 1,
        received_at: 100,
        kyt_provider: None,
        reimbursement_account: None,
    });
    assert!(state.can_form_a_batch(1, 100));
    assert!(!state.can_form_a_batch(2, 100));
    // The oldest pending request has waited out the queue bound.
    assert!(state.can_form_a_batch(2, 100 + state.max_time_in_queue_nanos + 1));
    // The newest arrived long after the last submission.
    state.last_transaction_submission_time_ns = Some(10);
    state.pending_retrieve_btc_requests[0].received_at = 10 + state.max_time_in_queue_nanos + 1;
    assert!(state.can_form_a_batch(2, 100));
}

#[test]
fn lifecycle_upgrade_rules() {
    let mut state = base_state();
    state.upgrade(UpgradeArgs {
        retrieve_btc_min_amount: Some(20_000),
        max_time_in_queue_nanos: Some(5),
        min_confirmations: Some(12),
        mode: Some(Mode::ReadOnly),
        check_fee: None,
        btc_checker_principal: None,
        kyt_principal: None,
        kyt_fee: Some(900),
        get_utxos_cache_expiration_seconds: Some(60),
    });
    assert_eq!(state.retrieve_btc_min_amount, 20_000);
    assert_eq!(state.fee_based_retrieve_btc_min_amount, 20_000);
    assert_eq!(state.max_time_in_queue_nanos, 5);
    // Raising the confirmation count is ignored.
    assert_eq!(state.min_confirmations, 6);
    assert_eq!(state.mode, Mode::ReadOnly);
    assert_eq!(state.check_fee, 900);
    assert_eq!(state.get_utxos_cache.expiration_seconds, 60);
    state.upgrade(UpgradeArgs {
        retrieve_btc_min_amount: None,
        max_time_in_queue_nanos: None,
        min_confirmations: Some(3),
        mode: None,
        check_fee: None,
        btc_checker_principal: None,
        kyt_principal: None,
        kyt_fee: None,
        get_utxos_cache_expiration_seconds: None,
    });
    assert_eq!(state.min_confirmations, 3);
}

#[test]
fn lifecycle_reinit_overwrites_config() {
    let mut state = base_state();
    state.add_utxos(account(1), vec![utxo(11, 0, 50_000)]);
    let mut args = base_args();
    args.btc_network = Network::Testnet;
    args.retrieve_btc_min_amount = 30_000;
    args.check_fee = None;
    args.kyt_fee = Some(800);
    state.reinit(args);
    assert_eq!(state.btc_network, Network::Testnet);
    assert_eq!(state.retrieve_btc_min_amount, 30_000);
    assert_eq!(state.check_fee, 800);
    // The bookkeeping survives a re-initialization.
    assert_eq!(state.tokens_minted, 50_000);
}

#[test]
fn validate_config_rules() {
    let mut state = base_state();
    assert!(state.validate_config().is_ok());
    state.check_fee = 20_000;
    assert!(state.validate_config().is_err());
    state.check_fee = 1_000;
    state.ecdsa_key_name = String::new();
    assert!(state.validate_config().is_err());
    state.ecdsa_key_name = "main_key".to_string();
    state.btc_checker_principal = None;
    assert!(state.validate_config().is_err());
}

#[test]
fn audit_flags_broken_conditions() {
    let mut state = base_state();
    assert!(state.check_invariants().is_ok());
    state.check_fee = 20_000;
    assert!(state.check_invariants().is_err());
    state.check_fee = 1_000;
    state.pending_retrieve_btc_requests = vec![
        RetrieveBtcRequest {
            amount: 15_000,
            address: BitcoinAddress::P2wpkhV0([7u8; 20]),
            block_index: 1,
            received_at: 200,
            kyt_provider: None,
            reimbursement_account: None,
        },
        RetrieveBtcRequest {
            amount: 15_000,
            address: BitcoinAddress::P2wpkhV0([7u8; 20]),
            block_index: 2,
            received_at: 100,
            kyt_provider: None,
            reimbursement_account: None,
        },
    ];
    assert!(state.check_invariants().is_err());
}

#[test]
fn suspended_registry_operations() {
    let mut registry = SuspendedUtxos::new();
    let alice = account(1);
    let u = utxo(31, 0, 400);
    let t = Timestamp { nanos: 5 };
    assert!(registry.insert(alice, u, SuspendedReason::ValueTooSmall, Some(t)));
    // The identical suspension is reported as already present.
    assert!(!registry.insert(alice, u, SuspendedReason::ValueTooSmall, Some(t)));
    // A changed reason is an update.
    assert!(registry.insert(alice, u, SuspendedReason::Quarantined, None));
    let (checked_at, reason) = registry.contains_utxo(&u, &alice);
    assert_eq!(checked_at, Some(t));
    assert_eq!(reason, Some(SuspendedReason::Quarantined));
    assert_eq!(registry.num_utxos(), 1);
    registry.remove(&alice, &u);
    assert_eq!(registry.num_utxos(), 0);
    assert_eq!(registry.contains_utxo(&u, &alice), (None, None));
}

#[test]
fn legacy_suspensions_are_visible() {
    let mut registry = SuspendedUtxos::new();
    let u = utxo(32, 1, 300);
    registry.insert_without_account(u, SuspendedReason::ValueTooSmall);
    assert_eq!(registry.utxos_without_account().len(), 1);
    let (_, reason) = registry.contains_utxo(&u, &account(2));
    assert_eq!(reason, Some(SuspendedReason::ValueTooSmall));
    assert_eq!(registry.iter(), vec![(u, SuspendedReason::ValueTooSmall)]);
    // Account-tagged insertion clears the legacy entry.
    assert!(registry.insert(account(2), u, SuspendedReason::ValueTooSmall, None));
    assert!(registry.utxos_without_account().is_empty());
    assert_eq!(registry.num_utxos(), 1);
    registry.remove_without_account(&u);
    assert_eq!(registry.num_utxos(), 0);
}

#[test]
fn ignored_and_quarantined_views() {
    let mut state = base_state();
    let small = utxo(33, 0, 500);
    let flagged = utxo(34, 0, 90_000);
    let t = Timestamp { nanos: 5 };
    state.suspend_utxo(small, account(1), SuspendedReason::ValueTooSmall, t);
    state.suspend_utxo(flagged, account(1), SuspendedReason::Quarantined, t);
    assert_eq!(state.ignored_utxos(), vec![small]);
    assert_eq!(state.quarantined_utxos(), vec![flagged]);
}

#[test]
fn checked_utxos_are_consumed_by_minting() {
    let mut state = base_state();
    let alice = account(1);
    let u = utxo(35, 0, 40_000);
    state.mark_utxo_checked_v2(u, &alice);
    assert!(state.mint_status_unknown_utxos().is_empty());
    state.mark_utxo_checked_mint_unknown(utxo(36, 0, 30_000), &alice);
    assert_eq!(state.mint_status_unknown_utxos(), vec![utxo(36, 0, 30_000)]);
    state.add_utxos(alice, vec![u]);
    assert_eq!(state.checked_utxos.len(), 1);
}

#[test]
fn legacy_mark_checked_credits_provider_once() {
    let mut state = base_state();
    let provider = principal(4);
    let u = utxo(37, 0, 40_000);
    state.mark_utxo_checked(u, None, Some(provider));
    assert_eq!(state.owed_kyt_amount, vec![(provider, 1_000)]);
    // Marking the same UTXO again does not charge again.
    state.mark_utxo_checked(u, None, Some(provider));
    assert_eq!(state.owed_kyt_amount, vec![(provider, 1_000)]);
}

#[test]
fn totals_and_counts() {
    let mut state = base_state();
    state.add_utxos(account(1), vec![utxo(11, 0, 30_000), utxo(12, 0, 20_000)]);
    assert_eq!(state.get_total_btc_managed(), 50_000);
    state.push_back_pending_request(RetrieveBtcRequest {
        amount: 15_000,
        address: BitcoinAddress::P2wpkhV0([7u8; 20]),
        block_index: 1,
        received_at: 100,
        kyt_provider: None,
        reimbursement_account: None,
    });
    assert_eq!(state.count_incomplete_retrieve_btc_requests(), 1);
    assert_eq!(state.tokens_burned, 15_000);
}

#[test]
fn sorted_keys() {
    assert_eq!(as_sorted_vec(vec![3, 1, 2, 1]), vec![1, 1, 2, 3]);
    assert_eq!(as_sorted_vec(vec![]), Vec::<u64>::new());
}

#[test]
fn semantic_comparison() {
    let a = base_state();
    let mut b = base_state();
    assert!(a.check_semantically_eq(&b).is_ok());
    b.check_fee = 999;
    assert_eq!(
        a.check_semantically_eq(&b),
        Err("check_fee does not match".to_string())
    );
    let mut c = base_state();
    c.add_utxos(account(1), vec![utxo(11, 0, 30_000)]);
    assert!(a.check_semantically_eq(&c).is_err());
}

#[test]
fn processable_splits_new_and_known() {
    let mut state = base_state();
    let alice = account(1);
    let known = utxo(41, 0, 30_000);
    let fresh = utxo(42, 0, 35_000);
    state.add_utxos(alice, vec![known]);
    let now = Timestamp { nanos: 50 };
    let (processable, still) = state.processable_utxos_for_account(
        vec![known, fresh],
        &alice,
        &now,
    );
    assert!(still.is_empty());
    assert_eq!(processable.new_utxos, vec![fresh]);
    assert_eq!(processable.iter(), vec![fresh]);
}

#[test]
fn fee_estimate_needs_enough_samples() {
    let mut state = base_state();
    state.last_fee_per_vbyte = vec![1; 50];
    assert_eq!(state.estimate_median_fee_per_vbyte(), None);
    state.btc_network = Network::Regtest;
    // Regtest never lacks an estimate.
    assert_eq!(state.estimate_median_fee_per_vbyte(), Some(5_000));
}

#[test]
fn marking_checked_lifts_the_suspension() {
    let mut state = base_state();
    let alice = account(1);
    let u = utxo(38, 0, 700);
    state.suspend_utxo(u, alice, SuspendedReason::ValueTooSmall, Timestamp { nanos: 5 });
    assert_ne!(state.suspended_utxos.contains_utxo(&u, &alice), (None, None));
    state.mark_utxo_checked_v2(u, &alice);
    assert_eq!(state.suspended_utxos.contains_utxo(&u, &alice), (None, None));
    assert_eq!(state.checked_utxos.len(), 1);
}

#[test]
fn value_too_small_entries_respect_the_fee() {
    let mut state = base_state();
    let u = utxo(39, 0, 1_000);
    assert!(state.suspend_utxo(u, account(1), SuspendedReason::ValueTooSmall, Timestamp { nanos: 5 }));
    assert!(state.check_invariants().is_ok());
}
