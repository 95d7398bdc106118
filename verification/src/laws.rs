//! The global laws of the minter state: what holds of every state that
//! satisfies the invariant, stated on their own so a reader sees them
//! directly.

use vstd::prelude::*;

use crate::alist::map_of;
use crate::domain::{Account, OutPoint, Txid, Utxo};
use crate::records::SuspendedReason;
use crate::replacement::{path_defined, step_n};
use crate::state::{CkBtcMinterState, MAX_FINALIZED_REQUESTS};

verus! {

/// Each block index is recorded at most once across the pipeline: a pending
/// request, an in-flight request, a submitted transaction and a finalized
/// record never share one.  The stuck list is left out: a replacement
/// transaction carries the same requests as the stuck one it replaced, so a
/// block index may stand both in a submitted replacement and in the stuck
/// transactions behind it.
pub proof fn lemma_pipeline_partition(s: CkBtcMinterState)
    requires
        s.inv(),
    ensures
        forall|b: u64|
            #[trigger] s.pending_has(b) ==> !s.in_flight_map().contains_key(b)
                && !s.submitted_has(b) && !s.finalized_has(b),
        forall|b: u64|
            #[trigger] s.in_flight_map().contains_key(b) ==> !s.submitted_has(b)
                && !s.finalized_has(b),
        forall|b: u64| #[trigger] s.submitted_has(b) ==> !s.finalized_has(b),
        forall|i: int, j: int|
            0 <= i < j < s.pending_retrieve_btc_requests@.len()
                ==> s.pending_retrieve_btc_requests@[i].block_index
                != s.pending_retrieve_btc_requests@[j].block_index,
        forall|i: int, j: int, b: u64|
            0 <= i < j < s.submitted_transactions@.len() ==> !(#[trigger] crate::state::tx_has(
                s.submitted_transactions@[i],
                b,
            ) && #[trigger] crate::state::tx_has(s.submitted_transactions@[j], b)),
        forall|i: int, j: int|
            0 <= i < j < s.finalized_requests@.len()
                ==> s.finalized_requests@[i].request.block_index
                != s.finalized_requests@[j].request.block_index,
{
    assert forall|b: u64| #[trigger] s.pending_has(b) implies (!s.in_flight_map().contains_key(
        b,
    ) && !s.submitted_has(b) && !s.finalized_has(b)) by {
        assert(crate::state::has_block(s.pending_retrieve_btc_requests@, b));
    }
    assert forall|b: u64| #[trigger] s.in_flight_map().contains_key(b) implies (
    !s.submitted_has(b) && !s.finalized_has(b)) by {
        assert(map_of(s.requests_in_flight@).contains_key(b));
    }
    assert forall|b: u64| #[trigger] s.submitted_has(b) implies !s.finalized_has(b) by {
        assert(crate::state::txs_have(s.submitted_transactions@, b));
    }
}

/// An outpoint is assigned to an account exactly when that account's bucket
/// of credited UTXOs holds a UTXO with that outpoint.  The UTXOs stashed by a
/// concurrent balance update are not covered: a finalization that frees a
/// locked account's UTXO moves it to the stash and drops the assignment in
/// the same step.
pub proof fn lemma_outpoint_account_agreement(s: CkBtcMinterState)
    requires
        s.inv(),
    ensures
        forall|o: OutPoint|
            #[trigger] s.outpoint_map().contains_key(o) ==> exists|u: Utxo|
                s.account_utxos(s.outpoint_map()[o]).contains(u) && u.outpoint == o,
        forall|a: Account, u: Utxo|
            #[trigger] s.account_utxos(a).contains(u) ==> s.outpoint_map().contains_key(
                u.outpoint,
            ) && s.outpoint_map()[u.outpoint] == a,
{
    assert forall|o: OutPoint| #[trigger] s.outpoint_map().contains_key(o) implies exists|u: Utxo|
        s.account_utxos(s.outpoint_map()[o]).contains(u) && u.outpoint == o by {
        assert(map_of(s.outpoint_account@).contains_key(o));
        let u = choose|u: Utxo|
            crate::state::bucket_of(s.utxos_state_addresses@, map_of(s.outpoint_account@)[o])
                .contains(u) && u.outpoint == o;
        assert(s.account_utxos(s.outpoint_map()[o]).contains(u) && u.outpoint == o);
    }
    assert forall|a: Account, u: Utxo| #[trigger] s.account_utxos(a).contains(u) implies
        s.outpoint_map().contains_key(u.outpoint) && s.outpoint_map()[u.outpoint] == a by {
        assert(crate::state::bucket_of(s.utxos_state_addresses@, a).contains(u));
    }
}

/// The two replacement maps are inverse bijections, and neither holds a
/// cycle: no walk of one or more steps through either map returns to its
/// start.
pub proof fn lemma_replacement_bijection(s: CkBtcMinterState)
    requires
        s.inv(),
    ensures
        forall|x: Txid, y: Txid|
            (#[trigger] s.repl_map().contains_key(x) && s.repl_map()[x] == y) <==> (
            #[trigger] s.rev_map().contains_key(y) && s.rev_map()[y] == x),
        forall|t: Txid, n: nat|
            1 <= n && #[trigger] path_defined(s.repl_map(), t, n) ==> step_n(s.repl_map(), t, n)
                != t,
        forall|t: Txid, n: nat|
            1 <= n && #[trigger] path_defined(s.rev_map(), t, n) ==> step_n(s.rev_map(), t, n)
                != t,
{
}

/// The pending queue never decreases in arrival time.
pub proof fn lemma_queue_monotonicity(s: CkBtcMinterState)
    requires
        s.inv(),
    ensures
        forall|i: int, j: int|
            0 <= i < j < s.pending_retrieve_btc_requests@.len()
                ==> s.pending_retrieve_btc_requests@[i].received_at
                <= s.pending_retrieve_btc_requests@[j].received_at,
{
}

/// Every UTXO suspended for a too-small value has a value within the check
/// fee, in the legacy partition and in every account's partition alike.
pub proof fn lemma_suspended_value_bound(s: CkBtcMinterState)
    requires
        s.inv(),
    ensures
        forall|u: Utxo|
            #[trigger] s.suspended_utxos.wa_map().contains_key(u)
                && s.suspended_utxos.wa_map()[u] == SuspendedReason::ValueTooSmall ==> u.value
                <= s.check_fee,
        forall|a: Account, u: Utxo|
            #[trigger] s.suspended_utxos.reason_map(a).contains_key(u)
                && s.suspended_utxos.reason_map(a)[u] == SuspendedReason::ValueTooSmall
                ==> u.value <= s.check_fee,
{
}

/// The ring of finalized requests never outgrows its bound.
pub proof fn lemma_finalized_ring_bound(s: CkBtcMinterState)
    requires
        s.inv(),
    ensures
        s.finalized_requests@.len() <= MAX_FINALIZED_REQUESTS,
{
}

} // verus!
