//! The runtime audit of the state.  The conditions here are the ones worth
//! re-deciding dynamically on a replayed state; the remaining audit
//! conditions — the pipeline partition and the outpoint agreement — are part
//! of [`CkBtcMinterState::inv`] and preserved statically by every
//! transition's proof.

use vstd::prelude::*;

use crate::alist::{alist_get, eq_is_equality, keys_distinct, map_of};
use crate::domain::Txid;
use crate::records::SuspendedReason;
use crate::state::{sorted_by_received_at, CkBtcMinterState, MAX_FINALIZED_REQUESTS};

verus! {

impl CkBtcMinterState {
    /// What the runtime audit decides: queue order and uniqueness, the
    /// finalized ring's bound, the fee configuration, the replacement
    /// bijection, and the suspended value bound over the registry's entries.
    pub open spec fn audited_invariants(self) -> bool {
        &&& sorted_by_received_at(self.pending_retrieve_btc_requests@)
        &&& forall|i: int, j: int|
            0 <= i < j < self.pending_retrieve_btc_requests@.len()
                ==> self.pending_retrieve_btc_requests@[i].block_index
                != self.pending_retrieve_btc_requests@[j].block_index
        &&& self.finalized_requests@.len() <= MAX_FINALIZED_REQUESTS
        &&& self.check_fee <= self.retrieve_btc_min_amount
        &&& crate::state::replacement_bijection_fn(
            self.replacement_txid@,
            self.rev_replacement_txid@,
        )
        &&& forall|i: int|
            0 <= i < self.suspended_utxos.all_entries().len() ==> ((
            #[trigger] self.suspended_utxos.all_entries()[i]).1
                == SuspendedReason::ValueTooSmall
                ==> self.suspended_utxos.all_entries()[i].0.value <= self.check_fee)
    }

    /// Audits the state, returning the first broken condition.
    pub fn check_invariants(&self) -> (r: Result<(), String>)
        requires
            keys_distinct(self.replacement_txid@),
            keys_distinct(self.rev_replacement_txid@),
        ensures
            r is Ok <==> self.audited_invariants(),
    {
        proof {
            assert(eq_is_equality::<Txid>());
        }
        let pending = &self.pending_retrieve_btc_requests;
        let mut i: usize = 0;
        while i < pending.len()
            invariant
                pending == &self.pending_retrieve_btc_requests,
                0 <= i <= pending@.len(),
                forall|i2: int, j2: int|
                    0 <= i2 < j2 < pending@.len() && i2 < i ==> pending@[i2].received_at
                        <= pending@[j2].received_at && pending@[i2].block_index
                        != pending@[j2].block_index,
            decreases pending@.len() - i,
        {
            let mut j: usize = i + 1;
            while j < pending.len()
                invariant
                    pending == &self.pending_retrieve_btc_requests,
                    0 <= i < j <= pending@.len(),
                    forall|j2: int|
                        i < j2 < j ==> pending@[i as int].received_at <= pending@[j2].received_at
                            && pending@[i as int].block_index != pending@[j2].block_index,
                decreases pending@.len() - j,
            {
                if pending[i].received_at > pending[j].received_at {
                    return Err("pending queue is not sorted by received_at".to_owned());
                }
                if pending[i].block_index == pending[j].block_index {
                    return Err("pending queue repeats a block index".to_owned());
                }
                j += 1;
            }
            i += 1;
        }
        if self.finalized_requests.len() > MAX_FINALIZED_REQUESTS {
            return Err("too many finalized requests".to_owned());
        }
        if self.check_fee > self.retrieve_btc_min_amount {
            return Err("check_fee is above retrieve_btc_min_amount".to_owned());
        }
        let repl = &self.replacement_txid;
        let rev = &self.rev_replacement_txid;
        let mut k: usize = 0;
        while k < repl.len()
            invariant
                repl == &self.replacement_txid,
                rev == &self.rev_replacement_txid,
                keys_distinct(repl@),
                keys_distinct(rev@),
                0 <= k <= repl@.len(),
                forall|k2: int|
                    0 <= k2 < k ==> map_of(rev@).contains_key(#[trigger] repl@[k2].1) && map_of(
                        rev@,
                    )[repl@[k2].1] == repl@[k2].0,
            decreases repl@.len() - k,
        {
            let entry = repl[k];
            proof {
                crate::alist::lemma_map_of_index(repl@, k as int);
            }
            let ok = match alist_get(rev, &entry.1) {
                Some(back) => *back == entry.0,
                None => false,
            };
            if !ok {
                proof {
                    if crate::state::replacement_bijection_fn(repl@, rev@) {
                        assert(map_of(repl@).contains_key(entry.0) && map_of(repl@)[entry.0]
                            == entry.1);
                        assert(map_of(rev@).contains_key(entry.1) && map_of(rev@)[entry.1]
                            == entry.0);
                    }
                }
                return Err("replacement maps are not inverse".to_owned());
            }
            k += 1;
        }
        let mut k2: usize = 0;
        while k2 < rev.len()
            invariant
                repl == &self.replacement_txid,
                rev == &self.rev_replacement_txid,
                keys_distinct(repl@),
                keys_distinct(rev@),
                0 <= k2 <= rev@.len(),
                forall|k3: int|
                    0 <= k3 < rev@.len() ==> map_of(rev@).contains_key(#[trigger] repl@[k3].1)
                        && map_of(rev@)[repl@[k3].1] == repl@[k3].0 || !(0 <= k3 < repl@.len()),
                forall|k3: int|
                    0 <= k3 < repl@.len() ==> map_of(rev@).contains_key(#[trigger] repl@[k3].1)
                        && map_of(rev@)[repl@[k3].1] == repl@[k3].0,
                forall|k3: int|
                    0 <= k3 < k2 ==> map_of(repl@).contains_key(#[trigger] rev@[k3].1) && map_of(
                        repl@,
                    )[rev@[k3].1] == rev@[k3].0,
            decreases rev@.len() - k2,
        {
            let entry = rev[k2];
            proof {
                crate::alist::lemma_map_of_index(rev@, k2 as int);
            }
            let ok = match alist_get(repl, &entry.1) {
                Some(fwd) => *fwd == entry.0,
                None => false,
            };
            if !ok {
                proof {
                    if crate::state::replacement_bijection_fn(repl@, rev@) {
                        assert(map_of(rev@).contains_key(entry.0) && map_of(rev@)[entry.0]
                            == entry.1);
                        assert(map_of(repl@).contains_key(entry.1) && map_of(repl@)[entry.1]
                            == entry.0);
                    }
                }
                return Err("replacement maps are not inverse".to_owned());
            }
            k2 += 1;
        }
        proof {
            assert forall|x: Txid, y: Txid|
                (#[trigger] map_of(repl@).contains_key(x) && map_of(repl@)[x] == y) implies (
            #[trigger] map_of(rev@).contains_key(y) && map_of(rev@)[y] == x) by {
                crate::alist::lemma_map_of_contains(repl@, x);
                let k3 = choose|k3: int| 0 <= k3 < repl@.len() && repl@[k3].0 == x;
                crate::alist::lemma_map_of_index(repl@, k3);
            }
            assert forall|x: Txid, y: Txid|
                (#[trigger] map_of(rev@).contains_key(y) && map_of(rev@)[y] == x) implies (
            #[trigger] map_of(repl@).contains_key(x) && map_of(repl@)[x] == y) by {
                crate::alist::lemma_map_of_contains(rev@, y);
                let k3 = choose|k3: int| 0 <= k3 < rev@.len() && rev@[k3].0 == y;
                crate::alist::lemma_map_of_index(rev@, k3);
            }
        }
        let entries = self.suspended_utxos.iter();
        let mut e: usize = 0;
        while e < entries.len()
            invariant
                entries@ == self.suspended_utxos.all_entries(),
                0 <= e <= entries@.len(),
                forall|e2: int|
                    0 <= e2 < e ==> ((#[trigger] entries@[e2]).1
                        == SuspendedReason::ValueTooSmall ==> entries@[e2].0.value
                        <= self.check_fee),
            decreases entries@.len() - e,
        {
            let (u, reason) = entries[e];
            if matches!(reason, SuspendedReason::ValueTooSmall) && u.value > self.check_fee {
                return Err("a suspended UTXO's value exceeds the check fee".to_owned());
            }
            e += 1;
        }
        Ok(())
    }
}

} // verus!
