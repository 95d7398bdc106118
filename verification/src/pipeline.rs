//! Transitions of the withdrawal pipeline: queueing, batch building, marking
//! requests in flight, recording submissions and finalizing requests.

use vstd::prelude::*;
use vstd::multiset::Multiset;

use crate::alist::{alist_get, alist_put, eq_is_equality, has_key, keys_distinct, map_of};
use crate::records::{
    FinalizedBtcRetrieval, FinalizedStatus, InFlightStatus, RetrieveBtcRequest,
    SubmittedBtcTransaction,
};
use crate::state::{
    find_pending, fin_has, has_block, lemma_fin_has_push, lemma_fin_has_remove,
    lemma_has_block_push, lemma_has_block_remove, lemma_txs_have_push, sorted_by_received_at,
    sum_values, tx_has, txs_have, CkBtcMinterState, MAX_FINALIZED_REQUESTS,
};

verus! {

broadcast use vstd::seq_lib::lemma_seq_contains_after_push, vstd::seq_lib::group_to_multiset_ensures, vstd::seq_lib::group_seq_properties;

/// Whether the block indices of a request sequence are pairwise different.
pub open spec fn blocks_distinct(s: Seq<RetrieveBtcRequest>) -> bool {
    forall|i: int, j: int| 0 <= i < j < s.len() ==> s[i].block_index != s[j].block_index
}

/// The greedy batch split: walking the queue in order, a request joins the
/// batch when the batch is below `max_size` and its amount still fits under
/// `available`; any other request stays in the queue.
pub open spec fn batch_split(
    s: Seq<RetrieveBtcRequest>,
    available: int,
    max_size: int,
    batch_len: int,
    tx_amount: int,
) -> (Seq<RetrieveBtcRequest>, Seq<RetrieveBtcRequest>)
    decreases s.len(),
{
    if s.len() == 0 {
        (Seq::empty(), Seq::empty())
    } else {
        let r = s.first();
        if available < r.amount + tx_amount || batch_len >= max_size {
            let rest = batch_split(s.drop_first(), available, max_size, batch_len, tx_amount);
            (rest.0, seq![r] + rest.1)
        } else {
            let rest = batch_split(
                s.drop_first(),
                available,
                max_size,
                batch_len + 1,
                tx_amount + r.amount,
            );
            (seq![r] + rest.0, rest.1)
        }
    }
}

/// Both sides of the greedy split draw from the queue: they keep its order,
/// they share no block index, and they stay sorted and duplicate-free when
/// the queue is.
pub proof fn lemma_batch_split_props(
    s: Seq<RetrieveBtcRequest>,
    available: int,
    max_size: int,
    batch_len: int,
    tx_amount: int,
)
    ensures
        forall|b: u64|
            #[trigger] has_block(
                batch_split(s, available, max_size, batch_len, tx_amount).0,
                b,
            ) ==> has_block(s, b),
        forall|b: u64|
            #[trigger] has_block(
                batch_split(s, available, max_size, batch_len, tx_amount).1,
                b,
            ) ==> has_block(s, b),
        blocks_distinct(s) ==> blocks_distinct(
            batch_split(s, available, max_size, batch_len, tx_amount).0,
        ) && blocks_distinct(batch_split(s, available, max_size, batch_len, tx_amount).1) && (
        forall|b: u64|
            !(#[trigger] has_block(batch_split(s, available, max_size, batch_len, tx_amount).0, b)
                && has_block(batch_split(s, available, max_size, batch_len, tx_amount).1, b))),
        sorted_by_received_at(s) ==> sorted_by_received_at(
            batch_split(s, available, max_size, batch_len, tx_amount).0,
        ) && sorted_by_received_at(batch_split(s, available, max_size, batch_len, tx_amount).1),
        forall|x: RetrieveBtcRequest|
            #[trigger] batch_split(s, available, max_size, batch_len, tx_amount).0.contains(x)
                ==> s.contains(x),
        forall|x: RetrieveBtcRequest|
            #[trigger] batch_split(s, available, max_size, batch_len, tx_amount).1.contains(x)
                ==> s.contains(x),
    decreases s.len(),
{
    if s.len() > 0 {
        let r = s.first();
        let t = s.drop_first();
        let whole = batch_split(s, available, max_size, batch_len, tx_amount);
        assert(blocks_distinct(s) ==> blocks_distinct(t)) by {
            if blocks_distinct(s) {
                assert(forall|i: int, j: int|
                    0 <= i < j < t.len() ==> t[i] == s[i + 1] && t[j] == s[j + 1]);
            }
        }
        assert(sorted_by_received_at(s) ==> sorted_by_received_at(t)) by {
            if sorted_by_received_at(s) {
                assert(forall|i: int, j: int|
                    0 <= i < j < t.len() ==> t[i] == s[i + 1] && t[j] == s[j + 1]);
            }
        }
        let stays = available < r.amount + tx_amount || batch_len >= max_size;
        let rest = if stays {
            batch_split(t, available, max_size, batch_len, tx_amount)
        } else {
            batch_split(t, available, max_size, batch_len + 1, tx_amount + r.amount)
        };
        if stays {
            lemma_batch_split_props(t, available, max_size, batch_len, tx_amount);
        } else {
            lemma_batch_split_props(t, available, max_size, batch_len + 1, tx_amount + r.amount);
        }
        let cons_part = if stays { whole.1 } else { whole.0 };
        let tail_cons = if stays { rest.1 } else { rest.0 };
        let plain_part = if stays { whole.0 } else { whole.1 };
        let tail_plain = if stays { rest.0 } else { rest.1 };
        assert(cons_part == seq![r] + tail_cons);
        assert(plain_part == tail_plain);
        lemma_split_cons_props(s, cons_part, tail_cons);
        assert forall|b: u64| #[trigger] has_block(plain_part, b) implies has_block(s, b) by {
            lemma_block_in_tail(s, b);
        }
        assert forall|x: RetrieveBtcRequest| #[trigger] plain_part.contains(x) implies s.contains(
            x,
        ) by {
            lemma_elem_in_tail(s, x);
        }
        if blocks_distinct(s) {
            assert(blocks_distinct(whole.0));
            assert(blocks_distinct(whole.1));
            assert forall|b: u64|
                !(#[trigger] has_block(whole.0, b) && has_block(whole.1, b)) by {
                if has_block(whole.0, b) && has_block(whole.1, b) {
                    // One side starts with the head request; the other lives in
                    // the tail, where the head's block index does not occur.
                    if has_block(cons_part, b) && b == r.block_index {
                        assert(has_block(plain_part, b));
                        let j = choose|j: int|
                            0 <= j < tail_plain.len() && tail_plain[j].block_index == b;
                        assert(has_block(t, b));
                        let k = choose|k: int| 0 <= k < t.len() && t[k].block_index == b;
                        assert(s[k + 1].block_index == b);
                        assert(s[0].block_index == b);
                        assert(false);
                    } else {
                        assert(has_block(cons_part, b));
                        let j = choose|j: int|
                            0 <= j < cons_part.len() && cons_part[j].block_index == b;
                        if j == 0 {
                            assert(b == r.block_index);
                            assert(false);
                        } else {
                            assert(tail_cons[j - 1].block_index == b);
                            assert(has_block(tail_cons, b));
                            assert(has_block(tail_plain, b));
                            assert(false);
                        }
                    }
                }
            }
        }
    } else {
        assert(batch_split(s, available, max_size, batch_len, tx_amount).0
            =~= Seq::<RetrieveBtcRequest>::empty());
    }
}

/// A block index of the tail is a block index of the whole queue.
proof fn lemma_block_in_tail(s: Seq<RetrieveBtcRequest>, b: u64)
    requires
        s.len() > 0,
    ensures
        has_block(s.drop_first(), b) ==> has_block(s, b),
{
    if has_block(s.drop_first(), b) {
        let j = choose|j: int|
            0 <= j < s.drop_first().len() && s.drop_first()[j].block_index == b;
        assert(s[j + 1].block_index == b);
    }
}

/// An element of the tail is an element of the whole queue.
proof fn lemma_elem_in_tail(s: Seq<RetrieveBtcRequest>, x: RetrieveBtcRequest)
    requires
        s.len() > 0,
    ensures
        s.drop_first().contains(x) ==> s.contains(x),
{
    if s.drop_first().contains(x) {
        let j = choose|j: int| 0 <= j < s.drop_first().len() && s.drop_first()[j] == x;
        assert(s[j + 1] == x);
    }
}

/// Facts carried from a tail result to the result with the head prepended:
/// membership, order and distinctness.
proof fn lemma_split_cons_props(
    s: Seq<RetrieveBtcRequest>,
    whole: Seq<RetrieveBtcRequest>,
    tail_part: Seq<RetrieveBtcRequest>,
)
    requires
        s.len() > 0,
        whole == seq![s.first()] + tail_part,
        forall|b: u64| #[trigger] has_block(tail_part, b) ==> has_block(s.drop_first(), b),
        forall|x: RetrieveBtcRequest|
            #[trigger] tail_part.contains(x) ==> s.drop_first().contains(x),
        blocks_distinct(s.drop_first()) ==> blocks_distinct(tail_part),
        sorted_by_received_at(s.drop_first()) ==> sorted_by_received_at(tail_part),
    ensures
        forall|b: u64| #[trigger] has_block(whole, b) ==> has_block(s, b),
        forall|x: RetrieveBtcRequest| #[trigger] whole.contains(x) ==> s.contains(x),
        blocks_distinct(s) ==> blocks_distinct(whole),
        sorted_by_received_at(s) ==> sorted_by_received_at(whole),
{
    let r = s.first();
    assert forall|b: u64| #[trigger] has_block(whole, b) implies has_block(s, b) by {
        let j = choose|j: int| 0 <= j < whole.len() && whole[j].block_index == b;
        if j == 0 {
            assert(s[0].block_index == b);
        } else {
            assert(tail_part[j - 1].block_index == b);
            assert(has_block(tail_part, b));
            lemma_block_in_tail(s, b);
        }
    }
    assert forall|x: RetrieveBtcRequest| #[trigger] whole.contains(x) implies s.contains(x) by {
        let j = choose|j: int| 0 <= j < whole.len() && whole[j] == x;
        if j == 0 {
            assert(s[0] == x);
        } else {
            assert(tail_part[j - 1] == x);
            assert(tail_part.contains(x));
            lemma_elem_in_tail(s, x);
        }
    }
    if blocks_distinct(s) {
        assert(blocks_distinct(s.drop_first())) by {
            assert(forall|i: int, j: int|
                0 <= i < j < s.drop_first().len() ==> s.drop_first()[i] == s[i + 1]
                    && s.drop_first()[j] == s[j + 1]);
        }
        assert forall|i: int, j: int| 0 <= i < j < whole.len() implies whole[i].block_index
            != whole[j].block_index by {
            if i == 0 {
                assert(whole[j] == tail_part[j - 1]);
                assert(tail_part.contains(tail_part[j - 1]));
                let k = choose|k: int|
                    0 <= k < s.drop_first().len() && s.drop_first()[k] == tail_part[j - 1];
                assert(s[k + 1] == tail_part[j - 1]);
                assert(whole[0] == s[0]);
            } else {
                assert(whole[i] == tail_part[i - 1]);
                assert(whole[j] == tail_part[j - 1]);
            }
        }
    }
    if sorted_by_received_at(s) {
        assert(sorted_by_received_at(s.drop_first())) by {
            assert(forall|i: int, j: int|
                0 <= i < j < s.drop_first().len() ==> s.drop_first()[i] == s[i + 1]
                    && s.drop_first()[j] == s[j + 1]);
        }
        assert forall|i: int, j: int| 0 <= i < j < whole.len() implies whole[i].received_at
            <= whole[j].received_at by {
            if i == 0 {
                assert(whole[j] == tail_part[j - 1]);
                assert(tail_part.contains(tail_part[j - 1]));
                let k = choose|k: int|
                    0 <= k < s.drop_first().len() && s.drop_first()[k] == tail_part[j - 1];
                assert(s[k + 1] == tail_part[j - 1]);
                assert(whole[0] == s[0]);
            } else {
                assert(whole[i] == tail_part[i - 1]);
                assert(whole[j] == tail_part[j - 1]);
            }
        }
    }
}

/// The in-flight entries whose keys are not served by the given requests.
fn remove_request_keys(
    v: &Vec<(u64, InFlightStatus)>,
    reqs: &Vec<RetrieveBtcRequest>,
) -> (r: Vec<(u64, InFlightStatus)>)
    requires
        keys_distinct(v@),
    ensures
        keys_distinct(r@),
        forall|b: u64|
            #[trigger] map_of(r@).contains_key(b) <==> (map_of(v@).contains_key(b) && !has_block(
                reqs@,
                b,
            )),
        forall|b: u64|
            #[trigger] map_of(r@).contains_key(b) ==> map_of(r@)[b] == map_of(v@)[b],
{
    let mut out: Vec<(u64, InFlightStatus)> = Vec::new();
    let mut i: usize = 0;
    proof {
        assert(map_of(out@) =~= Map::<u64, InFlightStatus>::empty());
    }
    while i < v.len()
        invariant
            0 <= i <= v@.len(),
            keys_distinct(v@),
            keys_distinct(out@),
            forall|b: u64|
                #[trigger] map_of(out@).contains_key(b) <==> (has_key(v@.take(i as int), b)
                    && !has_block(reqs@, b)),
            forall|b: u64|
                #[trigger] map_of(out@).contains_key(b) ==> map_of(out@)[b] == map_of(v@)[b],
        decreases v@.len() - i,
    {
        let entry = v[i];
        proof {
            crate::alist::lemma_map_of_index(v@, i as int);
            let prev = v@.take(i as int);
            let cur = v@.take(i + 1);
            assert forall|b: u64| #[trigger] has_key(cur, b) implies (has_key(prev, b) || b
                == v@[i as int].0) by {
                let j = choose|j: int| 0 <= j < cur.len() && cur[j].0 == b;
                if j < i {
                    assert(prev[j].0 == b);
                }
            }
            assert forall|b: u64| (has_key(prev, b) || b == v@[i as int].0) implies
                #[trigger] has_key(cur, b) by {
                if has_key(prev, b) {
                    let j = choose|j: int| 0 <= j < prev.len() && prev[j].0 == b;
                    assert(cur[j].0 == b);
                } else {
                    assert(cur[i as int].0 == b);
                }
            }
        }
        if !crate::state::requests_contain_block(reqs, entry.0) {
            proof {
                if map_of(out@).contains_key(entry.0) {
                    assert(has_key(v@.take(i as int), entry.0));
                    let j = choose|j: int|
                        0 <= j < v@.take(i as int).len() && v@.take(i as int)[j].0 == entry.0;
                    assert(v@[j].0 == v@[i as int].0);
                    assert(false);
                }
                crate::alist::lemma_map_of_contains(out@, entry.0);
                crate::alist::lemma_map_of_push(out@, entry.0, entry.1);
                crate::alist::lemma_keys_distinct_push(out@, entry.0, entry.1);
            }
            out.push(entry);
        }
        i += 1;
    }
    proof {
        assert(v@.take(v@.len() as int) =~= v@);
        assert forall|b: u64| #[trigger] map_of(out@).contains_key(b) <==> (map_of(
            v@,
        ).contains_key(b) && !has_block(reqs@, b)) by {
            crate::alist::lemma_map_of_contains(v@, b);
        }
    }
    out
}

impl CkBtcMinterState {
    /// True when enough requests are pending, or the oldest pending request
    /// has waited longer than the queue allows, or the newest arrived long
    /// after the last submission.
    pub open spec fn can_form_batch_spec(self, min_pending: int, now: u64) -> bool {
        let pending = self.pending_retrieve_btc_requests@;
        ||| pending.len() >= min_pending
        ||| (pending.len() > 0 && self.max_time_in_queue_nanos < (if now
            >= pending.first().received_at {
            now - pending.first().received_at
        } else {
            0
        }))
        ||| (pending.len() > 0 && (match self.last_transaction_submission_time_ns {
            Some(t) => self.max_time_in_queue_nanos < (if pending.last().received_at >= t {
                pending.last().received_at - t
            } else {
                0
            }),
            None => false,
        }))
    }

    /// Whether the queue holds enough, or old enough, requests to form a
    /// batch now.
    pub fn can_form_a_batch(&self, min_pending: usize, now: u64) -> (r: bool)
        ensures
            r == self.can_form_batch_spec(min_pending as int, now),
    {
        if self.pending_retrieve_btc_requests.len() >= min_pending {
            return true;
        }
        if self.pending_retrieve_btc_requests.len() > 0 {
            let first = self.pending_retrieve_btc_requests[0];
            proof {
                assert(first == self.pending_retrieve_btc_requests@.first());
            }
            if self.max_time_in_queue_nanos < now.saturating_sub(first.received_at) {
                return true;
            }
            let last = self.pending_retrieve_btc_requests[
                self.pending_retrieve_btc_requests.len() - 1
            ];
            proof {
                assert(last == self.pending_retrieve_btc_requests@.last());
            }
            match self.last_transaction_submission_time_ns {
                Some(last_submission_time) => {
                    if self.max_time_in_queue_nanos < last.received_at.saturating_sub(
                        last_submission_time,
                    ) {
                        return true;
                    }
                },
                None => {},
            }
        }
        false
    }

    /// Drains the queue in order into a batch of at most `max_size` requests
    /// whose total stays within the value of the available UTXOs; what does
    /// not fit stays in the queue, order preserved.
    pub fn build_batch(&mut self, max_size: usize) -> (batch: Vec<RetrieveBtcRequest>)
        requires
            old(self).inv(),
            sum_values(old(self).available_utxos@) <= u64::MAX,
        ensures
            final(self).inv(),
            batch@ == batch_split(
                old(self).pending_retrieve_btc_requests@,
                sum_values(old(self).available_utxos@),
                max_size as int,
                0,
                0,
            ).0,
            final(self).pending_retrieve_btc_requests@ == batch_split(
                old(self).pending_retrieve_btc_requests@,
                sum_values(old(self).available_utxos@),
                max_size as int,
                0,
                0,
            ).1,
            *final(self) == (CkBtcMinterState {
                pending_retrieve_btc_requests: final(self).pending_retrieve_btc_requests,
                ..*old(self)
            }),
    {
        let ghost s0 = self.pending_retrieve_btc_requests@;
        let ghost avail = sum_values(self.available_utxos@);
        let available_utxos_value = self.available_utxos_value();
        let mut batch: Vec<RetrieveBtcRequest> = Vec::new();
        let mut kept: Vec<RetrieveBtcRequest> = Vec::new();
        let mut tx_amount: u64 = 0;
        let mut i: usize = 0;
        proof {
            crate::state::lemma_sum_values_nonneg(self.available_utxos@);
            assert(s0.skip(0) =~= s0);
            assert(batch@ + batch_split(s0, avail, max_size as int, 0, 0).0 =~= batch_split(
                s0,
                avail,
                max_size as int,
                0,
                0,
            ).0);
            assert(kept@ + batch_split(s0, avail, max_size as int, 0, 0).1 =~= batch_split(
                s0,
                avail,
                max_size as int,
                0,
                0,
            ).1);
        }
        while i < self.pending_retrieve_btc_requests.len()
            invariant
                0 <= i <= s0.len(),
                self.pending_retrieve_btc_requests@ == s0,
                avail == sum_values(self.available_utxos@),
                available_utxos_value == avail,
                0 <= avail <= u64::MAX,
                tx_amount <= avail,
                batch_split(s0, avail, max_size as int, 0, 0) == (
                    batch@ + batch_split(s0.skip(i as int), avail, max_size as int,
                        batch@.len() as int, tx_amount as int).0,
                    kept@ + batch_split(s0.skip(i as int), avail, max_size as int,
                        batch@.len() as int, tx_amount as int).1,
                ),
            decreases s0.len() - i,
        {
            let req = self.pending_retrieve_btc_requests[i];
            let ghost old_batch = batch@;
            let ghost old_kept = kept@;
            let ghost old_amt = tx_amount as int;
            let ghost rem = s0.skip(i as int);
            proof {
                assert(rem.len() == s0.len() - i);
                assert(rem.first() == s0[i as int]);
                assert(rem.drop_first() =~= s0.skip(i + 1));
            }
            let takes: bool = {
                if batch.len() >= max_size {
                    false
                } else {
                    // `avail < amount + tx_amount` without overflowing.
                    !(available_utxos_value - tx_amount < req.amount)
                }
            };
            if takes {
                tx_amount = tx_amount + req.amount;
                batch.push(req);
            } else {
                kept.push(req);
            }
            proof {
                let spl = batch_split(rem, avail, max_size as int, old_batch.len() as int,
                    old_amt);
                if takes {
                    assert(!(avail < req.amount + old_amt) && old_batch.len() < max_size);
                    let rest = batch_split(rem.drop_first(), avail, max_size as int,
                        old_batch.len() as int + 1, old_amt + req.amount);
                    assert(spl == (seq![req] + rest.0, rest.1));
                    assert(rest == batch_split(s0.skip(i + 1), avail, max_size as int,
                        batch@.len() as int, tx_amount as int));
                    assert(old_batch + spl.0 =~= batch@ + rest.0);
                    assert(old_kept + spl.1 =~= kept@ + rest.1);
                } else {
                    assert(avail < req.amount + old_amt || old_batch.len() >= max_size);
                    let rest = batch_split(rem.drop_first(), avail, max_size as int,
                        old_batch.len() as int, old_amt);
                    assert(spl == (rest.0, seq![req] + rest.1));
                    assert(rest == batch_split(s0.skip(i + 1), avail, max_size as int,
                        batch@.len() as int, tx_amount as int));
                    assert(old_batch + spl.0 =~= batch@ + rest.0);
                    assert(old_kept + spl.1 =~= kept@ + rest.1);
                }
            }
            i += 1;
        }
        proof {
            assert(s0.skip(s0.len() as int) =~= Seq::<RetrieveBtcRequest>::empty());
            assert(batch@ + Seq::<RetrieveBtcRequest>::empty() =~= batch@);
            assert(kept@ + Seq::<RetrieveBtcRequest>::empty() =~= kept@);
        }
        self.pending_retrieve_btc_requests = kept;
        proof {
            lemma_batch_split_props(s0, avail, max_size as int, 0, 0);
            assert(kept@ == batch_split(s0, avail, max_size as int, 0, 0).1);
            assert(final(self).pending_wf());
            assert forall|b: u64| #[trigger] final(self).pending_has(b) implies old(self).pending_has(b) by {
                assert(has_block(batch_split(s0, avail, max_size as int, 0, 0).1, b));
            }
        }
        batch
    }

    /// The total value of the available UTXOs.
    pub fn available_utxos_value(&self) -> (r: u64)
        requires
            sum_values(self.available_utxos@) <= u64::MAX,
        ensures
            r == sum_values(self.available_utxos@),
    {
        let mut total: u64 = 0;
        let mut i: usize = 0;
        proof {
            assert(sum_values(self.available_utxos@.take(0)) == 0);
        }
        while i < self.available_utxos.len()
            invariant
                0 <= i <= self.available_utxos@.len(),
                sum_values(self.available_utxos@) <= u64::MAX,
                total == sum_values(self.available_utxos@.take(i as int)),
            decreases self.available_utxos@.len() - i,
        {
            proof {
                crate::state::lemma_sum_values_take(self.available_utxos@, i as int);
            }
            total = total + self.available_utxos[i].value;
            i += 1;
        }
        proof {
            assert(self.available_utxos@.take(self.available_utxos@.len() as int)
                =~= self.available_utxos@);
        }
        total
    }

    /// Marks a request as in flight.  The request must not be pending, nor
    /// already submitted or finalized.
    pub fn push_in_flight_request(&mut self, block_index: u64, status: InFlightStatus)
        requires
            old(self).inv(),
            !old(self).pending_has(block_index),
            !old(self).submitted_has(block_index),
            !old(self).finalized_has(block_index),
        ensures
            final(self).inv(),
            final(self).in_flight_map() == old(self).in_flight_map().insert(
                block_index,
                status,
            ),
            *final(self) == (CkBtcMinterState {
                requests_in_flight: final(self).requests_in_flight,
                ..*old(self)
            }),
    {
        proof {
            assert(eq_is_equality::<u64>());
        }
        alist_put(&mut self.requests_in_flight, block_index, status);
        proof {
            let p = self.pending_retrieve_btc_requests@;
            assert forall|b: u64| #[trigger] has_block(p, b) implies !map_of(
                final(self).requests_in_flight@,
            ).contains_key(b) by {
                assert(old(self).pending_has(b));
            }
            assert forall|b: u64| #[trigger] map_of(final(self).requests_in_flight@).contains_key(
                b,
            ) implies (!txs_have(self.submitted_transactions@, b) && !fin_has(
                self.finalized_requests@,
                b,
            )) by {
                if b != block_index {
                    assert(map_of(old(self).requests_in_flight@).contains_key(b));
                }
            }
        }
    }

    /// Returns requests from the in-flight map to the pending queue, which is
    /// re-sorted by arrival time.  None of the requests may be pending,
    /// submitted, stuck or finalized.
    pub fn push_from_in_flight_to_pending_requests(
        &mut self,
        requests: Vec<RetrieveBtcRequest>,
    )
        requires
            old(self).inv(),
            blocks_distinct(requests@),
            forall|b: u64|
                #[trigger] has_block(requests@, b) ==> !old(self).pending_has(b) && !old(self).submitted_has(b) && !old(self).stuck_has(b) && !old(self).finalized_has(b),
        ensures
            final(self).inv(),
            sorted_by_received_at(final(self).pending_retrieve_btc_requests@),
            final(self).pending_retrieve_btc_requests@.to_multiset() == (old(self).pending_retrieve_btc_requests@ + requests@).to_multiset(),
            forall|b: u64|
                #[trigger] final(self).pending_has(b) <==> (old(self).pending_has(b) || has_block(
                    requests@,
                    b,
                )),
            forall|b: u64|
                #[trigger] final(self).in_flight_map().contains_key(b) <==> (old(self).in_flight_map().contains_key(b) && !has_block(requests@, b)),
            *final(self) == (CkBtcMinterState {
                pending_retrieve_btc_requests: final(self).pending_retrieve_btc_requests,
                requests_in_flight: final(self).requests_in_flight,
                ..*old(self)
            }),
    {
        let remaining = remove_request_keys(&self.requests_in_flight, &requests);
        self.requests_in_flight = remaining;
        let mut queue = Vec::new();
        core::mem::swap(&mut queue, &mut self.pending_retrieve_btc_requests);
        let ghost before_append = queue@;
        let mut j: usize = 0;
        while j < requests.len()
            invariant
                0 <= j <= requests@.len(),
                queue@ == before_append + requests@.take(j as int),
            decreases requests@.len() - j,
        {
            let r = requests[j];
            queue.push(r);
            proof {
                assert(queue@ =~= before_append + requests@.take(j + 1));
            }
            j += 1;
        }
        proof {
            assert(before_append + requests@.take(requests@.len() as int) =~= before_append
                + requests@);
        }
        sort_requests_by_received_at(&mut queue);
        self.pending_retrieve_btc_requests = queue;
        proof {
            let merged = before_append + requests@;
            let sorted = final(self).pending_retrieve_btc_requests@;
            assert(before_append == old(self).pending_retrieve_btc_requests@);
            assert(sorted.to_multiset() == merged.to_multiset());
            assert forall|b: u64| #[trigger] has_block(sorted, b) <==> has_block(merged, b) by {
                lemma_same_multiset_same_blocks(sorted, merged, b);
            }
            assert forall|b: u64| #[trigger] has_block(merged, b) <==> (has_block(
                before_append,
                b,
            ) || has_block(requests@, b)) by {
                lemma_has_block_concat(before_append, requests@, b);
            }
            assert forall|i: int, j2: int| 0 <= i < j2 < sorted.len() implies sorted[i].block_index
                != sorted[j2].block_index by {
                lemma_sorted_blocks_distinct(sorted, merged, before_append, requests@, i, j2);
            }
            assert forall|b: u64|
                #[trigger] has_block(sorted, b) <==> (has_block(before_append, b) || has_block(
                requests@,
                b,
            )) by {
                assert(has_block(sorted, b) <==> has_block(merged, b));
            }
            assert(final(self).pending_wf());
            assert forall|b: u64| #[trigger] has_block(sorted, b) implies (!map_of(
                final(self).requests_in_flight@,
            ).contains_key(b) && !txs_have(self.submitted_transactions@, b) && !txs_have(
                self.stuck_transactions@,
                b,
            ) && !fin_has(self.finalized_requests@, b)) by {
                assert(has_block(before_append, b) || has_block(requests@, b));
                if has_block(before_append, b) {
                    assert(old(self).pending_has(b));
                }
            }
            assert forall|b: u64| #[trigger] map_of(final(self).requests_in_flight@).contains_key(
                b,
            ) implies (!txs_have(self.submitted_transactions@, b) && !fin_has(
                self.finalized_requests@,
                b,
            )) by {
                assert(map_of(old(self).requests_in_flight@).contains_key(b));
            }
            assert forall|b: u64| #[trigger] final(self).pending_has(b) <==> (old(self).pending_has(b) || has_block(requests@, b)) by {
                assert(final(self).pending_has(b) == has_block(sorted, b));
                assert(old(self).pending_has(b) == has_block(before_append, b));
                assert(has_block(sorted, b) <==> (has_block(before_append, b) || has_block(
                    requests@,
                    b,
                )));
            }
        }
    }
}

/// Two sequences with the same multiset hold the same block indices.
proof fn lemma_same_multiset_same_blocks(
    s1: Seq<RetrieveBtcRequest>,
    s2: Seq<RetrieveBtcRequest>,
    b: u64,
)
    requires
        s1.to_multiset() == s2.to_multiset(),
    ensures
        has_block(s1, b) <==> has_block(s2, b),
{
    if has_block(s1, b) {
        let j = choose|j: int| 0 <= j < s1.len() && s1[j].block_index == b;
        assert(s1.contains(s1[j]));
        assert(s1.to_multiset().count(s1[j]) > 0);
        assert(s2.to_multiset().count(s1[j]) > 0);
        assert(s2.contains(s1[j]));
        let k = choose|k: int| 0 <= k < s2.len() && s2[k] == s1[j];
        assert(s2[k].block_index == b);
    }
    if has_block(s2, b) {
        let j = choose|j: int| 0 <= j < s2.len() && s2[j].block_index == b;
        assert(s2.contains(s2[j]));
        assert(s2.to_multiset().count(s2[j]) > 0);
        assert(s1.to_multiset().count(s2[j]) > 0);
        assert(s1.contains(s2[j]));
        let k = choose|k: int| 0 <= k < s1.len() && s1[k] == s2[j];
        assert(s1[k].block_index == b);
    }
}

/// A concatenation holds a block index exactly when one part does.
proof fn lemma_has_block_concat(s1: Seq<RetrieveBtcRequest>, s2: Seq<RetrieveBtcRequest>, b: u64)
    ensures
        has_block(s1 + s2, b) <==> (has_block(s1, b) || has_block(s2, b)),
{
    if has_block(s1 + s2, b) {
        let j = choose|j: int| 0 <= j < (s1 + s2).len() && (s1 + s2)[j].block_index == b;
        if j < s1.len() {
            assert(s1[j].block_index == b);
        } else {
            assert(s2[j - s1.len()].block_index == b);
        }
    }
    if has_block(s1, b) {
        let j = choose|j: int| 0 <= j < s1.len() && s1[j].block_index == b;
        assert((s1 + s2)[j].block_index == b);
    }
    if has_block(s2, b) {
        let j = choose|j: int| 0 <= j < s2.len() && s2[j].block_index == b;
        assert((s1 + s2)[j + s1.len()].block_index == b);
    }
}

/// A sorted permutation of a merge of two block-disjoint, duplicate-free
/// sequences is itself duplicate-free in block indices.
proof fn lemma_sorted_blocks_distinct(
    sorted: Seq<RetrieveBtcRequest>,
    merged: Seq<RetrieveBtcRequest>,
    part1: Seq<RetrieveBtcRequest>,
    part2: Seq<RetrieveBtcRequest>,
    i: int,
    j: int,
)
    requires
        sorted.to_multiset() == merged.to_multiset(),
        merged == part1 + part2,
        blocks_distinct(part1),
        blocks_distinct(part2),
        forall|b: u64| #[trigger] has_block(part2, b) ==> !has_block(part1, b),
        0 <= i < j < sorted.len(),
    ensures
        sorted[i].block_index != sorted[j].block_index,
{
    if sorted[i].block_index == sorted[j].block_index {
        let b = sorted[i].block_index;
        // The merge holds at most one request with block index `b`, yet the
        // sorted sequence holds two; multisets make both sides countable.
        if sorted[i] == sorted[j] {
            assert(sorted.remove(j).to_multiset() == sorted.to_multiset().remove(sorted[j]));
            assert(sorted.remove(j)[i] == sorted[i]);
            assert(sorted.remove(j).contains(sorted[i]));
            assert(sorted.remove(j).to_multiset().count(sorted[i]) > 0);
            assert(sorted.to_multiset().count(sorted[i]) >= 2);
            lemma_merged_count_le_one(part1, part2, merged, sorted[i]);
            assert(false);
        } else {
            assert(sorted.contains(sorted[i]));
            assert(sorted.contains(sorted[j]));
            assert(sorted.to_multiset().count(sorted[i]) > 0);
            assert(sorted.to_multiset().count(sorted[j]) > 0);
            assert(merged.to_multiset().count(sorted[i]) > 0);
            assert(merged.to_multiset().count(sorted[j]) > 0);
            assert(merged.contains(sorted[i]));
            assert(merged.contains(sorted[j]));
            let k1 = choose|k: int| 0 <= k < merged.len() && merged[k] == sorted[i];
            let k2 = choose|k: int| 0 <= k < merged.len() && merged[k] == sorted[j];
            assert(k1 != k2);
            let lo = if k1 < k2 { k1 } else { k2 };
            let hi = if k1 < k2 { k2 } else { k1 };
            lemma_no_two_positions_same_block(part1, part2, merged, lo, hi);
            assert(false);
        }
    }
}

/// A merge of block-disjoint, duplicate-free parts holds any one request at
/// most once.
proof fn lemma_merged_count_le_one(
    part1: Seq<RetrieveBtcRequest>,
    part2: Seq<RetrieveBtcRequest>,
    merged: Seq<RetrieveBtcRequest>,
    x: RetrieveBtcRequest,
)
    requires
        merged == part1 + part2,
        blocks_distinct(part1),
        blocks_distinct(part2),
        forall|b: u64| #[trigger] has_block(part2, b) ==> !has_block(part1, b),
    ensures
        merged.to_multiset().count(x) <= 1,
{
    if merged.to_multiset().count(x) >= 2 {
        assert(merged.to_multiset().contains(x));
        assert(merged.contains(x));
        let k1 = choose|k: int| 0 <= k < merged.len() && merged[k] == x;
        let shrunk = merged.remove(k1);
        assert(shrunk.to_multiset() == merged.to_multiset().remove(x));
        assert(shrunk.to_multiset().count(x) >= 1);
        assert(shrunk.contains(x));
        let k2s = choose|k: int| 0 <= k < shrunk.len() && shrunk[k] == x;
        let k2 = if k2s < k1 { k2s } else { k2s + 1 };
        assert(merged[k2] == x);
        assert(k1 != k2);
        let lo = if k1 < k2 { k1 } else { k2 };
        let hi = if k1 < k2 { k2 } else { k1 };
        lemma_no_two_positions_same_block(part1, part2, merged, lo, hi);
        assert(false);
    }
}

/// Two different positions of such a merge never share a block index.
proof fn lemma_no_two_positions_same_block(
    part1: Seq<RetrieveBtcRequest>,
    part2: Seq<RetrieveBtcRequest>,
    merged: Seq<RetrieveBtcRequest>,
    k1: int,
    k2: int,
)
    requires
        merged == part1 + part2,
        blocks_distinct(part1),
        blocks_distinct(part2),
        forall|bb: u64| #[trigger] has_block(part2, bb) ==> !has_block(part1, bb),
        0 <= k1 < k2 < merged.len(),
    ensures
        merged[k1].block_index != merged[k2].block_index,
{
    let b = merged[k1].block_index;
    if merged[k2].block_index == b {
        if k2 < part1.len() {
            assert(part1[k1].block_index == b);
            assert(part1[k2].block_index == b);
        } else if k1 >= part1.len() {
            assert(part2[k1 - part1.len()].block_index == b);
            assert(part2[k2 - part1.len()].block_index == b);
        } else {
            assert(part1[k1].block_index == b);
            assert(part2[k2 - part1.len()].block_index == b);
            assert(has_block(part1, b));
            assert(has_block(part2, b));
        }
    }
}

/// Sorts a request sequence by arrival time, keeping its contents.
pub(crate) fn sort_requests_by_received_at(v: &mut Vec<RetrieveBtcRequest>)
    ensures
        sorted_by_received_at(final(v)@),
        final(v)@.to_multiset() == old(v)@.to_multiset(),
{
    let mut out: Vec<RetrieveBtcRequest> = Vec::new();
    proof {
        assert(out@.to_multiset().add(v@.to_multiset()) =~= old(v)@.to_multiset());
    }
    while v.len() > 0
        invariant
            out@.to_multiset().add(v@.to_multiset()) == old(v)@.to_multiset(),
            sorted_by_received_at(out@),
            forall|k: int, l: int|
                0 <= k < out@.len() && 0 <= l < v@.len() ==> out@[k].received_at
                    <= v@[l].received_at,
        decreases v@.len(),
    {
        let mut min_i: usize = 0;
        let mut j: usize = 1;
        while j < v.len()
            invariant
                0 < v@.len(),
                0 <= min_i < j <= v@.len(),
                forall|l: int| 0 <= l < j ==> v@[min_i as int].received_at <= v@[l].received_at,
            decreases v@.len() - j,
        {
            if v[j].received_at < v[min_i].received_at {
                min_i = j;
            }
            j += 1;
        }
        let ghost v_before = v@;
        let r = v.remove(min_i);
        out.push(r);
        proof {
            assert(v_before.remove(min_i as int).to_multiset() =~= v_before.to_multiset().remove(
                r,
            ));
            assert(v_before.to_multiset().count(r) > 0) by {
                assert(v_before.contains(r));
            }
            assert(out@.to_multiset().add(v@.to_multiset()) =~= old(v)@.to_multiset());
            assert forall|k: int, l: int|
                0 <= k < out@.len() && 0 <= l < v@.len() implies out@[k].received_at
                <= v@[l].received_at by {
                let l0 = if l < min_i { l } else { l + 1 };
                assert(v@[l] == v_before[l0]);
                if k < out@.len() - 1 {
                } else {
                    assert(out@[k] == r);
                }
            }
        }
    }
    proof {
        assert(v@.to_multiset() =~= Multiset::<RetrieveBtcRequest>::empty()) by {
            assert(v@ =~= Seq::<RetrieveBtcRequest>::empty());
        }
        assert(out@.to_multiset().add(Multiset::<RetrieveBtcRequest>::empty()) =~= out@
            .to_multiset());
    }
    core::mem::swap(v, &mut out);
}

} // verus!
// Queue and submission transitions.
verus! {

impl CkBtcMinterState {
    /// Accepts a withdrawal request into the queue: the burn is counted, the
    /// screening fee is credited to the request's provider, and the request
    /// joins the end of the queue.  No record anywhere may carry the same
    /// block index, and the request must not arrive before the queued ones.
    pub fn push_back_pending_request(&mut self, request: RetrieveBtcRequest)
        requires
            old(self).inv(),
            !old(self).pending_has(request.block_index),
            !old(self).in_flight_map().contains_key(request.block_index),
            !old(self).submitted_has(request.block_index),
            !old(self).stuck_has(request.block_index),
            !old(self).finalized_has(request.block_index),
            forall|i: int|
                0 <= i < old(self).pending_retrieve_btc_requests@.len() ==> old(self).pending_retrieve_btc_requests@[i].received_at <= request.received_at,
            old(self).tokens_burned + request.amount <= u64::MAX,
            (match request.kyt_provider {
                Some(p) => (if old(self).owed_map().contains_key(p) {
                    old(self).owed_map()[p] as int
                } else {
                    0
                }) + old(self).check_fee <= u64::MAX,
                None => true,
            }),
        ensures
            final(self).inv(),
            final(self).pending_retrieve_btc_requests@ == old(self).pending_retrieve_btc_requests@.push(request),
            final(self).tokens_burned == old(self).tokens_burned + request.amount,
            (match request.kyt_provider {
                Some(p) => final(self).owed_map() == old(self).owed_map().insert(
                    p,
                    (((if old(self).owed_map().contains_key(p) {
                        old(self).owed_map()[p] as int
                    } else {
                        0
                    }) + old(self).check_fee) as u64),
                ),
                None => final(self).owed_map() == old(self).owed_map(),
            }),
            *final(self) == (CkBtcMinterState {
                pending_retrieve_btc_requests: final(self).pending_retrieve_btc_requests,
                tokens_burned: final(self).tokens_burned,
                owed_kyt_amount: final(self).owed_kyt_amount,
                ..*old(self)
            }),
    {
        self.tokens_burned = self.tokens_burned + request.amount;
        match &request.kyt_provider {
            Some(provider) => {
                proof {
                    assert(eq_is_equality::<crate::domain::Principal>());
                    crate::alist::lemma_map_of_contains(self.owed_kyt_amount@, *provider);
                }
                let current: u64 = match alist_get(&self.owed_kyt_amount, provider) {
                    Some(v) => *v,
                    None => 0,
                };
                let fee = self.check_fee;
                alist_put(&mut self.owed_kyt_amount, *provider, current + fee);
            },
            None => {},
        }
        let ghost p0 = self.pending_retrieve_btc_requests@;
        self.pending_retrieve_btc_requests.push(request);
        proof {
            lemma_has_block_push(p0, request);
            assert(final(self).pending_wf());
            assert forall|b: u64|
                #[trigger] has_block(final(self).pending_retrieve_btc_requests@, b) implies (
            !map_of(self.requests_in_flight@).contains_key(b) && !txs_have(
                self.submitted_transactions@,
                b,
            ) && !txs_have(self.stuck_transactions@, b) && !fin_has(
                self.finalized_requests@,
                b,
            )) by {
                if has_block(p0, b) {
                    assert(old(self).pending_has(b));
                }
            }
        }
    }

    /// Records a transaction as submitted: its requests leave the in-flight
    /// map and the transaction joins the submitted list.  The requests may
    /// not be pending, already submitted, or finalized, and the transaction
    /// itself must not repeat a block index.
    pub fn push_submitted_transaction(&mut self, tx: SubmittedBtcTransaction)
        requires
            old(self).inv(),
            crate::state::keys_unique_in_tx(tx),
            forall|b: u64|
                #[trigger] tx_has(tx, b) ==> !old(self).pending_has(b) && !old(self).submitted_has(b) && !old(self).finalized_has(b),
        ensures
            final(self).inv(),
            final(self).submitted_transactions@ == old(self).submitted_transactions@.push(tx),
            forall|b: u64|
                #[trigger] final(self).in_flight_map().contains_key(b) <==> (old(self).in_flight_map().contains_key(b) && !tx_has(tx, b)),
            *final(self) == (CkBtcMinterState {
                requests_in_flight: final(self).requests_in_flight,
                submitted_transactions: final(self).submitted_transactions,
                ..*old(self)
            }),
    {
        let remaining = remove_request_keys(&self.requests_in_flight, &tx.requests);
        self.requests_in_flight = remaining;
        let ghost s0 = self.submitted_transactions@;
        self.submitted_transactions.push(tx);
        proof {
            lemma_txs_have_push(s0, tx);
            let subs = final(self).submitted_transactions@;
            assert forall|b: u64|
                #[trigger] has_block(self.pending_retrieve_btc_requests@, b) implies (!map_of(
                final(self).requests_in_flight@,
            ).contains_key(b) && !txs_have(subs, b) && !txs_have(self.stuck_transactions@, b)
                && !fin_has(self.finalized_requests@, b)) by {
                assert(old(self).pending_has(b));
            }
            assert forall|b: u64|
                #[trigger] map_of(final(self).requests_in_flight@).contains_key(b) implies (
            !txs_have(subs, b) && !fin_has(self.finalized_requests@, b)) by {
                assert(map_of(old(self).requests_in_flight@).contains_key(b));
                assert(!tx_has(tx, b));
            }
            assert forall|i: int, j: int, b: u64| 0 <= i < j < subs.len() implies !(
            #[trigger] tx_has(subs[i], b) && #[trigger] tx_has(subs[j], b)) by {
                if j < subs.len() - 1 {
                    assert(subs[i] == s0[i] && subs[j] == s0[j]);
                } else {
                    assert(subs[j] == tx);
                    assert(subs[i] == s0[i]);
                    if tx_has(subs[i], b) && tx_has(tx, b) {
                        assert(txs_have(s0, b));
                        assert(old(self).submitted_has(b));
                    }
                }
            }
            assert forall|b: u64| #[trigger] txs_have(subs, b) implies !fin_has(
                self.finalized_requests@,
                b,
            ) by {
                if txs_have(s0, b) {
                    assert(old(self).submitted_has(b));
                }
            }
            assert(crate::state::submitted_group_wf(subs, self.finalized_requests@));
        }
    }

    /// Appends a finalized record, evicting the oldest one when the ring is
    /// full.  The record's block index may not occur anywhere else.
    fn push_finalized_request(&mut self, req: FinalizedBtcRetrieval)
        requires
            old(self).inv(),
            !old(self).pending_has(req.request.block_index),
            !old(self).in_flight_map().contains_key(req.request.block_index),
            !old(self).submitted_has(req.request.block_index),
            !old(self).finalized_has(req.request.block_index),
        ensures
            final(self).inv(),
            final(self).finalized_requests@ == (if old(self).finalized_requests@.len()
                >= MAX_FINALIZED_REQUESTS {
                old(self).finalized_requests@.remove(0).push(req)
            } else {
                old(self).finalized_requests@.push(req)
            }),
            *final(self) == (CkBtcMinterState {
                finalized_requests: final(self).finalized_requests,
                ..*old(self)
            }),
    {
        let ghost f0 = self.finalized_requests@;
        if self.finalized_requests.len() >= MAX_FINALIZED_REQUESTS {
            let evicted = self.finalized_requests.remove(0);
            proof {
                lemma_fin_has_remove(f0, 0);
            }
        }
        let ghost f1 = self.finalized_requests@;
        self.finalized_requests.push(req);
        proof {
            lemma_fin_has_push(f1, req);
            let fin = final(self).finalized_requests@;
            assert forall|i: int, j: int| 0 <= i < j < fin.len() implies fin[i].request.block_index
                != fin[j].request.block_index by {
                if j == fin.len() - 1 {
                    assert(fin[i] == f1[i]);
                    assert(fin[j] == req);
                    if fin[i].request.block_index == req.request.block_index {
                        assert(fin_has(f1, req.request.block_index));
                        if f0.len() >= MAX_FINALIZED_REQUESTS {
                            assert(fin_has(f0, req.request.block_index));
                        }
                        assert(old(self).finalized_has(req.request.block_index));
                    }
                } else {
                    assert(fin[i] == f1[i] && fin[j] == f1[j]);
                    if f0.len() >= MAX_FINALIZED_REQUESTS {
                        assert(f1[i] == f0[i + 1] && f1[j] == f0[j + 1]);
                    }
                }
            }
            assert forall|b: u64|
                #[trigger] has_block(self.pending_retrieve_btc_requests@, b) implies (!map_of(
                self.requests_in_flight@,
            ).contains_key(b) && !txs_have(self.submitted_transactions@, b) && !txs_have(
                self.stuck_transactions@,
                b,
            ) && !fin_has(fin, b)) by {
                assert(old(self).pending_has(b));
                if fin_has(f1, b) {
                    if f0.len() >= MAX_FINALIZED_REQUESTS {
                        assert(fin_has(f0, b));
                    }
                    assert(old(self).finalized_has(b));
                }
            }
            assert forall|b: u64|
                #[trigger] map_of(self.requests_in_flight@).contains_key(b) implies (!txs_have(
                self.submitted_transactions@,
                b,
            ) && !fin_has(fin, b)) by {
                assert(old(self).in_flight_map().contains_key(b));
                if fin_has(f1, b) {
                    if f0.len() >= MAX_FINALIZED_REQUESTS {
                        assert(fin_has(f0, b));
                    }
                    assert(old(self).finalized_has(b));
                }
            }
            assert forall|b: u64| #[trigger] txs_have(self.submitted_transactions@, b) implies
                !fin_has(fin, b) by {
                assert(old(self).submitted_has(b));
                if fin_has(f1, b) {
                    if f0.len() >= MAX_FINALIZED_REQUESTS {
                        assert(fin_has(f0, b));
                    }
                    assert(old(self).finalized_has(b));
                }
            }
        }
    }

    /// Ends a request whose amount is too low to serve: it enters the
    /// finalized ring with the `AmountTooLow` outcome.  The request may not
    /// be recorded anywhere else.
    pub fn finalize_amount_too_low(&mut self, request: RetrieveBtcRequest)
        requires
            old(self).inv(),
            !old(self).pending_has(request.block_index),
            !old(self).in_flight_map().contains_key(request.block_index),
            !old(self).submitted_has(request.block_index),
            !old(self).finalized_has(request.block_index),
        ensures
            final(self).inv(),
            final(self).finalized_requests@ == (if old(self).finalized_requests@.len()
                >= MAX_FINALIZED_REQUESTS {
                old(self).finalized_requests@.remove(0).push(
                    FinalizedBtcRetrieval { request, state: FinalizedStatus::AmountTooLow },
                )
            } else {
                old(self).finalized_requests@.push(
                    FinalizedBtcRetrieval { request, state: FinalizedStatus::AmountTooLow },
                )
            }),
            *final(self) == (CkBtcMinterState {
                finalized_requests: final(self).finalized_requests,
                ..*old(self)
            }),
    {
        self.push_finalized_request(
            FinalizedBtcRetrieval { request, state: FinalizedStatus::AmountTooLow },
        );
    }

    /// Removes and returns the pending request with the given block index,
    /// if any.
    pub fn remove_pending_request(&mut self, block_index: u64) -> (r: Option<RetrieveBtcRequest>)
        requires
            old(self).inv(),
        ensures
            final(self).inv(),
            match r {
                Some(req) => {
                    &&& old(self).pending_has(block_index)
                    &&& req.block_index == block_index
                    &&& exists|i: int|
                        0 <= i < old(self).pending_retrieve_btc_requests@.len() && old(self).pending_retrieve_btc_requests@[i] == req && final(self).pending_retrieve_btc_requests@ == old(self).pending_retrieve_btc_requests@.remove(i)
                },
                None => {
                    &&& !old(self).pending_has(block_index)
                    &&& final(self).pending_retrieve_btc_requests@ == old(self).pending_retrieve_btc_requests@
                },
            },
            *final(self) == (CkBtcMinterState {
                pending_retrieve_btc_requests: final(self).pending_retrieve_btc_requests,
                ..*old(self)
            }),
    {
        let ghost p0 = self.pending_retrieve_btc_requests@;
        match find_pending(&self.pending_retrieve_btc_requests, block_index) {
            Some(i) => {
                let req = self.pending_retrieve_btc_requests.remove(i);
                proof {
                    lemma_has_block_remove(p0, i as int);
                    assert(has_block(p0, block_index));
                    let pn = final(self).pending_retrieve_btc_requests@;
                    assert(final(self).pending_wf()) by {
                        assert(forall|k: int, l: int|
                            0 <= k < l < pn.len() ==> pn[k] == p0[if k < i { k } else { k + 1 }]
                                && pn[l] == p0[if l < i { l } else { l + 1 }]);
                    }
                    assert forall|b: u64| #[trigger] has_block(pn, b) implies (!map_of(
                        self.requests_in_flight@,
                    ).contains_key(b) && !txs_have(self.submitted_transactions@, b) && !txs_have(
                        self.stuck_transactions@,
                        b,
                    ) && !fin_has(self.finalized_requests@, b)) by {
                        assert(old(self).pending_has(b));
                    }
                }
                Some(req)
            },
            None => None,
        }
    }
}

} // verus!
