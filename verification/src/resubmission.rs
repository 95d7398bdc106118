//! Replacing stuck transactions and walking replacement chains.

use vstd::prelude::*;

use crate::alist::{alist_find, eq_is_equality, keys_distinct, map_of};
use crate::domain::Txid;
use crate::records::SubmittedBtcTransaction;
use crate::replacement::{
    acyclic, lemma_acyclic_insert_fresh_source, lemma_acyclic_insert_fresh_target,
    lemma_path_positions, path_defined, step_n,
};
use crate::state::{
    fin_has, has_block, lemma_txs_have_push, tx_has, txs_have, CkBtcMinterState,
};

verus! {

/// A walk from `t` that ends after `n` steps: every step follows an edge and
/// no edge leaves the last identifier.
pub open spec fn is_chain_end(m: Map<Txid, Txid>, t: Txid, n: nat, end: Txid) -> bool {
    &&& path_defined(m, t, n)
    &&& step_n(m, t, n) == end
    &&& !m.contains_key(end)
}

/// The chain from `t` takes at least one step and ends at `last`.
pub open spec fn reaches_end(m: Map<Txid, Txid>, t: Txid, last: Txid) -> bool {
    exists|n: nat| 1 <= n && #[trigger] is_chain_end(m, t, n, last)
}

/// Positions of a defined path through an acyclic map are pairwise distinct.
pub proof fn lemma_path_distinct(m: Map<Txid, Txid>, t: Txid, i: nat, j: nat, n: nat)
    requires
        acyclic(m),
        path_defined(m, t, n),
        i < j,
        j <= n,
    ensures
        step_n(m, t, i) != step_n(m, t, j),
{
    lemma_path_prefix(m, t, j, n);
    lemma_step_compose(m, t, i, (j - i) as nat);
    if step_n(m, t, i) == step_n(m, t, j) {
        assert(path_defined(m, step_n(m, t, i), (j - i) as nat));
        assert(step_n(m, step_n(m, t, i), (j - i) as nat) == step_n(m, t, i));
    }
}

/// A prefix of a defined path is defined.
pub proof fn lemma_path_prefix(m: Map<Txid, Txid>, t: Txid, i: nat, n: nat)
    requires
        path_defined(m, t, n),
        i <= n,
    ensures
        path_defined(m, t, i),
    decreases n,
{
    if i < n {
        lemma_path_prefix(m, t, i, (n - 1) as nat);
    }
}

/// Walking `i + k` steps is walking `i` steps and then `k` more.
pub proof fn lemma_step_compose(m: Map<Txid, Txid>, t: Txid, i: nat, k: nat)
    requires
        path_defined(m, t, (i + k) as nat),
    ensures
        path_defined(m, step_n(m, t, i), k),
        step_n(m, step_n(m, t, i), k) == step_n(m, t, (i + k) as nat),
    decreases k,
{
    if k > 0 {
        lemma_step_compose(m, t, i, (k - 1) as nat);
        assert(path_defined(m, t, (i + k - 1) as nat)) by {
            lemma_path_prefix(m, t, (i + k - 1) as nat, (i + k) as nat);
        }
    }
}

/// The keys of an association list's map are no more numerous than its
/// entries.
pub proof fn lemma_map_of_dom_len<K, V>(s: Seq<(K, V)>)
    ensures
        map_of(s).dom().finite(),
        map_of(s).dom().len() <= s.len(),
    decreases s.len(),
{
    if s.len() == 0 {
        assert(map_of(s).dom() =~= Set::<K>::empty());
    } else {
        lemma_map_of_dom_len(s.drop_last());
        assert(map_of(s).dom() =~= map_of(s.drop_last()).dom().insert(s.last().0));
        vstd::set_lib::lemma_len_union::<K>(
            map_of(s.drop_last()).dom(),
            Set::<K>::empty().insert(s.last().0),
        );
        assert(map_of(s.drop_last()).dom().insert(s.last().0) =~= map_of(
            s.drop_last(),
        ).dom().union(Set::<K>::empty().insert(s.last().0)));
    }
}

/// Follows a replacement chain from `start` to its end, counting the steps.
pub(crate) fn walk_chain(v: &Vec<(Txid, Txid)>, start: &Txid) -> (r: (Txid, usize))
    requires
        keys_distinct(v@),
        acyclic(map_of(v@)),
    ensures
        is_chain_end(map_of(v@), *start, r.1 as nat, r.0),
{
    proof {
        assert(eq_is_equality::<Txid>());
        lemma_map_of_dom_len(v@);
    }
    let bound = v.len();
    let ghost m = map_of(v@);
    let mut current: Txid = *start;
    let mut steps: usize = 0;
    let ghost visited = Set::<Txid>::empty();
    loop
        invariant
            keys_distinct(v@),
            acyclic(m),
            m == map_of(v@),
            m.dom().finite(),
            m.dom().len() <= v@.len(),
            v@.len() <= usize::MAX,
            path_defined(m, *start, steps as nat),
            current == step_n(m, *start, steps as nat),
            visited.finite(),
            visited.len() == steps,
            visited.subset_of(m.dom()),
            forall|i: nat| i < steps ==> visited.contains(#[trigger] step_n(m, *start, i)),
            forall|x: Txid|
                #[trigger] visited.contains(x) ==> exists|i: nat|
                    i < steps && step_n(m, *start, i) == x,
        decreases m.dom().len() - visited.len(),
    {
        proof {
            crate::alist::lemma_map_of_contains(v@, current);
        }
        match alist_find(v, &current) {
            Some(idx) => {
                proof {
                    crate::alist::lemma_map_of_index(v@, idx as int);
                    assert(m.contains_key(current));
                    assert(path_defined(m, *start, (steps + 1) as nat));
                    if visited.contains(current) {
                        let i = choose|i: nat|
                            i < steps && step_n(m, *start, i) == current;
                        lemma_path_distinct(m, *start, i, steps as nat, steps as nat);
                        assert(false);
                    }
                    vstd::set_lib::lemma_len_subset(visited.insert(current), m.dom());
                }
                let next = v[idx].1;
                proof {
                    assert(next == m[current]);
                    assert(step_n(m, *start, (steps + 1) as nat) == next);
                    assert forall|x: Txid| #[trigger] visited.insert(current).contains(x)
                        implies exists|i: nat|
                        i < steps + 1 && step_n(m, *start, i) == x by {
                        if x == current {
                            assert(step_n(m, *start, steps as nat) == x);
                        }
                    }
                    assert forall|i: nat| i < steps + 1 implies visited.insert(current).contains(
                        #[trigger] step_n(m, *start, i),
                    ) by {}
                }
                proof {
                    visited = visited.insert(current);
                }
                current = next;
                steps = steps + 1;
            },
            None => {
                proof {
                    assert(!m.contains_key(current));
                }
                return (current, steps);
            },
        }
    }
}

impl CkBtcMinterState {
    /// The most recent replacement of the given stuck transaction, reached by
    /// following the replacement chain to its end.
    #[verifier::rlimit(50)]
    pub fn find_last_replacement_tx(&self, txid: &Txid) -> (r: Option<Txid>)
        requires
            self.inv(),
        ensures
            r is Some <==> self.repl_map().contains_key(*txid),
            r is Some ==> reaches_end(self.repl_map(), *txid, r->0),
    {
        proof {
            assert(eq_is_equality::<Txid>());
            crate::alist::lemma_map_of_contains(self.replacement_txid@, *txid);
        }
        match alist_find(&self.replacement_txid, txid) {
            Some(i) => {
                proof {
                    assert(crate::alist::has_key(self.replacement_txid@, *txid));
                    crate::alist::lemma_map_of_index(self.replacement_txid@, i as int);
                    assert(self.repl_map().contains_key(*txid));
                }
                let (end, steps) = walk_chain(&self.replacement_txid, txid);
                proof {
                    assert(steps >= 1) by {
                        if steps == 0 {
                            assert(end == *txid);
                            assert(!self.repl_map().contains_key(*txid));
                        }
                    }
                    assert(is_chain_end(self.repl_map(), *txid, steps as nat, end));
                    assert(reaches_end(self.repl_map(), *txid, end)) by {
                        assert(1 <= steps as nat && is_chain_end(
                            self.repl_map(),
                            *txid,
                            steps as nat,
                            end,
                        ));
                    }
                }
                Some(end)
            },
            None => None,
        }
    }

    /// The length of the longest chain of resubmissions behind any submitted
    /// transaction.
    pub fn longest_resubmission_chain_size(&self) -> (r: usize)
        requires
            self.inv(),
        ensures
            forall|i: int, n: nat|
                0 <= i < self.submitted_transactions@.len() && #[trigger] is_chain_end(
                    self.rev_map(),
                    self.submitted_transactions@[i].txid,
                    n,
                    step_n(self.rev_map(), self.submitted_transactions@[i].txid, n),
                ) ==> n <= r,
            self.submitted_transactions@.len() == 0 ==> r == 0,
            self.submitted_transactions@.len() > 0 ==> exists|i: int, n: nat|
                0 <= i < self.submitted_transactions@.len() && n == r && #[trigger] is_chain_end(
                    self.rev_map(),
                    self.submitted_transactions@[i].txid,
                    n,
                    step_n(self.rev_map(), self.submitted_transactions@[i].txid, n),
                ),
    {
        let mut longest: usize = 0;
        let mut i: usize = 0;
        let ghost m = self.rev_map();
        while i < self.submitted_transactions.len()
            invariant
                self.inv(),
                m == self.rev_map(),
                0 <= i <= self.submitted_transactions@.len(),
                forall|j: int, n: nat|
                    0 <= j < i && #[trigger] is_chain_end(
                        m,
                        self.submitted_transactions@[j].txid,
                        n,
                        step_n(m, self.submitted_transactions@[j].txid, n),
                    ) ==> n <= longest,
                i > 0 ==> exists|j: int, n: nat|
                    0 <= j < i && n == longest && #[trigger] is_chain_end(
                        m,
                        self.submitted_transactions@[j].txid,
                        n,
                        step_n(m, self.submitted_transactions@[j].txid, n),
                    ),
                i == 0 ==> longest == 0,
            decreases self.submitted_transactions@.len() - i,
        {
            let txid = self.submitted_transactions[i].txid;
            let (end, steps) = walk_chain(&self.rev_replacement_txid, &txid);
            proof {
                assert(is_chain_end(m, txid, steps as nat, step_n(m, txid, steps as nat)));
                assert forall|n: nat|
                    #[trigger] is_chain_end(m, txid, n, step_n(m, txid, n)) implies n
                    == steps as nat by {
                    lemma_chain_end_unique(m, txid, n, steps as nat);
                }
            }
            if steps > longest {
                longest = steps;
            }
            i += 1;
        }
        longest
    }
}

impl CkBtcMinterState {
    /// Swaps a stuck submitted transaction for its replacement: the new
    /// transaction takes the old one's place in the submitted list, the old
    /// one moves to the stuck list, and the replacement edge is recorded in
    /// both directions.  The old transaction must not have been replaced
    /// before, the new identifier must be fresh, and the new requests may not
    /// be pending, in flight elsewhere, or finalized.
    pub fn replace_transaction(&mut self, old_txid: &Txid, tx: SubmittedBtcTransaction)
        requires
            old(self).inv(),
            *old_txid != tx.txid,
            !old(self).repl_map().contains_key(*old_txid),
            !old(self).repl_map().contains_key(tx.txid),
            !old(self).rev_map().contains_key(tx.txid),
            crate::state::keys_unique_in_tx(tx),
            exists|i: int|
                0 <= i < old(self).submitted_transactions@.len()
                    && old(self).submitted_transactions@[i].txid == *old_txid,
            forall|i: int, j: int|
                0 <= i < old(self).submitted_transactions@.len() && 0 <= j < old(
                    self,
                ).submitted_transactions@.len() && #[trigger] old(
                    self,
                ).submitted_transactions@[i].txid == *old_txid && #[trigger] old(
                    self,
                ).submitted_transactions@[j].txid == *old_txid ==> i == j,
            forall|b: u64|
                #[trigger] tx_has(tx, b) ==> !old(self).pending_has(b) && !old(
                    self,
                ).in_flight_map().contains_key(b) && !old(self).finalized_has(b),
            forall|i: int, b: u64|
                0 <= i < old(self).submitted_transactions@.len()
                    && old(self).submitted_transactions@[i].txid != *old_txid && #[trigger] tx_has(
                    old(self).submitted_transactions@[i],
                    b,
                ) ==> !tx_has(tx, b),
        ensures
            final(self).inv(),
            exists|i: int|
                {
                    &&& 0 <= i < old(self).submitted_transactions@.len()
                    &&& old(self).submitted_transactions@[i].txid == *old_txid
                    &&& final(self).submitted_transactions@ == old(
                        self,
                    ).submitted_transactions@.update(i, tx)
                    &&& final(self).stuck_transactions@ == old(self).stuck_transactions@.push(
                        old(self).submitted_transactions@[i],
                    )
                },
            final(self).repl_map() == old(self).repl_map().insert(*old_txid, tx.txid),
            final(self).rev_map() == old(self).rev_map().insert(tx.txid, *old_txid),
            *final(self) == (CkBtcMinterState {
                submitted_transactions: final(self).submitted_transactions,
                stuck_transactions: final(self).stuck_transactions,
                replacement_txid: final(self).replacement_txid,
                rev_replacement_txid: final(self).rev_replacement_txid,
                ..*old(self)
            }),
    {
        proof {
            assert(eq_is_equality::<Txid>());
        }
        let new_txid = tx.txid;
        let pos = match crate::state::find_tx_by_txid(&self.submitted_transactions, old_txid) {
            Some(pos) => pos,
            None => {
                proof {
                    let i = choose|i: int|
                        0 <= i < self.submitted_transactions@.len()
                            && self.submitted_transactions@[i].txid == *old_txid;
                    assert(false);
                }
                0
            },
        };
        let ghost s0 = self.submitted_transactions@;
        let ghost old_tx = s0[pos as int];
        let mut tx_slot = tx;
        core::mem::swap(&mut self.submitted_transactions[pos], &mut tx_slot);
        // `tx_slot` now holds the old transaction.
        self.stuck_transactions.push(tx_slot);
        let ghost repl0 = self.replacement_txid@;
        let ghost rev0 = self.rev_replacement_txid@;
        crate::alist::alist_put(&mut self.replacement_txid, *old_txid, new_txid);
        crate::alist::alist_put(&mut self.rev_replacement_txid, new_txid, *old_txid);
        proof {
            let subs = final(self).submitted_transactions@;
            assert(subs == s0.update(pos as int, tx));
            // The pipeline partition: the new requests are fresh to the rest.
            crate::state::lemma_txs_have_push(old(self).stuck_transactions@, old_tx);
            assert forall|b: u64|
                #[trigger] has_block(self.pending_retrieve_btc_requests@, b) implies (!map_of(
                self.requests_in_flight@,
            ).contains_key(b) && !txs_have(subs, b) && !txs_have(
                final(self).stuck_transactions@,
                b,
            ) && !fin_has(self.finalized_requests@, b)) by {
                assert(old(self).pending_has(b));
                if txs_have(subs, b) {
                    let i = choose|i: int| 0 <= i < subs.len() && tx_has(#[trigger] subs[i], b);
                    if i == pos {
                        assert(tx_has(tx, b));
                    } else {
                        assert(subs[i] == s0[i]);
                        assert(txs_have(s0, b));
                        assert(old(self).submitted_has(b));
                    }
                }
                if tx_has(old_tx, b) {
                    assert(txs_have(s0, b));
                    assert(old(self).submitted_has(b));
                }
            }
            assert forall|b: u64|
                #[trigger] map_of(self.requests_in_flight@).contains_key(b) implies (!txs_have(
                subs,
                b,
            ) && !fin_has(self.finalized_requests@, b)) by {
                assert(old(self).in_flight_map().contains_key(b));
                if txs_have(subs, b) {
                    let i = choose|i: int| 0 <= i < subs.len() && tx_has(#[trigger] subs[i], b);
                    if i == pos {
                        assert(tx_has(tx, b));
                    } else {
                        assert(subs[i] == s0[i]);
                        assert(txs_have(s0, b));
                    }
                }
            }
            assert forall|i: int, j: int, b: u64| 0 <= i < j < subs.len() implies !(
            #[trigger] tx_has(subs[i], b) && #[trigger] tx_has(subs[j], b)) by {
                if tx_has(subs[i], b) && tx_has(subs[j], b) {
                    if i == pos {
                        assert(subs[j] == s0[j]);
                        assert(s0[j].txid != *old_txid);
                        assert(!tx_has(tx, b));
                    } else if j == pos {
                        assert(subs[i] == s0[i]);
                        assert(s0[i].txid != *old_txid);
                        assert(!tx_has(tx, b));
                    } else {
                        assert(subs[i] == s0[i] && subs[j] == s0[j]);
                    }
                }
            }
            assert forall|b: u64| #[trigger] txs_have(subs, b) implies !fin_has(
                self.finalized_requests@,
                b,
            ) by {
                let i = choose|i: int| 0 <= i < subs.len() && tx_has(#[trigger] subs[i], b);
                if i == pos {
                    assert(tx_has(tx, b));
                } else {
                    assert(subs[i] == s0[i]);
                    assert(txs_have(s0, b));
                }
            }
            assert(crate::state::submitted_group_wf(subs, self.finalized_requests@));
            // The replacement maps stay inverse bijections.
            let replm = map_of(final(self).replacement_txid@);
            let revm = map_of(final(self).rev_replacement_txid@);
            assert(replm == map_of(repl0).insert(*old_txid, new_txid));
            assert(revm == map_of(rev0).insert(new_txid, *old_txid));
            assert forall|x: Txid, y: Txid|
                (#[trigger] replm.contains_key(x) && replm[x] == y) <==> (
                #[trigger] revm.contains_key(y) && revm[y] == x) by {
                if x == *old_txid || y == new_txid {
                } else {
                    assert((map_of(repl0).contains_key(x) && map_of(repl0)[x] == y) <==> (map_of(
                        rev0,
                    ).contains_key(y) && map_of(rev0)[y] == x));
                }
            }
            // And acyclic: the new transaction identifier is fresh on both
            // sides, so no walk can close a cycle through the new edge.
            assert forall|x: Txid| #[trigger] map_of(repl0).contains_key(x) implies map_of(
                repl0,
            )[x] != new_txid by {
                if map_of(repl0)[x] == new_txid {
                    assert(map_of(rev0).contains_key(new_txid));
                }
            }
            lemma_acyclic_insert_fresh_target(map_of(repl0), *old_txid, new_txid);
            assert forall|x: Txid| #[trigger] map_of(rev0).contains_key(x) implies map_of(
                rev0,
            )[x] != new_txid by {
                if map_of(rev0)[x] == new_txid {
                    assert(map_of(repl0).contains_key(new_txid));
                }
            }
            lemma_acyclic_insert_fresh_source(map_of(rev0), new_txid, *old_txid);
        }
    }
}

/// A chain has only one end.
pub proof fn lemma_chain_end_unique(m: Map<Txid, Txid>, t: Txid, n1: nat, n2: nat)
    requires
        is_chain_end(m, t, n1, step_n(m, t, n1)),
        is_chain_end(m, t, n2, step_n(m, t, n2)),
    ensures
        n1 == n2,
{
    if n1 < n2 {
        lemma_path_positions(m, t, n2, n1);
    }
    if n2 < n1 {
        lemma_path_positions(m, t, n1, n2);
    }
}

} // verus!
