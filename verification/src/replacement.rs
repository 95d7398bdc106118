//! Walks over the transaction-replacement maps, and the absence of cycles.
//!
//! A replacement map sends a transaction identifier to the one that took its
//! place.  `step_n` walks such a map; a map is acyclic when no walk of one or
//! more defined steps returns to its start.  Inserting an edge whose new
//! endpoint is fresh keeps a map acyclic, and so does removing edges.

use vstd::prelude::*;

use crate::domain::Txid;

verus! {

/// The identifier reached after `n` steps through the map.
pub open spec fn step_n(m: Map<Txid, Txid>, t: Txid, n: nat) -> Txid
    decreases n,
{
    if n == 0 {
        t
    } else {
        m[step_n(m, t, (n - 1) as nat)]
    }
}

/// Whether the first `n` steps from `t` all follow edges of the map.
pub open spec fn path_defined(m: Map<Txid, Txid>, t: Txid, n: nat) -> bool
    decreases n,
{
    if n == 0 {
        true
    } else {
        path_defined(m, t, (n - 1) as nat) && m.contains_key(step_n(m, t, (n - 1) as nat))
    }
}

/// No walk of one or more defined steps returns to its start.
pub open spec fn acyclic(m: Map<Txid, Txid>) -> bool {
    forall|t: Txid, n: nat| 1 <= n && #[trigger] path_defined(m, t, n) ==> step_n(m, t, n) != t
}

/// A defined path visits keys of the map at every position before the last.
pub proof fn lemma_path_positions(m: Map<Txid, Txid>, t: Txid, n: nat, i: nat)
    requires
        path_defined(m, t, n),
        i < n,
    ensures
        m.contains_key(step_n(m, t, i)),
    decreases n,
{
    if i + 1 < n {
        lemma_path_positions(m, t, (n - 1) as nat, i);
    }
}

/// Two maps that agree everywhere but on one key carry the same paths, as
/// long as a path never visits that key.
pub proof fn lemma_steps_agree(m1: Map<Txid, Txid>, m2: Map<Txid, Txid>, ex: Txid, t: Txid, i: nat)
    requires
        forall|x: Txid| x != ex ==> (m2.contains_key(x) <==> m1.contains_key(x)),
        forall|x: Txid| x != ex && m1.contains_key(x) ==> m2[x] == m1[x],
        forall|l: nat| l < i ==> #[trigger] step_n(m2, t, l) != ex,
        path_defined(m2, t, i),
    ensures
        path_defined(m1, t, i),
        step_n(m1, t, i) == step_n(m2, t, i),
    decreases i,
{
    if i > 0 {
        assert(forall|l: nat| l < (i - 1) as nat ==> #[trigger] step_n(m2, t, l) != ex);
        lemma_steps_agree(m1, m2, ex, t, (i - 1) as nat);
        assert(step_n(m2, t, (i - 1) as nat) != ex);
    }
}

/// A path of a submap is a path of the larger map.
pub proof fn lemma_path_submap(m1: Map<Txid, Txid>, m2: Map<Txid, Txid>, t: Txid, n: nat)
    requires
        m1.submap_of(m2),
        path_defined(m1, t, n),
    ensures
        path_defined(m2, t, n),
        step_n(m2, t, n) == step_n(m1, t, n),
    decreases n,
{
    if n > 0 {
        lemma_path_submap(m1, m2, t, (n - 1) as nat);
    }
}

/// A submap of an acyclic map is acyclic.
pub proof fn lemma_acyclic_submap(m1: Map<Txid, Txid>, m2: Map<Txid, Txid>)
    requires
        m1.submap_of(m2),
        acyclic(m2),
    ensures
        acyclic(m1),
{
    assert forall|t: Txid, n: nat| 1 <= n && #[trigger] path_defined(m1, t, n) implies step_n(
        m1,
        t,
        n,
    ) != t by {
        lemma_path_submap(m1, m2, t, n);
    }
}

/// Removing a key keeps a map acyclic.
pub proof fn lemma_acyclic_remove(m: Map<Txid, Txid>, k: Txid)
    requires
        acyclic(m),
    ensures
        acyclic(m.remove(k)),
{
    assert(m.remove(k).submap_of(m));
    lemma_acyclic_submap(m.remove(k), m);
}

/// Inserting an edge to an endpoint that carries no edge at all keeps a map
/// acyclic.
pub proof fn lemma_acyclic_insert_fresh_target(m: Map<Txid, Txid>, a: Txid, b: Txid)
    requires
        acyclic(m),
        !m.contains_key(a),
        !m.contains_key(b),
        forall|x: Txid| #[trigger] m.contains_key(x) ==> m[x] != b,
        a != b,
    ensures
        acyclic(m.insert(a, b)),
{
    let m2 = m.insert(a, b);
    assert forall|t: Txid, n: nat| 1 <= n && #[trigger] path_defined(m2, t, n) implies step_n(
        m2,
        t,
        n,
    ) != t by {
        if step_n(m2, t, n) == t {
            // The start is not `b`: the first step would need an edge out of `b`.
            lemma_path_positions(m2, t, n, 0);
            assert(t != b);
            if exists|i: nat| i < n && #[trigger] step_n(m2, t, i) == a {
                // The step after visiting `a` reaches `b`, where the walk must
                // stop; so `b` closes the walk, yet the walk starts elsewhere.
                let i = choose|i: nat| i < n && #[trigger] step_n(m2, t, i) == a;
                assert(step_n(m2, t, (i + 1) as nat) == b);
                if i + 1 < n {
                    lemma_path_positions(m2, t, n, (i + 1) as nat);
                    assert(false);
                } else {
                    assert(step_n(m2, t, n) == b);
                    assert(false);
                }
            } else {
                // The walk never visits `a`, so it lives in the old map.
                lemma_steps_agree(m, m2, a, t, n);
                assert(false);
            }
        }
    }
}

/// Whether the replacement chain connects `c` to `x` in one or more steps:
/// forward through the replacement map or backward through the reverse map.
pub open spec fn chain_linked(repl: Map<Txid, Txid>, rev: Map<Txid, Txid>, c: Txid, x: Txid) -> bool {
    ||| exists|n: nat| 1 <= n && #[trigger] path_defined(repl, c, n) && step_n(repl, c, n) == x
    ||| exists|n: nat| 1 <= n && #[trigger] path_defined(rev, c, n) && step_n(rev, c, n) == x
}

/// Walking `i` steps and then `k` more is walking `i + k` steps.
pub proof fn lemma_path_join(m: Map<Txid, Txid>, t: Txid, i: nat, k: nat)
    requires
        path_defined(m, t, i),
        path_defined(m, step_n(m, t, i), k),
    ensures
        path_defined(m, t, (i + k) as nat),
        step_n(m, t, (i + k) as nat) == step_n(m, step_n(m, t, i), k),
    decreases k,
{
    if k > 0 {
        lemma_path_join(m, t, i, (k - 1) as nat);
    }
}

/// With inverse maps, a backward walk mirrors a forward one: `n` steps
/// through the reverse map from `c` reach `x` exactly when `n` steps through
/// the forward map lead from `x` back to `c`.
pub proof fn lemma_rev_path_forward(repl: Map<Txid, Txid>, rev: Map<Txid, Txid>, c: Txid, n: nat)
    requires
        forall|x: Txid, y: Txid|
            (#[trigger] repl.contains_key(x) && repl[x] == y) <==> (#[trigger] rev.contains_key(
                y,
            ) && rev[y] == x),
        path_defined(rev, c, n),
    ensures
        path_defined(repl, step_n(rev, c, n), n),
        step_n(repl, step_n(rev, c, n), n) == c,
    decreases n,
{
    if n > 0 {
        let y = step_n(rev, c, (n - 1) as nat);
        let x = step_n(rev, c, n);
        assert(rev.contains_key(y) && rev[y] == x);
        assert(repl.contains_key(x) && repl[x] == y);
        lemma_rev_path_forward(repl, rev, c, (n - 1) as nat);
        assert(step_n(repl, x, 0) == x);
        assert(step_n(repl, x, 1) == repl[step_n(repl, x, 0)]);
        assert(step_n(repl, x, 1) == y);
        assert(path_defined(repl, x, 0));
        assert(path_defined(repl, x, 1));
        lemma_path_join(repl, x, 1, (n - 1) as nat);
    }
}

/// With inverse, acyclic maps, an identifier reached forward in one or more
/// steps never coincides with one reached backward, the start included.
pub proof fn lemma_chain_sides_disjoint(
    repl: Map<Txid, Txid>,
    rev: Map<Txid, Txid>,
    c: Txid,
    n: nat,
    m: nat,
)
    requires
        forall|x: Txid, y: Txid|
            (#[trigger] repl.contains_key(x) && repl[x] == y) <==> (#[trigger] rev.contains_key(
                y,
            ) && rev[y] == x),
        acyclic(repl),
        path_defined(repl, c, n),
        1 <= n,
        path_defined(rev, c, m),
    ensures
        step_n(repl, c, n) != step_n(rev, c, m),
{
    if step_n(repl, c, n) == step_n(rev, c, m) {
        let x = step_n(rev, c, m);
        lemma_rev_path_forward(repl, rev, c, m);
        lemma_path_join(repl, c, n, m);
        assert(step_n(repl, c, (n + m) as nat) == c);
        assert(path_defined(repl, c, (n + m) as nat));
    }
}

/// In acyclic maps no identifier is chain-connected to itself.
pub proof fn lemma_chain_not_self(repl: Map<Txid, Txid>, rev: Map<Txid, Txid>, c: Txid)
    requires
        acyclic(repl),
        acyclic(rev),
    ensures
        !chain_linked(repl, rev, c, c),
{
}

/// A walk cannot extend past an identifier that carries no edge.
pub proof fn lemma_path_stops(m: Map<Txid, Txid>, t: Txid, stop: nat, n: nat)
    requires
        !m.contains_key(step_n(m, t, stop)),
        n > stop,
    ensures
        !path_defined(m, t, n),
{
    if path_defined(m, t, n) {
        lemma_path_positions(m, t, n, stop);
    }
}

/// Inserting an edge from an endpoint that carries no edge at all keeps a map
/// acyclic.
pub proof fn lemma_acyclic_insert_fresh_source(m: Map<Txid, Txid>, a: Txid, b: Txid)
    requires
        acyclic(m),
        !m.contains_key(a),
        forall|x: Txid| #[trigger] m.contains_key(x) ==> m[x] != a,
        a != b,
    ensures
        acyclic(m.insert(a, b)),
{
    let m2 = m.insert(a, b);
    assert forall|t: Txid, n: nat| 1 <= n && #[trigger] path_defined(m2, t, n) implies step_n(
        m2,
        t,
        n,
    ) != t by {
        if step_n(m2, t, n) == t {
            // No position from 1 on can be `a`: `a` has no incoming edge.
            assert forall|i: nat| 1 <= i <= n implies #[trigger] step_n(m2, t, i) != a by {
                if step_n(m2, t, i) == a {
                    lemma_path_positions(m2, t, n, (i - 1) as nat);
                    let prev = step_n(m2, t, (i - 1) as nat);
                    assert(step_n(m2, t, i) == m2[prev]);
                    if prev == a {
                        assert(m2[a] == b);
                    }
                }
            }
            // Nor can the start: the walk returns to it with a final step.
            assert(step_n(m2, t, n) == t);
            assert(t != a);
            assert(forall|i: nat| i < n ==> #[trigger] step_n(m2, t, i) != a);
            lemma_steps_agree(m, m2, a, t, n);
            assert(false);
        }
    }
}

} // verus!
