//! Small utilities: sorting a vector of keys.

use vstd::prelude::*;
use vstd::multiset::Multiset;

verus! {

broadcast use vstd::seq_lib::group_to_multiset_ensures;

/// Whether a sequence of keys is ordered.
pub open spec fn sorted_u64(s: Seq<u64>) -> bool {
    forall|i: int, j: int| 0 <= i < j < s.len() ==> s[i] <= s[j]
}

/// The keys of a vector, in ascending order.
pub fn as_sorted_vec(values: Vec<u64>) -> (r: Vec<u64>)
    ensures
        sorted_u64(r@),
        r@.to_multiset() == values@.to_multiset(),
{
    let ghost orig = values@;
    let mut rest = values;
    let mut out: Vec<u64> = Vec::new();
    proof {
        assert(out@.to_multiset().add(rest@.to_multiset()) =~= orig.to_multiset());
    }
    while rest.len() > 0
        invariant
            out@.to_multiset().add(rest@.to_multiset()) == orig.to_multiset(),
            sorted_u64(out@),
            forall|k: int, l: int|
                0 <= k < out@.len() && 0 <= l < rest@.len() ==> out@[k] <= rest@[l],
        decreases rest@.len(),
    {
        let mut min_i: usize = 0;
        let mut j: usize = 1;
        while j < rest.len()
            invariant
                0 < rest@.len(),
                0 <= min_i < j <= rest@.len(),
                forall|l: int| 0 <= l < j ==> rest@[min_i as int] <= rest@[l],
            decreases rest@.len() - j,
        {
            if rest[j] < rest[min_i] {
                min_i = j;
            }
            j += 1;
        }
        let ghost rest_before = rest@;
        let v = rest.remove(min_i);
        out.push(v);
        proof {
            assert(rest_before.remove(min_i as int).to_multiset() =~= rest_before.to_multiset()
                .remove(v));
            assert(rest_before.to_multiset().count(v) > 0) by {
                assert(rest_before.contains(v));
            }
            assert(out@.to_multiset().add(rest@.to_multiset()) =~= orig.to_multiset());
            assert forall|k: int, l: int|
                0 <= k < out@.len() && 0 <= l < rest@.len() implies out@[k] <= rest@[l] by {
                let l0 = if l < min_i { l } else { l + 1 };
                assert(rest@[l] == rest_before[l0]);
                if k < out@.len() - 1 {
                } else {
                    assert(out@[k] == v);
                }
            }
        }
    }
    proof {
        assert(rest@.to_multiset() =~= Multiset::<u64>::empty()) by {
            assert(rest@ =~= Seq::<u64>::empty());
        }
        assert(out@.to_multiset().add(Multiset::<u64>::empty()) =~= out@.to_multiset());
    }
    out
}

} // verus!
