//! What it is to pick some of a list without a change of their order.
use vstd::prelude::*;

verus! {

/// Whether `at` names the places below `n` that `keep` holds of: each of them, once,
/// from the first to the last, and no other.
pub open spec fn selects(at: Seq<int>, n: int, keep: spec_fn(int) -> bool) -> bool {
    &&& forall|k: int| 0 <= k < at.len() ==> 0 <= #[trigger] at[k] < n && keep(at[k])
    &&& forall|j: int, k: int| 0 <= j < k < at.len() ==> #[trigger] at[j] < #[trigger] at[k]
    &&& forall|i: int| 0 <= i < n && #[trigger] keep(i) ==> at.contains(i)
}

/// Of no places none is named.
pub proof fn lemma_selects_none(keep: spec_fn(int) -> bool)
    ensures
        selects(Seq::empty(), 0, keep),
{
}

/// One more place is named behind the others where it is to be kept.
pub proof fn lemma_selects_next(at: Seq<int>, n: int, keep: spec_fn(int) -> bool)
    requires
        0 <= n,
        selects(at, n, keep),
    ensures
        keep(n) ==> selects(at.push(n), n + 1, keep),
        !keep(n) ==> selects(at, n + 1, keep),
{
    if keep(n) {
        let next = at.push(n);
        assert forall|i: int| 0 <= i < n + 1 && #[trigger] keep(i) implies next.contains(i) by {
            if i < n {
                assert(at.contains(i));
                let k = choose|k: int| 0 <= k < at.len() && at[k] == i;
                assert(next[k] == i);
            } else {
                assert(next[at.len() as int] == i);
            }
        }
    }
}

/// Places are named alike by conditions that are alike below the bound.
pub proof fn lemma_selects_alike(
    at: Seq<int>,
    n: int,
    keep: spec_fn(int) -> bool,
    other: spec_fn(int) -> bool,
)
    requires
        selects(at, n, keep),
        forall|i: int| 0 <= i < n ==> #[trigger] keep(i) == other(i),
    ensures
        selects(at, n, other),
{
    assert forall|k: int| 0 <= k < at.len() implies 0 <= #[trigger] at[k] < n && other(at[k]) by {
        assert(keep(at[k]));
    }
    assert forall|i: int| 0 <= i < n && #[trigger] other(i) implies at.contains(i) by {
        assert(keep(i));
    }
}

} // verus!
