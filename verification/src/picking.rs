//! Picking some of a list: which positions, in which order, and no others.

use vstd::prelude::*;

verus! {

/// Whether `chosen` are, from the first to the last, exactly those of the positions
/// below `n` that are `wanted`: none is left out, none comes twice, and they stand
/// in order.
pub open spec fn exactly(chosen: Seq<int>, n: int, wanted: spec_fn(int) -> bool) -> bool {
    &&& forall|a: int, b: int| 0 <= a < b < chosen.len() ==> chosen[a] < chosen[b]
    &&& forall|k: int|
        0 <= k < chosen.len() ==> 0 <= #[trigger] chosen[k] < n && wanted(chosen[k])
    &&& forall|i: int| 0 <= i < n && #[trigger] wanted(i) ==> chosen.contains(i)
}

/// The positions below `n` that are wanted.
pub open spec fn positions(n: nat, wanted: spec_fn(int) -> bool) -> Seq<int>
    decreases n,
{
    if n == 0 {
        Seq::empty()
    } else {
        let before = positions((n - 1) as nat, wanted);
        if wanted(n - 1) {
            before.push(n - 1)
        } else {
            before
        }
    }
}

/// `positions` gives exactly the positions that are wanted.
pub proof fn lemma_positions(n: nat, wanted: spec_fn(int) -> bool)
    ensures
        exactly(positions(n, wanted), n as int, wanted),
    decreases n,
{
    if n > 0 {
        let before = positions((n - 1) as nat, wanted);
        let now = positions(n, wanted);
        lemma_positions((n - 1) as nat, wanted);
        assert forall|i: int| 0 <= i < n && #[trigger] wanted(i) implies now.contains(i) by {
            if i < n - 1 {
                assert(before.contains(i));
                let k = before.index_of(i);
                assert(now[k] == i);
            } else {
                assert(now[now.len() - 1] == i);
            }
        }
    }
}

/// What is wanted alike is picked alike.
pub proof fn lemma_positions_same(n: nat, a: spec_fn(int) -> bool, b: spec_fn(int) -> bool)
    requires
        forall|i: int| 0 <= i < n ==> #[trigger] a(i) == b(i),
    ensures
        positions(n, a) == positions(n, b),
    decreases n,
{
    if n > 0 {
        assert(a(n - 1) == b(n - 1));
        lemma_positions_same((n - 1) as nat, a, b);
    }
}

/// Filtering a list picks exactly the positions whose items are wanted.
pub proof fn lemma_filter_picks<T>(s: Seq<T>, keep: spec_fn(T) -> bool)
    ensures
        ({
            let chosen = positions(s.len(), |i: int| keep(s[i]));
            &&& s.filter(keep).len() == chosen.len()
            &&& forall|k: int|
                0 <= k < chosen.len() ==> s.filter(keep)[k] == s[#[trigger] chosen[k]]
        }),
    decreases s.len(),
{
    reveal(Seq::filter);
    if s.len() > 0 {
        let front = s.drop_last();
        lemma_filter_picks(front, keep);
        let n = front.len();
        let wanted = |i: int| keep(s[i]);
        lemma_positions_same(n, |i: int| keep(front[i]), wanted);
        lemma_positions(n, wanted);
        let before = positions(n, wanted);
        let chosen = positions(s.len(), wanted);
        assert forall|k: int| 0 <= k < chosen.len() implies s.filter(keep)[k]
            == s[#[trigger] chosen[k]] by {
            if k < before.len() {
                assert(chosen[k] == before[k]);
                assert(front[before[k]] == s[before[k]]);
            }
        }
    }
}

} // verus!
