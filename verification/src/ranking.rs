//! The canonical order of piles: non-empty piles by falling bottom card,
//! then the empty piles in the order of their slots.

use vstd::prelude::*;
use vstd::set_lib::*;

verus! {

/// Slot `a` comes before slot `b` in the canonical order of `piles`.
pub open spec fn precedes(piles: Seq<Seq<u8>>, a: int, b: int) -> bool {
    if piles[a].len() > 0 && piles[b].len() > 0 {
        piles[a][0] > piles[b][0] || (piles[a][0] == piles[b][0] && a < b)
    } else if piles[a].len() > 0 {
        true
    } else if piles[b].len() > 0 {
        false
    } else {
        a < b
    }
}

/// The number of slots below `k` that come before `slot`.
pub open spec fn count_before(piles: Seq<Seq<u8>>, slot: int, k: int) -> int
    decreases k,
{
    if k <= 0 {
        0
    } else {
        count_before(piles, slot, k - 1) + if precedes(piles, k - 1, slot) {
            1int
        } else {
            0int
        }
    }
}

/// The rank of `slot`: how many slots come before it.
pub open spec fn rank_of(piles: Seq<Seq<u8>>, slot: int) -> int {
    count_before(piles, slot, piles.len() as int)
}

/// The rank of every slot of `piles`.
pub open spec fn ranking(piles: Seq<Seq<u8>>) -> Seq<usize> {
    Seq::new(piles.len(), |slot: int| rank_of(piles, slot) as usize)
}

/// The slot that `ranks` gives the rank `r`.
pub open spec fn slot_of(ranks: Seq<usize>, r: int) -> int {
    choose|a: int| 0 <= a < ranks.len() && ranks[a] == r
}

/// Each rank below the length of `ranks` is that of some slot.
pub open spec fn is_onto(ranks: Seq<usize>) -> bool {
    forall|r: int|
        0 <= r < ranks.len() ==> 0 <= #[trigger] slot_of(ranks, r) < ranks.len() && ranks[slot_of(
            ranks,
            r,
        )] == r
}

/// `ranks` gives each slot of `piles` a rank of its own below the number
/// of piles, in the canonical order.
pub open spec fn is_ranking(piles: Seq<Seq<u8>>, ranks: Seq<usize>) -> bool {
    &&& ranks.len() == piles.len()
    &&& forall|a: int| 0 <= a < piles.len() ==> #[trigger] ranks[a] < piles.len()
    &&& forall|a: int, b: int|
        0 <= a < piles.len() && 0 <= b < piles.len() && precedes(piles, a, b)
            ==> #[trigger] ranks[a] < #[trigger] ranks[b]
    &&& is_onto(ranks)
}

/// A count over the slots below `k` is between 0 and `k`.
pub proof fn lemma_count_bounds(piles: Seq<Seq<u8>>, slot: int, k: int)
    requires
        0 <= k,
    ensures
        0 <= count_before(piles, slot, k) <= k,
    decreases k,
{
    if k > 0 {
        lemma_count_bounds(piles, slot, k - 1);
    }
}

/// A slot that is not counted keeps the count under `k`.
proof fn lemma_count_skips(piles: Seq<Seq<u8>>, slot: int, m: int, k: int)
    requires
        0 <= m < k,
        !precedes(piles, m, slot),
    ensures
        count_before(piles, slot, k) < k,
    decreases k,
{
    if m == k - 1 {
        lemma_count_bounds(piles, slot, k - 1);
    } else {
        lemma_count_skips(piles, slot, m, k - 1);
    }
}

/// Where all that comes before `a` comes before `b` too, `a` counts no
/// more than `b`.
proof fn lemma_count_monotone(piles: Seq<Seq<u8>>, a: int, b: int, k: int)
    requires
        0 <= k <= piles.len(),
        0 <= a < piles.len(),
        0 <= b < piles.len(),
        precedes(piles, a, b),
    ensures
        count_before(piles, a, k) <= count_before(piles, b, k),
        a < k ==> count_before(piles, a, k) < count_before(piles, b, k),
    decreases k,
{
    if k > 0 {
        lemma_count_monotone(piles, a, b, k - 1);
    }
}

/// An injective sequence of ranks below its length reaches each of them.
pub proof fn lemma_ranks_onto(ranks: Seq<usize>)
    requires
        forall|a: int| 0 <= a < ranks.len() ==> #[trigger] ranks[a] < ranks.len(),
        forall|a: int, b: int|
            0 <= a < ranks.len() && 0 <= b < ranks.len() && a != b ==> ranks[a] != ranks[b],
    ensures
        is_onto(ranks),
{
    let n = ranks.len() as int;
    let ints = Seq::new(ranks.len(), |a: int| ranks[a] as int);
    assert(ints.no_duplicates());
    ints.unique_seq_to_set();
    lemma_int_range(0, n);
    assert(ints.to_set().subset_of(set_int_range(0, n))) by {
        assert forall|v: int| ints.to_set().contains(v) implies set_int_range(0, n).contains(v) by {
            let a = choose|a: int| 0 <= a < ints.len() && ints[a] == v;
            assert(ranks[a] < ranks.len());
        }
    }
    assert(ints.to_set().finite()) by {
        lemma_set_subset_finite(set_int_range(0, n), ints.to_set());
    }
    lemma_subset_equality(ints.to_set(), set_int_range(0, n));
    assert forall|r: int| 0 <= r < ranks.len() implies 0 <= #[trigger] slot_of(ranks, r)
        < ranks.len() && ranks[slot_of(ranks, r)] == r by {
        assert(set_int_range(0, n).contains(r));
        assert(ints.to_set().contains(r));
        let a = choose|a: int| 0 <= a < ints.len() && ints[a] == r;
        assert(ranks[a] == r);
    }
}

/// The count of predecessors is a ranking.
pub proof fn lemma_ranking_is_ranking(piles: Seq<Seq<u8>>)
    requires
        piles.len() <= usize::MAX,
    ensures
        is_ranking(piles, ranking(piles)),
{
    let n = piles.len() as int;
    let ranks = ranking(piles);
    assert forall|a: int| 0 <= a < n implies #[trigger] ranks[a] < n && ranks[a] == rank_of(
        piles,
        a,
    ) by {
        lemma_count_bounds(piles, a, n);
        lemma_count_skips(piles, a, a, n);
    }
    assert forall|a: int, b: int| 0 <= a < n && 0 <= b < n && precedes(piles, a, b) implies (
    #[trigger] ranks[a]) < #[trigger] ranks[b] by {
        lemma_count_monotone(piles, a, b, n);
    }
    assert forall|a: int, b: int| 0 <= a < n && 0 <= b < n && a != b implies ranks[a]
        != ranks[b] by {
        assert(precedes(piles, a, b) || precedes(piles, b, a));
    }
    lemma_ranks_onto(ranks);
}

/// A ranking is the count of predecessors: `piles` has one ranking only.
pub proof fn lemma_ranking_unique(piles: Seq<Seq<u8>>, r1: Seq<usize>, r2: Seq<usize>)
    requires
        is_ranking(piles, r1),
        is_ranking(piles, r2),
    ensures
        r1 == r2,
{
    let n = piles.len() as int;
    assert forall|a: int| 0 <= a < n implies r1[a] == r2[a] by {
        lemma_same_rank(piles, r1, r2, n, a);
    }
    assert(r1 =~= r2);
}

/// Two rankings agree on the slot that one of them ranks `r`, for every
/// rank below `bound`.
proof fn lemma_same_rank(piles: Seq<Seq<u8>>, r1: Seq<usize>, r2: Seq<usize>, bound: int, a: int)
    requires
        is_ranking(piles, r1),
        is_ranking(piles, r2),
        0 <= a < piles.len(),
        r1[a] < bound,
    ensures
        r1[a] == r2[a],
    decreases bound,
{
    let n = piles.len() as int;
    // every slot before `a` has a smaller rank in r1, so by induction the same rank in r2
    assert forall|b: int| 0 <= b < n && precedes(piles, b, a) implies r1[b] == r2[b] by {
        lemma_same_rank(piles, r1, r2, r1[a] as int, b);
    }
    // the ranks under r1[a] are taken, in r1 and so in r2, by slots before `a`
    if r2[a] < r1[a] {
        let r = r2[a] as int;
        let b = slot_of(r1, r);
        assert(b != a);
        assert(precedes(piles, b, a) || precedes(piles, a, b));
        assert(r2[b] == r2[a]);
        assert(false);
    }
    if r2[a] > r1[a] {
        let r = r1[a] as int;
        let b = slot_of(r2, r);
        assert(b != a);
        assert(precedes(piles, b, a) || precedes(piles, a, b));
        if precedes(piles, b, a) {
            assert(r1[b] == r2[b]);
            assert(r1[b] < r1[a]);
        }
        assert(false);
    }
}

} // verus!
