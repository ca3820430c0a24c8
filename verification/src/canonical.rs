//! The canonical form of a board does not depend on the slots that its
//! piles lie in.

use crate::model::BoardView;
use crate::ranking::{lemma_ranks_onto, precedes, slot_of};
use vstd::prelude::*;

verus! {

/// `to` maps the slots of `a` one to one to the slots of `b`, each to a slot
/// with the same pile.
pub open spec fn same_piles_in_other_slots(
    a: Seq<Seq<u8>>,
    b: Seq<Seq<u8>>,
    to: Seq<usize>,
) -> bool {
    &&& a.len() == b.len()
    &&& a.len() == to.len()
    &&& forall|i: int| 0 <= i < a.len() ==> (#[trigger] to[i]) < b.len() && b[to[i] as int] == a[i]
    &&& forall|i: int, j: int| 0 <= i < a.len() && 0 <= j < a.len() && i != j ==> to[i] != to[j]
}

/// A pile that holds cards has the same rank on both boards.
proof fn lemma_same_rank_in_other_slots(
    a: BoardView,
    b: BoardView,
    to: Seq<usize>,
    bound: int,
    i: int,
)
    requires
        a.wf(),
        b.wf(),
        same_piles_in_other_slots(a.piles, b.piles, to),
        0 <= i < a.piles.len(),
        a.piles[i].len() > 0,
        a.ranks[i] < bound,
    ensures
        a.ranks[i] == b.ranks[to[i] as int],
    decreases bound,
{
    a.lemma_ranks();
    b.lemma_ranks();
    lemma_ranks_onto(to);
    let n = a.piles.len() as int;
    assert forall|s: int| 0 <= s < n && precedes(a.piles, s, i) implies a.ranks[s]
        == b.ranks[to[s] as int] by {
        lemma_same_rank_in_other_slots(a, b, to, a.ranks[i] as int, s);
    }
    let there = to[i] as int;
    if b.ranks[there] < a.ranks[i] {
        let s = a.slot(b.ranks[there] as int);
        assert(precedes(a.piles, s, i) || precedes(a.piles, i, s));
        assert(b.ranks[to[s] as int] == b.ranks[there]);
        assert(b.slot(b.ranks[to[s] as int] as int) == to[s]);
        assert(b.slot(b.ranks[there] as int) == there);
    }
    if b.ranks[there] > a.ranks[i] {
        let u = b.slot(a.ranks[i] as int);
        assert(precedes(b.piles, u, there) || precedes(b.piles, there, u));
        let s = slot_of(to, u);
        assert(to[s] == u);
        assert(b.piles[u][0] != b.piles[there][0]);
        assert(a.piles[s][0] == b.piles[u][0]);
        assert(a.piles[i][0] == b.piles[there][0]);
        assert(precedes(a.piles, s, i));
        assert(a.ranks[s] == a.ranks[i]);
        assert(a.slot(a.ranks[s] as int) == s);
        assert(a.slot(a.ranks[i] as int) == i);
    }
}

/// Two boards that hold the same piles, in whatever slots, show the same
/// piles in canonical order.
pub proof fn lemma_canonical_ignores_slots(a: BoardView, b: BoardView, to: Seq<usize>)
    requires
        a.wf(),
        b.wf(),
        same_piles_in_other_slots(a.piles, b.piles, to),
    ensures
        a.canonical() == b.canonical(),
{
    a.lemma_ranks();
    b.lemma_ranks();
    lemma_ranks_onto(to);
    let n = a.piles.len() as int;
    assert forall|r: int| 0 <= r < n implies a.canonical()[r] == b.canonical()[r] by {
        let sa = a.slot(r);
        let sb = b.slot(r);
        if a.piles[sa].len() > 0 {
            lemma_same_rank_in_other_slots(a, b, to, n, sa);
            assert(b.slot(b.ranks[to[sa] as int] as int) == to[sa]);
        } else if b.piles[sb].len() > 0 {
            let s = slot_of(to, sb);
            assert(to[s] == sb);
            lemma_same_rank_in_other_slots(a, b, to, n, s);
            assert(a.slot(a.ranks[s] as int) == s);
        } else {
            assert(a.piles[sa] =~= b.piles[sb]);
        }
    }
    assert(a.canonical() =~= b.canonical());
}

} // verus!
