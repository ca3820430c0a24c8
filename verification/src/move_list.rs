//! Lists of moves, read as sets: which moves a list holds, and whether it
//! holds one twice.

use crate::Move;
use vstd::prelude::*;

verus! {

/// The move from `from` to `to` stands in `moves`.
pub open spec fn lists_move(moves: Seq<Move>, from: int, to: int) -> bool {
    exists|k: int| 0 <= k < moves.len() && (#[trigger] moves[k])[0] == from && moves[k][1] == to
}

/// No move stands twice in `moves`.
pub open spec fn moves_distinct(moves: Seq<Move>) -> bool {
    forall|i: int, j: int|
        0 <= i < j < moves.len() ==> (#[trigger] moves[i])[0] != (#[trigger] moves[j])[0]
            || moves[i][1] != moves[j][1]
}

/// A list with one move more lists that move and what it listed before;
/// it stays without repeats where the move is new.
pub proof fn lemma_lists_move_push(moves: Seq<Move>, m: Move)
    ensures
        forall|f: int, t: int| #[trigger]
            lists_move(moves.push(m), f, t) <==> lists_move(moves, f, t) || (m[0] == f && m[1]
                == t),
        moves_distinct(moves) && !lists_move(moves, m[0] as int, m[1] as int) ==> moves_distinct(
            moves.push(m),
        ),
{
    let longer = moves.push(m);
    assert forall|f: int, t: int| #[trigger]
        lists_move(longer, f, t) <==> lists_move(moves, f, t) || (m[0] == f && m[1] == t) by {
        if lists_move(longer, f, t) {
            let k = choose|k: int|
                0 <= k < longer.len() && (#[trigger] longer[k])[0] == f && longer[k][1] == t;
            if k < moves.len() {
                assert(moves[k] == longer[k]);
            }
        }
        if lists_move(moves, f, t) {
            let k = choose|k: int|
                0 <= k < moves.len() && (#[trigger] moves[k])[0] == f && moves[k][1] == t;
            assert(longer[k] == moves[k]);
        }
        if m[0] == f && m[1] == t {
            assert(longer[moves.len() as int] == m);
        }
    }
    if moves_distinct(moves) && !lists_move(moves, m[0] as int, m[1] as int) {
        assert forall|i: int, j: int| 0 <= i < j < longer.len() implies (#[trigger] longer[i])[0]
            != (#[trigger] longer[j])[0] || longer[i][1] != longer[j][1] by {
            assert(longer[i] == moves[i]);
            if j < moves.len() {
                assert(longer[j] == moves[j]);
            }
        }
    }
}

/// A list of one move lists that move only.
pub proof fn lemma_lists_single_move(moves: Seq<Move>)
    requires
        moves.len() == 1,
    ensures
        forall|f: int, t: int| #[trigger]
            lists_move(moves, f, t) <==> moves[0][0] == f && moves[0][1] == t,
        moves_distinct(moves),
{
    assert forall|f: int, t: int| #[trigger]
        lists_move(moves, f, t) <==> moves[0][0] == f && moves[0][1] == t by {
        if lists_move(moves, f, t) {
            let k = choose|k: int|
                0 <= k < moves.len() && (#[trigger] moves[k])[0] == f && moves[k][1] == t;
            assert(k == 0);
        }
    }
}

/// In a list without repeats, a move does not stand before its own place.
pub proof fn lemma_not_listed_before(moves: Seq<Move>, k: int)
    requires
        moves_distinct(moves),
        0 <= k < moves.len(),
    ensures
        !lists_move(moves.take(k), moves[k][0] as int, moves[k][1] as int),
        moves.take(k + 1) == moves.take(k).push(moves[k]),
{
    let head = moves.take(k);
    if lists_move(head, moves[k][0] as int, moves[k][1] as int) {
        let j = choose|j: int|
            0 <= j < head.len() && (#[trigger] head[j])[0] == moves[k][0] && head[j][1]
                == moves[k][1];
        assert(head[j] == moves[j]);
    }
    assert(moves.take(k + 1) =~= moves.take(k).push(moves[k]));
}

} // verus!
