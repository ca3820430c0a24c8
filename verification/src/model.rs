//! The mathematical model of a board: its piles by slot, the rank of each
//! slot, and the bookkeeping that moves keep up to date.

use crate::ranking::{is_ranking, lemma_ranking_is_ranking, precedes, ranking, slot_of};
use crate::move_list::{lists_move, moves_distinct};
use crate::vector_util::{is_dense_permutation, lemma_dense_permutation_complete};
use crate::Move;
use vstd::prelude::*;

verus! {

/// What a board is, as plain values.
pub struct BoardView {
    /// The piles by slot, bottom card first.
    pub piles: Seq<Seq<u8>>,
    /// The rank of each slot.
    pub ranks: Seq<usize>,
    /// The number of cards still in play, which is also the highest card.
    pub nbr_cards: int,
    /// The highest card is known to lie at the bottom of its pile.
    pub highest_card_is_on_bottom: bool,
    /// The pile of the highest card is an established solution pile.
    pub has_solution_pile: bool,
    /// The slot of the pile that holds the highest card.
    pub pos_of_highest_card: int,
    /// The slots of the last move, source first.
    pub last_move: Option<(int, int)>,
}

/// `pile` holds `high`, `high - 1`, ... from the bottom up.
pub open spec fn is_falling_run(pile: Seq<u8>, high: int) -> bool {
    forall|i: int| 0 <= i < pile.len() ==> #[trigger] pile[i] == high - i
}

/// Every card of `piles` lies in `1..=n`.
pub open spec fn cards_in_range(piles: Seq<Seq<u8>>, n: int) -> bool {
    forall|p: int, i: int|
        0 <= p < piles.len() && 0 <= i < piles[p].len() ==> 1 <= #[trigger] piles[p][i] <= n
}

/// No card lies at two places of `piles`.
pub open spec fn cards_distinct(piles: Seq<Seq<u8>>) -> bool {
    forall|p: int, i: int, q: int, j: int|
        0 <= p < piles.len() && 0 <= i < piles[p].len() && 0 <= q < piles.len() && 0 <= j
            < piles[q].len() && (p != q || i != j) ==> #[trigger] piles[p][i]
            != #[trigger] piles[q][j]
}

/// The card `c` lies somewhere in `piles`.
pub open spec fn holds_card(piles: Seq<Seq<u8>>, c: int) -> bool {
    exists|p: int, i: int|
        0 <= p < piles.len() && 0 <= i < piles[p].len() && #[trigger] piles[p][i] == c
}

/// Every card of `1..=n` lies somewhere in `piles`.
pub open spec fn cards_complete(piles: Seq<Seq<u8>>, n: int) -> bool {
    forall|c: int| 1 <= c <= n ==> #[trigger] holds_card(piles, c)
}

/// `cards` without the cards at its bottom that already lie in their final
/// order: while three cards or more are left and the lowest three fall by
/// one each, the bottom card goes.
pub open spec fn strip_leading_run(cards: Seq<u8>) -> Seq<u8>
    decreases cards.len(),
{
    if cards.len() > 2 && cards[0] == cards[1] + 1 && cards[1] == cards[2] + 1 {
        strip_leading_run(cards.drop_first())
    } else {
        cards
    }
}

/// A board can be built from `cards` over `nbr_piles` piles.
pub open spec fn valid_setup(cards: Seq<u8>, nbr_piles: int) -> bool {
    &&& cards.len() > 2
    &&& nbr_piles > 2
    &&& is_dense_permutation(cards)
}

impl BoardView {
    /// The board that starts with all of `cards` in the first slot.
    pub open spec fn initial(cards: Seq<u8>, nbr_piles: int) -> BoardView {
        let on_bottom = cards.len() == cards[0];
        let pile = if on_bottom {
            strip_leading_run(cards)
        } else {
            cards
        };
        let piles = Seq::new(
            nbr_piles as nat,
            |slot: int|
                if slot == 0 {
                    pile
                } else {
                    Seq::<u8>::empty()
                },
        );
        BoardView {
            piles,
            ranks: ranking(piles),
            nbr_cards: pile.len() as int,
            highest_card_is_on_bottom: on_bottom,
            has_solution_pile: false,
            pos_of_highest_card: 0,
            last_move: None,
        }
    }

    /// The number of piles.
    pub open spec fn nbr_piles(self) -> int {
        self.piles.len() as int
    }

    /// The slot ranked `r`.
    pub open spec fn slot(self, r: int) -> int {
        slot_of(self.ranks, r)
    }

    /// The piles in the order of their ranks: what a board looks like
    /// from outside.
    pub open spec fn canonical(self) -> Seq<Seq<u8>> {
        Seq::new(self.piles.len(), |r: int| self.piles[self.slot(r)])
    }

    /// The cards in play are `1..=nbr_cards`, each at one place.
    pub open spec fn cards_wf(self) -> bool {
        &&& 2 <= self.nbr_cards <= 255
        &&& cards_in_range(self.piles, self.nbr_cards)
        &&& cards_distinct(self.piles)
        &&& cards_complete(self.piles, self.nbr_cards)
    }

    /// What the bookkeeping claims of the pile of the highest card is so.
    pub open spec fn highest_wf(self) -> bool {
        let pile = self.piles[self.pos_of_highest_card];
        &&& 0 <= self.pos_of_highest_card < self.piles.len()
        &&& pile.contains(self.nbr_cards as u8)
        &&& self.highest_card_is_on_bottom ==> pile[0] == self.nbr_cards
        &&& self.has_solution_pile ==> pile.len() <= 2 && is_falling_run(pile, self.nbr_cards)
    }

    /// The invariant of a board.
    pub open spec fn wf(self) -> bool {
        &&& 2 < self.piles.len() <= usize::MAX
        &&& self.cards_wf()
        &&& self.highest_wf()
        &&& self.ranks == ranking(self.piles)
        &&& match self.last_move {
            Some((from, to)) => 0 <= from < self.piles.len() && 0 <= to < self.piles.len(),
            None => true,
        }
    }

    /// The pile of the highest card is exactly `[2, 1]`.
    pub open spec fn solved(self) -> bool {
        self.piles[self.pos_of_highest_card] == seq![2u8, 1u8]
    }

    /// The pile ranked `r` is the first of the empty piles.
    pub open spec fn is_first_empty(self, r: int) -> bool {
        &&& self.canonical()[r].len() == 0
        &&& r > 0 ==> self.canonical()[r - 1].len() > 0
    }

    /// The move from rank `from` to rank `to` may be performed: it takes a card
    /// from a pile that has one, onto a pile that has one or onto the first of
    /// the empty piles.
    pub open spec fn is_valid_move(self, from: int, to: int) -> bool {
        &&& 0 <= from < self.piles.len()
        &&& 0 <= to < self.piles.len()
        &&& self.canonical()[from].len() > 0
        &&& self.canonical()[to].len() > 0 || self.is_first_empty(to)
    }

    /// The slot `t` is the first of the empty slots.
    pub open spec fn is_first_empty_slot(self, t: int) -> bool {
        &&& self.piles[t].len() == 0
        &&& forall|s: int| 0 <= s < t ==> (#[trigger] self.piles[s]).len() > 0
    }

    /// The move from slot `f` onto slot `t` may be performed.
    pub open spec fn is_valid_slot_move(self, f: int, t: int) -> bool {
        &&& 0 <= f < self.piles.len()
        &&& 0 <= t < self.piles.len()
        &&& self.piles[f].len() > 0
        &&& self.piles[t].len() > 0 || self.is_first_empty_slot(t)
    }

    /// The card that the pile of the highest card needs next to go on as a
    /// falling run.
    pub open spec fn next_card_needed(self) -> int {
        self.nbr_cards - self.piles[self.pos_of_highest_card].len()
    }

    /// The top card of slot `s` is the card that the solution pile needs.
    pub open spec fn offers_needed(self, s: int) -> bool {
        &&& 0 <= s < self.piles.len()
        &&& self.piles[s].len() > 0
        &&& self.piles[s].last() == self.next_card_needed()
    }

    /// A solution pile stands and the card it needs next lies on top of a
    /// pile: the one good move puts it there.
    pub open spec fn can_extend_solution(self) -> bool {
        self.has_solution_pile && exists|s: int| self.offers_needed(s)
    }

    /// No solution pile stands, the highest card lies on top of its pile and
    /// a slot is empty: the one good move starts a solution pile there.
    pub open spec fn can_start_solution(self) -> bool {
        &&& !self.has_solution_pile
        &&& self.piles[self.pos_of_highest_card].last() == self.nbr_cards
        &&& exists|s: int| 0 <= s < self.piles.len() && (#[trigger] self.piles[s]).len() == 0
    }

    /// The good moves are a single move that the board forces.
    pub open spec fn is_forced(self) -> bool {
        !self.solved() && (self.can_extend_solution() || self.can_start_solution())
    }

    /// The move from slot `f` onto slot `t` is worth trying.
    pub open spec fn is_good_slot_move(self, f: int, t: int) -> bool {
        if self.solved() {
            false
        } else if self.can_extend_solution() {
            self.offers_needed(f) && t == self.pos_of_highest_card
        } else if self.can_start_solution() {
            f == self.pos_of_highest_card && 0 <= t < self.piles.len() && self.is_first_empty_slot(
                t,
            )
        } else {
            &&& self.is_valid_slot_move(f, t)
            &&& f != t
            &&& match self.last_move {
                Some((_, last_to)) => f != last_to,
                None => true,
            }
            &&& self.has_solution_pile ==> f != self.pos_of_highest_card
            &&& t != self.pos_of_highest_card
        }
    }

    /// The move from rank `from` to rank `to` is worth trying.
    pub open spec fn is_good_move(self, from: int, to: int) -> bool {
        &&& 0 <= from < self.piles.len()
        &&& 0 <= to < self.piles.len()
        &&& self.is_good_slot_move(self.slot(from), self.slot(to))
    }

    /// The card that the move from slot `f` takes.
    pub open spec fn moved_card(self, f: int) -> int {
        self.piles[f].last() as int
    }

    /// The card from slot `f` is the one that the pile of the highest card
    /// needs next.
    pub open spec fn fits_on_highest(self, f: int) -> bool {
        self.piles[self.pos_of_highest_card].len() == self.nbr_cards - self.moved_card(f)
    }

    /// The move from slot `f` onto slot `t` continues the solution pile.
    pub open spec fn extends_solution(self, f: int, t: int) -> bool {
        t == self.pos_of_highest_card && self.has_solution_pile && self.fits_on_highest(f)
    }

    /// The move from slot `f` onto slot `t` retires the highest card: the
    /// solution pile holds two cards and gets the third of the run.
    pub open spec fn shrinks(self, f: int, t: int) -> bool {
        self.extends_solution(f, t) && self.nbr_cards - self.moved_card(f) == 2
    }

    /// The piles after the move from slot `f` onto slot `t`.
    pub open spec fn piles_after(self, f: int, t: int) -> Seq<Seq<u8>> {
        let card = self.piles[f].last();
        let retired = if self.shrinks(f, t) {
            self.piles.update(t, self.piles[t].drop_first())
        } else {
            self.piles
        };
        let taken = retired.update(f, retired[f].drop_last());
        taken.update(t, taken[t].push(card))
    }

    /// The board after the move from slot `f` onto slot `t`.
    pub open spec fn after_slot_move(self, f: int, t: int) -> BoardView {
        let moved_highest = self.moved_card(f) == self.nbr_cards;
        let onto_empty = self.piles[t].len() == 0;
        let piles = self.piles_after(f, t);
        BoardView {
            piles,
            ranks: ranking(piles),
            nbr_cards: if self.shrinks(f, t) {
                self.nbr_cards - 1
            } else {
                self.nbr_cards
            },
            highest_card_is_on_bottom: if moved_highest {
                onto_empty
            } else {
                self.highest_card_is_on_bottom
            },
            has_solution_pile: if t == self.pos_of_highest_card {
                self.extends_solution(f, t)
            } else if moved_highest {
                onto_empty
            } else {
                self.has_solution_pile
            },
            pos_of_highest_card: if moved_highest {
                t
            } else {
                self.pos_of_highest_card
            },
            last_move: Some((f, t)),
        }
    }

    /// The board after the move from rank `from` to rank `to`.
    pub open spec fn after_move(self, from: int, to: int) -> BoardView {
        self.after_slot_move(self.slot(from), self.slot(to))
    }

    /// The piles that hold cards come first, and of two of them the one with
    /// the higher bottom card comes first.
    pub open spec fn ranked_by_bottom_card(self) -> bool {
        let c = self.canonical();
        forall|r1: int, r2: int|
            0 <= r1 < r2 < c.len() && #[trigger] c[r2].len() > 0 ==> #[trigger] c[r1].len() > 0
                && c[r1][0] > c[r2][0]
    }
}

/// Without its first card, which is its highest, a dense permutation is
/// still one.
pub proof fn lemma_drop_first_dense(cards: Seq<u8>)
    requires
        is_dense_permutation(cards),
        cards.len() >= 1,
        cards[0] == cards.len(),
    ensures
        is_dense_permutation(cards.drop_first()),
{
    let rest = cards.drop_first();
    assert forall|i: int| 0 <= i < rest.len() implies 1 <= #[trigger] rest[i] <= rest.len() by {
        assert(rest[i] == cards[i + 1]);
        assert(cards[i + 1] != cards[0]);
    }
    assert forall|i: int, j: int|
        0 <= i < rest.len() && 0 <= j < rest.len() && i != j implies rest[i] != rest[j] by {
        assert(rest[i] == cards[i + 1] && rest[j] == cards[j + 1]);
    }
}

/// Stripping the leading run of a dense permutation that starts with its
/// highest card leaves a dense permutation that starts with its highest card.
pub proof fn lemma_strip_keeps_dense(cards: Seq<u8>)
    requires
        is_dense_permutation(cards),
        cards.len() >= 2,
        cards[0] == cards.len(),
    ensures
        is_dense_permutation(strip_leading_run(cards)),
        strip_leading_run(cards).len() >= 2,
        strip_leading_run(cards)[0] == strip_leading_run(cards).len(),
    decreases cards.len(),
{
    if cards.len() > 2 && cards[0] == cards[1] + 1 && cards[1] == cards[2] + 1 {
        let rest = cards.drop_first();
        lemma_drop_first_dense(cards);
        lemma_strip_keeps_dense(rest);
    }
}

/// The board built from a valid setup meets the invariant.
pub proof fn lemma_initial_wf(cards: Seq<u8>, nbr_piles: int)
    requires
        valid_setup(cards, nbr_piles),
        nbr_piles <= usize::MAX,
    ensures
        BoardView::initial(cards, nbr_piles).wf(),
{
    let board = BoardView::initial(cards, nbr_piles);
    let pile = board.piles[0];
    if cards.len() == cards[0] {
        lemma_strip_keeps_dense(cards);
    }
    lemma_dense_permutation_complete(pile);
    let n = pile.len() as int;
    assert forall|c: int| 1 <= c <= n implies #[trigger] holds_card(board.piles, c) by {
        assert(pile.contains(c as u8));
        let i = choose|i: int| 0 <= i < pile.len() && pile[i] == c as u8;
        assert(board.piles[0][i] == c);
    }
    assert(pile.contains(n as u8));
}

impl BoardView {
    /// Ranks and slots of a board stand one to one, in the canonical order.
    pub proof fn lemma_ranks(self)
        requires
            self.wf(),
        ensures
            is_ranking(self.piles, self.ranks),
            forall|s: int|
                0 <= s < self.piles.len() ==> self.slot(#[trigger] self.ranks[s] as int) == s,
            forall|r: int|
                0 <= r < self.piles.len() ==> 0 <= #[trigger] self.slot(r) < self.piles.len()
                    && self.ranks[self.slot(r)] == r,
    {
        lemma_ranking_is_ranking(self.piles);
        assert forall|s: int| 0 <= s < self.piles.len() implies self.slot(
            #[trigger] self.ranks[s] as int,
        ) == s by {
            let other = self.slot(self.ranks[s] as int);
            if other != s {
                assert(precedes(self.piles, other, s) || precedes(self.piles, s, other));
            }
        }
    }

    /// A move is valid by ranks exactly when it is valid by the slots that
    /// have these ranks.
    pub proof fn lemma_valid_move_by_slots(self, from: int, to: int)
        requires
            self.wf(),
            0 <= from < self.piles.len(),
            0 <= to < self.piles.len(),
        ensures
            self.is_valid_move(from, to) == self.is_valid_slot_move(self.slot(from), self.slot(to)),
    {
        self.lemma_ranks();
        let t = self.slot(to);
        if self.piles[t].len() == 0 {
            if self.is_first_empty(to) {
                assert forall|s: int| 0 <= s < t implies (#[trigger] self.piles[s]).len() > 0 by {
                    if self.piles[s].len() == 0 {
                        assert(precedes(self.piles, s, t));
                        assert(self.ranks[s] < self.ranks[t]);
                        let before = self.slot(to - 1);
                        assert(self.canonical()[to - 1] == self.piles[before]);
                        if self.ranks[s] != to - 1 {
                            assert(precedes(self.piles, before, s));
                        }
                    }
                }
            }
            if self.is_first_empty_slot(t) {
                if to > 0 {
                    let before = self.slot(to - 1);
                    assert(self.canonical()[to - 1] == self.piles[before]);
                    if self.piles[before].len() == 0 {
                        assert(before != t);
                        assert(precedes(self.piles, t, before));
                    }
                }
            }
        }
    }
}

impl BoardView {
    /// `rel` is `abs` with each slot replaced by its rank.
    pub open spec fn ranks_moves(self, abs: Seq<Move>, rel: Seq<Move>) -> bool {
        &&& rel.len() == abs.len()
        &&& forall|k: int|
            0 <= k < abs.len() ==> {
                &&& (#[trigger] abs[k])[0] < self.piles.len()
                &&& abs[k][1] < self.piles.len()
                &&& rel[k][0] == self.ranks[abs[k][0] as int]
                &&& rel[k][1] == self.ranks[abs[k][1] as int]
            }
    }

    /// A list of moves by rank lists the moves whose slots the list by slot
    /// holds, and repeats none where that list repeats none.
    pub proof fn lemma_ranked_moves(self, abs: Seq<Move>, rel: Seq<Move>)
        requires
            self.wf(),
            self.ranks_moves(abs, rel),
        ensures
            forall|rf: int, rt: int| #[trigger]
                lists_move(rel, rf, rt) <==> 0 <= rf < self.piles.len() && 0 <= rt
                    < self.piles.len() && lists_move(abs, self.slot(rf), self.slot(rt)),
            moves_distinct(abs) ==> moves_distinct(rel),
    {
        self.lemma_ranks();
        assert forall|rf: int, rt: int| #[trigger]
            lists_move(rel, rf, rt) <==> 0 <= rf < self.piles.len() && 0 <= rt < self.piles.len()
                && lists_move(abs, self.slot(rf), self.slot(rt)) by {
            if lists_move(rel, rf, rt) {
                let k = choose|k: int|
                    0 <= k < rel.len() && (#[trigger] rel[k])[0] == rf && rel[k][1] == rt;
                assert(abs[k][0] == self.slot(rf));
                assert(abs[k][1] == self.slot(rt));
            }
            if 0 <= rf < self.piles.len() && 0 <= rt < self.piles.len() && lists_move(
                abs,
                self.slot(rf),
                self.slot(rt),
            ) {
                let k = choose|k: int|
                    0 <= k < abs.len() && (#[trigger] abs[k])[0] == self.slot(rf) && abs[k][1]
                        == self.slot(rt);
                assert(rel[k][0] == rf && rel[k][1] == rt);
            }
        }
        if moves_distinct(abs) {
            assert forall|i: int, j: int| 0 <= i < j < rel.len() implies (#[trigger] rel[i])[0] != (
            #[trigger] rel[j])[0] || rel[i][1] != rel[j][1] by {
                assert(abs[i][0] != abs[j][0] || abs[i][1] != abs[j][1]);
                assert(abs[i][0] < self.piles.len() && abs[j][0] < self.piles.len());
                assert(self.slot(self.ranks[abs[i][0] as int] as int) == abs[i][0]);
                assert(self.slot(self.ranks[abs[i][1] as int] as int) == abs[i][1]);
                assert(self.slot(self.ranks[abs[j][0] as int] as int) == abs[j][0]);
                assert(self.slot(self.ranks[abs[j][1] as int] as int) == abs[j][1]);
            }
        }
    }
}

impl BoardView {
    /// In canonical order the piles that hold cards come first, highest
    /// bottom card first.
    pub proof fn lemma_ranked_by_bottom_card(self)
        requires
            self.wf(),
        ensures
            self.ranked_by_bottom_card(),
    {
        self.lemma_ranks();
        let c = self.canonical();
        assert forall|r1: int, r2: int|
            0 <= r1 < r2 < c.len() && #[trigger] c[r2].len() > 0 implies #[trigger] c[r1].len() > 0
            && c[r1][0] > c[r2][0] by {
            let s1 = self.slot(r1);
            let s2 = self.slot(r2);
            assert(precedes(self.piles, s1, s2) || precedes(self.piles, s2, s1));
            assert(self.piles[s1][0] != self.piles[s2][0]);
        }
    }

    /// The card that a valid move takes is one of the cards in play; where
    /// it is the highest, it comes from the pile of the highest card.
    pub proof fn lemma_moved_card(self, f: int, t: int)
        requires
            self.wf(),
            self.is_valid_slot_move(f, t),
        ensures
            1 <= self.moved_card(f) <= self.nbr_cards,
            self.moved_card(f) == self.nbr_cards ==> f == self.pos_of_highest_card,
            self.extends_solution(f, t) ==> f != t && self.moved_card(f) != self.nbr_cards,
            self.shrinks(f, t) ==> self.nbr_cards >= 3 && self.piles[t].len() == 2,
    {
        let top = self.piles[f].len() - 1;
        assert(self.piles[f][top] == self.moved_card(f));
        let pos = self.pos_of_highest_card;
        let pile = self.piles[pos];
        let i = choose|i: int| 0 <= i < pile.len() && pile[i] == self.nbr_cards as u8;
        assert(self.piles[pos][i] == self.nbr_cards);
        if self.extends_solution(f, t) {
            let len = pile.len() as int;
            assert(pile[len - 1] == self.nbr_cards - (len - 1));
        }
    }

    /// A valid move leaves a board that meets the invariant.
    pub proof fn lemma_after_move_wf(self, f: int, t: int)
        requires
            self.wf(),
            self.is_valid_slot_move(f, t),
        ensures
            self.after_slot_move(f, t).wf(),
    {
        let next = self.after_slot_move(f, t);
        self.lemma_moved_card(f, t);
        self.lemma_after_move_cards(f, t);
        self.lemma_after_move_highest(f, t);
    }

    /// A valid move, given by rank, leaves a board that meets the invariant.
    pub proof fn lemma_after_valid_move_wf(self, from: int, to: int)
        requires
            self.wf(),
            self.is_valid_move(from, to),
        ensures
            self.after_move(from, to).wf(),
    {
        self.lemma_valid_move_by_slots(from, to);
        self.lemma_after_move_wf(self.slot(from), self.slot(to));
    }

    /// Where the cards of the piles after a move come from: the place in the
    /// piles before the move that held the card at place `i` of slot `p`.
    pub open spec fn origin(self, f: int, t: int, p: int, i: int) -> (int, int) {
        let after = self.piles_after(f, t);
        if p == t && i == after[t].len() - 1 {
            (f, self.piles[f].len() - 1)
        } else if p == t && self.shrinks(f, t) {
            (p, i + 1)
        } else {
            (p, i)
        }
    }

    /// Each card after a move is the card at its origin, and no two places
    /// have one origin.
    proof fn lemma_origin(self, f: int, t: int, p: int, i: int)
        requires
            self.wf(),
            self.is_valid_slot_move(f, t),
            0 <= p < self.piles.len(),
            0 <= i < self.piles_after(f, t)[p].len(),
        ensures
            ({
                let (q, j) = self.origin(f, t, p, i);
                &&& 0 <= q < self.piles.len()
                &&& 0 <= j < self.piles[q].len()
                &&& self.piles_after(f, t)[p][i] == self.piles[q][j]
                &&& !(q == f && j == self.piles[f].len() - 1) ==> q == p
                &&& self.shrinks(f, t) ==> !(q == t && j == 0)
            }),
    {
        self.lemma_moved_card(f, t);
    }

    /// The cards after a valid move are the cards in play, each at one place.
    proof fn lemma_after_move_cards(self, f: int, t: int)
        requires
            self.wf(),
            self.is_valid_slot_move(f, t),
        ensures
            self.after_slot_move(f, t).cards_wf(),
    {
        let next = self.after_slot_move(f, t);
        let after = self.piles_after(f, t);
        assert(next.piles == after);
        self.lemma_moved_card(f, t);
        let pos = self.pos_of_highest_card;
        if self.shrinks(f, t) {
            assert(self.piles[t][0] == self.nbr_cards);
        }
        assert forall|p: int, i: int| 0 <= p < after.len() && 0 <= i < after[p].len() implies 1
            <= #[trigger] after[p][i] <= next.nbr_cards by {
            self.lemma_origin(f, t, p, i);
            let (q, j) = self.origin(f, t, p, i);
            assert(1 <= self.piles[q][j] <= self.nbr_cards);
            if self.shrinks(f, t) {
                assert(self.piles[q][j] != self.piles[t][0]);
            }
        }
        assert forall|p: int, i: int, q: int, j: int|
            0 <= p < after.len() && 0 <= i < after[p].len() && 0 <= q < after.len() && 0 <= j
                < after[q].len() && (p != q || i != j) implies #[trigger] after[p][i]
            != #[trigger] after[q][j] by {
            self.lemma_origin(f, t, p, i);
            self.lemma_origin(f, t, q, j);
            let (p0, i0) = self.origin(f, t, p, i);
            let (q0, j0) = self.origin(f, t, q, j);
            assert(p0 != q0 || i0 != j0);
            assert(self.piles[p0][i0] != self.piles[q0][j0]);
        }
        assert forall|c: int| 1 <= c <= next.nbr_cards implies #[trigger] holds_card(after, c) by {
            assert(holds_card(self.piles, c));
            let (q, j) = choose|q: int, j: int|
                0 <= q < self.piles.len() && 0 <= j < self.piles[q].len()
                    && #[trigger] self.piles[q][j] == c;
            if q == f && j == self.piles[f].len() - 1 {
                assert(after[t][after[t].len() - 1] == c);
            } else if q == t && self.shrinks(f, t) {
                assert(j != 0);
                assert(after[t][j - 1] == c);
            } else {
                assert(after[q][j] == c);
            }
        }
    }

    /// After a valid move the bookkeeping is right about the pile of the
    /// highest card.
    proof fn lemma_after_move_highest(self, f: int, t: int)
        requires
            self.wf(),
            self.is_valid_slot_move(f, t),
        ensures
            self.after_slot_move(f, t).highest_wf(),
    {
        let next = self.after_slot_move(f, t);
        let after = self.piles_after(f, t);
        assert(next.piles == after);
        self.lemma_moved_card(f, t);
        let pos = self.pos_of_highest_card;
        let pile = self.piles[pos];
        let card = self.piles[f].last();
        let at = choose|i: int| 0 <= i < pile.len() && pile[i] == self.nbr_cards as u8;
        let new_pile = after[next.pos_of_highest_card];
        if self.moved_card(f) == self.nbr_cards {
            assert(new_pile[new_pile.len() - 1] == card);
        } else if self.shrinks(f, t) {
            assert(pile[0] == self.nbr_cards);
            assert(pile[1] == self.nbr_cards - 1);
            assert(new_pile[0] == pile[1]);
            assert(new_pile =~= seq![pile[1], card]);
        } else {
            assert(self.piles[pos][at] == self.nbr_cards);
            assert(at < pile.len() - 1 || f != pos);
            assert(new_pile[at] == self.nbr_cards as u8);
            if self.has_solution_pile && t == pos && self.fits_on_highest(f) {
                assert(pile.len() == 1);
                assert(new_pile =~= seq![pile[0], card]);
            }
        }
    }
}

impl BoardView {
    /// A move keeps the number of piles, and the number of cards in play
    /// stays or falls by one: a retired card never comes back.
    pub proof fn lemma_move_never_adds_cards(self, from: int, to: int)
        requires
            self.wf(),
            self.is_valid_move(from, to),
        ensures
            self.after_move(from, to).nbr_piles() == self.nbr_piles(),
            self.nbr_cards - 1 <= self.after_move(from, to).nbr_cards <= self.nbr_cards,
            cards_in_range(self.after_move(from, to).piles, self.after_move(from, to).nbr_cards),
    {
        self.lemma_after_valid_move_wf(from, to);
        self.lemma_ranks();
        let f = self.slot(from);
        let t = self.slot(to);
        assert(self.piles_after(f, t).len() == self.piles.len());
    }

    /// A good move is one of the moves that may be performed.
    pub proof fn lemma_good_move_is_valid(self, from: int, to: int)
        requires
            self.wf(),
            self.is_good_move(from, to),
        ensures
            self.is_valid_move(from, to),
    {
        self.lemma_valid_move_by_slots(from, to);
        let pos = self.pos_of_highest_card;
        let pile = self.piles[pos];
        let at = choose|i: int| 0 <= i < pile.len() && pile[i] == self.nbr_cards as u8;
    }

    /// A good move never puts a card back onto the pile it came from.
    pub proof fn lemma_good_move_is_no_identity(self, from: int, to: int)
        requires
            self.wf(),
            self.is_good_move(from, to),
        ensures
            from != to,
    {
        let pos = self.pos_of_highest_card;
        let pile = self.piles[pos];
        if self.can_extend_solution() && from == to {
            let top = pile.len() - 1;
            assert(pile[top] == self.nbr_cards - top);
        }
    }

    /// A good move that the board does not force never takes the card that
    /// the last move put down.
    pub proof fn lemma_free_good_move_leaves_last_card(self, from: int, to: int)
        requires
            self.wf(),
            self.is_good_move(from, to),
            !self.is_forced(),
            self.last_move is Some,
        ensures
            self.slot(from) != self.last_move->Some_0.1,
    {
    }

    /// A good move does not take back the last move, from the pile that move
    /// put a card on to the pile it took the card from; but for a move that
    /// the board forces and that happens to be this one.
    pub proof fn lemma_good_move_never_reverses(self, from: int, to: int)
        requires
            self.wf(),
            self.is_good_move(from, to),
            self.last_move is Some,
            !(self.is_forced() && self.slot(from) == self.last_move->Some_0.1 && self.slot(to)
                == self.last_move->Some_0.0),
        ensures
            !(self.slot(from) == self.last_move->Some_0.1 && self.slot(to)
                == self.last_move->Some_0.0),
    {
    }
}

/// Whether a board is solved shows in its piles: of two boards with the
/// same piles in canonical order, both are solved or neither.
pub proof fn lemma_solved_by_piles(a: BoardView, b: BoardView)
    requires
        a.wf(),
        b.wf(),
        a.canonical() == b.canonical(),
        a.solved(),
    ensures
        b.solved(),
{
    a.lemma_ranks();
    b.lemma_ranks();
    let n = a.piles.len() as int;
    assert(a.canonical().len() == n);
    assert(b.canonical().len() == b.piles.len());
    assert(b.piles.len() == n);
    // the solved pile of `a` is a pile of `b`
    let ra = a.ranks[a.pos_of_highest_card] as int;
    assert(a.canonical()[ra] == a.piles[a.pos_of_highest_card]);
    let sb = b.slot(ra);
    assert(b.canonical()[ra] == b.piles[sb]);
    assert(b.piles[sb] == seq![2u8, 1u8]);
    // all cards of `a` are 1 and 2, so `a` has two cards in play and `b` has too
    assert(a.piles[a.pos_of_highest_card].contains(a.nbr_cards as u8));
    let ia = choose|i: int|
        0 <= i < a.piles[a.pos_of_highest_card].len() && a.piles[a.pos_of_highest_card][i]
            == a.nbr_cards as u8;
    assert(a.nbr_cards == 2);
    // the highest card of `b` lies in some pile of `b`, which is a pile of `a`
    let pb = b.pos_of_highest_card;
    let rb = b.ranks[pb] as int;
    assert(b.canonical()[rb] == b.piles[pb]);
    let sa = a.slot(rb);
    assert(a.canonical()[rb] == a.piles[sa]);
    let ib = choose|i: int| 0 <= i < b.piles[pb].len() && b.piles[pb][i] == b.nbr_cards as u8;
    assert(a.piles[sa][ib] == b.nbr_cards);
    assert(1 <= a.piles[sa][ib] <= 2);
    assert(b.piles[sb][0] == 2);
    assert(b.nbr_cards == 2);
    assert(b.piles[pb][ib] == b.piles[sb][0]);
    assert(pb == sb);
}

} // verus!
