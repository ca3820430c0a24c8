//! The board: piles of cards in fixed slots, seen from outside in the
//! canonical order of the piles.

use crate::model::{
    lemma_drop_first_dense, lemma_initial_wf, strip_leading_run, valid_setup, BoardView,
};
use crate::move_list::{
    lemma_lists_move_push, lemma_lists_single_move, lemma_not_listed_before, lists_move,
    moves_distinct,
};
use crate::ranking::{
    count_before, is_ranking, lemma_count_bounds, lemma_ranking_is_ranking, precedes, ranking,
};
use crate::vector_util::{
    contains_card, contains_zero, correct_sequence, is_dense_permutation,
    lemma_dense_permutation_complete,
};
use crate::Move;
use vstd::prelude::*;
use vstd::slice::slice_to_vec;

verus! {

/// The piles of a board as sequences of cards.
pub open spec fn piles_view(piles: Seq<Vec<u8>>) -> Seq<Seq<u8>> {
    Seq::new(piles.len(), |i: int| piles[i]@)
}

/// A full set of card piles.
///
/// From outside, the piles are always in the order of their bottom cards,
/// highest first, whatever slots they lie in.
#[derive(Debug)]
pub struct Board {
    pub piles: Vec<Vec<u8>>,
    rel_of_abs: Vec<usize>,
    pub nbr_cards: usize,
    highest_card_is_on_bottom: bool,
    has_solution_pile: bool,
    pos_of_highest_card: usize,
    last_move: Option<Move>,
}

impl View for Board {
    type V = BoardView;

    closed spec fn view(&self) -> BoardView {
        BoardView {
            piles: piles_view(self.piles@),
            ranks: self.rel_of_abs@,
            nbr_cards: self.nbr_cards as int,
            highest_card_is_on_bottom: self.highest_card_is_on_bottom,
            has_solution_pile: self.has_solution_pile,
            pos_of_highest_card: self.pos_of_highest_card as int,
            last_move: match self.last_move {
                Some(m) => Some((m[0] as int, m[1] as int)),
                None => None,
            },
        }
    }
}

/// Why no board can be built from a sequence of cards and a number of piles.
#[derive(Debug, Clone, Copy, PartialEq, Eq)]
pub enum SetupError {
    /// There are two cards or fewer.
    TooShort,
    /// There are two piles or fewer.
    TooFewPiles,
    /// The value zero, which is no card, occurs.
    ContainsZero,
    /// The card 1 is missing: the cards do not start at 1.
    WrongStart,
    /// The cards start at 1 but are not `1..=n`, each once: one is missing
    /// or occurs twice.
    Gap,
}

/// The first of the checks that `cards` and `nbr_piles` fail, if any.
pub open spec fn setup_error(cards: Seq<u8>, nbr_piles: int) -> Option<SetupError> {
    if cards.len() <= 2 {
        Some(SetupError::TooShort)
    } else if nbr_piles <= 2 {
        Some(SetupError::TooFewPiles)
    } else if cards.contains(0u8) {
        Some(SetupError::ContainsZero)
    } else if !cards.contains(1u8) {
        Some(SetupError::WrongStart)
    } else if !is_dense_permutation(cards) {
        Some(SetupError::Gap)
    } else {
        None
    }
}

/// A setup is valid exactly when it fails no check.
pub proof fn lemma_valid_setup_has_no_error(cards: Seq<u8>, nbr_piles: int)
    ensures
        valid_setup(cards, nbr_piles) <==> setup_error(cards, nbr_piles) is None,
{
    if valid_setup(cards, nbr_piles) {
        lemma_dense_permutation_complete(cards);
        assert(cards.contains(1u8));
        if cards.contains(0u8) {
            let i = choose|i: int| 0 <= i < cards.len() && cards[i] == 0u8;
            assert(1 <= cards[i]);
        }
    }
}

/// A copy of `piles`, card for card.
fn clone_piles(piles: &Vec<Vec<u8>>) -> (copy: Vec<Vec<u8>>)
    ensures
        piles_view(copy@) == piles_view(piles@),
{
    let mut copy: Vec<Vec<u8>> = Vec::new();
    let mut i: usize = 0;
    while i < piles.len()
        invariant
            i <= piles.len(),
            copy.len() == i,
            forall|j: int| 0 <= j < i ==> copy@[j]@ == piles@[j]@,
        decreases piles.len() - i,
    {
        let pile = piles[i].clone();
        assert(pile@ =~= piles@[i as int]@);
        copy.push(pile);
        i += 1;
    }
    assert(piles_view(copy@) =~= piles_view(piles@));
    copy
}

/// Whether slot `a` comes before slot `b` in the canonical order.
fn comes_before(piles: &Vec<Vec<u8>>, a: usize, b: usize) -> (before: bool)
    requires
        a < piles.len(),
        b < piles.len(),
    ensures
        before == precedes(piles_view(piles@), a as int, b as int),
{
    let a_empty = piles[a].is_empty();
    let b_empty = piles[b].is_empty();
    if !a_empty && !b_empty {
        piles[a][0] > piles[b][0] || (piles[a][0] == piles[b][0] && a < b)
    } else if !a_empty {
        true
    } else if !b_empty {
        false
    } else {
        a < b
    }
}

/// The rank of every slot: the number of slots that come before it.
fn rank_slots(piles: &Vec<Vec<u8>>) -> (ranks: Vec<usize>)
    ensures
        ranks@ == ranking(piles_view(piles@)),
        is_ranking(piles_view(piles@), ranks@),
{
    let ghost model = piles_view(piles@);
    let n: usize = piles.len();
    let mut ranks: Vec<usize> = Vec::new();
    let mut slot: usize = 0;
    while slot < n
        invariant
            n == piles.len(),
            model == piles_view(piles@),
            slot <= n,
            ranks.len() == slot,
            forall|s: int| 0 <= s < slot ==> ranks@[s] == count_before(model, s, n as int),
        decreases n - slot,
    {
        let mut count: usize = 0;
        let mut other: usize = 0;
        while other < n
            invariant
                n == piles.len(),
                model == piles_view(piles@),
                slot < n,
                other <= n,
                count == count_before(model, slot as int, other as int),
                count <= other,
            decreases n - other,
        {
            if comes_before(piles, other, slot) {
                count += 1;
            }
            other += 1;
        }
        ranks.push(count);
        slot += 1;
    }
    proof {
        assert forall|s: int| 0 <= s < n implies ranks@[s] == ranking(model)[s] by {
            lemma_count_bounds(model, s, n as int);
        }
        assert(ranks@ =~= ranking(model));
        lemma_ranking_is_ranking(model);
    }
    ranks
}

impl Clone for Board {
    fn clone(&self) -> (copy: Board)
        ensures
            copy@ == self@,
    {
        let mut ranks: Vec<usize> = Vec::new();
        let mut i: usize = 0;
        while i < self.rel_of_abs.len()
            invariant
                i <= self.rel_of_abs.len(),
                ranks@ == self.rel_of_abs@.take(i as int),
            decreases self.rel_of_abs.len() - i,
        {
            ranks.push(self.rel_of_abs[i]);
            assert(self.rel_of_abs@.take(i + 1) =~= self.rel_of_abs@.take(
                i as int,
            ).push(self.rel_of_abs@[i as int]));
            i += 1;
        }
        assert(ranks@ =~= self.rel_of_abs@);
        Board {
            piles: clone_piles(&self.piles),
            rel_of_abs: ranks,
            nbr_cards: self.nbr_cards,
            highest_card_is_on_bottom: self.highest_card_is_on_bottom,
            has_solution_pile: self.has_solution_pile,
            pos_of_highest_card: self.pos_of_highest_card,
            last_move: self.last_move,
        }
    }
}

impl Board {
    /// The invariant of a board: that of its model.
    pub open spec fn wf(&self) -> bool {
        self@.wf()
    }

    /// Names the first check that `pile` and `nbr_piles` fail.
    pub fn check_setup(pile: &[u8], nbr_piles: usize) -> (checked: Result<(), SetupError>)
        ensures
            checked == match setup_error(pile@, nbr_piles as int) {
                Some(e) => Err::<(), SetupError>(e),
                None => Ok(()),
            },
    {
        if pile.len() <= 2 {
            return Err(SetupError::TooShort);
        }
        if nbr_piles <= 2 {
            return Err(SetupError::TooFewPiles);
        }
        let cards = slice_to_vec(pile);
        if contains_zero(&cards) {
            return Err(SetupError::ContainsZero);
        }
        if !contains_card(&cards, 1) {
            return Err(SetupError::WrongStart);
        }
        if !correct_sequence(&cards) {
            return Err(SetupError::Gap);
        }
        Ok(())
    }

    /// Creates a board with all cards in the first slot, `pile[0]` at the
    /// bottom. Cards at the bottom that already lie in their final order are
    /// retired at once.
    pub fn new(pile: &[u8], nbr_piles: usize) -> (board: Board)
        requires
            valid_setup(pile@, nbr_piles as int),
        ensures
            board@ == BoardView::initial(pile@, nbr_piles as int),
            board.wf(),
            board@.ranked_by_bottom_card(),
    {
        let mut first = slice_to_vec(pile);
        let highest_card_is_on_bottom = pile.len() == pile[0] as usize;
        if highest_card_is_on_bottom {
            while first.len() > 2 && first[0] as usize == first[1] as usize + 1 && first[1] as usize
                == first[2] as usize + 1
                invariant
                    is_dense_permutation(first@),
                    first.len() >= 2,
                    first@[0] == first.len(),
                    strip_leading_run(first@) == strip_leading_run(pile@),
                decreases first.len(),
            {
                proof {
                    assert(first@.drop_first() =~= first@.remove(0));
                    lemma_drop_first_dense(first@);
                }
                first.remove(0);
            }
        }
        let ghost bottom_pile = first@;
        assert(bottom_pile == BoardView::initial(pile@, nbr_piles as int).piles[0]);
        let nbr_cards = first.len();
        let mut piles: Vec<Vec<u8>> = Vec::new();
        piles.push(first);
        let mut slot: usize = 1;
        while slot < nbr_piles
            invariant
                1 <= slot <= nbr_piles,
                piles.len() == slot,
                piles@[0]@ == bottom_pile,
                forall|s: int| 1 <= s < slot ==> (#[trigger] piles@[s])@.len() == 0,
            decreases nbr_piles - slot,
        {
            piles.push(Vec::new());
            slot += 1;
        }
        let ranks = rank_slots(&piles);
        let board = Board {
            piles,
            rel_of_abs: ranks,
            nbr_cards,
            highest_card_is_on_bottom,
            has_solution_pile: false,
            pos_of_highest_card: 0,
            last_move: None,
        };
        proof {
            let piles = BoardView::initial(pile@, nbr_piles as int).piles;
            assert forall|s: int| 0 <= s < nbr_piles implies #[trigger] board@.piles[s]
                =~= piles[s] by {}
            assert(board@.piles =~= piles);
            lemma_initial_wf(pile@, nbr_piles as int);
            board@.lemma_ranked_by_bottom_card();
        }
        board
    }

    /// Creates the board as `new` does, or names the first check that
    /// `pile` and `nbr_piles` fail.
    pub fn try_new(pile: &[u8], nbr_piles: usize) -> (made: Result<Board, SetupError>)
        ensures
            match made {
                Ok(board) => valid_setup(pile@, nbr_piles as int) && board.wf() && board@
                    == BoardView::initial(pile@, nbr_piles as int),
                Err(e) => setup_error(pile@, nbr_piles as int) == Some(e),
            },
    {
        proof {
            lemma_valid_setup_has_no_error(pile@, nbr_piles as int);
        }
        match Board::check_setup(pile, nbr_piles) {
            Ok(()) => Ok(Board::new(pile, nbr_piles)),
            Err(e) => Err(e),
        }
    }

    /// The number of cards still in play.
    pub fn active_cards(&self) -> (count: usize)
        ensures
            count == self@.nbr_cards,
    {
        self.nbr_cards
    }

    /// Whether the pile of the highest card is exactly `[2, 1]`.
    pub fn solved(&self) -> (done: bool)
        requires
            self.wf(),
        ensures
            done == self@.solved(),
    {
        let pile = &self.piles[self.pos_of_highest_card];
        let done = pile.len() == 2 && pile[0] == 2 && pile[1] == 1;
        proof {
            if done {
                assert(pile@ =~= seq![2u8, 1u8]);
            }
        }
        done
    }

    /// The first of the empty slots, if a slot is empty.
    fn first_empty_slot(&self) -> (found: Option<usize>)
        ensures
            match found {
                Some(t) => t < self@.nbr_piles() && self@.is_first_empty_slot(t as int),
                None => forall|s: int|
                    0 <= s < self@.nbr_piles() ==> (#[trigger] self@.piles[s]).len() > 0,
            },
    {
        let mut t: usize = 0;
        while t < self.piles.len()
            invariant
                t <= self.piles.len(),
                forall|s: int| 0 <= s < t ==> (#[trigger] self@.piles[s]).len() > 0,
            decreases self.piles.len() - t,
        {
            if self.piles[t].is_empty() {
                return Some(t);
            }
            t += 1;
        }
        None
    }

    /// All moves that may be performed, by slots: from each pile that has a
    /// card onto each pile that has one, and onto the first of the empty
    /// slots.
    fn valid_moves_abs(&self) -> (moves: Vec<Move>)
        ensures
            forall|f: int, t: int|
                self@.is_valid_slot_move(f, t) <==> #[trigger] lists_move(moves@, f, t),
            moves_distinct(moves@),
    {
        let n: usize = self.piles.len();
        let first_empty = self.first_empty_slot();
        let mut moves: Vec<Move> = Vec::new();
        let mut from: usize = 0;
        while from < n
            invariant
                n == self.piles.len(),
                n == self@.nbr_piles(),
                from <= n,
                match first_empty {
                    Some(t) => t < n && self@.is_first_empty_slot(t as int),
                    None => forall|s: int| 0 <= s < n ==> (#[trigger] self@.piles[s]).len() > 0,
                },
                forall|f: int, t: int| #[trigger]
                    lists_move(moves@, f, t) <==> f < from && self@.is_valid_slot_move(f, t),
                moves_distinct(moves@),
            decreases n - from,
        {
            if !self.piles[from].is_empty() {
                let ghost before = moves@;
                let mut to: usize = 0;
                while to < n
                    invariant
                        n == self.piles.len(),
                        n == self@.nbr_piles(),
                        from < n,
                        to <= n,
                        forall|f: int, t: int| #[trigger] lists_move(before, f, t) ==> f < from,
                        forall|f: int, t: int| #[trigger]
                            lists_move(moves@, f, t) <==> lists_move(before, f, t) || (f == from
                                && 0 <= t < to && self@.piles[t].len() > 0),
                        moves_distinct(moves@),
                    decreases n - to,
                {
                    if !self.piles[to].is_empty() {
                        let m: Move = [from, to];
                        proof {
                            lemma_lists_move_push(moves@, m);
                        }
                        moves.push(m);
                    }
                    to += 1;
                }
                match first_empty {
                    Some(empty) => {
                        let m: Move = [from, empty];
                        proof {
                            lemma_lists_move_push(moves@, m);
                        }
                        moves.push(m);
                    },
                    None => {},
                }
                proof {
                    assert forall|f: int, t: int| #[trigger]
                        lists_move(moves@, f, t) <==> f < from + 1 && self@.is_valid_slot_move(
                            f,
                            t,
                        ) by {
                        if f == from && self@.is_valid_slot_move(f, t) && self@.piles[t].len()
                            == 0 {
                            let empty = first_empty->Some_0 as int;
                            if t < empty {
                                assert(self@.piles[t].len() > 0);
                            }
                            if empty < t {
                                assert(self@.piles[empty].len() > 0);
                            }
                        }
                    }
                }
            }
            from += 1;
        }
        moves
    }

    /// The moves of `abs` with each slot replaced by its rank.
    fn abs_to_rel_moves(&self, abs: &Vec<Move>) -> (rel: Vec<Move>)
        requires
            self.wf(),
            forall|k: int|
                0 <= k < abs.len() ==> (#[trigger] abs@[k])[0] < self@.nbr_piles() && abs@[k][1]
                    < self@.nbr_piles(),
        ensures
            self@.ranks_moves(abs@, rel@),
    {
        let mut rel: Vec<Move> = Vec::new();
        let mut k: usize = 0;
        while k < abs.len()
            invariant
                self.wf(),
                k <= abs.len(),
                rel.len() == k,
                forall|j: int|
                    0 <= j < abs.len() ==> (#[trigger] abs@[j])[0] < self@.nbr_piles()
                        && abs@[j][1] < self@.nbr_piles(),
                forall|j: int|
                    0 <= j < k ==> rel@[j][0] == self@.ranks[(#[trigger] abs@[j])[0] as int]
                        && rel@[j][1] == self@.ranks[abs@[j][1] as int],
            decreases abs.len() - k,
        {
            let m: Move = self.abs_to_rel_move(abs[k]);
            rel.push(m);
            k += 1;
        }
        rel
    }

    /// All moves that may be performed, by rank: from each pile that has a
    /// card onto each pile that has one, and onto the first of the empty
    /// piles. The move of a card onto its own pile is among them.
    pub fn valid_moves_rel(&self) -> (moves: Vec<Move>)
        requires
            self.wf(),
        ensures
            forall|f: int, t: int|
                self@.is_valid_move(f, t) <==> #[trigger] lists_move(moves@, f, t),
            moves_distinct(moves@),
    {
        let abs = self.valid_moves_abs();
        proof {
            assert forall|k: int| 0 <= k < abs.len() implies (#[trigger] abs@[k])[0]
                < self@.nbr_piles() && abs@[k][1] < self@.nbr_piles() by {
                assert(lists_move(abs@, abs@[k][0] as int, abs@[k][1] as int));
            }
        }
        let moves = self.abs_to_rel_moves(&abs);
        proof {
            self@.lemma_ranked_moves(abs@, moves@);
            assert forall|f: int, t: int| self@.is_valid_move(f, t) <==> #[trigger] lists_move(
                moves@,
                f,
                t,
            ) by {
                if 0 <= f < self@.nbr_piles() && 0 <= t < self@.nbr_piles() {
                    self@.lemma_valid_move_by_slots(f, t);
                }
            }
        }
        moves
    }

    /// The piles in the order of their ranks: the canonical form of the
    /// board, by which boards are compared and hashed.
    pub fn relative_piles(&self) -> (piles: Vec<Vec<u8>>)
        requires
            self.wf(),
        ensures
            piles_view(piles@) == self@.canonical(),
    {
        let n: usize = self.piles.len();
        let mut piles_in_rel_order: Vec<Vec<u8>> = Vec::new();
        let mut rank: usize = 0;
        while rank < n
            invariant
                self.wf(),
                n == self@.nbr_piles(),
                rank <= n,
                piles_in_rel_order.len() == rank,
                forall|r: int|
                    0 <= r < rank ==> (#[trigger] piles_in_rel_order@[r])@ == self@.canonical()[r],
            decreases n - rank,
        {
            let slot = self.rel_to_abs(rank);
            let pile = self.piles[slot].clone();
            assert(pile@ =~= self@.piles[slot as int]);
            piles_in_rel_order.push(pile);
            rank += 1;
        }
        assert(piles_view(piles_in_rel_order@) =~= self@.canonical());
        piles_in_rel_order
    }

    /// Whether the two boards show the same piles in canonical order,
    /// whatever slots the piles lie in.
    pub fn equals(&self, other: &Board) -> (same: bool)
        requires
            self.wf(),
            other.wf(),
        ensures
            same == (self@.canonical() == other@.canonical()),
    {
        let n: usize = self.piles.len();
        if other.piles.len() != n {
            assert(self@.canonical().len() != other@.canonical().len());
            return false;
        }
        let mut rank: usize = 0;
        while rank < n
            invariant
                self.wf(),
                other.wf(),
                n == self@.nbr_piles(),
                n == other@.nbr_piles(),
                rank <= n,
                forall|r: int| 0 <= r < rank ==> self@.canonical()[r] == other@.canonical()[r],
            decreases n - rank,
        {
            let mine = &self.piles[self.rel_to_abs(rank)];
            let theirs = &other.piles[other.rel_to_abs(rank)];
            assert(mine@ == self@.canonical()[rank as int]);
            assert(theirs@ == other@.canonical()[rank as int]);
            if mine.len() != theirs.len() {
                assert(self@.canonical()[rank as int] != other@.canonical()[rank as int]);
                return false;
            }
            let mut i: usize = 0;
            while i < mine.len()
                invariant
                    i <= mine.len(),
                    mine.len() == theirs.len(),
                    mine@ == self@.canonical()[rank as int],
                    theirs@ == other@.canonical()[rank as int],
                    forall|j: int| 0 <= j < i ==> mine@[j] == theirs@[j],
                decreases mine.len() - i,
            {
                if mine[i] != theirs[i] {
                    assert(self@.canonical()[rank as int][i as int]
                        != other@.canonical()[rank as int][i as int]);
                    return false;
                }
                i += 1;
            }
            assert(mine@ =~= theirs@);
            rank += 1;
        }
        assert(self@.canonical() =~= other@.canonical());
        true
    }

    /// The slot whose top card is `card`, if a pile has it on top.
    fn slot_with_top(&self, card: usize) -> (found: Option<usize>)
        ensures
            match found {
                Some(s) => s < self@.nbr_piles() && self@.piles[s as int].len() > 0
                    && self@.piles[s as int].last() == card,
                None => forall|s: int|
                    0 <= s < self@.nbr_piles() && (#[trigger] self@.piles[s]).len() > 0
                        ==> self@.piles[s].last() != card,
            },
    {
        let mut s: usize = 0;
        while s < self.piles.len()
            invariant
                s <= self.piles.len(),
                forall|q: int|
                    0 <= q < s && (#[trigger] self@.piles[q]).len() > 0 ==> self@.piles[q].last()
                        != card,
            decreases self.piles.len() - s,
        {
            let len = self.piles[s].len();
            if len > 0 && self.piles[s][len - 1] as usize == card {
                return Some(s);
            }
            s += 1;
        }
        None
    }

    /// The list of the one move from slot `from` onto slot `to`, by rank.
    fn single_move(&self, from: usize, to: usize) -> (moves: Vec<Move>)
        requires
            self.wf(),
            from < self@.nbr_piles(),
            to < self@.nbr_piles(),
        ensures
            forall|f: int, t: int| #[trigger]
                lists_move(moves@, f, t) <==> 0 <= f < self@.nbr_piles() && 0 <= t
                    < self@.nbr_piles() && self@.slot(f) == from && self@.slot(t) == to,
            moves_distinct(moves@),
    {
        let mut moves: Vec<Move> = Vec::new();
        moves.push(self.abs_to_rel_move([from, to]));
        proof {
            self@.lemma_ranks();
            lemma_lists_single_move(moves@);
        }
        moves
    }

    /// The moves, by rank, that may lead to a better solution. A solved board
    /// has none. Where the solution pile can grow, or one can be started,
    /// that move alone is returned. Else a move stays out where it takes the
    /// card that the last move put down, keeps the card on its pile, takes
    /// from the solution pile or covers the highest card.
    pub fn good_moves_rel(&self) -> (moves: Vec<Move>)
        requires
            self.wf(),
        ensures
            forall|f: int, t: int|
                self@.is_good_move(f, t) <==> #[trigger] lists_move(moves@, f, t),
            moves_distinct(moves@),
            forall|k: int| 0 <= k < moves.len() ==> (#[trigger] moves@[k])[0] != moves@[k][1],
            !self@.is_forced() && self@.last_move is Some ==> forall|k: int|
                0 <= k < moves.len() ==> self@.slot((#[trigger] moves@[k])[0] as int)
                    != self@.last_move->Some_0.1,
    {
        let moves = self.pick_good_moves();
        proof {
            assert forall|k: int| 0 <= k < moves.len() implies (#[trigger] moves@[k])[0]
                != moves@[k][1] by {
                assert(lists_move(moves@, moves@[k][0] as int, moves@[k][1] as int));
                self@.lemma_good_move_is_no_identity(moves@[k][0] as int, moves@[k][1] as int);
            }
            if !self@.is_forced() && self@.last_move is Some {
                assert forall|k: int| 0 <= k < moves.len() implies self@.slot(
                    (#[trigger] moves@[k])[0] as int,
                ) != self@.last_move->Some_0.1 by {
                    assert(lists_move(moves@, moves@[k][0] as int, moves@[k][1] as int));
                    self@.lemma_free_good_move_leaves_last_card(
                        moves@[k][0] as int,
                        moves@[k][1] as int,
                    );
                }
            }
        }
        moves
    }

    /// The good moves: the one that the board forces, or the valid moves
    /// that pass the filter.
    fn pick_good_moves(&self) -> (moves: Vec<Move>)
        requires
            self.wf(),
        ensures
            forall|f: int, t: int|
                self@.is_good_move(f, t) <==> #[trigger] lists_move(moves@, f, t),
            moves_distinct(moves@),
    {
        proof {
            self@.lemma_ranks();
        }
        if self.solved() {
            return Vec::new();
        }
        let pos = self.pos_of_highest_card;
        if self.has_solution_pile {
            let next_card_needed = self.nbr_cards - self.piles[pos].len();
            match self.slot_with_top(next_card_needed) {
                Some(from) => {
                    assert(self@.offers_needed(from as int));
                    proof {
                        assert forall|s: int| self@.offers_needed(s) implies s == from by {
                            let i = self@.piles[s].len() - 1;
                            let j = self@.piles[from as int].len() - 1;
                            assert(self@.piles[s][i] == self@.piles[from as int][j]);
                        }
                    }
                    return self.single_move(from, pos);
                },
                None => {
                    assert(!self@.can_extend_solution());
                },
            }
        } else {
            match self.first_empty_slot() {
                Some(empty) => {
                    let top = self.piles[pos][self.piles[pos].len() - 1];
                    if top as usize == self.nbr_cards {
                        assert(self@.piles[empty as int].len() == 0);
                        assert(self@.can_start_solution());
                        proof {
                            assert forall|t: int|
                                0 <= t < self@.nbr_piles() && self@.is_first_empty_slot(
                                    t,
                                ) implies t == empty by {
                                if t < empty {
                                    assert(self@.piles[t].len() > 0);
                                }
                                if empty < t {
                                    assert(self@.piles[empty as int].len() > 0);
                                }
                            }
                        }
                        return self.single_move(pos, empty);
                    }
                },
                None => {},
            }
            assert(!self@.can_start_solution());
        }
        let valid = self.valid_moves_abs();
        let mut kept: Vec<Move> = Vec::new();
        let mut k: usize = 0;
        assert(valid@.take(0) =~= Seq::<Move>::empty());
        while k < valid.len()
            invariant
                self.wf(),
                k <= valid.len(),
                pos == self.pos_of_highest_card,
                !self@.solved(),
                !self@.can_extend_solution(),
                !self@.can_start_solution(),
                moves_distinct(valid@),
                forall|f: int, t: int|
                    self@.is_valid_slot_move(f, t) <==> #[trigger] lists_move(valid@, f, t),
                forall|f: int, t: int| #[trigger]
                    lists_move(kept@, f, t) <==> lists_move(valid@.take(k as int), f, t)
                        && self@.is_good_slot_move(f, t),
                moves_distinct(kept@),
            decreases valid.len() - k,
        {
            let m: Move = valid[k];
            proof {
                lemma_not_listed_before(valid@, k as int);
                lemma_lists_move_push(valid@.take(k as int), m);
                lemma_lists_move_push(kept@, m);
                assert(lists_move(valid@, m[0] as int, m[1] as int));
            }
            if self.not_last_move(&m) && m[0] != m[1] && !(self.has_solution_pile && m[0] == pos)
                && m[1] != pos {
                kept.push(m);
            }
            k += 1;
        }
        proof {
            assert(valid@.take(k as int) =~= valid@);
            assert forall|k: int| 0 <= k < kept.len() implies (#[trigger] kept@[k])[0]
                < self@.nbr_piles() && kept@[k][1] < self@.nbr_piles() by {
                assert(lists_move(kept@, kept@[k][0] as int, kept@[k][1] as int));
            }
        }
        let moves = self.abs_to_rel_moves(&kept);
        proof {
            self@.lemma_ranked_moves(kept@, moves@);
        }
        moves
    }

    /// Whether `move_command`, by slot, takes another card than the last
    /// move put down.
    fn not_last_move(&self, move_command: &Move) -> (fresh: bool)
        ensures
            fresh == match self@.last_move {
                Some((_, last_to)) => move_command[0] != last_to,
                None => true,
            },
    {
        match self.last_move {
            Some(last_move) => move_command[0] != last_move[1],
            None => true,
        }
    }

    /// Performs the move `move_command`, given by rank: the top card of the
    /// first pile goes onto the second. Where it completes three cards of the
    /// solution pile, the highest card is retired. The piles are ranked anew.
    pub fn perform_move(&mut self, move_command: Move)
        requires
            old(self).wf(),
            old(self)@.is_valid_move(move_command[0] as int, move_command[1] as int),
        ensures
            final(self)@ == old(self)@.after_move(move_command[0] as int, move_command[1] as int),
            final(self).wf(),
            final(self)@.ranked_by_bottom_card(),
    {
        let from_abs = self.rel_to_abs(move_command[0]);
        let to_abs = self.rel_to_abs(move_command[1]);
        proof {
            self@.lemma_valid_move_by_slots(move_command[0] as int, move_command[1] as int);
            self@.lemma_moved_card(from_abs as int, to_abs as int);
            self@.lemma_after_move_wf(from_abs as int, to_abs as int);
        }
        let ghost before = self@;
        let ghost after = before.after_slot_move(from_abs as int, to_abs as int);
        let card = self.piles[from_abs][self.piles[from_abs].len() - 1];
        assert(card == before.moved_card(from_abs as int));
        let moved_highest_card = card as usize == self.nbr_cards;
        let moved_on_top_of_highest_card = to_abs == self.pos_of_highest_card;
        let had_solution_pile = self.has_solution_pile;
        let card_diff = self.nbr_cards - card as usize;
        let should_go_on_top = self.piles[self.pos_of_highest_card].len() == card_diff;
        let shrink = card_diff == 2 && should_go_on_top;

        self.last_move = Some([from_abs, to_abs]);
        if moved_highest_card {
            self.pos_of_highest_card = to_abs;
            if self.piles[to_abs].is_empty() {
                self.highest_card_is_on_bottom = true;
                self.has_solution_pile = true;
            } else {
                self.highest_card_is_on_bottom = false;
                self.has_solution_pile = false;
            }
        }
        if moved_on_top_of_highest_card {
            if had_solution_pile && should_go_on_top {
                if shrink {
                    self.piles[to_abs].remove(0);
                    self.nbr_cards -= 1;
                }
            } else {
                self.has_solution_pile = false;
            }
        }
        self.piles[from_abs].pop();
        self.piles[to_abs].push(card);
        proof {
            let piles = piles_view(self.piles@);
            assert forall|s: int| 0 <= s < piles.len() implies #[trigger] piles[s]
                =~= after.piles[s] by {
                if before.shrinks(from_abs as int, to_abs as int) {
                    let pile = before.piles[to_abs as int];
                    assert(pile.drop_first() =~= pile.remove(0));
                }
            }
            assert(piles =~= after.piles);
        }
        self.update_indexes();
        proof {
            assert(self@.last_move == after.last_move);
            assert(self@ == after);
            self@.lemma_ranked_by_bottom_card();
        }
    }

    /// Ranks the slots anew after the piles have changed.
    fn update_indexes(&mut self)
        ensures
            final(self)@ == (BoardView { ranks: ranking(old(self)@.piles), ..old(self)@ }),
    {
        self.rel_of_abs = rank_slots(&self.piles);
    }

    /// Whether `move_command`, by rank, may be performed.
    pub fn can_move(&self, move_command: Move) -> (valid: bool)
        requires
            self.wf(),
        ensures
            valid == self@.is_valid_move(move_command[0] as int, move_command[1] as int),
    {
        let n = self.piles.len();
        if move_command[0] >= n || move_command[1] >= n {
            return false;
        }
        let from = self.rel_to_abs(move_command[0]);
        let to = self.rel_to_abs(move_command[1]);
        proof {
            self@.lemma_valid_move_by_slots(move_command[0] as int, move_command[1] as int);
        }
        if self.piles[from].is_empty() {
            return false;
        }
        if !self.piles[to].is_empty() {
            return true;
        }
        match self.first_empty_slot() {
            Some(empty) => {
                proof {
                    if empty != to {
                        if empty < to {
                            assert(self@.piles[empty as int].len() == 0);
                        } else {
                            assert(self@.piles[to as int].len() == 0);
                        }
                    }
                }
                empty == to
            },
            None => false,
        }
    }

    /// The ranks of the two slots of `abs_move`.
    fn abs_to_rel_move(&self, abs_move: Move) -> (rel_move: Move)
        requires
            self.wf(),
            abs_move[0] < self@.nbr_piles(),
            abs_move[1] < self@.nbr_piles(),
        ensures
            rel_move[0] == self@.ranks[abs_move[0] as int],
            rel_move[1] == self@.ranks[abs_move[1] as int],
    {
        [self.abs_to_rel(abs_move[0]), self.abs_to_rel(abs_move[1])]
    }

    /// The slots of the two ranks of `rel_move`.
    fn rel_to_abs_move(&self, rel_move: Move) -> (abs_move: Move)
        requires
            self.wf(),
            rel_move[0] < self@.nbr_piles(),
            rel_move[1] < self@.nbr_piles(),
        ensures
            abs_move[0] == self@.slot(rel_move[0] as int),
            abs_move[1] == self@.slot(rel_move[1] as int),
            abs_move[0] < self@.nbr_piles(),
            abs_move[1] < self@.nbr_piles(),
    {
        [self.rel_to_abs(rel_move[0]), self.rel_to_abs(rel_move[1])]
    }

    /// The rank of the slot `abs_val`.
    fn abs_to_rel(&self, abs_val: usize) -> (rel: usize)
        requires
            self.wf(),
            abs_val < self@.nbr_piles(),
        ensures
            rel == self@.ranks[abs_val as int],
            rel < self@.nbr_piles(),
            self@.slot(rel as int) == abs_val,
    {
        proof {
            self@.lemma_ranks();
        }
        self.rel_of_abs[abs_val]
    }

    /// The slot ranked `rel_val`.
    fn rel_to_abs(&self, rel_val: usize) -> (slot: usize)
        requires
            self.wf(),
            rel_val < self@.nbr_piles(),
        ensures
            slot == self@.slot(rel_val as int),
            slot < self@.nbr_piles(),
            self@.ranks[slot as int] == rel_val,
    {
        proof {
            self@.lemma_ranks();
        }
        let ghost target = self@.slot(rel_val as int);
        let mut i: usize = 0;
        while self.rel_of_abs[i] != rel_val
            invariant
                0 <= target < self.rel_of_abs.len(),
                self.rel_of_abs@[target] == rel_val,
                i <= target,
            decreases target - i,
        {
            i += 1;
        }
        i
    }
}

} // verus!
