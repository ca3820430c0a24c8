//! Solutions: sequences of moves, what it means to replay one from a
//! board, and the check that one ends on a solved board.

use crate::board::Board;
use crate::board_set::{lemma_path_replays, path_to, BoardSet, FoundView};
use crate::model::BoardView;
use crate::program::Program;
use crate::Move;
use vstd::prelude::*;

verus! {

/// A sequence of moves, by rank, from a start board on.
pub type Solution = Vec<Move>;

/// The board that `moves`, performed one after the other, lead to from
/// `start`.
pub open spec fn replay(start: BoardView, moves: Seq<Move>) -> BoardView
    decreases moves.len(),
{
    if moves.len() == 0 {
        start
    } else {
        replay(start, moves.drop_last()).after_move(
            moves.last()[0] as int,
            moves.last()[1] as int,
        )
    }
}

/// Each of `moves` may be performed on the board that the moves before it
/// lead to from `start`.
pub open spec fn can_replay(start: BoardView, moves: Seq<Move>) -> bool
    decreases moves.len(),
{
    moves.len() == 0 || (can_replay(start, moves.drop_last()) && replay(
        start,
        moves.drop_last(),
    ).is_valid_move(moves.last()[0] as int, moves.last()[1] as int))
}

/// `moves` can be replayed from `start` and lead to a solved board.
pub open spec fn solves(start: BoardView, moves: Seq<Move>) -> bool {
    can_replay(start, moves) && replay(start, moves).solved()
}

/// Moves that can be replayed lead from one board that meets the invariant
/// to another.
pub proof fn lemma_replay_wf(start: BoardView, moves: Seq<Move>)
    requires
        start.wf(),
        can_replay(start, moves),
    ensures
        replay(start, moves).wf(),
    decreases moves.len(),
{
    if moves.len() > 0 {
        let head = moves.drop_last();
        lemma_replay_wf(start, head);
        let board = replay(start, head);
        let from = moves.last()[0] as int;
        let to = moves.last()[1] as int;
        board.lemma_valid_move_by_slots(from, to);
        board.lemma_after_move_wf(board.slot(from), board.slot(to));
    }
}

/// Where moves can be replayed, so can the first `k` of them.
pub proof fn lemma_can_replay_prefix(start: BoardView, moves: Seq<Move>, k: int)
    requires
        can_replay(start, moves),
        0 <= k <= moves.len(),
    ensures
        can_replay(start, moves.take(k)),
    decreases moves.len(),
{
    if k == moves.len() {
        assert(moves.take(k) =~= moves);
    } else {
        lemma_can_replay_prefix(start, moves.drop_last(), k);
        assert(moves.drop_last().take(k) =~= moves.take(k));
    }
}

/// Replays `solution` from `starting_board` and says whether every move of
/// it could be performed and the last board is solved.
pub fn confirm_solution(solution: &Solution, starting_board: &Board) -> (confirmed: bool)
    requires
        starting_board.wf(),
    ensures
        confirmed == solves(starting_board@, solution@),
{
    let mut board = starting_board.clone();
    let mut k: usize = 0;
    assert(solution@.take(0) =~= Seq::<Move>::empty());
    while k < solution.len()
        invariant
            k <= solution.len(),
            board.wf(),
            can_replay(starting_board@, solution@.take(k as int)),
            board@ == replay(starting_board@, solution@.take(k as int)),
        decreases solution.len() - k,
    {
        let m: Move = solution[k];
        proof {
            let head = solution@.take(k + 1);
            assert(head.drop_last() =~= solution@.take(k as int));
            assert(head.last() == m);
        }
        if !board.can_move(m) {
            proof {
                if can_replay(starting_board@, solution@) {
                    lemma_can_replay_prefix(starting_board@, solution@, k + 1);
                }
            }
            return false;
        }
        board.perform_move(m);
        k += 1;
    }
    assert(solution@.take(k as int) =~= solution@);
    board.solved()
}

/// The board at place `i` is the first solved board of `found`.
pub open spec fn is_first_solved(found: Seq<FoundView>, i: int) -> bool {
    &&& 0 <= i < found.len()
    &&& found[i].board.solved()
    &&& forall|j: int| 0 <= j < i ==> !(#[trigger] found[j]).board.solved()
}

/// The place of the first solved board of `found`, if it holds one.
fn first_solved(found: &BoardSet) -> (place: Option<usize>)
    requires
        found.wf(),
    ensures
        match place {
            Some(i) => is_first_solved(found@, i as int),
            None => forall|j: int| 0 <= j < found@.len() ==> !(#[trigger] found@[j]).board.solved(),
        },
{
    proof {
        found.lemma_boards_wf();
    }
    let mut i: usize = 0;
    while i < found.len()
        invariant
            forall|j: int| 0 <= j < found@.len() ==> (#[trigger] found@[j]).board.wf(),
            i <= found@.len(),
            forall|j: int| 0 <= j < i ==> !(#[trigger] found@[j]).board.solved(),
        decreases found@.len() - i,
    {
        assert(found@[i as int].board.wf());
        if found.board(i).solved() {
            return Some(i);
        }
        i += 1;
    }
    None
}

/// A path that ends with `tail` after the board at `at` ends with the move
/// to that board and `tail` after the board before it.
proof fn lemma_path_step(found: Seq<FoundView>, goal: int, at: int, tail: Seq<Move>)
    requires
        0 < at < found.len(),
        0 <= found[at].parent < at,
        path_to(found, goal) == path_to(found, at) + tail,
    ensures
        path_to(found, goal) == path_to(found, found[at].parent) + (seq![found[at].via] + tail),
{
    let before = path_to(found, found[at].parent);
    assert(path_to(found, at) == before.push(found[at].via));
    assert(before.push(found[at].via) + tail =~= before + (seq![found[at].via] + tail));
}

/// The moves that lead from the first board of `found` to its first solved
/// board, if it holds a solved board.
pub fn get_solution(found: &BoardSet) -> (solution: Option<Solution>)
    requires
        found.wf(),
    ensures
        match solution {
            Some(moves) => solves(found@[0].board, moves@) && exists|i: int|
                is_first_solved(found@, i) && moves@ == path_to(found@, i),
            None => forall|j: int| 0 <= j < found@.len() ==> !(#[trigger] found@[j]).board.solved(),
        },
{
    let goal = match first_solved(found) {
        Some(i) => i,
        None => { return None; },
    };
    proof {
        found.lemma_boards_wf();
    }
    // the moves from the goal back to the first board
    let mut back: Vec<Move> = Vec::new();
    let ghost mut tail: Seq<Move> = Seq::empty();
    let mut at: usize = goal;
    assert(path_to(found@, goal as int) =~= path_to(found@, at as int) + tail);
    while at != 0
        invariant
            forall|i: int| 1 <= i < found@.len() ==> 0 <= (#[trigger] found@[i]).parent < i,
            at <= goal < found@.len(),
            path_to(found@, goal as int) == path_to(found@, at as int) + tail,
            back.len() == tail.len(),
            forall|k: int| 0 <= k < back.len() ==> back@[k] == tail[tail.len() - 1 - k],
        decreases at,
    {
        let m = found.via(at);
        let ghost entry = found@[at as int];
        proof {
            lemma_path_step(found@, goal as int, at as int, tail);
            tail = seq![m] + tail;
        }
        back.push(m);
        at = found.parent(at);
    }
    assert(path_to(found@, 0) =~= Seq::<Move>::empty());
    assert(tail =~= path_to(found@, goal as int));
    let mut moves: Vec<Move> = Vec::new();
    let mut k: usize = back.len();
    while k > 0
        invariant
            k <= back.len(),
            back.len() == tail.len(),
            moves.len() == back.len() - k,
            forall|j: int| 0 <= j < back.len() ==> back@[j] == tail[tail.len() - 1 - j],
            forall|j: int| 0 <= j < moves.len() ==> moves@[j] == tail[j],
        decreases k,
    {
        k -= 1;
        moves.push(back[k]);
    }
    proof {
        assert(moves@ =~= tail);
        lemma_path_replays(found@, goal as int);
        assert(is_first_solved(found@, goal as int));
    }
    Some(moves)
}

/// A program that performs a given sequence of moves on a board, one move
/// a step, up to the first that may not be performed.
pub struct Replay {
    start: Board,
    board: Board,
    script: Vec<Move>,
    made: Vec<Move>,
    stuck: bool,
}

impl Replay {
    /// The moves that the program is to perform.
    pub closed spec fn script(&self) -> Seq<Move> {
        self.script@
    }

    /// The board that the program has come to.
    pub closed spec fn reached(&self) -> BoardView {
        self.board@
    }

    /// The program that is to perform `script` from `start` on.
    pub fn new(start: &Board, script: Vec<Move>) -> (program: Replay)
        requires
            start.wf(),
        ensures
            program.inv(),
            program.started_from() == start@,
            program.script() == script@,
            program.moves_made() == Seq::<Move>::empty(),
            program.steps_left() == script@.len(),
    {
        let program = Replay {
            start: start.clone(),
            board: start.clone(),
            script,
            made: Vec::new(),
            stuck: false,
        };
        assert(program.made@ =~= program.script@.take(0));
        program
    }

    /// The board that the moves made so far have led to.
    pub fn board(&self) -> (board: &Board)
        requires
            self.inv(),
        ensures
            board.wf(),
            board@ == self.reached(),
            self.reached() == replay(self.started_from(), self.moves_made()),
    {
        &self.board
    }

    /// Whether every move of the script has been made.
    pub fn completed(&self) -> (all: bool)
        requires
            self.inv(),
        ensures
            all == (self.moves_made() == self.script()),
            self.steps_left() == 0 ==> all == can_replay(self.started_from(), self.script()),
    {
        proof {
            if self.made.len() == self.script.len() {
                assert(self.script@.take(self.made.len() as int) =~= self.script@);
            }
            if self.stuck && can_replay(self.start@, self.script@) {
                lemma_can_replay_prefix(self.start@, self.script@, self.made.len() + 1);
                let head = self.script@.take(self.made.len() + 1);
                assert(head.drop_last() =~= self.made@);
            }
        }
        self.made.len() == self.script.len()
    }
}

impl Program for Replay {
    closed spec fn inv(&self) -> bool {
        &&& self.start.wf()
        &&& self.board.wf()
        &&& self.made.len() <= self.script.len()
        &&& self.made@ == self.script@.take(self.made.len() as int)
        &&& can_replay(self.start@, self.made@)
        &&& self.board@ == replay(self.start@, self.made@)
        &&& self.stuck ==> self.made.len() < self.script.len() && !self.board@.is_valid_move(
            self.script@[self.made.len() as int][0] as int,
            self.script@[self.made.len() as int][1] as int,
        )
    }

    closed spec fn steps_left(&self) -> nat {
        if self.stuck {
            0
        } else {
            (self.script.len() - self.made.len()) as nat
        }
    }

    closed spec fn moves_made(&self) -> Seq<Move> {
        self.made@
    }

    closed spec fn started_from(&self) -> BoardView {
        self.start@
    }

    fn starting_state(&self) -> (board: &Board) {
        &self.start
    }

    fn done(&self) -> (done: bool) {
        self.stuck || self.made.len() == self.script.len()
    }

    fn step(&mut self) -> (made: Option<Move>) {
        let m: Move = self.script[self.made.len()];
        if self.board.can_move(m) {
            proof {
                let head = self.script@.take(self.made.len() + 1);
                assert(head.drop_last() =~= self.made@);
                assert(head =~= self.made@.push(m));
            }
            self.board.perform_move(m);
            self.made.push(m);
            Some(m)
        } else {
            self.stuck = true;
            None
        }
    }

    fn progress(&self) -> (moves: &Vec<Move>) {
        &self.made
    }
}

} // verus!
