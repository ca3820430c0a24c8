//! The breadth-first search over boards: from the boards found last, try
//! every move that the chosen strategy offers, keep each board that shows
//! new piles, and stop at the first solved board.

use crate::board::Board;
use crate::board_set::{is_search_tree, path_to, BoardSet, FoundView};
use crate::model::BoardView;
use crate::move_list::{lists_move, moves_distinct};
use crate::validator::{confirm_solution, get_solution, is_first_solved, solves, Solution};
use crate::Move;
use vstd::prelude::*;

verus! {

/// A program that works on a board move by move.
pub trait Program {
    /// What holds of the program between two steps.
    spec fn inv(&self) -> bool;

    /// The number of steps that the program may still take: none once it
    /// is done.
    spec fn steps_left(&self) -> nat;

    /// The moves made so far.
    spec fn moves_made(&self) -> Seq<Move>;

    /// The board that the program started from.
    spec fn started_from(&self) -> BoardView;

    /// The board that the program started from.
    fn starting_state(&self) -> (board: &Board)
        requires
            self.inv(),
        ensures
            board.wf(),
            board@ == self.started_from(),
    ;

    /// Whether the program has come to its end.
    fn done(&self) -> (done: bool)
        requires
            self.inv(),
        ensures
            done == (self.steps_left() == 0),
    ;

    /// Runs the program until it has made a new move, which is returned, or
    /// finds that it makes none.
    fn step(&mut self) -> (made: Option<Move>)
        requires
            old(self).inv(),
            old(self).steps_left() > 0,
        ensures
            final(self).inv(),
            final(self).started_from() == old(self).started_from(),
            final(self).steps_left() < old(self).steps_left(),
            final(self).moves_made() == match made {
                Some(m) => old(self).moves_made().push(m),
                None => old(self).moves_made(),
            },
    ;

    /// Runs the program to its end and returns the moves that this run made.
    fn run(&mut self) -> (moves: Vec<Move>)
        requires
            old(self).inv(),
        ensures
            final(self).inv(),
            final(self).started_from() == old(self).started_from(),
            final(self).steps_left() == 0,
            final(self).moves_made() == old(self).moves_made() + moves@,
    {
        let mut moves: Vec<Move> = Vec::new();
        assert(self.moves_made() =~= old(self).moves_made() + moves@);
        while !self.done()
            invariant
                self.inv(),
                self.started_from() == old(self).started_from(),
                self.moves_made() == old(self).moves_made() + moves@,
            decreases self.steps_left(),
        {
            let ghost made = moves@;
            if let Some(value) = self.step() {
                moves.push(value);
                assert(old(self).moves_made() + made.push(value) =~= (old(self).moves_made()
                    + made).push(value));
            }
        }
        moves
    }

    /// All moves made so far.
    fn progress(&self) -> (moves: &Vec<Move>)
        requires
            self.inv(),
        ensures
            moves@ == self.moves_made(),
    ;
}

/// Which moves a search tries on a board.
#[derive(Debug, Clone, Copy, PartialEq, Eq)]
pub enum MoveChoice {
    /// Every move that may be performed.
    Valid,
    /// The moves that may lead to a better solution.
    Good,
    /// A strategy from outside: none of its moves are known here, the
    /// caller hands them to `expand`.
    Unconfirmed,
}

/// Why a search cannot go on.
#[derive(Debug, Clone, Copy, PartialEq, Eq)]
pub enum SearchError {
    /// No board is left to go on from, and no solved board was found: all
    /// that the strategy reaches has been seen.
    FrontierEmpty,
}

/// The strategy `choice` offers the move from rank `from` to rank `to` on
/// `board`.
pub open spec fn offers(choice: MoveChoice, board: BoardView, from: int, to: int) -> bool {
    match choice {
        MoveChoice::Valid => board.is_valid_move(from, to),
        MoveChoice::Good => board.is_good_move(from, to),
        MoveChoice::Unconfirmed => false,
    }
}

/// Some board of `found` shows the piles of `board`.
pub open spec fn holds(found: Seq<FoundView>, board: BoardView) -> bool {
    exists|i: int|
        0 <= i < found.len() && (#[trigger] found[i]).board.canonical() == board.canonical()
}

/// `found` holds the piles of every board that a move of the strategy
/// `choice` makes of the board at `i`.
pub open spec fn expanded(choice: MoveChoice, found: Seq<FoundView>, i: int) -> bool {
    forall|from: int, to: int| #[trigger]
        offers(choice, found[i].board, from, to) ==> holds(
            found,
            found[i].board.after_move(from, to),
        )
}

/// The moves of the strategy `choice` lead from no unsolved board of `found`
/// to piles that `found` does not hold.
pub open spec fn closed_under(choice: MoveChoice, found: Seq<FoundView>) -> bool {
    forall|i: int|
        0 <= i < found.len() ==> #[trigger] expanded(choice, found, i) || found[i].board.solved()
}

/// `more` is `found` with boards added behind.
pub open spec fn extends(more: Seq<FoundView>, found: Seq<FoundView>) -> bool {
    &&& found.len() <= more.len()
    &&& forall|j: int| 0 <= j < found.len() ==> #[trigger] more[j] == found[j]
}

/// The places from `lo` up to `hi`, in order.
pub open spec fn places(lo: int, hi: int) -> Seq<usize> {
    Seq::new((hi - lo) as nat, |j: int| (lo + j) as usize)
}

/// The places from `lo` up to `hi` of the boards of `found` that are not
/// solved, in order.
pub open spec fn unsolved_places(found: Seq<FoundView>, lo: int, hi: int) -> Seq<usize>
    decreases hi - lo,
{
    if hi <= lo {
        Seq::empty()
    } else if found[hi - 1].board.solved() {
        unsolved_places(found, lo, hi - 1)
    } else {
        unsolved_places(found, lo, hi - 1).push((hi - 1) as usize)
    }
}

/// Boards added behind `hi` do not change the unsolved places up to `hi`.
pub proof fn lemma_unsolved_places_kept(
    found: Seq<FoundView>,
    more: Seq<FoundView>,
    lo: int,
    hi: int,
)
    requires
        extends(more, found),
        0 <= lo,
        hi <= found.len(),
    ensures
        unsolved_places(more, lo, hi) == unsolved_places(found, lo, hi),
    decreases hi - lo,
{
    if hi > lo {
        assert(more[hi - 1] == found[hi - 1]);
        lemma_unsolved_places_kept(found, more, lo, hi - 1);
    }
}

/// The unsolved places up to `hi` are those up to `mid` and those from
/// `mid` on.
pub proof fn lemma_unsolved_places_split(found: Seq<FoundView>, lo: int, mid: int, hi: int)
    requires
        lo <= mid <= hi,
    ensures
        unsolved_places(found, lo, hi) == unsolved_places(found, lo, mid) + unsolved_places(
            found,
            mid,
            hi,
        ),
    decreases hi - mid,
{
    if hi > mid {
        lemma_unsolved_places_split(found, lo, mid, hi - 1);
        let a = unsolved_places(found, lo, mid);
        let b = unsolved_places(found, mid, hi - 1);
        assert((a + b).push((hi - 1) as usize) =~= a + b.push((hi - 1) as usize));
    } else {
        assert(unsolved_places(found, lo, mid) + Seq::<usize>::empty() =~= unsolved_places(
            found,
            lo,
            mid,
        ));
    }
}

/// Where none of the boards from `lo` up to `hi` is solved, the unsolved
/// places are all places.
pub proof fn lemma_unsolved_places_all(found: Seq<FoundView>, lo: int, hi: int)
    requires
        0 <= lo <= hi <= found.len(),
        hi <= usize::MAX,
        forall|i: int| lo <= i < hi ==> !(#[trigger] found[i]).board.solved(),
    ensures
        unsolved_places(found, lo, hi) == places(lo, hi),
    decreases hi - lo,
{
    if hi > lo {
        lemma_unsolved_places_all(found, lo, hi - 1);
        assert(places(lo, hi - 1).push((hi - 1) as usize) =~= places(lo, hi));
    } else {
        assert(places(lo, hi) =~= Seq::<usize>::empty());
    }
}

/// What a set of boards holds, it still holds when boards are added.
pub proof fn lemma_holds_kept(found: Seq<FoundView>, more: Seq<FoundView>, board: BoardView)
    requires
        extends(more, found),
        holds(found, board),
    ensures
        holds(more, board),
{
    let at = choose|at: int|
        0 <= at < found.len() && (#[trigger] found[at]).board.canonical() == board.canonical();
    assert(more[at] == found[at]);
}

/// A board that was expanded stays so when boards are added.
pub proof fn lemma_expanded_kept(
    choice: MoveChoice,
    found: Seq<FoundView>,
    more: Seq<FoundView>,
    i: int,
)
    requires
        extends(more, found),
        0 <= i < found.len(),
        expanded(choice, found, i),
    ensures
        expanded(choice, more, i),
{
    assert(more[i] == found[i]);
    assert forall|from: int, to: int| #[trigger]
        offers(choice, more[i].board, from, to) implies holds(
        more,
        more[i].board.after_move(from, to),
    ) by {
        lemma_holds_kept(found, more, found[i].board.after_move(from, to));
    }
}

/// The number of moves from the first board of `found` to the one at `i`.
pub open spec fn depth(found: Seq<FoundView>, i: int) -> nat {
    path_to(found, i).len()
}

/// A board lies no deeper than its place.
pub proof fn lemma_depth_bound(found: Seq<FoundView>, i: int)
    requires
        0 <= i,
    ensures
        depth(found, i) <= i,
    decreases i,
{
    if 0 < i < found.len() && 0 <= found[i].parent < i {
        lemma_depth_bound(found, found[i].parent);
    }
}

/// The path to a board stays what it is when boards are added behind it.
pub proof fn lemma_path_kept(found: Seq<FoundView>, more: Seq<FoundView>, i: int)
    requires
        extends(more, found),
        0 <= i < found.len(),
    ensures
        path_to(more, i) == path_to(found, i),
    decreases i,
{
    assert(more[i] == found[i]);
    if 0 < i && 0 <= found[i].parent < i {
        lemma_path_kept(found, more, found[i].parent);
    }
}

/// A breadth-first search.
pub struct BFS {
    strategy: MoveChoice,
    name: String,
    starting_board: Board,
    found_boards: BoardSet,
    next_boards: Vec<usize>,
    current_boards: Vec<usize>,
    step_counter: usize,
}

impl BFS {
    /// The strategy of the search.
    pub closed spec fn strategy(&self) -> MoveChoice {
        self.strategy
    }

    /// The board that the search started from.
    pub closed spec fn start(&self) -> BoardView {
        self.starting_board@
    }

    /// All boards found so far, in the order they were found.
    pub closed spec fn found(&self) -> Seq<FoundView> {
        self.found_boards@
    }

    /// The places, in `found`, of the boards that the next step goes on from.
    pub closed spec fn current(&self) -> Seq<usize> {
        self.current_boards@
    }

    /// The places, in `found`, of the boards for the step after the next.
    pub closed spec fn next(&self) -> Seq<usize> {
        self.next_boards@
    }

    /// The number of steps that went through.
    pub closed spec fn step_count(&self) -> nat {
        self.step_counter as nat
    }

    /// The `k`-th board to go on from.
    pub open spec fn frontier_board(&self, k: int) -> BoardView {
        self.found()[self.current()[k] as int].board
    }

    /// The boards to go on from lie as many moves from the start as steps
    /// went through, those gathered for later one move more.
    pub open spec fn frontiers_wf(&self) -> bool {
        &&& forall|k: int|
            0 <= k < self.current().len() ==> (#[trigger] self.current()[k]) < self.found().len()
                && depth(self.found(), self.current()[k] as int) == self.step_count()
        &&& forall|k: int|
            0 <= k < self.next().len() ==> (#[trigger] self.next()[k]) < self.found().len()
                && depth(self.found(), self.next()[k] as int) == self.step_count() + 1
    }

    /// Every board found is one to go on from, now or in the step after, or
    /// is solved, or all that the strategy makes of it has been found.
    pub open spec fn accounted(&self) -> bool {
        forall|i: int|
            0 <= i < self.found().len() ==> #[trigger] expanded(self.strategy(), self.found(), i)
                || self.found()[i].board.solved() || self.current().contains(i as usize)
                || self.next().contains(i as usize)
    }

    /// The invariant of a search.
    pub closed spec fn wf(&self) -> bool {
        &&& self.found_boards.wf()
        &&& self.starting_board.wf()
        &&& self.found_boards@[0].board == self.starting_board@
        &&& self.frontiers_wf()
        &&& self.current().len() > 0 ==> self.accounted()
        &&& self.name@ == "BFS"@
    }

    /// What the invariant says to the outside: the boards found form a tree
    /// under the start board, and the frontiers lie at their depths.
    pub proof fn lemma_wf(&self)
        requires
            self.wf(),
        ensures
            is_search_tree(self.found()),
            self.found()[0].board == self.start(),
            self.start().wf(),
            self.frontiers_wf(),
            self.current().len() > 0 ==> self.accounted(),
    {
    }

    /// A search from `board` with the strategy `strategy`, its boards hashed
    /// under the key of sixteen zero bytes.
    pub fn new(board: &Board, strategy: MoveChoice) -> (bfs: BFS)
        requires
            board.wf(),
        ensures
            bfs.wf(),
            bfs.strategy() == strategy,
            bfs.start() == board@,
            bfs.found().len() == 1,
            bfs.found()[0].board == board@,
            bfs.current() == seq![0usize],
            bfs.next().len() == 0,
            bfs.step_count() == 0,
    {
        BFS::with_key(board, strategy, [0u8; 16])
    }

    /// A search from `board` with the strategy `strategy`, its boards hashed
    /// under `key`.
    pub fn with_key(board: &Board, strategy: MoveChoice, key: [u8; 16]) -> (bfs: BFS)
        requires
            board.wf(),
        ensures
            bfs.wf(),
            bfs.strategy() == strategy,
            bfs.start() == board@,
            bfs.found().len() == 1,
            bfs.found()[0].board == board@,
            bfs.current() == seq![0usize],
            bfs.next().len() == 0,
            bfs.step_count() == 0,
    {
        let found_boards = BoardSet::new(board.clone(), key);
        let mut current_boards: Vec<usize> = Vec::new();
        current_boards.push(0);
        let bfs = BFS {
            strategy,
            name: "BFS".to_owned(),
            starting_board: board.clone(),
            found_boards,
            next_boards: Vec::new(),
            current_boards,
            step_counter: 0,
        };
        assert(bfs.current() =~= seq![0usize]);
        assert(bfs.current()[0] == 0);
        bfs
    }

    /// The name of this kind of search: `BFS`.
    pub fn name(&self) -> (name: &String)
        requires
            self.wf(),
        ensures
            name@ == "BFS"@,
    {
        &self.name
    }

    /// The number of steps that went through.
    pub fn steps(&self) -> (steps: usize)
        ensures
            steps == self.step_count(),
    {
        self.step_counter
    }

    /// The boards found so far.
    pub fn found_boards(&self) -> (found: &BoardSet)
        ensures
            found@ == self.found(),
            self.wf() ==> found.wf(),
    {
        &self.found_boards
    }

    /// Tries the move `move_command` on the `k`-th board to go on from. The
    /// board that comes of it is kept if it shows new piles, and gathered for
    /// the step after the next unless it is solved. Says whether it is solved.
    pub fn offer(&mut self, k: usize, move_command: Move) -> (solved: bool)
        requires
            old(self).wf(),
            k < old(self).current().len(),
            old(self).frontier_board(k as int).is_valid_move(
                move_command[0] as int,
                move_command[1] as int,
            ),
        ensures
            final(self).wf(),
            final(self).strategy() == old(self).strategy(),
            final(self).start() == old(self).start(),
            final(self).step_count() == old(self).step_count(),
            final(self).current() == old(self).current(),
            ({
                let child = old(self).frontier_board(k as int).after_move(
                    move_command[0] as int,
                    move_command[1] as int,
                );
                let kept = FoundView {
                    board: child,
                    parent: old(self).current()[k as int] as int,
                    via: move_command,
                };
                &&& solved == child.solved()
                &&& if holds(old(self).found(), child) {
                    &&& final(self).found() == old(self).found()
                    &&& final(self).next() == old(self).next()
                } else {
                    &&& final(self).found() == old(self).found().push(kept)
                    &&& final(self).next() == if solved {
                        old(self).next()
                    } else {
                        old(self).next().push(old(self).found().len() as usize)
                    }
                }
            }),
    {
        proof {
            self.found_boards.lemma_boards_wf();
        }
        let parent = self.current_boards[k];
        let mut newboard = self.found_boards.board(parent).clone();
        assert(newboard@ == old(self).frontier_board(k as int));
        newboard.perform_move(move_command);
        let solved = newboard.solved();
        match self.found_boards.find(&newboard) {
            Some(_) => {},
            None => {
                let ghost before = self.found_boards@;
                let place = self.found_boards.insert(newboard, parent, move_command);
                if !solved {
                    self.next_boards.push(place);
                }
                proof {
                    let found = self.found_boards@;
                    assert(path_to(found, place as int) == path_to(found, parent as int).push(
                        move_command,
                    ));
                    assert forall|j: int| 0 <= j < before.len() implies path_to(found, j)
                        == path_to(before, j) by {
                        lemma_path_kept(before, found, j);
                    }
                    assert forall|j: int| 0 <= j < self.current().len() implies (
                    #[trigger] self.current()[j]) < self.found().len() && depth(
                        self.found(),
                        self.current()[j] as int,
                    ) == self.step_count() by {
                        assert(old(self).current()[j] < before.len());
                    }
                    assert forall|j: int| 0 <= j < self.next().len() implies (
                    #[trigger] self.next()[j]) < self.found().len() && depth(
                        self.found(),
                        self.next()[j] as int,
                    ) == self.step_count() + 1 by {
                        if j < old(self).next().len() {
                            assert(old(self).next()[j] < before.len());
                        }
                    }
                    assert forall|i: int| 0 <= i < found.len() implies #[trigger] expanded(
                        self.strategy(),
                        found,
                        i,
                    ) || found[i].board.solved() || self.current().contains(i as usize)
                        || self.next().contains(i as usize) by {
                        if i < before.len() {
                            assert(found[i] == before[i]);
                            if expanded(old(self).strategy(), before, i) {
                                lemma_expanded_kept(self.strategy(), before, found, i);
                            } else if old(self).next().contains(i as usize) {
                                let j = choose|j: int|
                                    0 <= j < old(self).next().len() && old(self).next()[j]
                                        == i as usize;
                                assert(self.next()[j] == i as usize);
                            }
                        } else if !solved {
                            assert(self.next()[self.next().len() - 1] == place);
                        }
                    }
                }
            },
        }
        solved
    }

    /// The board made of `board` by the move `move_command`.
    pub open spec fn child(board: BoardView, move_command: Move) -> BoardView {
        board.after_move(move_command[0] as int, move_command[1] as int)
    }

    /// The move `move_command` may be performed on `board`.
    pub open spec fn may(board: BoardView, move_command: Move) -> bool {
        board.is_valid_move(move_command[0] as int, move_command[1] as int)
    }

    /// Each board of `more` behind the first `len` was reached from the board
    /// at `parent` by one of `moves`.
    pub open spec fn grown_by(
        more: Seq<FoundView>,
        len: int,
        parent: int,
        moves: Seq<Move>,
    ) -> bool {
        forall|i: int|
            len <= i < more.len() ==> (#[trigger] more[i]).parent == parent && lists_move(
                moves,
                more[i].via[0] as int,
                more[i].via[1] as int,
            )
    }

    /// Tries those of `moves` that may be performed on the `k`-th board to
    /// go on from, in order, up to the first that solves the board. Says
    /// whether one did.
    pub fn expand(&mut self, k: usize, moves: &Vec<Move>) -> (solved: bool)
        requires
            old(self).wf(),
            k < old(self).current().len(),
        ensures
            final(self).wf(),
            final(self).strategy() == old(self).strategy(),
            final(self).start() == old(self).start(),
            final(self).step_count() == old(self).step_count(),
            final(self).current() == old(self).current(),
            extends(final(self).found(), old(self).found()),
            BFS::grown_by(
                final(self).found(),
                old(self).found().len() as int,
                old(self).current()[k as int] as int,
                moves@,
            ),
            final(self).next() == old(self).next() + unsolved_places(
                final(self).found(),
                old(self).found().len() as int,
                final(self).found().len() as int,
            ),
            solved <==> exists|j: int|
                0 <= j < moves.len() && BFS::may(
                    old(self).frontier_board(k as int),
                    #[trigger] moves@[j],
                ) && BFS::child(old(self).frontier_board(k as int), moves@[j]).solved(),
            !solved ==> forall|j: int|
                0 <= j < moves.len() && BFS::may(
                    old(self).frontier_board(k as int),
                    #[trigger] moves@[j],
                ) ==> holds(
                    final(self).found(),
                    BFS::child(old(self).frontier_board(k as int), moves@[j]),
                ),
            solved ==> exists|i: int|
                0 <= i < final(self).found().len() && (
                #[trigger] final(self).found()[i]).board.solved(),
    {
        let ghost board = self.frontier_board(k as int);
        let ghost len = self.found().len() as int;
        let ghost parent = self.current()[k as int] as int;
        let mut j: usize = 0;
        assert(self.next() =~= old(self).next() + unsolved_places(self.found(), len, len));
        while j < moves.len()
            invariant
                self.wf(),
                j <= moves.len(),
                k < self.current().len(),
                self.strategy() == old(self).strategy(),
                self.start() == old(self).start(),
                self.step_count() == old(self).step_count(),
                self.current() == old(self).current(),
                extends(self.found(), old(self).found()),
                len == old(self).found().len(),
                parent == old(self).current()[k as int],
                parent < len,
                board == old(self).frontier_board(k as int),
                board == self.frontier_board(k as int),
                BFS::grown_by(self.found(), len, parent, moves@),
                self.next() == old(self).next() + unsolved_places(
                    self.found(),
                    len,
                    self.found().len() as int,
                ),
                forall|i: int|
                    0 <= i < j && BFS::may(board, #[trigger] moves@[i]) ==> holds(
                        self.found(),
                        BFS::child(board, moves@[i]),
                    ) && !BFS::child(board, moves@[i]).solved(),
            decreases moves.len() - j,
        {
            let m: Move = moves[j];
            proof {
                self.found_boards.lemma_boards_wf();
            }
            let tried = self.found_boards.board(self.current_boards[k]).can_move(m);
            if tried {
                let ghost before = self.found();
                let ghost gathered = self.next();
                let solved = self.offer(k, m);
                proof {
                    let found = self.found();
                    let child = BFS::child(board, m);
                    if holds(before, child) {
                    } else {
                        let at = before.len() as int;
                        assert(found[at].board == child);
                        assert(lists_move(moves@, m[0] as int, m[1] as int));
                        lemma_unsolved_places_kept(before, found, len, at);
                        assert(self.next() =~= old(self).next() + unsolved_places(
                            found,
                            len,
                            at + 1,
                        ));
                    }
                    assert(holds(found, child)) by {
                        if holds(before, child) {
                        } else {
                            assert(found[before.len() as int].board.canonical()
                                == child.canonical());
                        }
                    }
                    assert(extends(found, old(self).found()));
                    assert forall|i: int|
                        0 <= i < j && BFS::may(board, #[trigger] moves@[i]) implies holds(
                        found,
                        BFS::child(board, moves@[i]),
                    ) by {
                        lemma_holds_kept(before, found, BFS::child(board, moves@[i]));
                    }
                    if solved {
                        let c = BFS::child(board, m);
                        board.lemma_after_valid_move_wf(m[0] as int, m[1] as int);
                        let at = choose|at: int|
                            0 <= at < found.len() && (#[trigger] found[at]).board.canonical()
                                == c.canonical();
                        self.lemma_solved_by_piles(at, c);
                    }
                }
                if solved {
                    return true;
                }
            }
            j += 1;
        }
        false
    }

    /// A board that shows the piles of a solved board is solved.
    proof fn lemma_solved_by_piles(&self, at: int, board: BoardView)
        requires
            self.wf(),
            0 <= at < self.found().len(),
            board.wf(),
            board.solved(),
            self.found()[at].board.canonical() == board.canonical(),
        ensures
            self.found()[at].board.solved(),
    {
        self.found_boards.lemma_boards_wf();
        crate::model::lemma_solved_by_piles(board, self.found()[at].board);
    }

    /// The moves that the strategy of the search offers on `board`.
    pub fn get_selected_moveset(&self, board: &Board) -> (moves: Vec<Move>)
        requires
            board.wf(),
        ensures
            forall|f: int, t: int|
                offers(self.strategy(), board@, f, t) <==> #[trigger] lists_move(moves@, f, t),
            moves_distinct(moves@),
    {
        match self.strategy {
            MoveChoice::Valid => board.valid_moves_rel(),
            MoveChoice::Good => board.good_moves_rel(),
            MoveChoice::Unconfirmed => {
                let moves: Vec<Move> = Vec::new();
                assert forall|f: int, t: int| !#[trigger] lists_move(moves@, f, t) by {}
                moves
            },
        }
    }

    /// The move from rank `from` to rank `to`, which the strategy offers on
    /// the `k`-th board to go on from, solves that board.
    pub open spec fn step_solves(&self, k: int, from: int, to: int) -> bool {
        &&& 0 <= k < self.current().len()
        &&& offers(self.strategy(), self.frontier_board(k), from, to)
        &&& self.frontier_board(k).after_move(from, to).solved()
    }

    /// The next step finds a solved board.
    pub open spec fn finds_solution(&self) -> bool {
        exists|k: int, from: int, to: int| #[trigger] self.step_solves(k, from, to)
    }

    /// The board `entry` was reached in a step of this search: from one of
    /// the boards to go on from, by a move that the strategy offers on it.
    pub open spec fn reached_by_step(&self, entry: FoundView) -> bool {
        &&& exists|k: int|
            0 <= k < self.current().len() && #[trigger] self.current()[k] == entry.parent
        &&& offers(
            self.strategy(),
            self.found()[entry.parent].board,
            entry.via[0] as int,
            entry.via[1] as int,
        )
    }

    /// Up to the `k`-th board to go on from, `found` holds what every move
    /// that the strategy offers leads to, and none of it is solved.
    pub open spec fn expanded_up_to(&self, k: int, found: Seq<FoundView>) -> bool {
        forall|i: int, from: int, to: int|
            0 <= i < k && #[trigger] offers(self.strategy(), self.frontier_board(i), from, to) ==> {
                let child = self.frontier_board(i).after_move(from, to);
                holds(found, child) && !child.solved()
            }
    }

    /// One step of the search: every move that the strategy offers is tried
    /// on every board to go on from. At the first solved board the search
    /// stops, with nothing left to go on from, and says `true`. Else the
    /// boards that show new piles are what the next step goes on from, and the
    /// step says `false`; where there is no such board, or there was none to
    /// go on from, the search has failed and stays as it was.
    pub fn internal_step(&mut self) -> (stepped: Result<bool, SearchError>)
        requires
            old(self).wf(),
        ensures
            final(self).wf(),
            final(self).strategy() == old(self).strategy(),
            final(self).start() == old(self).start(),
            extends(final(self).found(), old(self).found()),
            forall|i: int|
                old(self).found().len() <= i < final(self).found().len() ==> old(
                    self,
                ).reached_by_step(#[trigger] final(self).found()[i]),
            stepped == Ok::<bool, SearchError>(true) <==> old(self).finds_solution(),
            match stepped {
                Ok(true) => {
                    &&& final(self).current().len() == 0
                    &&& final(self).next().len() == 0
                    &&& final(self).step_count() == old(self).step_count()
                    &&& exists|i: int|
                        0 <= i < final(self).found().len() && (
                        #[trigger] final(self).found()[i]).board.solved()
                },
                Ok(false) => {
                    &&& old(self).current().len() > 0
                    &&& final(self).current().len() > 0
                    &&& final(self).current() == old(self).next() + places(
                        old(self).found().len() as int,
                        final(self).found().len() as int,
                    )
                    &&& final(self).next().len() == 0
                    &&& final(self).step_count() == old(self).step_count() + 1
                    &&& old(self).expanded_up_to(
                        old(self).current().len() as int,
                        final(self).found(),
                    )
                },
                Err(_) => {
                    &&& old(self).current().len() == 0 || old(self).next().len() == 0
                    &&& old(self).current().len() > 0 ==> closed_under(
                        final(self).strategy(),
                        final(self).found(),
                    )
                    &&& final(self).found() == old(self).found()
                    &&& final(self).current() == old(self).current()
                    &&& final(self).next() == old(self).next()
                    &&& final(self).step_count() == old(self).step_count()
                    &&& old(self).expanded_up_to(
                        old(self).current().len() as int,
                        final(self).found(),
                    )
                },
            },
    {
        let n = self.current_boards.len();
        let ghost len = self.found().len() as int;
        let mut k: usize = 0;
        assert(self.next() =~= old(self).next() + unsolved_places(self.found(), len, len));
        while k < n
            invariant
                old(self).wf(),
                self.wf(),
                k <= n,
                n == self.current().len(),
                self.strategy() == old(self).strategy(),
                self.start() == old(self).start(),
                self.step_count() == old(self).step_count(),
                self.current() == old(self).current(),
                extends(self.found(), old(self).found()),
                len == old(self).found().len(),
                forall|i: int| 0 <= i < n ==> (#[trigger] old(self).current()[i]) < len,
                self.next() == old(self).next() + unsolved_places(
                    self.found(),
                    len,
                    self.found().len() as int,
                ),
                forall|i: int|
                    len <= i < self.found().len() ==> old(self).reached_by_step(
                        #[trigger] self.found()[i],
                    ),
                old(self).expanded_up_to(k as int, self.found()),
            decreases n - k,
        {
            proof {
                self.found_boards.lemma_boards_wf();
            }
            let ghost before = self.found();
            let ghost board = old(self).frontier_board(k as int);
            assert(board == self.frontier_board(k as int));
            let moves = self.get_selected_moveset(self.found_boards.board(self.current_boards[k]));
            let solved = self.expand(k, &moves);
            proof {
                let found = self.found();
                assert(extends(found, old(self).found()));
                lemma_unsolved_places_kept(before, found, len, before.len() as int);
                lemma_unsolved_places_split(found, len, before.len() as int, found.len() as int);
                let gathered = old(self).next();
                let a = unsolved_places(found, len, before.len() as int);
                let b = unsolved_places(found, before.len() as int, found.len() as int);
                assert((gathered + a) + b =~= gathered + (a + b));
                old(self).lemma_offered_is_valid(k as int);
                assert forall|i: int| len <= i < found.len() implies old(self).reached_by_step(
                    #[trigger] found[i],
                ) by {
                    if i < before.len() {
                        assert(found[i] == before[i]);
                    } else {
                        assert(old(self).current()[k as int] == found[i].parent);
                    }
                }
                if solved {
                    let j = choose|j: int|
                        0 <= j < moves.len() && BFS::may(board, #[trigger] moves@[j]) && BFS::child(
                            board,
                            moves@[j],
                        ).solved();
                    assert(lists_move(moves@, moves@[j][0] as int, moves@[j][1] as int));
                    let m = moves@[j];
                    assert(old(self).step_solves(k as int, m[0] as int, m[1] as int));
                } else {
                    assert forall|i: int, from: int, to: int|
                        0 <= i < k + 1 && #[trigger] offers(
                            old(self).strategy(),
                            old(self).frontier_board(i),
                            from,
                            to,
                        ) implies ({
                        let child = old(self).frontier_board(i).after_move(from, to);
                        holds(found, child) && !child.solved()
                    }) by {
                        let child = old(self).frontier_board(i).after_move(from, to);
                        if i < k {
                            lemma_holds_kept(before, found, child);
                        } else {
                            assert(lists_move(moves@, from, to));
                            let j = choose|j: int|
                                0 <= j < moves.len() && (#[trigger] moves@[j])[0] == from
                                    && moves@[j][1] == to;
                            assert(BFS::may(board, moves@[j]));
                            assert(BFS::child(board, moves@[j]) == child);
                        }
                    }
                }
            }
            if solved {
                self.current_boards.clear();
                self.next_boards.clear();
                return Ok(true);
            }
            k += 1;
        }
        proof {
            // no move leads to a solved board, so every new board is unsolved
            assert(!old(self).finds_solution()) by {
                if old(self).finds_solution() {
                    let (i, from, to) = choose|i: int, from: int, to: int| #[trigger]
                        old(self).step_solves(i, from, to);
                    assert(offers(old(self).strategy(), old(self).frontier_board(i), from, to));
                }
            }
            old(self).lemma_new_boards_unsolved(self.found());
            self.found_boards.lemma_boards_wf();
            lemma_unsolved_places_all(self.found(), len, self.found().len() as int);
            assert(self.next().len() == old(self).next().len() + (self.found().len() - len));
        }
        if n == 0 || self.next_boards.len() == 0 {
            assert(self.found() =~= old(self).found());
            assert(self.next() =~= old(self).next());
            proof {
                if n > 0 {
                    old(self).lemma_frontier_expanded(self.found());
                    let found = self.found();
                    assert forall|i: int| 0 <= i < found.len() implies #[trigger] expanded(
                        self.strategy(),
                        found,
                        i,
                    ) || found[i].board.solved() by {
                        if self.current().contains(i as usize) {
                            let k = choose|k: int|
                                0 <= k < self.current().len() && self.current()[k] == i as usize;
                            assert(old(self).current()[k] == i as usize);
                        }
                    }
                }
            }
            return Err(SearchError::FrontierEmpty);
        }
        proof {
            let j = self.next()[0] as int;
            lemma_depth_bound(self.found(), j);
            old(self).lemma_frontier_expanded(self.found());
        }
        let ghost stepped_from = self.current();
        let mut gathered: Vec<usize> = Vec::new();
        std::mem::swap(&mut self.next_boards, &mut gathered);
        self.current_boards = gathered;
        self.step_counter += 1;
        proof {
            let found = self.found();
            assert forall|i: int| 0 <= i < found.len() implies #[trigger] expanded(
                self.strategy(),
                found,
                i,
            ) || found[i].board.solved() || self.current().contains(i as usize)
                || self.next().contains(i as usize) by {
                if stepped_from.contains(i as usize) {
                    let k = choose|k: int|
                        0 <= k < stepped_from.len() && stepped_from[k] == i as usize;
                    assert(old(self).current()[k] == i as usize);
                }
            }
        }
        Ok(false)
    }

    /// Where `found` holds what the strategy makes of every board to go on
    /// from, each of these boards is expanded in `found`.
    proof fn lemma_frontier_expanded(&self, found: Seq<FoundView>)
        requires
            self.wf(),
            extends(found, self.found()),
            self.expanded_up_to(self.current().len() as int, found),
        ensures
            forall|k: int|
                0 <= k < self.current().len() ==> expanded(
                    self.strategy(),
                    found,
                    (#[trigger] self.current()[k]) as int,
                ),
    {
        assert forall|k: int| 0 <= k < self.current().len() implies expanded(
            self.strategy(),
            found,
            (#[trigger] self.current()[k]) as int,
        ) by {
            let i = self.current()[k] as int;
            assert(found[i] == self.found()[i]);
            assert forall|from: int, to: int| #[trigger]
                offers(self.strategy(), found[i].board, from, to) implies holds(
                found,
                found[i].board.after_move(from, to),
            ) by {
                assert(offers(self.strategy(), self.frontier_board(k), from, to));
            }
        }
    }

    /// The moves that the strategy offers on a board to go on from may be
    /// performed on it.
    proof fn lemma_offered_is_valid(&self, k: int)
        requires
            self.wf(),
            0 <= k < self.current().len(),
        ensures
            forall|from: int, to: int| #[trigger]
                offers(self.strategy(), self.frontier_board(k), from, to)
                    ==> self.frontier_board(k).is_valid_move(from, to),
    {
        self.found_boards.lemma_boards_wf();
        let board = self.frontier_board(k);
        assert forall|from: int, to: int| #[trigger]
            offers(self.strategy(), board, from, to) implies board.is_valid_move(from, to) by {
            if self.strategy() == MoveChoice::Good {
                board.lemma_good_move_is_valid(from, to);
            }
        }
    }

    /// Where no offered move leads to a solved board, no board that a step
    /// adds is solved.
    proof fn lemma_new_boards_unsolved(&self, found: Seq<FoundView>)
        requires
            self.wf(),
            is_search_tree(found),
            extends(found, self.found()),
            !self.finds_solution(),
            forall|i: int|
                self.found().len() <= i < found.len() ==> self.reached_by_step(#[trigger] found[i]),
        ensures
            forall|i: int|
                self.found().len() <= i < found.len() ==> !(#[trigger] found[i]).board.solved(),
    {
        reveal(is_search_tree);
        assert forall|i: int| self.found().len() <= i < found.len() implies !(
        #[trigger] found[i]).board.solved() by {
            let entry = found[i];
            let k = choose|k: int|
                0 <= k < self.current().len() && #[trigger] self.current()[k] == entry.parent;
            assert(found[entry.parent] == self.found()[entry.parent]);
            assert(!self.step_solves(k, entry.via[0] as int, entry.via[1] as int));
        }
    }

    /// The moves that lead from the start board to the first solved board
    /// that the search has found, after a replay from the start board has
    /// confirmed them; `None` where no solved board was found.
    pub fn get_full_solution(&self) -> (solution: Option<Solution>)
        requires
            self.wf(),
        ensures
            match solution {
                Some(moves) => solves(self.start(), moves@) && exists|i: int|
                    is_first_solved(self.found(), i) && moves@ == path_to(self.found(), i),
                None => forall|i: int|
                    0 <= i < self.found().len() ==> !(#[trigger] self.found()[i]).board.solved(),
            },
    {
        match get_solution(&self.found_boards) {
            Some(solution) => {
                if confirm_solution(&solution, &self.starting_board) {
                    Some(solution)
                } else {
                    None
                }
            },
            None => None,
        }
    }

    /// The number of boards to go on from.
    pub fn frontier_len(&self) -> (n: usize)
        ensures
            n == self.current().len(),
    {
        self.current_boards.len()
    }
}

} // verus!
