//! The set of boards that a search has found. Boards count as the same
//! where they show the same piles in canonical order. Each board but the
//! first is kept with the board it was reached from and the move that led
//! to it, so that the way to any board can be read off.

use crate::board::Board;
use crate::hashing::board_hash;
use crate::model::BoardView;
use crate::validator::{can_replay, replay};
use crate::Move;
use std::collections::HashMap;
use vstd::prelude::*;

verus! {

broadcast use vstd::std_specs::hash::group_hash_axioms;

/// A found board as plain values.
pub struct FoundView {
    /// The board.
    pub board: BoardView,
    /// The place, in the set, of the board that it was reached from.
    pub parent: int,
    /// The move, by rank, that led to it from there.
    pub via: Move,
}

/// The boards in the order they were found form a tree under the first:
/// each later board is what a valid move makes of an earlier one, and no two
/// show the same piles.
#[verifier::opaque]
pub open spec fn is_search_tree(found: Seq<FoundView>) -> bool {
    &&& found.len() > 0
    &&& forall|i: int| 0 <= i < found.len() ==> (#[trigger] found[i]).board.wf()
    &&& forall|i: int|
        1 <= i < found.len() ==> {
            let entry = #[trigger] found[i];
            let parent = found[entry.parent].board;
            &&& 0 <= entry.parent < i
            &&& parent.is_valid_move(entry.via[0] as int, entry.via[1] as int)
            &&& entry.board == parent.after_move(entry.via[0] as int, entry.via[1] as int)
        }
    &&& forall|i: int, j: int|
        0 <= i < j < found.len() ==> (#[trigger] found[i]).board.canonical() != (
        #[trigger] found[j]).board.canonical()
}

/// The moves that lead from the first board of `found` to the one at `i`.
pub open spec fn path_to(found: Seq<FoundView>, i: int) -> Seq<Move>
    decreases i,
{
    if 0 < i < found.len() && 0 <= found[i].parent < i {
        path_to(found, found[i].parent).push(found[i].via)
    } else {
        Seq::empty()
    }
}

/// The path to a board of a search tree can be replayed from the first
/// board, and leads to that board.
pub proof fn lemma_path_replays(found: Seq<FoundView>, i: int)
    requires
        is_search_tree(found),
        0 <= i < found.len(),
    ensures
        can_replay(found[0].board, path_to(found, i)),
        replay(found[0].board, path_to(found, i)) == found[i].board,
    decreases i,
{
    reveal(is_search_tree);
    if i > 0 {
        let entry = found[i];
        lemma_path_replays(found, entry.parent);
        let path = path_to(found, i);
        assert(path.drop_last() =~= path_to(found, entry.parent));
        assert(path.last() == entry.via);
    }
}

/// A board with the place of the board it was reached from and the move
/// that led to it.
struct Found {
    board: Board,
    parent: usize,
    via: Move,
}

/// A set of boards, keyed by their canonical form.
pub struct BoardSet {
    entries: Vec<Found>,
    index: HashMap<u64, Vec<usize>>,
    key: [u8; 16],
}

impl View for BoardSet {
    type V = Seq<FoundView>;

    closed spec fn view(&self) -> Seq<FoundView> {
        Seq::new(
            self.entries.len() as nat,
            |i: int|
                FoundView {
                    board: self.entries@[i].board@,
                    parent: self.entries@[i].parent as int,
                    via: self.entries@[i].via,
                },
        )
    }
}

impl BoardSet {
    /// The key under which the boards are hashed.
    pub closed spec fn hash_key(&self) -> Seq<u8> {
        self.key@
    }

    /// The places of the boards that are filed under `digest`.
    pub closed spec fn bucket(&self, digest: u64) -> Seq<usize> {
        if self.index@.contains_key(digest) {
            self.index@[digest]@
        } else {
            Seq::empty()
        }
    }

    /// Every board is filed under its hash, and nothing else is filed.
    pub open spec fn index_wf(&self) -> bool {
        &&& forall|digest: u64, k: int|
            0 <= k < self.bucket(digest).len() ==> #[trigger] self.bucket(digest)[k] < self@.len()
        &&& forall|i: int|
            0 <= i < self@.len() ==> self.bucket(
                board_hash((#[trigger] self@[i]).board, self.hash_key()),
            ).contains(i as usize)
    }

    /// The invariant of the set.
    pub open spec fn wf(&self) -> bool {
        &&& is_search_tree(self@)
        &&& self.index_wf()
    }

    /// Every board of the set meets the invariant of boards, and every board
    /// but the first was reached from an earlier one by a valid move.
    pub proof fn lemma_boards_wf(&self)
        requires
            self.wf(),
        ensures
            0 < self@.len() <= usize::MAX,
            forall|i: int| 0 <= i < self@.len() ==> (#[trigger] self@[i]).board.wf(),
            forall|i: int| 1 <= i < self@.len() ==> 0 <= (#[trigger] self@[i]).parent < i,
    {
        reveal(is_search_tree);
    }

    /// The set of the one board `start`, hashed under `key`.
    pub fn new(start: Board, key: [u8; 16]) -> (set: BoardSet)
        requires
            start.wf(),
        ensures
            set.wf(),
            set@.len() == 1,
            set@[0].board == start@,
            set.hash_key() == key@,
    {
        let digest = start.keyed_hash(&key);
        let mut entries: Vec<Found> = Vec::new();
        entries.push(Found { board: start, parent: 0, via: [0, 0] });
        let mut bucket: Vec<usize> = Vec::new();
        bucket.push(0);
        let mut index: HashMap<u64, Vec<usize>> = HashMap::new();
        index.insert(digest, bucket);
        let set = BoardSet { entries, index, key };
        proof {
            reveal(is_search_tree);
            assert(set.bucket(digest)[0] == 0);
            assert forall|d: u64, k: int|
                0 <= k < set.bucket(d).len() implies #[trigger] set.bucket(d)[k] < set@.len() by {
                assert(d == digest);
            }
        }
        set
    }

    /// The number of boards.
    pub fn len(&self) -> (n: usize)
        ensures
            n == self@.len(),
    {
        self.entries.len()
    }

    /// The board at place `i`.
    pub fn board(&self, i: usize) -> (board: &Board)
        requires
            i < self@.len(),
        ensures
            board@ == self@[i as int].board,
    {
        &self.entries[i].board
    }

    /// The place of the board that the board at place `i` was reached from.
    pub fn parent(&self, i: usize) -> (parent: usize)
        requires
            i < self@.len(),
        ensures
            parent == self@[i as int].parent,
    {
        self.entries[i].parent
    }

    /// The move that led to the board at place `i`.
    pub fn via(&self, i: usize) -> (move_command: Move)
        requires
            i < self@.len(),
        ensures
            move_command == self@[i as int].via,
    {
        self.entries[i].via
    }

    /// Looks among the boards filed under `digest` for one that shows the
    /// piles of `board`, and gives its place.
    pub fn find_hashed(&self, board: &Board, digest: u64) -> (place: Option<usize>)
        requires
            self.wf(),
            board.wf(),
        ensures
            match place {
                Some(i) => i < self@.len() && self.bucket(digest).contains(i)
                    && self@[i as int].board.canonical() == board@.canonical(),
                None => forall|k: int|
                    0 <= k < self.bucket(digest).len() ==> self@[(#[trigger] self.bucket(
                        digest,
                    )[k]) as int].board.canonical() != board@.canonical(),
            },
    {
        proof {
            self.lemma_boards_wf();
        }
        match self.index.get(&digest) {
            Some(bucket) => {
                assert(bucket@ == self.bucket(digest));
                let mut k: usize = 0;
                while k < bucket.len()
                    invariant
                        self.index_wf(),
                        forall|i: int| 0 <= i < self@.len() ==> (#[trigger] self@[i]).board.wf(),
                        board.wf(),
                        k <= bucket.len(),
                        bucket@ == self.bucket(digest),
                        forall|j: int|
                            0 <= j < k ==> self@[(#[trigger] bucket@[j]) as int].board.canonical()
                                != board@.canonical(),
                    decreases bucket.len() - k,
                {
                    let i = bucket[k];
                    assert(self.bucket(digest)[k as int] == i);
                    if self.entries[i].board.equals(board) {
                        return Some(i);
                    }
                    k += 1;
                }
                None
            },
            None => None,
        }
    }

    /// The place of the board that shows the piles of `board`, if the set
    /// holds one.
    pub fn find(&self, board: &Board) -> (place: Option<usize>)
        requires
            self.wf(),
            board.wf(),
        ensures
            match place {
                Some(i) => i < self@.len() && self@[i as int].board.canonical()
                    == board@.canonical(),
                None => forall|i: int|
                    0 <= i < self@.len() ==> (#[trigger] self@[i]).board.canonical()
                        != board@.canonical(),
            },
    {
        let digest = board.keyed_hash(&self.key);
        let place = self.find_hashed(board, digest);
        proof {
            if place is None {
                assert forall|i: int| 0 <= i < self@.len() implies (
                #[trigger] self@[i]).board.canonical() != board@.canonical() by {
                    if self@[i].board.canonical() == board@.canonical() {
                        let bucket = self.bucket(digest);
                        assert(bucket.contains(i as usize));
                        let k = choose|k: int| 0 <= k < bucket.len() && bucket[k] == i as usize;
                        assert(self@[bucket[k] as int].board.canonical() != board@.canonical());
                    }
                }
            }
        }
        place
    }

    /// Adds `board`, reached from the board at `parent` by the move `move_command`,
    /// and gives its place: the last.
    pub fn insert(&mut self, board: Board, parent: usize, move_command: Move) -> (place: usize)
        requires
            old(self).wf(),
            board.wf(),
            parent < old(self)@.len(),
            old(self)@[parent as int].board.is_valid_move(
                move_command[0] as int,
                move_command[1] as int,
            ),
            board@ == old(self)@[parent as int].board.after_move(
                move_command[0] as int,
                move_command[1] as int,
            ),
            forall|i: int|
                0 <= i < old(self)@.len() ==> (#[trigger] old(self)@[i]).board.canonical()
                    != board@.canonical(),
        ensures
            final(self).wf(),
            final(self)@ == old(self)@.push(
                FoundView { board: board@, parent: parent as int, via: move_command },
            ),
            place == old(self)@.len(),
            final(self).hash_key() == old(self).hash_key(),
    {
        let digest = board.keyed_hash(&self.key);
        let place = self.entries.len();
        let ghost added = FoundView { board: board@, parent: parent as int, via: move_command };
        self.entries.push(Found { board, parent, via: move_command });
        assert(self@ =~= old(self)@.push(added));
        let mut bucket = match self.index.remove(&digest) {
            Some(bucket) => bucket,
            None => Vec::new(),
        };
        assert(bucket@ == old(self).bucket(digest));
        bucket.push(place);
        self.index.insert(digest, bucket);
        proof {
            reveal(is_search_tree);
            assert(self.bucket(digest) =~= old(self).bucket(digest).push(place));
            assert forall|d: u64| d != digest implies #[trigger] self.bucket(d) == old(self).bucket(
                d,
            ) by {}
            assert forall|d: u64, k: int| 0 <= k < self.bucket(d).len() implies (
            #[trigger] self.bucket(d)[k]) < self@.len() by {
                if d == digest {
                    if k < old(self).bucket(d).len() {
                        assert(old(self).bucket(d)[k] < old(self)@.len());
                    }
                } else {
                    assert(old(self).bucket(d)[k] < old(self)@.len());
                }
            }
            assert forall|i: int| 0 <= i < self@.len() implies self.bucket(
                board_hash((#[trigger] self@[i]).board, self.hash_key()),
            ).contains(i as usize) by {
                let d = board_hash(self@[i].board, self.hash_key());
                if i < place {
                    assert(self@[i] == old(self)@[i]);
                    let before = old(self).bucket(d);
                    assert(before.contains(i as usize));
                    let k = choose|k: int| 0 <= k < before.len() && before[k] == i as usize;
                    assert(self.bucket(d)[k] == i as usize);
                } else {
                    assert(self.bucket(d)[self.bucket(d).len() - 1] == place);
                }
            }
            assert forall|i: int| 0 <= i < self@.len() implies (#[trigger] self@[i]).board.wf() by {
                if i < place {
                    assert(self@[i] == old(self)@[i]);
                }
            }
            assert forall|i: int| 1 <= i < self@.len() implies ({
                let entry = #[trigger] self@[i];
                let from = self@[entry.parent].board;
                &&& 0 <= entry.parent < i
                &&& from.is_valid_move(entry.via[0] as int, entry.via[1] as int)
                &&& entry.board == from.after_move(entry.via[0] as int, entry.via[1] as int)
            }) by {
                if i < place {
                    assert(self@[i] == old(self)@[i]);
                    assert(self@[old(self)@[i].parent] == old(self)@[old(self)@[i].parent]);
                } else {
                    assert(self@[parent as int] == old(self)@[parent as int]);
                }
            }
            assert forall|i: int, j: int| 0 <= i < j < self@.len() implies (
            #[trigger] self@[i]).board.canonical() != (#[trigger] self@[j]).board.canonical() by {
                assert(self@[i] == old(self)@[i]);
                if j < place {
                    assert(self@[j] == old(self)@[j]);
                }
            }
        }
        place
    }
}

} // verus!
