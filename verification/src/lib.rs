//! A solver for a card-pile sorting puzzle: boards with canonical pile
//! order, move generation, and a breadth-first search over boards.

use vstd::prelude::*;

pub mod board;
pub mod board_set;
pub mod canonical;
pub mod hashing;
pub mod model;
pub mod move_list;
pub mod program;
pub mod ranking;
pub mod render;
pub mod validator;
pub mod vector_util;

verus! {

/// A move takes the top card of the pile `[0]` onto the pile `[1]`.
pub type Move = [usize; 2];

} // verus!
