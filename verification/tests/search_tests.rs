use sorting::board::Board;
use sorting::program::{MoveChoice, Program, SearchError, BFS};
use sorting::validator::{confirm_solution, Replay};

fn run(bfs: &mut BFS, limit: usize) -> Result<bool, SearchError> {
    let mut steps = 0;
    while steps < limit {
        match bfs.internal_step() {
            Ok(true) => return Ok(true),
            Ok(false) => {}
            Err(e) => return Err(e),
        }
        steps += 1;
    }
    Ok(false)
}

#[test]
fn valid_search_solves_four_cards() {
    let board = Board::new(&[1, 2, 3, 4], 4);
    let mut bfs = BFS::new(&board, MoveChoice::Valid);
    assert_eq!(run(&mut bfs, 50), Ok(true));
    let solution = bfs.get_full_solution().expect("a solution");
    assert!(confirm_solution(&solution, &board));
    assert_eq!(solution.len(), 4);
    let mut replayed = board.clone();
    for m in &solution {
        replayed.perform_move(*m);
    }
    assert!(replayed.solved());
}

#[test]
fn good_search_solves_four_cards() {
    let board = Board::new(&[1, 2, 3, 4], 4);
    let mut bfs = BFS::new(&board, MoveChoice::Good);
    assert_eq!(run(&mut bfs, 50), Ok(true));
    let solution = bfs.get_full_solution().expect("a solution");
    assert_eq!(solution, vec![[0, 1], [1, 0], [1, 0], [1, 0]]);
    assert!(confirm_solution(&solution, &board));
}

#[test]
fn no_solution_before_the_search_ran() {
    let board = Board::new(&[1, 2, 3, 4], 4);
    let bfs = BFS::new(&board, MoveChoice::Valid);
    assert_eq!(bfs.get_full_solution(), None);
    assert_eq!(bfs.steps(), 0);
    assert_eq!(bfs.frontier_len(), 1);
}

#[test]
fn solved_start_has_the_empty_solution() {
    let board = Board::new(&[4, 3, 2, 1], 4);
    let bfs = BFS::new(&board, MoveChoice::Valid);
    assert_eq!(bfs.get_full_solution(), Some(vec![]));
}

#[test]
fn unconfirmed_strategy_offers_nothing() {
    let board = Board::new(&[1, 2, 3, 4], 4);
    let mut bfs = BFS::new(&board, MoveChoice::Unconfirmed);
    assert_eq!(bfs.internal_step(), Err(SearchError::FrontierEmpty));
    assert_eq!(bfs.steps(), 0);
}

#[test]
fn confirm_rejects_wrong_and_invalid_moves() {
    let board = Board::new(&[1, 2, 3, 4], 4);
    assert!(!confirm_solution(&vec![], &board));
    assert!(!confirm_solution(&vec![[0, 1]], &board));
    assert!(!confirm_solution(&vec![[1, 0]], &board));
    assert!(!confirm_solution(&vec![[0, 1], [1, 0], [1, 0], [1, 0], [3, 0]], &board));
    assert!(confirm_solution(&vec![[0, 1], [1, 0], [1, 0], [1, 0]], &board));
}

#[test]
fn valid_search_can_miss_a_solution_behind_piles_seen_before() {
    // the highest card starts at the bottom with no solution pile: the
    // boards on the way to the goal show piles that were seen earlier with
    // other bookkeeping, and the search does not go on from them
    let board = Board::new(&[4, 1, 2, 3], 3);
    let by_hand = vec![
        [0, 1],
        [0, 2],
        [0, 1],
        [0, 2],
        [1, 2],
        [1, 2],
        [1, 0],
        [1, 2],
        [1, 0],
        [1, 0],
    ];
    assert!(confirm_solution(&by_hand, &board));
    let mut bfs = BFS::new(&board, MoveChoice::Valid);
    assert_eq!(run(&mut bfs, 200), Err(SearchError::FrontierEmpty));
    assert_eq!(bfs.steps(), 7);
    assert_eq!(bfs.found_boards().len(), 72);
    assert_eq!(bfs.get_full_solution(), None);
}

#[test]
fn valid_search_solves_seven_cards() {
    let board = Board::new(&[2, 5, 3, 4, 6, 1, 7], 4);
    let mut bfs = BFS::new(&board, MoveChoice::Valid);
    assert_eq!(run(&mut bfs, 1000), Ok(true));
    assert_eq!(bfs.steps(), 9);
    assert_eq!(bfs.frontier_len(), 0);
    let solution = bfs.get_full_solution().expect("a solution");
    assert_eq!(solution.len(), 10);
    assert!(confirm_solution(&solution, &board));
    // the solved board is the last one found
    let found = bfs.found_boards();
    assert!(found.board(found.len() - 1).solved());
    assert_eq!(found.board(found.len() - 1).to_string(), "(2)<[2 1]___>");
}

#[test]
fn search_is_the_same_under_another_key() {
    let board = Board::new(&[2, 5, 3, 4, 6, 1, 7], 4);
    let mut plain = BFS::new(&board, MoveChoice::Valid);
    let mut keyed = BFS::with_key(&board, MoveChoice::Valid, [9u8; 16]);
    assert_eq!(run(&mut plain, 1000), Ok(true));
    assert_eq!(run(&mut keyed, 1000), Ok(true));
    assert_eq!(plain.found_boards().len(), keyed.found_boards().len());
    assert_eq!(plain.get_full_solution(), keyed.get_full_solution());
}

#[test]
fn steps_gather_the_new_boards() {
    let board = Board::new(&[1, 2, 3], 3);
    let mut bfs = BFS::new(&board, MoveChoice::Valid);
    // [1 2 3]__ : the card may stay or go to the first empty pile
    assert_eq!(bfs.internal_step(), Ok(false));
    assert_eq!(bfs.steps(), 1);
    assert_eq!(bfs.found_boards().len(), 2);
    assert_eq!(bfs.frontier_len(), 1);
    assert_eq!(bfs.found_boards().board(1).to_string(), "(3)<[3][1 2]_>");
    assert_eq!(bfs.found_boards().parent(1), 0);
    assert_eq!(bfs.found_boards().via(1), [0, 1]);
    assert_eq!(bfs.found_boards().find(&board), Some(0));
    let mut other = Board::new(&[1, 3, 2], 3);
    assert_eq!(bfs.found_boards().find(&other), None);
    other.perform_move([0, 1]);
    assert_eq!(bfs.found_boards().find(&other), None);
}

#[test]
fn offer_and_expand_by_hand() {
    let board = Board::new(&[1, 2, 3], 3);
    let mut bfs = BFS::new(&board, MoveChoice::Unconfirmed);
    // the move onto itself leads to piles that are held already
    assert!(!bfs.offer(0, [0, 0]));
    assert_eq!(bfs.found_boards().len(), 1);
    // moves that may not be performed are passed over
    assert!(!bfs.expand(0, &vec![[1, 0], [0, 2], [5, 5], [0, 1]]));
    assert_eq!(bfs.found_boards().len(), 2);
    assert_eq!(bfs.found_boards().via(1), [0, 1]);
    assert_eq!(bfs.internal_step(), Ok(false));
    assert_eq!(bfs.frontier_len(), 1);
    assert_eq!(bfs.steps(), 1);
}

#[test]
fn replay_runs_a_script_to_its_end() {
    let board = Board::new(&[1, 2, 3, 4], 4);
    let script = vec![[0, 1], [1, 0], [1, 0], [1, 0]];
    let mut program = Replay::new(&board, script.clone());
    assert!(!program.done());
    assert_eq!(program.starting_state().to_string(), "(4)<[1 2 3 4]___>");
    assert_eq!(program.step(), Some([0, 1]));
    assert_eq!(program.progress(), &vec![[0, 1]]);
    assert_eq!(program.run(), vec![[1, 0], [1, 0], [1, 0]]);
    assert!(program.done());
    assert!(program.completed());
    assert_eq!(program.progress(), &script);
    assert!(program.board().solved());
}

#[test]
fn replay_stops_at_a_move_that_may_not_be_performed() {
    let board = Board::new(&[1, 2, 3, 4], 4);
    let mut program = Replay::new(&board, vec![[0, 1], [2, 0], [1, 0]]);
    assert_eq!(program.run(), vec![[0, 1]]);
    assert!(program.done());
    assert!(!program.completed());
    assert_eq!(program.board().to_string(), "(4)<[4][1 2 3]__>");
    let mut empty = Replay::new(&board, vec![]);
    assert!(empty.done());
    assert_eq!(empty.run(), Vec::<[usize; 2]>::new());
    assert!(empty.completed());
}
