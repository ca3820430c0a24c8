use sorting::board::{Board, SetupError};
use std::hash::{Hash, Hasher};

#[test]
fn new_board() {
    {
        let input = [4, 3, 2, 1];
        let expected = [2, 1];

        let board: Board = Board::new(&input, 4);
        assert_eq!(board.piles[0], expected);
        assert!(board.solved());
    }
    {
        let input = [1, 2, 3, 4];
        let expected = [1, 2, 3, 4];
        let board: Board = Board::new(&input, 4);
        assert_eq!(board.piles[0], expected);
        assert!(!board.solved());
    }
    {
        let input = [8, 7, 6, 5, 1, 2, 3, 4];
        let expected = [6, 5, 1, 2, 3, 4];

        let board = Board::new(&input, 7);
        assert_eq!(board.piles[0], expected);
        assert!(!board.solved())
    }
}

#[test]
#[should_panic]
fn too_short() {
    Board::try_new(&[2, 1], 4).unwrap();
}

#[test]
#[should_panic]
fn contains_zero() {
    Board::try_new(&[3, 4, 0, 2, 1], 4).unwrap();
}

#[test]
#[should_panic]
fn contains_gap() {
    Board::try_new(&[1, 2, 3, 5], 4).unwrap();
}

#[test]
#[should_panic]
fn starts_at_wrong_index() {
    Board::try_new(&[2, 3, 4, 6, 5], 4).unwrap();
}

fn get_hash<T>(obj: &T) -> u64
where
    T: Hash,
{
    let mut hasher = fxhash::FxHasher::default();
    obj.hash(&mut hasher);
    hasher.finish()
}

#[test]
fn hash_test() {
    let mut board1 = Board::new(&vec![1, 2, 3, 4], 4);
    let mut board2 = Board::new(&vec![1, 2, 4, 3], 4);

    assert_ne!(get_hash(&board1.relative_piles()), get_hash(&board2.relative_piles()));

    board1.perform_move([0, 1]); //[4][1,2,3]
    board2.perform_move([0, 1]); //[3][1,2,4]

    assert_ne!(get_hash(&board1.relative_piles()), get_hash(&board2.relative_piles()));

    board1.perform_move([1, 2]); //[4][3][1,2]
    board2.perform_move([1, 2]); //[4][3][1,2]

    assert_eq!(get_hash(&board1.relative_piles()), get_hash(&board2.relative_piles()));
}

#[test]
fn display_test() {
    let mut board1 = Board::new(&vec![1, 2, 3, 4], 4);
    let mut board2 = Board::new(&vec![1, 2, 4, 3], 4);

    assert_ne!(board1.to_string(), board2.to_string());
    show_unequal(&board1, &board2);

    board1.perform_move([0, 1]); //[4][1,2,3]
    board2.perform_move([0, 1]); //[3][1,2,4]

    assert_ne!(board1.to_string(), board2.to_string());
    show_unequal(&board1, &board2);

    board1.perform_move([1, 2]); //[4][3][1,2]
    board2.perform_move([1, 2]); //[4][3][1,2]

    assert_eq!(board1.to_string(), board2.to_string());
    let board1 = board1.to_string();
    let board2 = board2.to_string();
    println!("{board1} == {board2} ");
}

fn show_unequal(board1: &Board, board2: &Board) {
    let board1 = board1.to_string();
    let board2 = board2.to_string();
    println!("{board1} != {board2} ");
}

#[test]
fn setup_errors_are_named() {
    assert_eq!(Board::check_setup(&[2, 1], 4), Err(SetupError::TooShort));
    assert_eq!(Board::check_setup(&[3, 2, 1], 2), Err(SetupError::TooFewPiles));
    assert_eq!(Board::check_setup(&[3, 4, 0, 2, 1], 4), Err(SetupError::ContainsZero));
    assert_eq!(Board::check_setup(&[1, 2, 3, 5], 4), Err(SetupError::Gap));
    assert_eq!(Board::check_setup(&[2, 3, 4, 6, 5], 4), Err(SetupError::WrongStart));
    assert_eq!(Board::check_setup(&[1, 2, 2, 3], 4), Err(SetupError::Gap));
    assert_eq!(Board::check_setup(&[1, 3, 2], 3), Ok(()));
    assert_eq!(Board::try_new(&[1, 2], 3).err(), Some(SetupError::TooShort));
    assert!(Board::try_new(&[1, 3, 2], 3).is_ok());
}

#[test]
fn same_canonical_state_from_two_starts() {
    let mut board1 = Board::new(&[1, 2, 3, 4], 4);
    let mut board2 = Board::new(&[1, 2, 4, 3], 4);
    assert!(!board1.equals(&board2));
    board1.perform_move([0, 1]);
    board2.perform_move([0, 1]);
    assert!(!board1.equals(&board2));
    board1.perform_move([1, 2]);
    board2.perform_move([1, 2]);
    assert!(board1.equals(&board2));
    assert_eq!(board1.to_string(), "(4)<[4][3][1 2]_>");
    assert_eq!(board2.to_string(), "(4)<[4][3][1 2]_>");
    assert_eq!(board1.relative_piles(), vec![vec![4], vec![3], vec![1, 2], vec![]]);
    let key = [7u8; 16];
    assert_eq!(board1.keyed_hash(&key), board2.keyed_hash(&key));
    // the piles lie in other slots
    assert_ne!(board1.piles, board2.piles);
}

#[test]
fn keyed_hash_is_siphash_of_the_canonical_bytes() {
    let board = Board::new(&[1, 2, 3, 4], 4);
    assert_eq!(board.canonical_bytes(), vec![1, 2, 3, 4, 0, 0, 0, 0]);
    let zero = [0u8; 16];
    let other = [1u8; 16];
    let expected = siphasher::sip::SipHasher::new_with_key(&zero).hash(&[1, 2, 3, 4, 0, 0, 0, 0]);
    assert_eq!(board.keyed_hash(&zero), expected);
    assert_ne!(board.keyed_hash(&zero), board.keyed_hash(&other));
    let mut moved = Board::new(&[1, 2, 3, 4], 4);
    moved.perform_move([0, 1]);
    assert_eq!(moved.canonical_bytes(), vec![4, 0, 1, 2, 3, 0, 0, 0]);
    assert_ne!(moved.keyed_hash(&zero), board.keyed_hash(&zero));
}

#[test]
fn render_of_fresh_and_collapsed_boards() {
    assert_eq!(Board::new(&[1, 2, 3, 4], 4).to_string(), "(4)<[1 2 3 4]___>");
    assert_eq!(Board::new(&[4, 3, 2, 1], 4).to_string(), "(2)<[2 1]___>");
    assert_eq!(
        Board::new(&[8, 7, 6, 5, 1, 2, 3, 4], 7).to_string(),
        "(6)<[6 5 1 2 3 4]______>"
    );
    let twelve = [12, 1, 2, 3, 4, 5, 6, 7, 8, 9, 10, 11];
    assert_eq!(
        Board::new(&twelve, 3).to_string(),
        "(12)<[12 1 2 3 4 5 6 7 8 9 10 11]__>"
    );
}

#[test]
fn collapse_counts() {
    let solved = Board::new(&[4, 3, 2, 1], 4);
    assert_eq!(solved.nbr_cards, 2);
    assert_eq!(solved.active_cards(), 2);
    let plain = Board::new(&[1, 2, 3, 4], 4);
    assert_eq!(plain.nbr_cards, 4);
    let partly = Board::new(&[8, 7, 6, 5, 1, 2, 3, 4], 7);
    assert_eq!(partly.nbr_cards, 6);
    assert_eq!(partly.piles.len(), 7);
    // the highest card is not at the bottom: nothing is stripped
    let upside = Board::new(&[3, 2, 1, 4], 3);
    assert_eq!(upside.piles[0], [3, 2, 1, 4]);
    assert_eq!(upside.nbr_cards, 4);
    // the run stops where the cards stop falling by one
    let short_run = Board::new(&[5, 4, 1, 3, 2], 3);
    assert_eq!(short_run.piles[0], [5, 4, 1, 3, 2]);
}

#[test]
fn valid_moves_are_the_cross_product() {
    let board = Board::new(&[1, 2, 3, 4], 4);
    assert_eq!(board.valid_moves_rel(), vec![[0, 0], [0, 1]]);
    let mut board = Board::new(&[1, 2, 3, 4], 4);
    board.perform_move([0, 1]);
    let mut moves = board.valid_moves_rel();
    moves.sort();
    assert_eq!(moves, vec![[0, 0], [0, 1], [0, 2], [1, 0], [1, 1], [1, 2]]);
    assert!(board.can_move([1, 2]));
    assert!(!board.can_move([1, 3]));
    assert!(!board.can_move([2, 0]));
    assert!(!board.can_move([4, 0]));
    assert!(!board.can_move([0, 4]));
}

#[test]
fn valid_moves_without_an_empty_pile() {
    let mut board = Board::new(&[1, 2, 3], 3);
    board.perform_move([0, 1]); // [3][1 2]_
    board.perform_move([1, 2]); // [3][2][1]
    assert_eq!(board.to_string(), "(3)<[3][2][1]>");
    let mut moves = board.valid_moves_rel();
    moves.sort();
    assert_eq!(
        moves,
        vec![[0, 0], [0, 1], [0, 2], [1, 0], [1, 1], [1, 2], [2, 0], [2, 1], [2, 2]]
    );
}

#[test]
fn good_moves_start_a_solution_pile() {
    // the highest card lies on top and a pile is empty: one move only
    let board = Board::new(&[1, 2, 3, 4], 4);
    assert_eq!(board.good_moves_rel(), vec![[0, 1]]);
}

#[test]
fn good_moves_extend_the_solution_pile() {
    let mut board = Board::new(&[1, 2, 3, 4], 4);
    board.perform_move([0, 1]); // [4][1 2 3]__ with a solution pile
    assert_eq!(board.good_moves_rel(), vec![[1, 0]]);
    board.perform_move([1, 0]); // [4 3][1 2]__
    assert_eq!(board.to_string(), "(4)<[4 3][1 2]__>");
    assert_eq!(board.good_moves_rel(), vec![[1, 0]]);
    board.perform_move([1, 0]); // the 4 is retired: [3 2][1]__
    assert_eq!(board.to_string(), "(3)<[3 2][1]__>");
    assert_eq!(board.nbr_cards, 3);
    assert_eq!(board.good_moves_rel(), vec![[1, 0]]);
    board.perform_move([1, 0]);
    assert_eq!(board.to_string(), "(2)<[2 1]___>");
    assert!(board.solved());
    assert_eq!(board.good_moves_rel(), Vec::<[usize; 2]>::new());
}

#[test]
fn good_moves_filter_the_valid_moves() {
    let mut board = Board::new(&[2, 1, 4, 3], 4);
    board.perform_move([0, 1]); // [3][2 1 4]__ : no solution pile, 4 on top
    assert_eq!(board.to_string(), "(4)<[3][2 1 4]__>");
    // starting a solution pile is forced
    assert_eq!(board.good_moves_rel(), vec![[1, 2]]);
    board.perform_move([1, 2]); // [4][3][2 1]_ with a solution pile
    assert_eq!(board.to_string(), "(4)<[4][3][2 1]_>");
    // the 3 lies on top: forced
    assert_eq!(board.good_moves_rel(), vec![[1, 0]]);
    let mut other = Board::new(&[1, 4, 2, 3], 4);
    other.perform_move([0, 1]); // [3][1 4 2]__
    assert_eq!(other.to_string(), "(4)<[3][1 4 2]__>");
    // no move is forced: not from the pile just filled, not onto itself,
    // not onto the pile of the highest card
    let mut moves = other.good_moves_rel();
    moves.sort();
    assert_eq!(moves, vec![[1, 0], [1, 2]]);
}

#[test]
fn good_moves_hold_no_identity_and_free_ones_do_not_undo() {
    let mut board = Board::new(&[3, 1, 4, 2, 5], 4);
    let script = [[0usize, 1usize], [1, 2], [0, 1]];
    for m in script {
        assert!(board.can_move(m));
        board.perform_move(m);
        for g in board.good_moves_rel() {
            assert_ne!(g[0], g[1]);
            assert!(board.can_move(g));
        }
    }
}

#[test]
fn piles_are_ranked_by_bottom_card_after_moves() {
    let mut board = Board::new(&[2, 5, 3, 4, 6, 1, 7], 4);
    let mut turn = 0;
    while turn < 40 {
        let moves = board.valid_moves_rel();
        let m = moves[(turn * 7 + 3) % moves.len()];
        board.perform_move(m);
        let piles = board.relative_piles();
        let mut r = 1;
        while r < piles.len() {
            if !piles[r].is_empty() {
                assert!(!piles[r - 1].is_empty());
                assert!(piles[r - 1][0] > piles[r][0]);
            }
            r += 1;
        }
        turn += 1;
    }
}

#[test]
fn forced_good_move_may_take_back_the_last_move() {
    let mut board = Board::new(&[4, 1, 2, 3], 3);
    board.perform_move([0, 1]);
    board.perform_move([0, 2]);
    board.perform_move([0, 1]);
    assert_eq!(board.to_string(), "(4)<[4][3 1][2]>");
    // no pile is empty and no solution pile stands: the highest card may go
    let mut moves = board.good_moves_rel();
    moves.sort();
    assert_eq!(moves, vec![[0, 1], [0, 2], [2, 1]]);
    board.perform_move([0, 2]);
    assert_eq!(board.to_string(), "(4)<[3 1][2 4]_>");
    // now a pile is empty: starting a solution pile is forced, back to
    // where the highest card came from
    assert_eq!(board.good_moves_rel(), vec![[1, 2]]);
    board.perform_move([1, 2]);
    assert_eq!(board.to_string(), "(4)<[4][3 1][2]>");
}

#[test]
fn a_move_keeps_the_piles_and_retires_at_most_one_card() {
    let mut board = Board::new(&[2, 1, 4, 3], 4);
    let script = [[0usize, 1usize], [1, 2], [1, 0], [1, 2], [1, 0], [1, 0]];
    let mut cards = board.nbr_cards;
    for m in script {
        assert!(board.can_move(m));
        board.perform_move(m);
        assert_eq!(board.piles.len(), 4);
        assert!(board.nbr_cards == cards || board.nbr_cards + 1 == cards);
        cards = board.nbr_cards;
        let mut held: Vec<u8> = board.piles.concat();
        held.sort();
        let expected: Vec<u8> = (1..=cards as u8).collect();
        assert_eq!(held, expected);
    }
    assert!(board.solved());
    assert_eq!(cards, 2);
}
