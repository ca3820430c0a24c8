use sorting::board::Board;
use sorting::board_set::BoardSet;
use sorting::vector_util::{contains_card, contains_zero, correct_sequence, has_duplicate};

#[test]
fn zero_is_found_wherever_it_stands() {
    assert!(contains_zero(&vec![0, 1, 2]));
    assert!(contains_zero(&vec![3, 4, 0, 2, 1]));
    assert!(contains_zero(&vec![1, 2, 0]));
    assert!(!contains_zero(&vec![1, 2, 3]));
    assert!(!contains_zero(&vec![]));
    assert!(contains_card(&vec![5, 7], 7));
    assert!(!contains_card(&vec![5, 7], 6));
}

#[test]
fn duplicates_are_found() {
    assert!(!has_duplicate(&vec![]));
    assert!(!has_duplicate(&vec![9]));
    assert!(!has_duplicate(&vec![3, 1, 2]));
    assert!(has_duplicate(&vec![3, 1, 3]));
    assert!(has_duplicate(&vec![1, 1]));
}

#[test]
fn dense_sequences_are_told_from_others() {
    assert!(correct_sequence(&vec![]));
    assert!(correct_sequence(&vec![1]));
    assert!(correct_sequence(&vec![2, 5, 3, 4, 6, 1, 7]));
    assert!(!correct_sequence(&vec![1, 2, 3, 5]));
    assert!(!correct_sequence(&vec![2, 3, 4, 6, 5]));
    assert!(!correct_sequence(&vec![1, 2, 2]));
    assert!(!correct_sequence(&vec![0, 1, 2]));
    let all: Vec<u8> = (1..=255).rev().collect();
    assert!(correct_sequence(&all));
}

#[test]
fn board_set_finds_boards_by_their_piles() {
    let start = Board::new(&[1, 2, 3, 4], 4);
    let key = [3u8; 16];
    let mut set = BoardSet::new(start.clone(), key);
    assert_eq!(set.len(), 1);
    assert_eq!(set.find(&start), Some(0));
    assert_eq!(set.find_hashed(&start, start.keyed_hash(&key)), Some(0));
    // under another digest nothing is filed
    assert_eq!(set.find_hashed(&start, start.keyed_hash(&key).wrapping_add(1)), None);

    let mut child = start.clone();
    child.perform_move([0, 1]);
    assert_eq!(set.find(&child), None);
    assert_eq!(set.insert(child.clone(), 0, [0, 1]), 1);
    assert_eq!(set.len(), 2);
    assert_eq!(set.find(&child), Some(1));
    assert_eq!(set.parent(1), 0);
    assert_eq!(set.via(1), [0, 1]);
    assert_eq!(set.board(1).to_string(), "(4)<[4][1 2 3]__>");

    // the same piles reached another way are found at the same place
    let mut other = Board::new(&[1, 2, 3, 4], 4);
    other.perform_move([0, 1]);
    other.perform_move([0, 0]);
    assert_eq!(set.find(&other), Some(1));
}
