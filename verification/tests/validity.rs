use prophet_tb::position::{is_valid_position, Position};

#[test]
fn accepts_minimal_position() {
    // Two bare kings, far apart.
    assert!(is_valid_position(&[6, 14, 0, 0, 0, 0], &[4, 60, 0, 0, 0, 0], 0, 64));
    assert!(is_valid_position(&[6, 14], &[0, 63], 1, 64));
}

#[test]
fn accepts_king_and_queen_against_king() {
    assert!(is_valid_position(&[6, 5, 14, 0, 0, 0], &[4, 12, 60, 0, 0, 0], 1, 64));
}

#[test]
fn rejects_duplicate_squares() {
    assert!(!is_valid_position(&[6, 5, 14, 0, 0, 0], &[4, 4, 60, 0, 0, 0], 1, 64));
    assert!(!is_valid_position(&[6, 5, 14, 2, 0, 0], &[4, 12, 60, 12, 0, 0], 0, 64));
}

#[test]
fn unused_slots_may_share_a_square() {
    assert!(is_valid_position(&[6, 0, 14, 0, 0, 0], &[4, 4, 60, 4, 4, 4], 0, 64));
}

#[test]
fn rejects_missing_king() {
    assert!(!is_valid_position(&[6, 5, 0, 0, 0, 0], &[4, 12, 0, 0, 0, 0], 0, 64));
    assert!(!is_valid_position(&[5, 14, 0, 0, 0, 0], &[12, 60, 0, 0, 0, 0], 0, 64));
    assert!(!is_valid_position(&[0, 0, 0, 0, 0, 0], &[0, 0, 0, 0, 0, 0], 0, 64));
}

#[test]
fn rejects_two_kings_of_one_side() {
    assert!(!is_valid_position(&[6, 6, 14, 0, 0, 0], &[4, 20, 60, 0, 0, 0], 0, 64));
    assert!(!is_valid_position(&[6, 14, 14, 0, 0, 0], &[4, 40, 60, 0, 0, 0], 0, 64));
}

#[test]
fn rejects_adjacent_kings() {
    assert!(!is_valid_position(&[6, 14, 0, 0, 0, 0], &[4, 5, 0, 0, 0, 0], 0, 64));
    assert!(!is_valid_position(&[6, 14, 0, 0, 0, 0], &[4, 13, 0, 0, 0, 0], 1, 64));
    assert!(!is_valid_position(&[6, 14, 0, 0, 0, 0], &[27, 36, 0, 0, 0, 0], 1, 64));
    // Files a and h are not neighbours.
    assert!(is_valid_position(&[6, 14, 0, 0, 0, 0], &[7, 8, 0, 0, 0, 0], 1, 64));
}

#[test]
fn rejects_codes_outside_the_alphabet() {
    assert!(!is_valid_position(&[6, 7, 14, 0, 0, 0], &[4, 12, 60, 0, 0, 0], 0, 64));
    assert!(!is_valid_position(&[6, 8, 14, 0, 0, 0], &[4, 12, 60, 0, 0, 0], 0, 64));
    assert!(!is_valid_position(&[6, 15, 14, 0, 0, 0], &[4, 12, 60, 0, 0, 0], 0, 64));
    assert!(!is_valid_position(&[6, -1, 14, 0, 0, 0], &[4, 12, 60, 0, 0, 0], 0, 64));
}

#[test]
fn rejects_squares_off_the_board() {
    assert!(!is_valid_position(&[6, 5, 14, 0, 0, 0], &[4, 64, 60, 0, 0, 0], 0, 64));
    assert!(!is_valid_position(&[6, 5, 14, 0, 0, 0], &[4, -3, 60, 0, 0, 0], 0, 64));
}

#[test]
fn rejects_bad_side_to_move() {
    assert!(!is_valid_position(&[6, 14, 0, 0, 0, 0], &[4, 60, 0, 0, 0, 0], 2, 64));
    assert!(!is_valid_position(&[6, 14, 0, 0, 0, 0], &[4, 60, 0, 0, 0, 0], -1, 64));
}

#[test]
fn rejects_more_than_six_slots_and_unequal_lengths() {
    assert!(!is_valid_position(&[6, 14, 0, 0, 0, 0, 0], &[4, 60, 0, 0, 0, 0, 0], 0, 64));
    assert!(!is_valid_position(&[6, 14, 0], &[4, 60], 0, 64));
    assert!(is_valid_position(&[6, 14, 1, 2, 3, 4], &[4, 60, 8, 9, 10, 11], 0, 64));
}

#[test]
fn en_passant_needs_a_double_stepped_pawn() {
    // The second color's pawn has just gone e7-e5; the first color is to move.
    assert!(is_valid_position(&[6, 14, 1, 9, 0, 0], &[4, 60, 35, 36, 0, 0], 0, 44));
    // Wrong side to move.
    assert!(!is_valid_position(&[6, 14, 1, 9, 0, 0], &[4, 60, 35, 36, 0, 0], 1, 44));
    // Wrong rank.
    assert!(!is_valid_position(&[6, 14, 1, 9, 0, 0], &[4, 60, 35, 36, 0, 0], 0, 28));
    // No pawn in front of the square.
    assert!(!is_valid_position(&[6, 14, 1, 9, 0, 0], &[4, 60, 35, 36, 0, 0], 0, 45));
    // The square itself is occupied.
    assert!(!is_valid_position(&[6, 14, 2, 9, 0, 0], &[4, 60, 44, 36, 0, 0], 0, 44));
    // The pawn's origin is occupied.
    assert!(!is_valid_position(&[6, 14, 2, 9, 0, 0], &[4, 60, 52, 36, 0, 0], 0, 44));
    // The first color's pawn has just gone d2-d4; the second color is to move.
    assert!(is_valid_position(&[6, 14, 1, 9, 0, 0], &[4, 60, 27, 28, 0, 0], 1, 19));
    assert!(!is_valid_position(&[6, 14, 1, 9, 0, 0], &[4, 60, 27, 28, 0, 0], 1, 65));
}

#[test]
fn from_slots_fills_the_board() {
    let p = Position::from_slots(&[6, 5, 14, 0, 0, 0], &[4, 12, 60, 0, 0, 0], 1, 64).unwrap();
    assert_eq!(p.board[4], 6);
    assert_eq!(p.board[12], 5);
    assert_eq!(p.board[60], 14);
    assert_eq!(p.board.iter().filter(|c| **c != 0).count(), 3);
    assert_eq!(p.stm, 1);
    assert_eq!(p.ep, 64);
    assert!(Position::from_slots(&[6, 5, 14, 0, 0, 0], &[4, 12, 5, 0, 0, 0], 1, 64).is_none());
}
