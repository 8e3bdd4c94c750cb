use prophet_tb::codes::{
    make_code, piece_code_ok, piece_color, piece_role, swapped_code, touching, BISHOP, EMPTY, KING, KNIGHT,
    MAX_PIECES, NO_SQUARE, PAWN, QUEEN, ROOK, SECOND,
};
use prophet_tb::kings::{kings_ok, KingTable};
use prophet_tb::symmetry::{inverse_transform, transform_square};

#[test]
fn piece_codes() {
    assert_eq!([EMPTY, PAWN, KNIGHT, BISHOP, ROOK, QUEEN, KING], [0, 1, 2, 3, 4, 5, 6]);
    assert_eq!(SECOND, 8);
    assert_eq!(NO_SQUARE, 64);
    assert_eq!(MAX_PIECES, 6);
    for c in 0..=255u8 {
        assert_eq!(piece_code_ok(c), matches!(c, 1..=6 | 9..=14));
    }
    assert_eq!(make_code(QUEEN, 0), 5);
    assert_eq!(make_code(QUEEN, 1), 13);
    assert_eq!(make_code(KING, 1), 14);
    assert_eq!(piece_role(13), QUEEN);
    assert_eq!(piece_role(1), PAWN);
    assert_eq!(piece_color(13), 1);
    assert_eq!(piece_color(6), 0);
    assert_eq!(swapped_code(0), 0);
    assert_eq!(swapped_code(5), 13);
    assert_eq!(swapped_code(14), 6);
}

#[test]
fn neighbouring_squares() {
    assert!(touching(0, 0));
    assert!(touching(0, 1));
    assert!(touching(0, 9));
    assert!(!touching(0, 2));
    assert!(!touching(7, 8));
    assert!(touching(27, 36));
    assert!(!touching(27, 43));
}

#[test]
fn board_symmetries() {
    // a1, h1, a8 and b1 under the eight symmetries.
    assert_eq!((0..8).map(|t| transform_square(t, 0)).collect::<Vec<u8>>(), vec![0, 7, 56, 63, 0, 7, 56, 63]);
    assert_eq!((0..8).map(|t| transform_square(t, 1)).collect::<Vec<u8>>(), vec![1, 6, 57, 62, 8, 15, 48, 55]);
    for t in 0..8 {
        for sq in 0..64 {
            assert_eq!(transform_square(inverse_transform(t), transform_square(t, sq)), sq);
        }
    }
    assert_eq!(inverse_transform(5), 6);
    assert_eq!(inverse_transform(6), 5);
    assert_eq!(inverse_transform(3), 3);
}

#[test]
fn king_pairs() {
    let plain = KingTable::new(false);
    let pawned = KingTable::new(true);
    assert_eq!(plain.total(), 462);
    assert_eq!(pawned.total(), 1806);
    // The first king in the triangle a1-d1-d4, the kings apart.
    assert!(kings_ok(false, 0, 2));
    assert!(!kings_ok(false, 0, 1));
    assert!(!kings_ok(false, 4, 20));
    assert!(!kings_ok(false, 8, 40));
    // On the diagonal, the second king must not stand above it.
    assert!(kings_ok(false, 9, 3));
    assert!(kings_ok(false, 9, 27));
    assert!(!kings_ok(false, 9, 24));
    // With pawns, the first king on the files a to d.
    assert!(kings_ok(true, 24, 40));
    assert!(kings_ok(true, 59, 0));
    assert!(!kings_ok(true, 4, 20));
    assert_eq!(plain.rank_of_pair(0, 2), 0);
    assert_eq!(plain.rank_of_pair(0, 3), 1);
    assert_eq!(plain.pair_of_rank(0), (0, 2));
    assert_eq!(plain.pair_of_rank(461), (27, 63));
    assert_eq!(pawned.pair_of_rank(0), (0, 2));
    for r in 0..462 {
        let (a, b) = plain.pair_of_rank(r);
        assert_eq!(plain.rank_of_pair(a, b), r);
    }
    for r in 0..1806 {
        let (a, b) = pawned.pair_of_rank(r);
        assert_eq!(pawned.rank_of_pair(a, b), r);
    }
}
