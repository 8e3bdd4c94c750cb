use prophet_tb::movegen::Move;
use prophet_tb::position::Position;

fn pos(pieces: &[i32], squares: &[i32], stm: i32, ep: i32) -> Position {
    Position::from_slots(pieces, squares, stm, ep).unwrap()
}

#[test]
fn lone_king_in_the_corner_has_three_moves() {
    let p = pos(&[6, 14], &[0, 63], 0, 64);
    let moves = p.legal_moves();
    assert_eq!(moves.len(), 3);
    assert!(moves.contains(&Move { from: 0, to: 1, promo: 0 }));
    assert!(moves.contains(&Move { from: 0, to: 8, promo: 0 }));
    assert!(moves.contains(&Move { from: 0, to: 9, promo: 0 }));
}

#[test]
fn kings_keep_their_distance() {
    // Kings on e1 and e3: the squares d2, e2, f2 are barred.
    let p = pos(&[6, 14], &[4, 20], 0, 64);
    let moves = p.legal_moves();
    assert_eq!(moves.len(), 2);
    assert!(moves.contains(&Move { from: 4, to: 3, promo: 0 }));
    assert!(moves.contains(&Move { from: 4, to: 5, promo: 0 }));
}

#[test]
fn queen_moves_stop_at_pieces() {
    // King e1, queen e2, king e8; the first color to move.
    let p = pos(&[6, 5, 14], &[4, 12, 60], 0, 64);
    let moves = p.legal_moves();
    let queen = moves.iter().filter(|m| m.from == 12).count();
    let king = moves.iter().filter(|m| m.from == 4).count();
    // e-file upwards 5 (e8 holds the king and is barred), rank 7, diagonals 9.
    assert_eq!(queen, 5 + 7 + 4 + 5);
    assert_eq!(king, 4);
    assert!(!moves.contains(&Move { from: 12, to: 60, promo: 0 }));
    assert!(!moves.contains(&Move { from: 12, to: 4, promo: 0 }));
}

#[test]
fn checkmate_and_stalemate_have_no_moves() {
    let mate = pos(&[6, 5, 14], &[45, 54, 63], 1, 64);
    assert!(mate.legal_moves().is_empty());
    assert!(mate.checked(1, 63));
    let stale = pos(&[6, 5, 14], &[0, 46, 63], 1, 64);
    assert!(stale.legal_moves().is_empty());
    assert!(!stale.checked(1, 63));
}

#[test]
fn a_pinned_piece_stays_on_the_line() {
    // King e1, rook e2 pinned by the rook e8; king h8.
    let p = pos(&[6, 4, 12, 14], &[4, 12, 60, 63], 0, 64);
    let moves = p.legal_moves();
    let rook: Vec<&Move> = moves.iter().filter(|m| m.from == 12).collect();
    assert_eq!(rook.len(), 6);
    assert!(rook.iter().all(|m| m.to % 8 == 4));
}

#[test]
fn pawn_steps_captures_and_promotion() {
    // Pawn e2 with a knight to take on d3.
    let p = pos(&[6, 1, 10, 14], &[0, 12, 19, 63], 0, 64);
    let moves = p.legal_moves();
    let pawn: Vec<&Move> = moves.iter().filter(|m| m.from == 12).collect();
    assert_eq!(pawn.len(), 3);
    let q = p.play(Move { from: 12, to: 28, promo: 0 });
    assert_eq!(q.ep, 20);
    assert_eq!(q.stm, 1);
    assert_eq!(q.board[28], 1);
    assert_eq!(q.board[12], 0);
    assert!(q.is_valid());
    // Pawn e7 promotes four ways.
    let p = pos(&[6, 1, 14], &[0, 52, 15], 0, 64);
    let moves = p.legal_moves();
    let pawn: Vec<&Move> = moves.iter().filter(|m| m.from == 52).collect();
    assert_eq!(pawn.len(), 4);
    let q = p.play(Move { from: 52, to: 60, promo: 5 });
    assert_eq!(q.board[60], 5);
    assert_eq!(q.board[52], 0);
    // The second color's pawn promotes on the first rank.
    let p = pos(&[6, 9, 14], &[63, 9, 40], 1, 64);
    let q = p.play(Move { from: 9, to: 1, promo: 2 });
    assert_eq!(q.board[1], 10);
}

#[test]
fn en_passant_takes_the_pawn_behind_the_square() {
    // The second color's pawn has just gone e7-e5 beside the pawn on d5.
    let p = pos(&[6, 1, 9, 14], &[4, 35, 36, 60], 0, 44);
    let moves = p.legal_moves();
    assert!(moves.contains(&Move { from: 35, to: 44, promo: 0 }));
    let q = p.play(Move { from: 35, to: 44, promo: 0 });
    assert_eq!(q.board[44], 1);
    assert_eq!(q.board[36], 0);
    assert_eq!(q.board[35], 0);
    assert_eq!(q.ep, 64);
    // Without the en-passant square the capture is no move.
    let p = pos(&[6, 1, 9, 14], &[4, 35, 36, 60], 0, 64);
    assert!(!p.legal_moves().contains(&Move { from: 35, to: 44, promo: 0 }));
}

#[test]
fn knight_moves() {
    let p = pos(&[6, 2, 14], &[0, 27, 63], 0, 64);
    let moves = p.legal_moves();
    assert_eq!(moves.iter().filter(|m| m.from == 27).count(), 8);
    let p = pos(&[6, 2, 14], &[2, 7, 63], 0, 64);
    let moves = p.legal_moves();
    assert_eq!(moves.iter().filter(|m| m.from == 7).count(), 2);
}

#[test]
fn successors_are_the_positions_after_the_moves() {
    let p = pos(&[6, 5, 14], &[4, 12, 60], 1, 64);
    let moves = p.legal_moves();
    let next = p.successors();
    // The king is in check on the e-file and may not stay on it.
    assert_eq!(moves.len(), 4);
    assert_eq!(next.len(), 4);
    assert!(moves.iter().all(|m| m.from == 60 && m.to % 8 != 4));
    for (m, q) in moves.iter().zip(next.iter()) {
        assert_eq!(p.play(*m), *q);
        assert!(q.is_valid());
        assert_eq!(q.stm, 0);
    }
    let mut seen = moves.clone();
    seen.dedup();
    assert_eq!(seen.len(), moves.len());
}
