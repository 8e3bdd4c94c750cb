use prophet_tb::movegen::Move;
use prophet_tb::position::Position;

fn pos(pieces: &[i32], squares: &[i32], stm: i32, ep: i32) -> Position {
    Position::from_slots(pieces, squares, stm, ep).unwrap()
}

#[test]
fn every_predecessor_leads_here() {
    let p = pos(&[6, 5, 14], &[4, 12, 60], 1, 64);
    let preds = p.predecessors();
    assert!(!preds.is_empty());
    for (q, m) in &preds {
        assert!(q.is_valid());
        assert_eq!(q.stm, 0);
        assert!(q.legal_moves().contains(m));
        assert_eq!(q.play(*m), p);
    }
    // The queen may have come from e7, the king from d1.
    assert!(preds.iter().any(|(_, m)| *m == Move { from: 52, to: 12, promo: 0 }));
    assert!(preds.iter().any(|(_, m)| *m == Move { from: 3, to: 4, promo: 0 }));
    // It cannot have come from e8, where the other king stands.
    assert!(!preds.iter().any(|(_, m)| m.from == 60));
}

#[test]
fn every_move_is_found_again_from_where_it_leads() {
    let q = pos(&[6, 4, 10, 14], &[4, 12, 52, 63], 0, 64);
    for m in q.legal_moves() {
        let p = q.play(m);
        let preds = p.predecessors();
        assert!(preds.iter().any(|(b, x)| *b == q && *x == m));
    }
}

#[test]
fn a_taken_piece_comes_back() {
    // King and rook against king: the rook on e7 may have taken a piece
    // there.
    let p = pos(&[6, 4, 14], &[4, 52, 63], 1, 64);
    let preds = p.predecessors();
    let with_four = preds.iter().filter(|(q, _)| q.board.iter().filter(|c| **c != 0).count() == 4).count();
    let with_three = preds.iter().filter(|(q, _)| q.board.iter().filter(|c| **c != 0).count() == 3).count();
    assert!(with_four > 0);
    assert!(with_three > 0);
    // The rook took a knight on e7, coming from e2.
    let before = pos(&[6, 4, 10, 14], &[4, 12, 52, 63], 0, 64);
    assert!(preds.iter().any(|(q, m)| *q == before && *m == Move { from: 12, to: 52, promo: 0 }));
    // No piece of the mover's own color comes back.
    assert!(preds.iter().all(|(q, m)| q.board[m.to as usize] == 0 || q.board[m.to as usize] >= 9));
}

#[test]
fn a_promoted_piece_turns_back_into_a_pawn() {
    // A queen on e8 may be a pawn promoted there.
    let p = pos(&[6, 5, 14], &[4, 60, 15], 1, 64);
    let preds = p.predecessors();
    let before = pos(&[6, 1, 14], &[4, 52, 15], 0, 64);
    assert!(preds.iter().any(|(q, m)| *q == before && *m == Move { from: 52, to: 60, promo: 5 }));
    // Promoting with a capture from d7.
    let before = pos(&[6, 1, 12, 14], &[4, 51, 60, 15], 0, 64);
    assert!(preds.iter().any(|(q, m)| *q == before && *m == Move { from: 51, to: 60, promo: 5 }));
}

#[test]
fn an_en_passant_capture_is_taken_back() {
    let before = pos(&[6, 1, 9, 14], &[4, 35, 36, 60], 0, 44);
    let m = Move { from: 35, to: 44, promo: 0 };
    let p = before.play(m);
    let preds = p.predecessors();
    assert!(preds.iter().any(|(q, x)| *q == before && *x == m));
}

#[test]
fn a_double_step_is_taken_back() {
    let before = pos(&[6, 1, 14], &[4, 12, 60], 0, 64);
    let m = Move { from: 12, to: 28, promo: 0 };
    let p = before.play(m);
    assert_eq!(p.ep, 20);
    let preds = p.predecessors();
    assert_eq!(preds.iter().filter(|(_, x)| *x == m).count(), 1);
    assert!(preds.iter().any(|(q, x)| *q == before && *x == m));
    // With the en-passant square set, only the double step leads here.
    assert!(preds.iter().all(|(_, x)| *x == m));
}
