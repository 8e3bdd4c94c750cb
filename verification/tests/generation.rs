use prophet_tb::graph::GenError;
use prophet_tb::material::MaterialSignature;
use prophet_tb::position::Position;
use prophet_tb::registry::TableRegistry;
use prophet_tb::store::DecompressionContext;

fn sig(counts: [u8; 10]) -> MaterialSignature {
    MaterialSignature { counts }
}

fn with_kings_only() -> TableRegistry {
    let mut reg = TableRegistry::new();
    let kk = reg.generate(&sig([0; 10])).unwrap();
    assert_eq!(reg.register(kk), Ok(1));
    reg
}

#[test]
fn bare_kings_are_always_drawn() {
    let reg = with_kings_only();
    assert_eq!(reg.probe(&[6, 14, 0, 0, 0, 0], &[4, 60, 0, 0, 0, 0], 0, 64), 1000);
    assert_eq!(reg.probe(&[6, 14, 0, 0, 0, 0], &[4, 60, 0, 0, 0, 0], 1, 64), 1000);
    assert_eq!(reg.probe(&[14, 6], &[0, 18], 1, 64), 1000);
}

#[test]
fn a_table_needs_the_tables_it_captures_into() {
    let reg = TableRegistry::new();
    assert_eq!(reg.generate(&sig([1, 0, 0, 0, 0, 0, 0, 0, 0, 0])).err(), Some(GenError::MissingTable));
}

#[test]
fn a_signature_of_more_than_six_pieces_is_refused() {
    let reg = TableRegistry::new();
    assert_eq!(reg.generate(&sig([3, 0, 0, 0, 0, 2, 0, 0, 0, 0])).err(), Some(GenError::Signature));
    assert_eq!(reg.generate(&sig([1, 1, 1, 1, 1, 0, 0, 0, 0, 0])).err(), Some(GenError::Signature));
    assert_eq!(reg.generate(&sig([0, 0, 0, 0, 0, 0, 0, 0, 0, 7])).err(), Some(GenError::Signature));
}

#[test]
fn a_table_too_large_to_solve_is_refused() {
    let reg = TableRegistry::new();
    // Four different pieces: 462 * 62 * 61 * 60 * 59 * 2 indices.
    assert_eq!(reg.generate(&sig([1, 1, 1, 1, 0, 0, 0, 0, 0, 0])).err(), Some(GenError::TooLarge));
}

#[test]
fn king_and_queen_against_king() {
    let mut reg = with_kings_only();
    // Before the table is registered the position is unknown.
    assert_eq!(reg.probe(&[6, 5, 14, 0, 0, 0], &[4, 12, 60, 0, 0, 0], 1, 64), -1001);
    let kqk = reg.generate(&sig([1, 0, 0, 0, 0, 0, 0, 0, 0, 0])).unwrap();
    assert_eq!(kqk.len, 462 * 62 * 2);
    assert_eq!(reg.register(kqk), Ok(2));
    // King e1, queen e2 against king e8, the second color to move: the first
    // color mates, sixteen plies from here.
    let pieces = [6, 5, 14, 0, 0, 0];
    let squares = [4, 12, 60, 0, 0, 0];
    assert_eq!(reg.probe(&pieces, &squares, 1, 64), 16);
    let mut ctx = DecompressionContext::new();
    assert_eq!(reg.probe_with_context(&pieces, &squares, 1, 64, &mut ctx), 16);
    assert_eq!(reg.probe_with_context(&pieces, &squares, 1, 64, &mut ctx), 16);
    // The same position with the colors exchanged: the second color mates.
    assert_eq!(reg.probe(&[14, 13, 6], &[60, 52, 4], 0, 64), -16);
    // Mate on the spot: king h8, queen g7 protected by the king on f6.
    assert_eq!(reg.probe(&[6, 5, 14], &[45, 54, 63], 1, 64), 0);
    // Stalemate: king h8, queen on g6, king far away.
    assert_eq!(reg.probe(&[6, 5, 14], &[0, 46, 63], 1, 64), 1000);
    // Mate in one: king b6, queen h1, king a8; the queen goes to h8.
    assert_eq!(reg.probe(&[6, 5, 14], &[41, 7, 56], 0, 64), 1);
    // After a waiting move of the second color it is mate in one again.
    assert_eq!(reg.probe(&[6, 5, 14], &[42, 11, 56], 0, 64), 3);
    // The queen can be taken: a draw.
    assert_eq!(reg.probe(&[6, 5, 14], &[0, 62, 63], 1, 64), 1000);
}

#[test]
fn probe_is_blind_to_board_symmetry() {
    let mut reg = with_kings_only();
    let kqk = reg.generate(&sig([1, 0, 0, 0, 0, 0, 0, 0, 0, 0])).unwrap();
    assert_eq!(reg.register(kqk), Ok(2));
    let p = Position::from_slots(&[6, 5, 14], &[10, 29, 55], 0, 64).unwrap();
    let mut ctx = DecompressionContext::new();
    let d = reg.probe_position(&p, &mut ctx);
    for t in 0..8u8 {
        assert_eq!(reg.probe_position(&p.transformed(t), &mut ctx), d);
    }
    assert_eq!(reg.probe_position(&p.mirrored(), &mut ctx), d.flip());
}

#[test]
fn generation_is_deterministic() {
    let reg = with_kings_only();
    let s = sig([0, 1, 0, 0, 0, 0, 0, 0, 0, 0]);
    let a = reg.generate(&s).unwrap();
    let b = reg.generate(&s).unwrap();
    assert_eq!(a.blocks, b.blocks);
    assert_eq!(a.len, b.len);
}
