use prophet_tb::chess::{EndgameSetup, ProbeError};
use prophet_tb::dtm::Dtm;
use prophet_tb::material::MaterialSignature;
use prophet_tb::registry::TableRegistry;
use prophet_tb::store::DecompressionContext;
use shakmaty::{Color, EnPassantMode, Position, Role, Square};

fn kqk_setup() -> EndgameSetup {
    EndgameSetup { pieces: [6, 5, 14, 0, 0, 0], squares: [4, 12, 60, 0, 0, 0], stm: 1, ep: 64 }
}

fn registry_with_queen_table() -> TableRegistry {
    let mut reg = TableRegistry::new();
    let kk = reg.generate(&MaterialSignature { counts: [0; 10] }).unwrap();
    assert_eq!(reg.register(kk), Ok(1));
    let kqk = reg.generate(&MaterialSignature { counts: [1, 0, 0, 0, 0, 0, 0, 0, 0, 0] }).unwrap();
    assert_eq!(reg.register(kqk), Ok(2));
    reg
}

#[test]
fn setup_becomes_a_shakmaty_position() {
    let pos = kqk_setup().to_chess().unwrap();
    assert_eq!(pos.turn(), Color::Black);
    assert_eq!(pos.board().role_at(Square::E1), Some(Role::King));
    assert_eq!(pos.board().role_at(Square::E2), Some(Role::Queen));
    assert_eq!(pos.board().color_at(Square::E2), Some(Color::White));
    assert_eq!(pos.board().color_at(Square::E8), Some(Color::Black));
    assert_eq!(pos.board().occupied().count(), 3);
    assert_eq!(pos.ep_square(EnPassantMode::Always), None);
}

#[test]
fn shakmaty_refuses_what_is_no_position() {
    // No king of the second color.
    let s = EndgameSetup { pieces: [6, 5, 0, 0, 0, 0], squares: [4, 12, 0, 0, 0, 0], stm: 0, ep: 64 };
    assert!(s.to_chess().is_none());
    // The side that is not to move is in check.
    let s = EndgameSetup { pieces: [6, 5, 14, 0, 0, 0], squares: [4, 12, 60, 0, 0, 0], stm: 0, ep: 64 };
    assert!(s.to_chess().is_none());
    // A pawn on the last rank.
    let s = EndgameSetup { pieces: [6, 1, 14, 0, 0, 0], squares: [4, 58, 63, 0, 0, 0], stm: 0, ep: 64 };
    assert!(s.to_chess().is_none());
}

#[test]
fn a_later_slot_overrides_an_earlier_one_on_the_same_square() {
    let s = EndgameSetup { pieces: [6, 2, 5, 14, 0, 0], squares: [4, 12, 12, 60, 0, 0], stm: 1, ep: 64 };
    let pos = s.to_chess().unwrap();
    assert_eq!(pos.board().role_at(Square::E2), Some(Role::Queen));
    assert_eq!(pos.board().occupied().count(), 3);
}

#[test]
fn probe_of_a_shakmaty_position() {
    let pos = kqk_setup().to_chess().unwrap();
    let mut ctx = DecompressionContext::new();
    let empty = TableRegistry::new();
    assert_eq!(empty.probe_chess(&pos, &mut ctx), Err(ProbeError::Unknown));
    let reg = registry_with_queen_table();
    let mut ctx = DecompressionContext::new();
    assert_eq!(reg.probe_chess(&pos, &mut ctx), Ok(Dtm::Decisive(16)));
    // The same with the colors exchanged and the first color to move.
    let s = EndgameSetup { pieces: [14, 13, 6, 0, 0, 0], squares: [60, 52, 4, 0, 0, 0], stm: 0, ep: 64 };
    let pos = s.to_chess().unwrap();
    assert_eq!(reg.probe_chess(&pos, &mut ctx), Ok(Dtm::Decisive(-16)));
    // Stalemate is a draw.
    let s = EndgameSetup { pieces: [6, 5, 14, 0, 0, 0], squares: [0, 46, 63, 0, 0, 0], stm: 1, ep: 64 };
    let pos = s.to_chess().unwrap();
    assert_eq!(reg.probe_chess(&pos, &mut ctx), Ok(Dtm::Draw));
}

#[test]
fn probe_of_pieces_checks_the_position() {
    let reg = registry_with_queen_table();
    let mut ctx = DecompressionContext::new();
    let pieces = vec![(4u8, 6u8, false), (12, 5, false), (60, 6, true)];
    assert_eq!(reg.probe_pieces(&pieces, true, None, &mut ctx), Ok(Dtm::Decisive(16)));
    // Seven pieces: only the first six fill slots, and the second king is
    // the seventh.
    let many = vec![(0u8, 6u8, false), (1, 2, false), (2, 2, false), (3, 2, false), (5, 2, false), (6, 2, false), (60, 6, true)];
    assert_eq!(reg.probe_pieces(&many, false, None, &mut ctx), Err(ProbeError::Invalid));
    // A table that is not registered.
    let rook = vec![(4u8, 6u8, false), (12, 4, false), (60, 6, true)];
    assert_eq!(reg.probe_pieces(&rook, true, None, &mut ctx), Err(ProbeError::Unknown));
}
