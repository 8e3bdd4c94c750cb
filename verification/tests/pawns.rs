use prophet_tb::material::MaterialSignature;
use prophet_tb::registry::TableRegistry;

fn sig(counts: [u8; 10]) -> MaterialSignature {
    MaterialSignature { counts }
}

#[test]
fn king_and_pawn_against_king() {
    let mut reg = TableRegistry::new();
    for counts in [
        [0, 0, 0, 0, 0, 0, 0, 0, 0, 0],
        [1, 0, 0, 0, 0, 0, 0, 0, 0, 0],
        [0, 1, 0, 0, 0, 0, 0, 0, 0, 0],
        [0, 0, 1, 0, 0, 0, 0, 0, 0, 0],
        [0, 0, 0, 1, 0, 0, 0, 0, 0, 0],
    ] {
        let t = reg.generate(&sig(counts)).unwrap();
        assert!(reg.register(t).is_ok());
    }
    let kpk = reg.generate(&sig([0, 0, 0, 0, 1, 0, 0, 0, 0, 0])).unwrap();
    assert_eq!(kpk.len, 1806 * 62 * 9 * 2);
    assert_eq!(reg.register(kpk), Ok(6));
    // King e6, pawn e5 against king e8: won whoever is to move.
    let won = reg.probe(&[6, 1, 14], &[44, 36, 60], 0, 64);
    assert!(won > 0 && won < 1000 && won % 2 == 1);
    let won = reg.probe(&[6, 1, 14], &[44, 36, 60], 1, 64);
    assert!(won > 0 && won < 1000 && won % 2 == 0);
    // King e5, pawn e4 against king e7: a draw if the first color is to
    // move, won if the second is.
    assert_eq!(reg.probe(&[6, 1, 14], &[36, 28, 52], 0, 64), 1000);
    let won = reg.probe(&[6, 1, 14], &[36, 28, 52], 1, 64);
    assert!(won > 0 && won < 1000 && won % 2 == 0);
    // A rook pawn with the defending king in the corner: a draw.
    assert_eq!(reg.probe(&[6, 1, 14], &[46, 47, 63], 0, 64), 1000);
    assert_eq!(reg.probe(&[6, 1, 14], &[46, 47, 63], 1, 64), 1000);
    // The pawn can be taken: king h1, pawn a7 against king b7 to move.
    assert_eq!(reg.probe(&[6, 1, 14], &[7, 48, 49], 1, 64), 1000);
    // The same with the colors exchanged: the second color's pawn on e4,
    // its king on e3, against the king on e1.
    let lost = reg.probe(&[14, 9, 6], &[20, 28, 4], 1, 64);
    assert!(lost < 0 && lost > -1000 && lost % 2 == -1);
    let lost = reg.probe(&[14, 9, 6], &[20, 28, 4], 0, 64);
    assert!(lost < 0 && lost % 2 == 0);
    // Reflecting the files changes nothing: king d6, pawn d5, king d8.
    assert_eq!(
        reg.probe(&[6, 1, 14], &[43, 35, 59], 0, 64),
        reg.probe(&[6, 1, 14], &[44, 36, 60], 0, 64)
    );
    // A knight or a bishop alone never wins.
    assert_eq!(reg.probe(&[6, 2, 14], &[0, 18, 63], 0, 64), 1000);
    assert_eq!(reg.probe(&[6, 3, 14], &[0, 18, 63], 1, 64), 1000);
    // King and rook mate: king g6, rook a1 against king g8, rook to a8.
    assert_eq!(reg.probe(&[6, 4, 14], &[46, 0, 62], 0, 64), 1);
}
