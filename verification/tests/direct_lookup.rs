use prophet_tb::index::Indexer;
use prophet_tb::kkx::{KkxTable, KKX_NONE};
use prophet_tb::position::Position;

#[test]
fn the_table_agrees_with_the_general_composition() {
    let ix = Indexer::new();
    let table = KkxTable::new(&ix);
    assert_eq!(table.cells.len(), 64 * 64 * 64);
    // Kings on the same square, touching kings, a piece on a king's square.
    assert_eq!(table.cells[0], KKX_NONE);
    assert_eq!(table.cells[(0 * 64 + 1) * 64 + 5], KKX_NONE);
    assert_eq!(table.cells[(0 * 64 + 2) * 64 + 2], KKX_NONE);
    assert_eq!(table.cells[(0 * 64 + 2) * 64 + 1], 0);
    assert_eq!(table.cells[(0 * 64 + 2) * 64 + 3], 1);
    let mut checked = 0;
    for wk in (0..64).step_by(3) {
        for bk in (0..64).step_by(5) {
            for x in (0..64).step_by(7) {
                for code in [2, 3, 4, 5, 1, 10, 13] {
                    for stm in [0, 1] {
                        if let Some(p) = Position::from_slots(&[6, 14, code], &[wk, bk, x], stm, 64) {
                            let fast = table.locate(&ix, &p);
                            let slow = ix.locate(&p);
                            assert_eq!(fast.index, slow.index);
                            assert_eq!(fast.sig, slow.sig);
                            assert_eq!(fast.swapped, slow.swapped);
                            checked += 1;
                        }
                    }
                }
            }
        }
    }
    assert!(checked > 10000);
    assert_eq!(table.index_of(4, 60, 12, 5, 1), ix.locate(&Position::from_slots(&[6, 5, 14], &[4, 12, 60], 1, 64).unwrap()).index);
    assert_eq!(table.index_of(0, 2, 3, 4, 1), 3);
}
