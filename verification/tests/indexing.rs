use prophet_tb::index::Indexer;
use prophet_tb::position::Position;
use prophet_tb::registry::TableRegistry;

fn kqk() -> Position {
    Position::from_slots(&[6, 5, 14, 0, 0, 0], &[4, 12, 60, 0, 0, 0], 1, 64).unwrap()
}

#[test]
fn table_sizes() {
    let ix = Indexer::new();
    assert_eq!(ix.plain.total(), 462);
    assert_eq!(ix.pawned.total(), 1806);
    let kk = kqk().mirrored().material();
    assert_eq!(kk.counts, [0, 0, 0, 0, 0, 1, 0, 0, 0, 0]);
    let sig = ix.locate(&kqk()).sig;
    assert_eq!(sig.counts, [1, 0, 0, 0, 0, 0, 0, 0, 0, 0]);
    assert_eq!(ix.table_size(&sig), 462 * 62 * 2);
    let kpk = Position::from_slots(&[6, 1, 14], &[4, 12, 60], 0, 64).unwrap();
    let sig = ix.locate(&kpk).sig;
    assert_eq!(ix.table_size(&sig), 1806 * 62 * 9 * 2);
    let knnk = Position::from_slots(&[6, 2, 2, 14], &[4, 12, 13, 60], 0, 64).unwrap();
    let sig = ix.locate(&knnk).sig;
    assert_eq!(ix.table_size(&sig), 462 * 1891 * 2);
}

#[test]
fn binomials() {
    let ix = Indexer::new();
    assert_eq!(ix.binom.get(64, 0), 1);
    assert_eq!(ix.binom.get(64, 1), 64);
    assert_eq!(ix.binom.get(64, 2), 2016);
    assert_eq!(ix.binom.get(64, 4), 635376);
    assert_eq!(ix.binom.get(5, 6), 0);
    assert_eq!(ix.binom.top(2, 2015, 64), 63);
    assert_eq!(ix.binom.top(2, 0, 64), 1);
}

#[test]
fn index_round_trip() {
    let ix = Indexer::new();
    let p = kqk();
    let loc = ix.locate(&p);
    assert!(!loc.swapped);
    let q = ix.position_at(&loc.sig, loc.index);
    let again = ix.locate(&q);
    assert_eq!(again.index, loc.index);
    assert_eq!(again.sig, loc.sig);
    assert!(!again.swapped);
}

#[test]
fn every_index_of_a_small_table_round_trips_or_is_not_reduced() {
    let ix = Indexer::new();
    let sig = ix.locate(&kqk()).sig;
    let n = ix.table_size(&sig);
    let mut reduced = 0u64;
    let mut i = 0u64;
    while i < n {
        let q = ix.position_at(&sig, i);
        let pieces = q.board.iter().filter(|c| **c != 0).count();
        if pieces == 3 {
            let loc = ix.locate(&q);
            assert_eq!(loc.sig, sig);
            assert!(loc.index <= i);
            if loc.index == i {
                reduced += 1;
            }
            let back = ix.position_at(&sig, loc.index);
            assert_eq!(ix.locate(&back).index, loc.index);
        }
        i += 7;
    }
    assert!(reduced > 0);
}

#[test]
fn symmetric_images_share_an_index() {
    let ix = Indexer::new();
    let p = kqk();
    let loc = ix.locate(&p);
    for t in 0..8u8 {
        let q = p.transformed(t);
        let l = ix.locate(&q);
        assert_eq!(l.index, loc.index);
        assert_eq!(l.sig, loc.sig);
        assert_eq!(l.swapped, loc.swapped);
    }
}

#[test]
fn mirror_image_shares_an_index_from_the_other_side() {
    let ix = Indexer::new();
    let p = kqk();
    let m = p.mirrored();
    assert_eq!(m.board[60], 14);
    assert_eq!(m.board[52], 13);
    assert_eq!(m.board[4], 6);
    assert_eq!(m.stm, 0);
    let a = ix.locate(&p);
    let b = ix.locate(&m);
    assert_eq!(a.index, b.index);
    assert_eq!(a.sig, b.sig);
    assert!(!a.swapped);
    assert!(b.swapped);
}

#[test]
fn probe_before_registration_is_unknown() {
    let reg = TableRegistry::new();
    assert_eq!(reg.count(), 0);
    assert_eq!(reg.probe(&[6, 5, 14, 0, 0, 0], &[4, 12, 60, 0, 0, 0], 1, 64), -1001);
}

#[test]
fn groups_are_ranked_among_the_free_squares() {
    let ix = Indexer::new();
    // Kings a1 and c1 are the first admissible pair; the queen on b1 stands
    // on the first free square, the queen on d1 on the second.
    let a = Position::from_slots(&[6, 14, 5], &[0, 2, 1], 0, 64).unwrap();
    let raw = ix.raw_of(&a, false, 0, 2);
    assert_eq!(raw, 0);
    let b = Position::from_slots(&[6, 14, 5], &[0, 2, 3], 0, 64).unwrap();
    assert_eq!(ix.raw_of(&b, false, 0, 2), 2);
    let c = Position::from_slots(&[6, 14, 5], &[0, 2, 63], 1, 64).unwrap();
    assert_eq!(ix.raw_of(&c, false, 0, 2), 61 * 2 + 1);
    // Two knights on the two lowest free squares have rank 0; the group of
    // the second color comes after that of the first and skips its squares.
    let d = Position::from_slots(&[6, 14, 2, 2, 10], &[0, 2, 1, 3, 4], 0, 64).unwrap();
    assert_eq!(ix.raw_of(&d, false, 0, 2), 0);
    let e = Position::from_slots(&[6, 14, 2, 2, 10], &[0, 2, 1, 3, 5], 0, 64).unwrap();
    assert_eq!(ix.raw_of(&e, false, 0, 2), 2);
    let f = Position::from_slots(&[6, 14, 2, 2, 10], &[0, 2, 1, 4, 3], 0, 64).unwrap();
    assert_eq!(ix.raw_of(&f, false, 0, 2), (1 * 60 + 0) * 2);
    for p in [a, b, c, d, e, f] {
        let sig = p.material();
        let i = ix.raw_of(&p, false, 0, 2);
        assert_eq!(ix.position_at(&sig, i), p);
    }
}

#[test]
fn every_index_decodes_to_a_position_with_all_its_pieces() {
    let ix = Indexer::new();
    let sig = ix.locate(&Position::from_slots(&[6, 14, 4, 11], &[0, 2, 9, 40], 0, 64).unwrap()).sig;
    let n = ix.table_size(&sig);
    assert_eq!(n, 462 * 62 * 61 * 2);
    let mut i = 0;
    while i < n {
        let q = ix.position_at(&sig, i);
        assert_eq!(q.board.iter().filter(|c| **c != 0).count(), 4);
        assert!(q.is_valid());
        assert_eq!(ix.locate(&q).sig, sig);
        i += 101;
    }
}
