use prophet_tb::dtm::{Dtm, DRAW_RAW, UNKNOWN_RAW};
use prophet_tb::probe::{cell_of_dtm, dtm_of_cell};

#[test]
fn sentinels() {
    assert_eq!(UNKNOWN_RAW, -1001);
    assert_eq!(DRAW_RAW, 1000);
    assert_eq!(Dtm::Unknown.to_raw(), -1001);
    assert_eq!(Dtm::Draw.to_raw(), 1000);
    assert_eq!(Dtm::Decisive(16).to_raw(), 16);
    assert_eq!(Dtm::Decisive(-7).to_raw(), -7);
    assert_eq!(Dtm::from_raw(-1001), Dtm::Unknown);
    assert_eq!(Dtm::from_raw(1000), Dtm::Draw);
    assert_eq!(Dtm::from_raw(0), Dtm::Decisive(0));
    assert_eq!(Dtm::from_raw(-999), Dtm::Decisive(-999));
}

#[test]
fn flipping_exchanges_winner_and_loser() {
    assert_eq!(Dtm::Decisive(16).flip(), Dtm::Decisive(-16));
    assert_eq!(Dtm::Decisive(-3).flip(), Dtm::Decisive(3));
    assert_eq!(Dtm::Decisive(0).flip(), Dtm::Decisive(0));
    assert_eq!(Dtm::Draw.flip(), Dtm::Draw);
    assert_eq!(Dtm::Unknown.flip(), Dtm::Unknown);
    assert!(Dtm::Decisive(1).is_decisive());
    assert!(!Dtm::Draw.is_decisive());
}

#[test]
fn cells_round_trip() {
    for d in [Dtm::Unknown, Dtm::Draw, Dtm::Decisive(0), Dtm::Decisive(999), Dtm::Decisive(-999), Dtm::Decisive(16)] {
        assert_eq!(dtm_of_cell(cell_of_dtm(d)), d);
    }
    assert_eq!(cell_of_dtm(Dtm::Unknown), 0);
    assert_eq!(cell_of_dtm(Dtm::Draw), 2001);
    assert_eq!(cell_of_dtm(Dtm::Decisive(-999)), 2);
    assert_eq!(cell_of_dtm(Dtm::Decisive(16)), 1017);
}

#[test]
fn an_outcome_as_each_color_sees_it() {
    assert_eq!(Dtm::Decisive(16).seen_by(0), Dtm::Decisive(16));
    assert_eq!(Dtm::Decisive(16).seen_by(1), Dtm::Decisive(-16));
    assert_eq!(Dtm::Draw.seen_by(1), Dtm::Draw);
}
