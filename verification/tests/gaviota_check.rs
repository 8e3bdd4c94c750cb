use prophet_tb::dtm::Dtm;
use prophet_tb::gaviota::{dtm_from_gaviota, gaviota_request, GaviotaError};

#[test]
fn request_lists_each_side_and_ends_each_list() {
    let pieces = vec![(4u8, 6u8, false), (12, 5, false), (35, 1, true), (60, 6, true)];
    let q = gaviota_request(&pieces, true, None).unwrap();
    assert_eq!(q.stm, 1);
    assert_eq!(q.ep, 64);
    assert_eq!(q.castling, 0);
    assert_eq!(q.ws.as_slice(), &[4, 12, 64]);
    assert_eq!(q.bs.as_slice(), &[35, 60, 64]);
    assert_eq!(q.wp.as_slice(), &[6, 5, 0]);
    assert_eq!(q.bp.as_slice(), &[1, 6, 0]);
    let q = gaviota_request(&pieces, false, Some(43)).unwrap();
    assert_eq!(q.stm, 0);
    assert_eq!(q.ep, 43);
}

#[test]
fn request_needs_room_for_the_end_mark() {
    let five = vec![(0u8, 6u8, false), (1, 2, false), (2, 2, false), (3, 2, false), (5, 2, false), (60, 6, true)];
    let q = gaviota_request(&five, false, None).unwrap();
    assert_eq!(q.ws.as_slice(), &[0, 1, 2, 3, 5, 64]);
    assert_eq!(q.bs.as_slice(), &[60, 64]);
    let six = vec![(0u8, 6u8, false), (1, 2, false), (2, 2, false), (3, 2, false), (5, 2, false), (6, 2, false), (60, 6, true)];
    assert!(gaviota_request(&six, false, None).is_none());
    let seven = vec![(0u8, 6u8, true), (1, 2, true), (2, 2, true), (3, 2, true), (5, 2, true), (6, 2, true), (7, 2, true), (60, 6, false)];
    assert!(gaviota_request(&seven, false, None).is_none());
}

#[test]
fn answers_are_read_from_the_side_to_move() {
    assert_eq!(dtm_from_gaviota(1, 0, 0, false), Ok(Dtm::Draw));
    assert_eq!(dtm_from_gaviota(1, 0, 7, true), Ok(Dtm::Draw));
    assert_eq!(dtm_from_gaviota(1, 1, 15, false), Ok(Dtm::Decisive(15)));
    assert_eq!(dtm_from_gaviota(1, 1, 16, true), Ok(Dtm::Decisive(-16)));
    assert_eq!(dtm_from_gaviota(1, 2, 16, false), Ok(Dtm::Decisive(-16)));
    assert_eq!(dtm_from_gaviota(1, 2, 15, true), Ok(Dtm::Decisive(15)));
}

#[test]
fn answers_that_give_no_distance() {
    assert_eq!(dtm_from_gaviota(1, 3, 0, false), Err(GaviotaError::Forbidden));
    assert_eq!(dtm_from_gaviota(0, 3, 0, false), Err(GaviotaError::Forbidden));
    assert_eq!(dtm_from_gaviota(0, 1, 5, false), Err(GaviotaError::ProbeFailed));
    assert_eq!(dtm_from_gaviota(0, 0, 0, true), Err(GaviotaError::ProbeFailed));
    assert_eq!(dtm_from_gaviota(1, 7, 5, false), Err(GaviotaError::UnknownInfo));
    assert_eq!(dtm_from_gaviota(1, 4, 5, true), Err(GaviotaError::UnknownInfo));
    assert_eq!(dtm_from_gaviota(1, 1, 0x8000_0000, false), Err(GaviotaError::PliesOutOfRange));
    assert_eq!(dtm_from_gaviota(1, 2, 0x7fff_ffff, false), Ok(Dtm::Decisive(-0x7fff_ffff)));
}
