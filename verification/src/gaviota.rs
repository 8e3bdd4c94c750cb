//! Cross-checking against Gaviota tablebases: the request that a Gaviota
//! probe takes, and the reading of what it answers. The probe itself is
//! made by the caller.
//!
//! The request holds its lists in `arrayvec::ArrayVec`, as the probe wants
//! them; what `ArrayVec` does is taken from it through the functions at the
//! end of this file, whose contracts are believed, not proved.
use vstd::prelude::*;
use crate::chess::Placed;
use crate::dtm::Dtm;

verus! {

#[verifier::external_type_specification]
#[verifier::external_body]
#[verifier::reject_recursive_types(T)]
pub struct ExArrayVec<T, const CAP: usize>(arrayvec::ArrayVec<T, CAP>);

/// Gaviota's code for "no square", which also ends a list of squares.
pub const GTB_NO_SQUARE: u32 = 64;

/// Gaviota's code for "no piece", which also ends a list of pieces.
pub const GTB_NO_PIECE: u8 = 0;

pub const GTB_WHITE_TO_MOVE: u32 = 0;

pub const GTB_BLACK_TO_MOVE: u32 = 1;

pub const GTB_NO_CASTLE: u32 = 0;

/// Gaviota's answers.
pub const GTB_DRAW: u32 = 0;

pub const GTB_WMATE: u32 = 1;

pub const GTB_BMATE: u32 = 2;

pub const GTB_FORBID: u32 = 3;

/// What a Gaviota probe takes: the side to move, the en-passant square, the
/// castling rights, and for each color the squares and the roles of its
/// pieces, each list ended by its "none" code.
pub struct GaviotaRequest {
    pub stm: u32,
    pub ep: u32,
    pub castling: u32,
    pub ws: arrayvec::ArrayVec<u32, 6>,
    pub bs: arrayvec::ArrayVec<u32, 6>,
    pub wp: arrayvec::ArrayVec<u8, 6>,
    pub bp: arrayvec::ArrayVec<u8, 6>,
}

/// Why a Gaviota answer gives no distance to mate.
#[derive(Clone, Copy, Debug, PartialEq, Eq, Structural)]
pub enum GaviotaError {
    /// Gaviota does not cover the position.
    Forbidden,
    /// The probe reported failure.
    ProbeFailed,
    /// The answer is none of draw, white mates, black mates.
    UnknownInfo,
    /// The ply count does not fit a signed integer.
    PliesOutOfRange,
}

/// The squares of the pieces of one color among the first `n`, in order.
pub open spec fn side_squares(pieces: Seq<Placed>, black: bool, n: int) -> Seq<u32>
    decreases n,
{
    if n <= 0 {
        Seq::empty()
    } else if pieces[n - 1].2 == black {
        side_squares(pieces, black, n - 1).push(pieces[n - 1].0 as u32)
    } else {
        side_squares(pieces, black, n - 1)
    }
}

/// The roles of the pieces of one color among the first `n`, in order.
pub open spec fn side_roles(pieces: Seq<Placed>, black: bool, n: int) -> Seq<u8>
    decreases n,
{
    if n <= 0 {
        Seq::empty()
    } else if pieces[n - 1].2 == black {
        side_roles(pieces, black, n - 1).push(pieces[n - 1].1)
    } else {
        side_roles(pieces, black, n - 1)
    }
}

pub proof fn lemma_side_monotone(pieces: Seq<Placed>, black: bool, a: int, b: int)
    requires
        a <= b,
    ensures
        side_squares(pieces, black, a).len() <= side_squares(pieces, black, b).len(),
        side_squares(pieces, black, a).len() == side_roles(pieces, black, a).len(),
    decreases b - a,
{
    if a < b {
        lemma_side_monotone(pieces, black, a, b - 1);
    }
    lemma_side_same_len(pieces, black, a);
}

pub proof fn lemma_side_same_len(pieces: Seq<Placed>, black: bool, n: int)
    ensures
        side_squares(pieces, black, n).len() == side_roles(pieces, black, n).len(),
    decreases n,
{
    if n > 0 {
        lemma_side_same_len(pieces, black, n - 1);
    }
}

/// The request for a position given by its pieces, the side to move and the
/// en-passant square. There is none if a color has more than five pieces:
/// the lists hold six entries, the last of them the end mark.
pub fn gaviota_request(pieces: &Vec<Placed>, black_to_move: bool, ep: Option<u8>) -> (r: Option<GaviotaRequest>)
    ensures
        r is None <==> side_squares(pieces@, false, pieces@.len() as int).len() > 5 || side_squares(
            pieces@,
            true,
            pieces@.len() as int,
        ).len() > 5,
        r matches Some(q) ==> {
            &&& q.stm == if black_to_move {
                GTB_BLACK_TO_MOVE
            } else {
                GTB_WHITE_TO_MOVE
            }
            &&& q.ep == match ep {
                Some(e) => e as u32,
                None => GTB_NO_SQUARE,
            }
            &&& q.castling == GTB_NO_CASTLE
            &&& items32(q.ws) == side_squares(pieces@, false, pieces@.len() as int).push(GTB_NO_SQUARE)
            &&& items32(q.bs) == side_squares(pieces@, true, pieces@.len() as int).push(GTB_NO_SQUARE)
            &&& items8(q.wp) == side_roles(pieces@, false, pieces@.len() as int).push(GTB_NO_PIECE)
            &&& items8(q.bp) == side_roles(pieces@, true, pieces@.len() as int).push(GTB_NO_PIECE)
        },
{
    let mut ws = squares_new();
    let mut bs = squares_new();
    let mut wp = roles_new();
    let mut bp = roles_new();
    let mut wn: usize = 0;
    let mut bn: usize = 0;
    let n = pieces.len();
    let mut i: usize = 0;
    while i < n
        invariant
            0 <= i <= n,
            n == pieces@.len(),
            wn <= 6,
            bn <= 6,
            wn == items32(ws).len(),
            bn == items32(bs).len(),
            items32(ws) == side_squares(pieces@, false, i as int),
            items32(bs) == side_squares(pieces@, true, i as int),
            items8(wp) == side_roles(pieces@, false, i as int),
            items8(bp) == side_roles(pieces@, true, i as int),
        decreases n - i,
    {
        let (sq, role, black) = pieces[i];
        proof {
            lemma_side_monotone(pieces@, black, i + 1, n as int);
            lemma_side_same_len(pieces@, black, i as int);
        }
        if black {
            if bn >= 6 {
                return None;
            }
            squares_push(&mut bs, sq as u32);
            roles_push(&mut bp, role);
            bn = bn + 1;
        } else {
            if wn >= 6 {
                return None;
            }
            squares_push(&mut ws, sq as u32);
            roles_push(&mut wp, role);
            wn = wn + 1;
        }
        i = i + 1;
    }
    if wn >= 6 || bn >= 6 {
        return None;
    }
    proof {
        lemma_side_same_len(pieces@, false, n as int);
        lemma_side_same_len(pieces@, true, n as int);
    }
    squares_push(&mut ws, GTB_NO_SQUARE);
    squares_push(&mut bs, GTB_NO_SQUARE);
    roles_push(&mut wp, GTB_NO_PIECE);
    roles_push(&mut bp, GTB_NO_PIECE);
    let stm: u32 = if black_to_move {
        GTB_BLACK_TO_MOVE
    } else {
        GTB_WHITE_TO_MOVE
    };
    let e: u32 = match ep {
        Some(x) => x as u32,
        None => GTB_NO_SQUARE,
    };
    Some(GaviotaRequest { stm, ep: e, castling: GTB_NO_CASTLE, ws, bs, wp, bp })
}

/// What a Gaviota answer means, as seen from the side to move.
pub open spec fn gaviota_reading(result: u32, info: u32, plies: u32, black_to_move: bool) -> Result<Dtm, GaviotaError> {
    if info == GTB_FORBID {
        Err(GaviotaError::Forbidden)
    } else if result == 0 {
        Err(GaviotaError::ProbeFailed)
    } else if info == GTB_DRAW {
        Ok(Dtm::Draw)
    } else if info == GTB_WMATE || info == GTB_BMATE {
        if plies > 0x7fff_ffff {
            Err(GaviotaError::PliesOutOfRange)
        } else if (info == GTB_WMATE) == !black_to_move {
            Ok(Dtm::Decisive(plies as i32))
        } else {
            Ok(Dtm::Decisive((-(plies as int)) as i32))
        }
    } else {
        Err(GaviotaError::UnknownInfo)
    }
}

/// Reads a Gaviota answer: the flag that the probe returned, the kind of
/// answer, and the ply count. A mate counts positive for the side to move
/// if that side mates, negative if it is mated.
pub fn dtm_from_gaviota(result: u32, info: u32, plies: u32, black_to_move: bool) -> (r: Result<Dtm, GaviotaError>)
    ensures
        r == gaviota_reading(result, info, plies, black_to_move),
{
    if info == GTB_FORBID {
        return Err(GaviotaError::Forbidden);
    }
    if result == 0 {
        return Err(GaviotaError::ProbeFailed);
    }
    if info == GTB_DRAW {
        return Ok(Dtm::Draw);
    }
    if info != GTB_WMATE && info != GTB_BMATE {
        return Err(GaviotaError::UnknownInfo);
    }
    if plies > 0x7fff_ffff {
        return Err(GaviotaError::PliesOutOfRange);
    }
    let p: i32 = plies as i32;
    if (info == GTB_WMATE) == !black_to_move {
        Ok(Dtm::Decisive(p))
    } else {
        Ok(Dtm::Decisive(-p))
    }
}

/// What a list of squares holds, in order.
pub uninterp spec fn items32(v: arrayvec::ArrayVec<u32, 6>) -> Seq<u32>;

/// What a list of roles holds, in order.
pub uninterp spec fn items8(v: arrayvec::ArrayVec<u8, 6>) -> Seq<u8>;

/// `ArrayVec::new`: an empty list.
#[verifier::external_body]
pub(crate) fn squares_new() -> (v: arrayvec::ArrayVec<u32, 6>)
    ensures
        items32(v) == Seq::<u32>::empty(),
{
    arrayvec::ArrayVec::new()
}

/// `ArrayVec::push`, which panics on a full list: the element is added at
/// the end.
#[verifier::external_body]
pub(crate) fn squares_push(v: &mut arrayvec::ArrayVec<u32, 6>, x: u32)
    requires
        items32(*old(v)).len() < 6,
    ensures
        items32(*final(v)) == items32(*old(v)).push(x),
{
    v.push(x)
}

/// `ArrayVec::new`: an empty list.
#[verifier::external_body]
pub(crate) fn roles_new() -> (v: arrayvec::ArrayVec<u8, 6>)
    ensures
        items8(v) == Seq::<u8>::empty(),
{
    arrayvec::ArrayVec::new()
}

/// `ArrayVec::push`, which panics on a full list: the element is added at
/// the end.
#[verifier::external_body]
pub(crate) fn roles_push(v: &mut arrayvec::ArrayVec<u8, 6>, x: u8)
    requires
        items8(*old(v)).len() < 6,
    ensures
        items8(*final(v)) == items8(*old(v)).push(x),
{
    v.push(x)
}

} // verus!
