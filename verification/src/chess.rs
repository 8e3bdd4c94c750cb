//! Probing positions held by the `shakmaty` chess library.
//!
//! What `shakmaty` decides (whether a setup is a legal position, where an
//! en-passant capture is legal) is taken from it through the functions at
//! the end of this file, whose contracts are believed, not proved.
use vstd::prelude::*;
use crate::dtm::Dtm;
use crate::position::{slots_valid, slots_pos};
use crate::probe::{probe_raw_spec, probe_spec};
use crate::registry::TableRegistry;
use crate::store::DecompressionContext;

verus! {

#[verifier::external_type_specification]
#[verifier::external_body]
pub struct ExChess(shakmaty::Chess);

/// A candidate position as six slots: a piece code (0 for an unused slot)
/// and a square for each, the side to move, and the en-passant square (64 for
/// none).
#[derive(Clone, Copy, Debug, PartialEq, Eq)]
pub struct EndgameSetup {
    pub pieces: [u8; 6],
    pub squares: [u8; 6],
    pub stm: u8,
    pub ep: u8,
}

/// A piece on a square: the square, the role (1 pawn to 6 king), and whether
/// it is of the second color.
pub type Placed = (u8, u8, bool);

/// Why a position held by `shakmaty` has no distance to mate.
#[derive(Clone, Copy, Debug, PartialEq, Eq, Structural)]
pub enum ProbeError {
    /// The position is not structurally legal for the tables: more than six
    /// pieces, say.
    Invalid,
    /// No table covers the position.
    Unknown,
}

impl EndgameSetup {
    /// Codes of the alphabet, squares of the board, the two small fields in
    /// range.
    pub open spec fn wf(&self) -> bool {
        &&& forall|i: int| 0 <= i < 6 ==> (#[trigger] self.pieces@[i] == 0 || crate::codes::is_piece_code(self.pieces@[i] as int))
        &&& forall|i: int| 0 <= i < 6 ==> (#[trigger] self.squares@[i]) < 64
        &&& self.stm <= 1
        &&& self.ep <= 64
    }

    /// The occupied slots among the first `n`, in slot order.
    pub open spec fn parts(&self, n: int) -> Seq<Placed>
        decreases n,
    {
        if n <= 0 {
            Seq::empty()
        } else if self.pieces@[n - 1] == 0 {
            self.parts(n - 1)
        } else {
            self.parts(n - 1).push(
                (self.squares@[n - 1], crate::codes::role_of(self.pieces@[n - 1] as int) as u8, self.pieces@[n - 1] >= 9),
            )
        }
    }

    pub open spec fn ep_option(&self) -> Option<u8> {
        if self.ep == 64 {
            None
        } else {
            Some(self.ep)
        }
    }

    /// The position in `shakmaty`'s form, if `shakmaty` takes the setup for
    /// a legal chess position. Where two slots name one square, the later
    /// slot stands.
    pub fn to_chess(&self) -> (r: Option<shakmaty::Chess>)
        requires
            self.wf(),
        ensures
            r == chess_position(self.parts(6), self.stm == 1, self.ep_option()),
    {
        let mut parts: Vec<Placed> = Vec::new();
        let mut i: usize = 0;
        while i < 6
            invariant
                0 <= i <= 6,
                self.wf(),
                parts@ == self.parts(i as int),
                forall|j: int| 0 <= j < parts@.len() ==> (#[trigger] parts@[j]).0 < 64 && 1 <= parts@[j].1 <= 6,
            decreases 6 - i,
        {
            let c = self.pieces[i];
            if c != 0 {
                let role: u8 = if c >= 9 {
                    c - 8
                } else {
                    c
                };
                parts.push((self.squares[i], role, c >= 9));
            }
            i = i + 1;
        }
        let ep: Option<u8> = if self.ep == 64 {
            None
        } else {
            Some(self.ep)
        };
        chess_from_parts(&parts, self.stm == 1, ep)
    }
}

/// The slots that a list of pieces fills: the first six pieces in order, a
/// piece code and a square each; the other slots stay unused.
pub open spec fn slot_codes(pieces: Seq<Placed>) -> Seq<i32> {
    Seq::new(
        6,
        |i: int|
            if i < pieces.len() {
                (pieces[i].1 as int + if pieces[i].2 {
                    8int
                } else {
                    0int
                }) as i32
            } else {
                0i32
            },
    )
}

pub open spec fn slot_squares(pieces: Seq<Placed>) -> Seq<i32> {
    Seq::new(6, |i: int| if i < pieces.len() {
        pieces[i].0 as i32
    } else {
        0i32
    })
}

pub open spec fn ep_code(ep: Option<u8>) -> int {
    match ep {
        Some(e) => e as int,
        None => 64,
    }
}

/// What probing a list of pieces gives: an error if the slots they fill are
/// not a structurally legal position or no table covers it, else the
/// distance to mate.
pub open spec fn probe_pieces_spec(reg: &TableRegistry, pieces: Seq<Placed>, black_to_move: bool, ep: Option<u8>) -> Result<Dtm, ProbeError> {
    let stm = if black_to_move {
        1int
    } else {
        0int
    };
    let ps = slot_codes(pieces);
    let ss = slot_squares(pieces);
    if !slots_valid(ps, ss, stm, ep_code(ep)) {
        Err(ProbeError::Invalid)
    } else {
        let d = probe_spec(reg, slots_pos(ps, ss, stm, ep_code(ep)));
        if d is Unknown {
            Err(ProbeError::Unknown)
        } else {
            Ok(d)
        }
    }
}

impl TableRegistry {
    /// Probes the position that a list of pieces, the side to move and an
    /// en-passant square describe.
    pub fn probe_pieces(&self, pieces: &Vec<Placed>, black_to_move: bool, ep: Option<u8>, ctx: &mut DecompressionContext) -> (r: Result<Dtm, ProbeError>)
        requires
            self.wf(),
            self.agrees(old(ctx)),
        ensures
            r == probe_pieces_spec(self, pieces@, black_to_move, ep),
            self.agrees(final(ctx)),
    {
        let mut ps: [i32; 6] = [0i32; 6];
        let mut ss: [i32; 6] = [0i32; 6];
        let mut i: usize = 0;
        while i < 6 && i < pieces.len()
            invariant
                0 <= i <= 6,
                i <= pieces@.len(),
                forall|j: int| 0 <= j < i ==> #[trigger] ps@[j] == slot_codes(pieces@)[j],
                forall|j: int| 0 <= j < i ==> #[trigger] ss@[j] == slot_squares(pieces@)[j],
                forall|j: int| i <= j < 6 ==> #[trigger] ps@[j] == 0,
                forall|j: int| i <= j < 6 ==> #[trigger] ss@[j] == 0,
            decreases 6 - i,
        {
            let (sq, role, black) = pieces[i];
            ps[i] = role as i32 + if black {
                8
            } else {
                0
            };
            ss[i] = sq as i32;
            i = i + 1;
        }
        proof {
            assert(ps@ =~= slot_codes(pieces@));
            assert(ss@ =~= slot_squares(pieces@));
        }
        let stm: i32 = if black_to_move {
            1
        } else {
            0
        };
        let e: i32 = match ep {
            Some(x) => x as i32,
            None => 64,
        };
        match crate::position::Position::from_slots(ps.as_slice(), ss.as_slice(), stm, e) {
            None => Err(ProbeError::Invalid),
            Some(p) => {
                let d = self.probe_position(&p, ctx);
                match d {
                    Dtm::Unknown => Err(ProbeError::Unknown),
                    _ => Ok(d),
                }
            },
        }
    }

    /// Probes a position held by `shakmaty`, with the en-passant square
    /// given only where a capture on it is legal.
    pub fn probe_chess(&self, pos: &shakmaty::Chess, ctx: &mut DecompressionContext) -> (r: Result<Dtm, ProbeError>)
        requires
            self.wf(),
            self.agrees(old(ctx)),
        ensures
            r == probe_pieces_spec(self, chess_pieces(*pos), chess_black_to_move(*pos), chess_legal_ep(*pos)),
            self.agrees(final(ctx)),
    {
        let pieces = pieces_of_chess(pos);
        let black = black_to_move_of_chess(pos);
        let ep = legal_ep_of_chess(pos);
        self.probe_pieces(&pieces, black, ep, ctx)
    }
}

/// The position that `shakmaty` makes of the pieces, the side to move and
/// the en-passant square, if it takes them for a legal position of standard
/// chess without castling rights.
pub uninterp spec fn chess_position(parts: Seq<Placed>, black_to_move: bool, ep: Option<u8>) -> Option<shakmaty::Chess>;

/// The pieces of a position held by `shakmaty`, in the order of its board.
pub uninterp spec fn chess_pieces(pos: shakmaty::Chess) -> Seq<Placed>;

/// Whether the second color is to move in a position held by `shakmaty`.
pub uninterp spec fn chess_black_to_move(pos: shakmaty::Chess) -> bool;

/// The en-passant square of a position held by `shakmaty`, where a capture
/// on it is legal.
pub uninterp spec fn chess_legal_ep(pos: shakmaty::Chess) -> Option<u8>;

/// `shakmaty::Setup::position` for `shakmaty::Chess` in Chess960 castling
/// mode, on a setup with the given board, side to move and en-passant
/// square and nothing else. Claimed: what it returns depends on the values
/// given alone.
#[verifier::external_body]
pub(crate) fn chess_from_parts(parts: &Vec<Placed>, black_to_move: bool, ep: Option<u8>) -> (r: Option<shakmaty::Chess>)
    requires
        forall|j: int| 0 <= j < parts@.len() ==> (#[trigger] parts@[j]).0 < 64 && 1 <= parts@[j].1 <= 6,
        ep matches Some(e) ==> e < 64,
    ensures
        r == chess_position(parts@, black_to_move, ep),
{
    let board = parts.iter().map(|p| {
        let piece = shakmaty::Piece { color: shakmaty::Color::from_black(p.2), role: shakmaty::Role::try_from(p.1).unwrap() };
        (shakmaty::Square::new(u32::from(p.0)), piece)
    }).collect();
    let turn = shakmaty::Color::from_black(black_to_move);
    let ep_square = ep.map(|e| shakmaty::Square::new(u32::from(e)));
    let setup = shakmaty::Setup { board, turn, ep_square, ..shakmaty::Setup::empty() };
    setup.position::<shakmaty::Chess>(shakmaty::CastlingMode::Chess960).ok()
}

/// The iteration of `shakmaty::Board`, on the board of the position, each
/// piece given as square, role and color. Claimed: what it yields depends on
/// the position alone.
#[verifier::external_body]
pub(crate) fn pieces_of_chess(pos: &shakmaty::Chess) -> (r: Vec<Placed>)
    ensures
        r@ == chess_pieces(*pos),
{
    shakmaty::Position::board(pos).clone().into_iter().map(|(sq, piece)| (u8::from(sq), u8::from(piece.role), piece.color.is_black())).collect()
}

/// `shakmaty::Position::turn`, as whether the second color is to move.
#[verifier::external_body]
pub(crate) fn black_to_move_of_chess(pos: &shakmaty::Chess) -> (r: bool)
    ensures
        r == chess_black_to_move(*pos),
{
    shakmaty::Position::turn(pos).is_black()
}

/// `shakmaty::Position::ep_square` in mode `Legal`. Claimed: what it
/// returns depends on the position alone.
#[verifier::external_body]
pub(crate) fn legal_ep_of_chess(pos: &shakmaty::Chess) -> (r: Option<u8>)
    ensures
        r == chess_legal_ep(*pos),
{
    shakmaty::Position::ep_square(pos, shakmaty::EnPassantMode::Legal).map(u8::from)
}

} // verus!
