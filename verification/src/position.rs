//! The position model and the structural validity of a candidate position.
use vstd::prelude::*;
use crate::codes::{is_piece_code, is_square, squares_touch, rank_of, touching, MAX_PIECES};

verus! {

/// The mathematical model of a position: one piece code per square (0 for an
/// empty square), the side to move (0 or 1) and the en-passant square (64 for
/// none).
pub struct Pos {
    pub board: Seq<u8>,
    pub stm: u8,
    pub ep: u8,
}

/// A position held by value: `board[sq]` is the code of the piece on `sq`.
#[derive(Clone, Copy, Debug, PartialEq, Eq)]
pub struct Position {
    pub board: [u8; 64],
    pub stm: u8,
    pub ep: u8,
}

impl View for Position {
    type V = Pos;

    open spec fn view(&self) -> Pos {
        Pos { board: self.board@, stm: self.stm, ep: self.ep }
    }
}

/// How many of the first `n` squares are occupied.
pub open spec fn count_pieces(board: Seq<u8>, n: int) -> int
    decreases n,
{
    if n <= 0 {
        0
    } else {
        count_pieces(board, n - 1) + if board[n - 1] != 0 {
            1int
        } else {
            0int
        }
    }
}

/// The en-passant square is none, or lies behind a pawn of the side that has
/// just moved, with the square itself and the pawn's origin empty.
pub open spec fn ep_consistent(board: Seq<u8>, stm: int, ep: int) -> bool {
    ||| ep == 64
    ||| {
        &&& stm == 0
        &&& rank_of(ep) == 5
        &&& board[ep] == 0
        &&& board[ep + 8] == 0
        &&& board[ep - 8] == 9
    }
    ||| {
        &&& stm == 1
        &&& rank_of(ep) == 2
        &&& board[ep] == 0
        &&& board[ep - 8] == 0
        &&& board[ep + 8] == 1
    }
}

impl Pos {
    /// Every square holds a code of the alphabet, and the two small fields
    /// are in range.
    pub open spec fn wf(self) -> bool {
        &&& self.board.len() == 64
        &&& forall|sq: int| 0 <= sq < 64 ==> self.board[sq] == 0 || is_piece_code(#[trigger] self.board[sq] as int)
        &&& self.stm <= 1
        &&& self.ep <= 64
    }

    /// The king of code `k` stands on `sq` and nowhere else.
    pub open spec fn sole_king(self, k: int, sq: int) -> bool {
        &&& is_square(sq)
        &&& self.board[sq] == k
        &&& forall|s: int| 0 <= s < 64 && #[trigger] self.board[s] == k ==> s == sq
    }

    pub open spec fn one_king(self, k: int) -> bool {
        exists|sq: int| self.sole_king(k, sq)
    }

    /// The square of the king of code `k`.
    pub open spec fn king_sq(self, k: int) -> int {
        choose|sq: int| self.sole_king(k, sq)
    }

    pub open spec fn piece_count(self) -> int {
        count_pieces(self.board, 64)
    }

    /// Structural legality: one king a side, the kings apart, at most six
    /// pieces, and an en-passant square that a double step explains.
    pub open spec fn valid(self) -> bool {
        &&& self.wf()
        &&& self.one_king(6)
        &&& self.one_king(14)
        &&& !squares_touch(self.king_sq(6), self.king_sq(14))
        &&& self.piece_count() <= MAX_PIECES
        &&& ep_consistent(self.board, self.stm as int, self.ep as int)
    }
}

/// Slot `i` holds a piece.
pub open spec fn occupied(pieces: Seq<i32>, i: int) -> bool {
    0 <= i < pieces.len() && pieces[i] != 0
}

/// How many of the first `n` slots hold the code `code`.
pub open spec fn count_code(pieces: Seq<i32>, code: int, n: int) -> int
    decreases n,
{
    if n <= 0 {
        0
    } else {
        count_code(pieces, code, n - 1) + if pieces[n - 1] == code {
            1int
        } else {
            0int
        }
    }
}

/// The square of the last of the first `n` slots that holds `code` (64 if
/// there is none).
pub open spec fn square_of_code(pieces: Seq<i32>, squares: Seq<i32>, code: int, n: int) -> int
    decreases n,
{
    if n <= 0 {
        64
    } else if pieces[n - 1] == code {
        squares[n - 1] as int
    } else {
        square_of_code(pieces, squares, code, n - 1)
    }
}

/// The code that the first `n` slots put on `sq` (0 if none does).
pub open spec fn piece_on(pieces: Seq<i32>, squares: Seq<i32>, sq: int, n: int) -> int
    decreases n,
{
    if n <= 0 {
        0
    } else if pieces[n - 1] != 0 && squares[n - 1] == sq {
        pieces[n - 1] as int
    } else {
        piece_on(pieces, squares, sq, n - 1)
    }
}

/// The board that the slots describe.
pub open spec fn slot_board(pieces: Seq<i32>, squares: Seq<i32>) -> Seq<u8> {
    Seq::new(64, |sq: int| piece_on(pieces, squares, sq, pieces.len() as int) as u8)
}

/// The position that the slots describe.
pub open spec fn slots_pos(pieces: Seq<i32>, squares: Seq<i32>, stm: int, ep: int) -> Pos {
    Pos { board: slot_board(pieces, squares), stm: stm as u8, ep: ep as u8 }
}

/// The shape of the slots: matching lengths within the bound, codes of the
/// alphabet, squares on the board, no square used twice.
pub open spec fn slots_shaped(pieces: Seq<i32>, squares: Seq<i32>) -> bool {
    &&& pieces.len() == squares.len()
    &&& pieces.len() <= MAX_PIECES
    &&& forall|i: int| 0 <= i < pieces.len() ==> #[trigger] pieces[i] == 0 || is_piece_code(pieces[i] as int)
    &&& forall|i: int| #[trigger] occupied(pieces, i) ==> is_square(squares[i] as int)
    &&& forall|i: int, j: int| #[trigger] occupied(pieces, i) && #[trigger] occupied(pieces, j) && i != j ==> squares[i] != squares[j]
}

/// Structural legality of a candidate given as slots.
pub open spec fn slots_valid(pieces: Seq<i32>, squares: Seq<i32>, stm: int, ep: int) -> bool {
    let n = pieces.len() as int;
    &&& slots_shaped(pieces, squares)
    &&& count_code(pieces, 6, n) == 1
    &&& count_code(pieces, 14, n) == 1
    &&& !squares_touch(square_of_code(pieces, squares, 6, n), square_of_code(pieces, squares, 14, n))
    &&& (stm == 0 || stm == 1)
    &&& 0 <= ep <= 64
    &&& ep_consistent(slot_board(pieces, squares), stm, ep)
}

/// A square that the slots fill is filled by one of them.
pub proof fn lemma_piece_on_witness(pieces: Seq<i32>, squares: Seq<i32>, sq: int, n: int) -> (k: int)
    requires
        0 <= n <= pieces.len(),
        piece_on(pieces, squares, sq, n) != 0,
    ensures
        0 <= k < n,
        occupied(pieces, k),
        squares[k] == sq,
        pieces[k] == piece_on(pieces, squares, sq, n),
    decreases n,
{
    if pieces[n - 1] != 0 && squares[n - 1] == sq {
        n - 1
    } else {
        lemma_piece_on_witness(pieces, squares, sq, n - 1)
    }
}

/// A square that an occupied slot names is not left empty.
pub proof fn lemma_piece_on_nonzero(pieces: Seq<i32>, squares: Seq<i32>, k: int, n: int)
    requires
        0 <= k < n <= pieces.len(),
        occupied(pieces, k),
    ensures
        piece_on(pieces, squares, squares[k] as int, n) != 0,
    decreases n,
{
    if k < n - 1 {
        lemma_piece_on_nonzero(pieces, squares, k, n - 1);
    }
}

/// With no square used twice, a slot's piece is what stands on its square.
pub proof fn lemma_piece_on_slot(pieces: Seq<i32>, squares: Seq<i32>, k: int, n: int)
    requires
        0 <= k < n <= pieces.len(),
        occupied(pieces, k),
        forall|i: int, j: int| #[trigger] occupied(pieces, i) && #[trigger] occupied(pieces, j) && i != j ==> squares[i] != squares[j],
    ensures
        piece_on(pieces, squares, squares[k] as int, n) == pieces[k],
    decreases n,
{
    if k == n - 1 {
    } else {
        assert(occupied(pieces, n - 1) ==> squares[n - 1] != squares[k]);
        lemma_piece_on_slot(pieces, squares, k, n - 1);
    }
}

/// A code counted once sits in one slot only.
pub proof fn lemma_count_one_unique(pieces: Seq<i32>, code: int, n: int, a: int, b: int)
    requires
        0 <= n <= pieces.len(),
        count_code(pieces, code, n) <= 1,
        0 <= a < n,
        0 <= b < n,
        pieces[a] == code,
        pieces[b] == code,
    ensures
        a == b,
    decreases n,
{
    lemma_count_nonneg(pieces, code, n - 1);
    if a == n - 1 && b == n - 1 {
    } else if a == n - 1 {
        lemma_count_positive(pieces, code, n - 1, b);
    } else if b == n - 1 {
        lemma_count_positive(pieces, code, n - 1, a);
    } else {
        lemma_count_one_unique(pieces, code, n - 1, a, b);
    }
}

pub proof fn lemma_count_nonneg(pieces: Seq<i32>, code: int, n: int)
    ensures
        count_code(pieces, code, n) >= 0,
    decreases n,
{
    if n > 0 {
        lemma_count_nonneg(pieces, code, n - 1);
    }
}

pub proof fn lemma_count_positive(pieces: Seq<i32>, code: int, n: int, a: int)
    requires
        0 <= a < n,
        pieces[a] == code,
    ensures
        count_code(pieces, code, n) >= 1,
    decreases n,
{
    lemma_count_nonneg(pieces, code, n - 1);
    if a < n - 1 {
        lemma_count_positive(pieces, code, n - 1, a);
    }
}

/// The last slot with a code that occurs is a slot with that code.
pub proof fn lemma_square_of_code_witness(pieces: Seq<i32>, squares: Seq<i32>, code: int, n: int) -> (k: int)
    requires
        0 <= n <= pieces.len(),
        count_code(pieces, code, n) >= 1,
    ensures
        0 <= k < n,
        pieces[k] == code,
        squares[k] == square_of_code(pieces, squares, code, n),
    decreases n,
{
    if n <= 0 {
        0
    } else if pieces[n - 1] == code {
        n - 1
    } else {
        lemma_square_of_code_witness(pieces, squares, code, n - 1)
    }
}

/// Writing a square changes the number of pieces by what the write adds and
/// what it removes.
pub proof fn lemma_count_update(board: Seq<u8>, sq: int, c: u8, n: int)
    requires
        0 <= sq < board.len(),
        0 <= n <= board.len(),
    ensures
        count_pieces(board.update(sq, c), n) == count_pieces(board, n) + if sq < n {
            (if c != 0 {
                1int
            } else {
                0int
            }) - (if board[sq] != 0 {
                1int
            } else {
                0int
            })
        } else {
            0int
        },
    decreases n,
{
    if n > 0 {
        lemma_count_update(board, sq, c, n - 1);
    }
}

pub proof fn lemma_count_pieces_zero(board: Seq<u8>, n: int)
    requires
        0 <= n <= board.len(),
        forall|s: int| 0 <= s < n ==> board[s] == 0,
    ensures
        count_pieces(board, n) == 0,
    decreases n,
{
    if n > 0 {
        lemma_count_pieces_zero(board, n - 1);
    }
}

impl Position {
    /// Builds the position that the slots describe, if they describe a
    /// structurally legal one.
    pub fn from_slots(pieces: &[i32], squares: &[i32], stm: i32, ep: i32) -> (r: Option<Position>)
        ensures
            r is Some <==> slots_valid(pieces@, squares@, stm as int, ep as int),
            r matches Some(p) ==> p@ == slots_pos(pieces@, squares@, stm as int, ep as int) && p@.valid(),
    {
        let n = pieces.len();
        if squares.len() != n || n > MAX_PIECES {
            return None;
        }
        if stm != 0 && stm != 1 {
            return None;
        }
        if ep < 0 || ep > 64 {
            return None;
        }
        let mut board: [u8; 64] = [0u8; 64];
        let mut wk: u8 = 0;
        let mut bk: u8 = 0;
        let mut wk_sq: u8 = 64;
        let mut bk_sq: u8 = 64;
        let mut i: usize = 0;
        proof {
            lemma_count_pieces_zero(board@, 64);
        }
        while i < n
            invariant
                0 <= i <= n,
                n == pieces@.len(),
                n == squares@.len(),
                n <= MAX_PIECES,
                forall|k: int| 0 <= k < i ==> #[trigger] pieces@[k] == 0 || is_piece_code(pieces@[k] as int),
                forall|k: int| 0 <= k < i && #[trigger] occupied(pieces@, k) ==> is_square(squares@[k] as int),
                forall|k: int, j: int| 0 <= k < i && 0 <= j < i && #[trigger] occupied(pieces@, k) && #[trigger] occupied(pieces@, j) && k != j ==> squares@[k] != squares@[j],
                forall|sq: int| 0 <= sq < 64 ==> #[trigger] board@[sq] == piece_on(pieces@, squares@, sq, i as int),
                wk == count_code(pieces@, 6, i as int),
                bk == count_code(pieces@, 14, i as int),
                wk_sq == square_of_code(pieces@, squares@, 6, i as int),
                bk_sq == square_of_code(pieces@, squares@, 14, i as int),
                count_pieces(board@, 64) <= i,
                wk <= i,
                bk <= i,
            decreases n - i,
        {
            let c = pieces[i];
            if c != 0 {
                if !((1 <= c && c <= 6) || (9 <= c && c <= 14)) {
                    return None;
                }
                let s = squares[i];
                if s < 0 || s >= 64 {
                    proof {
                        assert(occupied(pieces@, i as int));
                    }
                    return None;
                }
                if board[s as usize] != 0 {
                    proof {
                        let k = lemma_piece_on_witness(pieces@, squares@, s as int, i as int);
                        assert(occupied(pieces@, i as int));
                        assert(occupied(pieces@, k));
                    }
                    return None;
                }
                proof {
                    lemma_count_update(board@, s as int, c as u8, 64);
                    assert forall|k: int| 0 <= k < i && #[trigger] occupied(pieces@, k) implies squares@[k] != s by {
                        if squares@[k] == s {
                            lemma_piece_on_nonzero(pieces@, squares@, k, i as int);
                        }
                    }
                }
                board[s as usize] = c as u8;
                if c == 6 {
                    wk = wk + 1;
                    wk_sq = s as u8;
                }
                if c == 14 {
                    bk = bk + 1;
                    bk_sq = s as u8;
                }
            }
            i = i + 1;
        }
        if wk != 1 || bk != 1 {
            return None;
        }
        let ghost ps = pieces@;
        let ghost ss = squares@;
        let ghost kw = 0int;
        let ghost kb = 0int;
        proof {
            assert(slots_shaped(ps, ss));
            assert(board@ =~= slot_board(ps, ss));
            kw = lemma_square_of_code_witness(ps, ss, 6, n as int);
            kb = lemma_square_of_code_witness(ps, ss, 14, n as int);
            assert(occupied(ps, kw) && occupied(ps, kb));
        }
        if touching(wk_sq, bk_sq) {
            return None;
        }
        if ep != 64 {
            let e = ep as usize;
            let ok = if stm == 0 {
                e / 8 == 5 && board[e] == 0 && board[e + 8] == 0 && board[e - 8] == 9
            } else {
                e / 8 == 2 && board[e] == 0 && board[e - 8] == 0 && board[e + 8] == 1
            };
            if !ok {
                return None;
            }
        }
        let p = Position { board, stm: stm as u8, ep: ep as u8 };
        proof {
            let m = p@;
            assert(m == slots_pos(ps, ss, stm as int, ep as int));
            assert forall|sq: int| 0 <= sq < 64 implies m.board[sq] == 0 || is_piece_code(#[trigger] m.board[sq] as int) by {
                if m.board[sq] != 0 {
                    let k = lemma_piece_on_witness(ps, ss, sq, n as int);
                }
            }
            lemma_piece_on_slot(ps, ss, kw, n as int);
            lemma_piece_on_slot(ps, ss, kb, n as int);
            assert forall|s: int| 0 <= s < 64 && #[trigger] m.board[s] == 6 implies s == wk_sq by {
                let k = lemma_piece_on_witness(ps, ss, s, n as int);
                lemma_count_one_unique(ps, 6, n as int, k, kw);
            }
            assert forall|s: int| 0 <= s < 64 && #[trigger] m.board[s] == 14 implies s == bk_sq by {
                let k = lemma_piece_on_witness(ps, ss, s, n as int);
                lemma_count_one_unique(ps, 14, n as int, k, kb);
            }
            assert(m.sole_king(6, wk_sq as int));
            assert(m.sole_king(14, bk_sq as int));
            assert(m.king_sq(6) == wk_sq);
            assert(m.king_sq(14) == bk_sq);
        }
        Some(p)
    }
}

/// Structural legality of a candidate position: one king a side, no square
/// used twice, kings apart, codes of the alphabet, at most six pieces, and an
/// en-passant square that a double step explains.
pub fn is_valid_position(pieces: &[i32], squares: &[i32], stm: i32, ep: i32) -> (ok: bool)
    ensures
        ok == slots_valid(pieces@, squares@, stm as int, ep as int),
{
    Position::from_slots(pieces, squares, stm, ep).is_some()
}

} // verus!
