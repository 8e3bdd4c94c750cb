//! The legal moves of a position and the positions they lead to. There is no
//! castling: with so few pieces left the right to castle is gone.
use vstd::prelude::*;
use crate::attack::{
    abs, attacks, attacks_exec, dist, enemy_piece, king_code, own_piece,
};
use crate::codes::{code_of, color_of, file_of, is_piece_code, is_square, rank_of, role_of, squares_touch};
use crate::orient::lemma_king_sq;
use crate::position::{count_pieces, ep_consistent, lemma_count_update, Pos, Position};

verus! {

/// A move in the model: the square left, the square reached, and the role
/// that a pawn is promoted to (0 for no promotion).
pub struct Mv {
    pub from: int,
    pub to: int,
    pub promo: int,
}

/// A move.
#[derive(Clone, Copy, Debug, PartialEq, Eq)]
pub struct Move {
    pub from: u8,
    pub to: u8,
    pub promo: u8,
}

impl View for Move {
    type V = Mv;

    open spec fn view(&self) -> Mv {
        Mv { from: self.from as int, to: self.to as int, promo: self.promo as int }
    }
}

/// What a pawn of the side adds to its square with one step.
pub open spec fn pawn_dir(stm: int) -> int {
    if stm == 0 {
        8
    } else {
        -8
    }
}

/// The move is a pawn taking en passant.
pub open spec fn is_ep_capture(p: Pos, m: Mv) -> bool {
    role_of(p.board[m.from] as int) == 1 && p.ep != 64 && m.to == p.ep && file_of(m.to) != file_of(m.from)
}

/// The move is a pawn's double step.
pub open spec fn is_double_push(p: Pos, m: Mv) -> bool {
    role_of(p.board[m.from] as int) == 1 && m.to == m.from + 2 * pawn_dir(p.stm as int)
}

/// The position after the move.
pub open spec fn apply(p: Pos, m: Mv) -> Pos {
    let piece = p.board[m.from];
    let placed = if m.promo != 0 {
        code_of(m.promo, p.stm as int) as u8
    } else {
        piece
    };
    let b1 = p.board.update(m.from, 0u8).update(m.to, placed);
    let b2 = if is_ep_capture(p, m) {
        b1.update(m.to - pawn_dir(p.stm as int), 0u8)
    } else {
        b1
    };
    Pos {
        board: b2,
        stm: (1 - p.stm) as u8,
        ep: if is_double_push(p, m) {
            (m.from + pawn_dir(p.stm as int)) as u8
        } else {
            64u8
        },
    }
}

/// The ways a pawn moves: one step, two steps from its own second rank, or a
/// capture, of a piece or en passant; on the last rank it is promoted to
/// knight, bishop, rook or queen.
pub open spec fn pawn_move_ok(p: Pos, m: Mv) -> bool {
    let stm = p.stm as int;
    let dir = pawn_dir(stm);
    let last = rank_of(m.to) == if stm == 0 {
        7int
    } else {
        0int
    };
    let home = rank_of(m.from) == if stm == 0 {
        1int
    } else {
        6int
    };
    &&& if last {
        2 <= m.promo <= 5
    } else {
        m.promo == 0
    }
    &&& {
        ||| (m.to == m.from + dir && p.board[m.to] == 0)
        ||| (m.to == m.from + 2 * dir && home && p.board[m.from + dir] == 0 && p.board[m.to] == 0)
        ||| (attacks(p.board, m.from, m.to) && (p.board[m.to] != 0 || (p.ep != 64 && m.to == p.ep)))
    }
}

/// The move obeys the way its piece moves; kings are never taken.
pub open spec fn pseudo_legal(p: Pos, m: Mv) -> bool {
    &&& is_square(m.from)
    &&& is_square(m.to)
    &&& own_piece(p.board[m.from], p.stm as int)
    &&& !own_piece(p.board[m.to], p.stm as int)
    &&& role_of(p.board[m.to] as int) != 6
    &&& if role_of(p.board[m.from] as int) == 1 {
        pawn_move_ok(p, m)
    } else {
        m.promo == 0 && attacks(p.board, m.from, m.to)
    }
}

/// The move obeys the way its piece moves and does not leave the mover's
/// king in check.
pub open spec fn legal(p: Pos, m: Mv) -> bool {
    pseudo_legal(p, m) && !apply(p, m).in_check(p.stm as int)
}

/// `q` is reached from `p` by one legal move.
pub open spec fn is_successor(p: Pos, q: Pos) -> bool {
    exists|m: Mv| #[trigger] legal(p, m) && apply(p, m) == q
}

/// The move is in the list.
pub open spec fn listed(out: Seq<Move>, m: Mv) -> bool {
    exists|i: int| 0 <= i < out.len() && (#[trigger] out[i])@ == m
}

pub proof fn lemma_listed_push(out: Seq<Move>, x: Move, m: Mv)
    ensures
        listed(out.push(x), m) <==> (listed(out, m) || x@ == m),
{
    let o = out.push(x);
    if listed(o, m) {
        let i = choose|i: int| 0 <= i < o.len() && (#[trigger] o[i])@ == m;
        if i < out.len() {
            assert(out[i]@ == m);
        }
    }
    if listed(out, m) {
        let i = choose|i: int| 0 <= i < out.len() && (#[trigger] out[i])@ == m;
        assert(o[i]@ == m);
    }
    if x@ == m {
        assert(o[out.len() as int]@ == m);
    }
}

/// After a move each side still has its one king: the mover's where it went
/// if it moved, the other where it stood.
pub proof fn lemma_apply_kings(p: Pos, m: Mv)
    requires
        p.valid(),
        pseudo_legal(p, m),
    ensures
        apply(p, m).sole_king(
            king_code(p.stm as int),
            if p.board[m.from] == king_code(p.stm as int) {
                m.to
            } else {
                p.king_sq(king_code(p.stm as int))
            },
        ),
        apply(p, m).sole_king(king_code(1 - p.stm), p.king_sq(king_code(1 - p.stm))),
        apply(p, m).board.len() == 64,
{
    let q = apply(p, m);
    let own = king_code(p.stm as int);
    let other = king_code(1 - p.stm);
    let ok = p.king_sq(own);
    let ek = p.king_sq(other);
    assert(p.sole_king(6, p.king_sq(6)) && p.sole_king(14, p.king_sq(14)));
    assert(p.sole_king(own, ok) && p.sole_king(other, ek));
    assert(p.board[m.from] == 0 || is_piece_code(p.board[m.from] as int));
    assert(p.board[m.to] == 0 || is_piece_code(p.board[m.to] as int));
    if is_ep_capture(p, m) {
        let cap = m.to - pawn_dir(p.stm as int);
        assert(0 <= cap < 64);
        assert(p.board[cap] != 6 && p.board[cap] != 14);
    }
}

/// A legal move from a valid position leads to a valid position.
pub proof fn lemma_apply_valid(p: Pos, m: Mv)
    requires
        p.valid(),
        legal(p, m),
    ensures
        apply(p, m).valid(),
{
    let q = apply(p, m);
    let stm = p.stm as int;
    let own = king_code(stm);
    let other = king_code(1 - stm);
    lemma_apply_kings(p, m);
    let nk = if p.board[m.from] == own {
        m.to
    } else {
        p.king_sq(own)
    };
    let ek = p.king_sq(other);
    lemma_king_sq(q, own, nk);
    lemma_king_sq(q, other, ek);
    assert(p.sole_king(6, p.king_sq(6)) && p.sole_king(14, p.king_sq(14)));
    assert(p.board[m.from] == 0 || is_piece_code(p.board[m.from] as int));
    assert forall|sq: int| 0 <= sq < 64 implies q.board[sq] == 0 || is_piece_code(#[trigger] q.board[sq] as int) by {
        assert(p.board[sq] == 0 || is_piece_code(p.board[sq] as int));
    }
    // The kings stay apart: a king that stepped next to the other would be
    // in check.
    if squares_touch(nk, ek) {
        if p.board[m.from] == own {
            assert(enemy_piece(q.board[ek], stm));
            assert(attacks(q.board, ek, nk));
            assert(q.attacked_by_enemy(stm, nk));
        }
    }
    // No more pieces than before.
    let b0 = p.board;
    let b1 = b0.update(m.from, 0u8);
    let placed = if m.promo != 0 {
        code_of(m.promo, stm) as u8
    } else {
        b0[m.from]
    };
    let b2 = b1.update(m.to, placed);
    lemma_count_update(b0, m.from, 0u8, 64);
    lemma_count_update(b1, m.to, placed, 64);
    if is_ep_capture(p, m) {
        lemma_count_update(b2, m.to - pawn_dir(stm), 0u8, 64);
    }
    assert(ep_consistent(q.board, q.stm as int, q.ep as int));
}

impl Position {
    /// Whether the move obeys the way its piece moves.
    pub fn pseudo_legal_move(&self, m: Move) -> (r: bool)
        requires
            self@.wf(),
        ensures
            r == pseudo_legal(self@, m@),
    {
        if m.from >= 64 || m.to >= 64 {
            return false;
        }
        let c = self.board[m.from as usize];
        let t = self.board[m.to as usize];
        proof {
            assert(self@.board[m.from as int] == 0 || is_piece_code(self@.board[m.from as int] as int));
            assert(self@.board[m.to as int] == 0 || is_piece_code(self@.board[m.to as int] as int));
        }
        if c == 0 || (c >= 9) != (self.stm == 1) {
            return false;
        }
        if t != 0 && (t >= 9) == (self.stm == 1) {
            return false;
        }
        if t == 6 || t == 14 {
            return false;
        }
        let role: u8 = if c >= 9 {
            c - 8
        } else {
            c
        };
        if role != 1 {
            return m.promo == 0 && attacks_exec(&self.board, m.from, m.to);
        }
        let from: i16 = m.from as i16;
        let to: i16 = m.to as i16;
        let dir: i16 = if self.stm == 0 {
            8
        } else {
            -8
        };
        let last: bool = m.to / 8 == if self.stm == 0 {
            7
        } else {
            0
        };
        let home: bool = m.from / 8 == if self.stm == 0 {
            1
        } else {
            6
        };
        if last {
            if !(2 <= m.promo && m.promo <= 5) {
                return false;
            }
        } else if m.promo != 0 {
            return false;
        }
        if to == from + dir && t == 0 {
            return true;
        }
        if to == from + 2 * dir && home && t == 0 && self.board[(from + dir) as usize] == 0 {
            return true;
        }
        attacks_exec(&self.board, m.from, m.to) && (t != 0 || (self.ep != 64 && m.to == self.ep))
    }

    /// The position after a move that obeys the way its piece moves.
    pub fn play(&self, m: Move) -> (q: Position)
        requires
            self@.wf(),
            pseudo_legal(self@, m@),
        ensures
            q@ == apply(self@, m@),
    {
        let c = self.board[m.from as usize];
        let role: u8 = if c >= 9 {
            c - 8
        } else {
            c
        };
        let placed: u8 = if m.promo != 0 {
            m.promo + 8 * self.stm
        } else {
            c
        };
        let mut board: [u8; 64] = self.board;
        board[m.from as usize] = 0;
        board[m.to as usize] = placed;
        let dir: i16 = if self.stm == 0 {
            8
        } else {
            -8
        };
        proof {
            assert(self@.board[m.from as int] == 0 || is_piece_code(self@.board[m.from as int] as int));
        }
        if role == 1 && self.ep != 64 && m.to == self.ep && m.to % 8 != m.from % 8 {
            let cap: i16 = m.to as i16 - dir;
            board[cap as usize] = 0;
        }
        let ep: u8 = if role == 1 && m.to as i16 == m.from as i16 + 2 * dir {
            (m.from as i16 + dir) as u8
        } else {
            64
        };
        let q = Position { board, stm: 1 - self.stm, ep };
        proof {
            assert(q@.board =~= apply(self@, m@).board);
        }
        q
    }

    /// Adds the move to the list if it is legal.
    pub fn try_move(&self, m: Move, own_king: u8, out: &mut Vec<Move>)
        requires
            self@.valid(),
            own_king == self@.king_sq(king_code(self@.stm as int)),
        ensures
            final(out)@ == if legal(self@, m@) {
                old(out)@.push(m)
            } else {
                old(out)@
            },
    {
        if self.pseudo_legal_move(m) {
            let q = self.play(m);
            let ksq: u8 = if self.board[m.from as usize] == 6 + 8 * self.stm {
                m.to
            } else {
                own_king
            };
            proof {
                lemma_apply_kings(self@, m@);
                lemma_king_sq(q@, king_code(self@.stm as int), ksq as int);
                assert(self@.sole_king(6, self@.king_sq(6)) && self@.sole_king(14, self@.king_sq(14)));
            }
            if !q.checked(self.stm, ksq) {
                out.push(m);
            }
        }
    }

    /// The legal moves.
    pub fn legal_moves(&self) -> (out: Vec<Move>)
        requires
            self@.valid(),
        ensures
            forall|m: Mv| #[trigger] listed(out@, m) <==> legal(self@, m),
            out@.no_duplicates(),
    {
        let (wk, bk) = self.king_squares();
        let own_king: u8 = if self.stm == 0 {
            wk
        } else {
            bk
        };
        let mut out: Vec<Move> = Vec::new();
        let mut from: u8 = 0;
        while from < 64
            invariant
                0 <= from <= 64,
                self@.valid(),
                own_king == self@.king_sq(king_code(self@.stm as int)),
                forall|m: Mv| #[trigger] listed(out@, m) <==> (legal(self@, m) && m.from < from),
                out@.no_duplicates(),
            decreases 64 - from,
        {
            let c = self.board[from as usize];
            if c != 0 && (c >= 9) == (self.stm == 1) {
                let pawn = c == 1 || c == 9;
                let mut to: u8 = 0;
                while to < 64
                    invariant
                        0 <= to <= 64,
                        0 <= from < 64,
                        self@.valid(),
                        c == self@.board[from as int],
                        pawn == (role_of(c as int) == 1),
                        own_king == self@.king_sq(king_code(self@.stm as int)),
                        forall|m: Mv| #[trigger] listed(out@, m) <==> (legal(self@, m) && (m.from < from || (m.from == from && m.to < to))),
                        out@.no_duplicates(),
                    decreases 64 - to,
                {
                    let ghost o0 = out@;
                    let m0 = Move { from, to, promo: 0 };
                    self.try_move(m0, own_king, &mut out);
                    let ghost o1 = out@;
                    let m2 = Move { from, to, promo: 2 };
                    let m3 = Move { from, to, promo: 3 };
                    let m4 = Move { from, to, promo: 4 };
                    let m5 = Move { from, to, promo: 5 };
                    let promotes = pawn && (to / 8 == 7 || to / 8 == 0);
                    if promotes {
                        self.try_move(m2, own_king, &mut out);
                    }
                    let ghost o2 = out@;
                    if promotes {
                        self.try_move(m3, own_king, &mut out);
                    }
                    let ghost o3 = out@;
                    if promotes {
                        self.try_move(m4, own_king, &mut out);
                    }
                    let ghost o4 = out@;
                    if promotes {
                        self.try_move(m5, own_king, &mut out);
                    }
                    proof {
                        assert(out@.no_duplicates()) by {
                            assert forall|i: int| 0 <= i < o0.len() implies (#[trigger] o0[i]).from != from || o0[i].to != to by {
                                assert(listed(o0, o0[i]@));
                            }
                            assert(o1.no_duplicates());
                            assert(o2.no_duplicates());
                            assert(o3.no_duplicates());
                            assert(o4.no_duplicates());
                        }
                        assert forall|m: Mv| #[trigger] listed(out@, m) <==> (legal(self@, m) && (m.from < from || (m.from == from && m.to < to + 1))) by {
                            lemma_listed_push(o0, m0, m);
                            lemma_listed_push(o1, m2, m);
                            lemma_listed_push(o2, m3, m);
                            lemma_listed_push(o3, m4, m);
                            lemma_listed_push(o4, m5, m);
                            assert(self@.board[from as int] == 0 || is_piece_code(self@.board[from as int] as int));
                            if m.from == from && m.to == to && legal(self@, m) {
                                assert(m.promo == 0 || (2 <= m.promo <= 5 && promotes));
                                assert(m == m0@ || m == m2@ || m == m3@ || m == m4@ || m == m5@);
                            }
                        }
                    }
                    to = to + 1;
                }
            } else {
                proof {
                    assert forall|m: Mv| m.from == from implies !legal(self@, m) by {
                        assert(self@.board[from as int] == 0 || is_piece_code(self@.board[from as int] as int));
                    }
                }
            }
            from = from + 1;
        }
        out
    }
}

/// The position is in the list.
pub open spec fn listed_pos(out: Seq<Position>, q: Pos) -> bool {
    exists|i: int| 0 <= i < out.len() && (#[trigger] out[i])@ == q
}

impl Position {
    /// The successors: the positions after the legal moves, one for each
    /// move.
    pub fn successors(&self) -> (out: Vec<Position>)
        requires
            self@.valid(),
        ensures
            forall|q: Pos| #[trigger] listed_pos(out@, q) <==> is_successor(self@, q),
            forall|i: int| 0 <= i < out@.len() ==> (#[trigger] out@[i])@.valid(),
    {
        let moves = self.legal_moves();
        let mut out: Vec<Position> = Vec::new();
        let mut k: usize = 0;
        while k < moves.len()
            invariant
                0 <= k <= moves@.len(),
                self@.valid(),
                forall|m: Mv| #[trigger] listed(moves@, m) <==> legal(self@, m),
                out@.len() == k,
                forall|i: int| 0 <= i < k ==> (#[trigger] out@[i])@ == apply(self@, moves@[i]@),
                forall|i: int| 0 <= i < k ==> (#[trigger] out@[i])@.valid(),
            decreases moves@.len() - k,
        {
            let m = moves[k];
            proof {
                assert(listed(moves@, m@));
                lemma_apply_valid(self@, m@);
            }
            let q = self.play(m);
            out.push(q);
            k = k + 1;
        }
        proof {
            assert forall|q: Pos| #[trigger] listed_pos(out@, q) <==> is_successor(self@, q) by {
                if listed_pos(out@, q) {
                    let i = choose|i: int| 0 <= i < out@.len() && (#[trigger] out@[i])@ == q;
                    assert(listed(moves@, moves@[i]@));
                    assert(legal(self@, moves@[i]@) && apply(self@, moves@[i]@) == q);
                }
                if is_successor(self@, q) {
                    let m = choose|m: Mv| #[trigger] legal(self@, m) && apply(self@, m) == q;
                    assert(listed(moves@, m));
                    let i = choose|i: int| 0 <= i < moves@.len() && (#[trigger] moves@[i])@ == m;
                    assert(out@[i]@ == q);
                }
            }
        }
        out
    }
}

} // verus!
