//! Retrograde moves: the positions from which a position is reached by one
//! legal move. An unmove may put a taken piece back on the board, or turn a
//! promoted piece back into a pawn.
use vstd::prelude::*;
use crate::attack::{king_code, own_piece};
use crate::codes::{code_of, color_of, file_of, is_piece_code, is_square, role_of};
use crate::movegen::{apply, is_ep_capture, legal, pawn_dir, pseudo_legal, lemma_apply_kings, Move, Mv};
use crate::orient::lemma_king_sq;
use crate::position::{Pos, Position};

verus! {

/// `q` is a valid position from which the legal move `m` leads to `p`.
pub open spec fn is_pred(p: Pos, q: Pos, m: Mv) -> bool {
    q.valid() && legal(q, m) && apply(q, m) == p
}

/// The position before the move `m` that led to `p`, if the square reached
/// held `r` before and the en-passant square was `e`.
pub open spec fn unmove(p: Pos, m: Mv, r: u8, e: u8) -> Pos {
    let mover = 1 - p.stm;
    let before = if m.promo != 0 {
        code_of(1, mover) as u8
    } else {
        p.board[m.to]
    };
    let b1 = p.board.update(m.to, r).update(m.from, before);
    let took_ep = role_of(before as int) == 1 && e != 64 && m.to == e && file_of(m.to) != file_of(m.from);
    let b2 = if took_ep {
        b1.update(m.to - pawn_dir(mover), code_of(1, p.stm as int) as u8)
    } else {
        b1
    };
    Pos { board: b2, stm: mover as u8, ep: e }
}

/// A position before a move is the unmove of the position after it.
pub proof fn lemma_pred_is_unmove(p: Pos, q: Pos, m: Mv)
    requires
        is_pred(p, q, m),
    ensures
        q == unmove(p, m, q.board[m.to], q.ep),
        is_square(m.from),
        is_square(m.to),
        m.from != m.to,
        p.board[m.from] == 0,
        own_piece(p.board[m.to], 1 - p.stm),
        m.promo == 0 || 2 <= m.promo <= 5,
        q.board[m.to] < 16,
        q.ep <= 64,
        p.stm <= 1,
{
    let u = unmove(p, m, q.board[m.to], q.ep);
    assert(q.board[m.from] == 0 || is_piece_code(q.board[m.from] as int));
    assert(q.board[m.to] == 0 || is_piece_code(q.board[m.to] as int));
    let stm = q.stm as int;
    if is_ep_capture(q, m) {
        let cap = m.to - pawn_dir(stm);
        assert(0 <= cap < 64);
    }
    assert forall|s: int| 0 <= s < 64 implies q.board[s] == u.board[s] by {
    }
    assert(q.board =~= u.board);
}

/// The pair is in the list.
pub open spec fn listed_pred(out: Seq<(Position, Move)>, q: Pos, m: Mv) -> bool {
    exists|i: int| 0 <= i < out.len() && (#[trigger] out[i]).0@ == q && out[i].1@ == m
}

pub proof fn lemma_listed_pred_push(out: Seq<(Position, Move)>, x: (Position, Move), q: Pos, m: Mv)
    ensures
        listed_pred(out.push(x), q, m) <==> (listed_pred(out, q, m) || (x.0@ == q && x.1@ == m)),
{
    let o = out.push(x);
    if listed_pred(o, q, m) {
        let i = choose|i: int| 0 <= i < o.len() && (#[trigger] o[i]).0@ == q && o[i].1@ == m;
        if i < out.len() {
            assert(out[i].0@ == q && out[i].1@ == m);
        }
    }
    if listed_pred(out, q, m) {
        let i = choose|i: int| 0 <= i < out.len() && (#[trigger] out[i]).0@ == q && out[i].1@ == m;
        assert(o[i].0@ == q && o[i].1@ == m);
    }
    if x.0@ == q && x.1@ == m {
        assert(o[out.len() as int].0@ == q && o[out.len() as int].1@ == m);
    }
}

/// No pair stands twice in the list.
pub open spec fn no_twice(out: Seq<(Position, Move)>) -> bool {
    forall|i: int, j: int| 0 <= i < j < out.len() ==> !((#[trigger] out[i]).0@ == (#[trigger] out[j]).0@ && out[i].1@ == out[j].1@)
}

/// An unmove that is a predecessor holds on the square reached what it was
/// given to hold there, and has the en-passant square it was given.
pub proof fn lemma_unmove_key(p: Pos, m: Mv, r: u8, e: u8)
    requires
        p.valid(),
        is_pred(p, unmove(p, m, r, e), m),
    ensures
        unmove(p, m, r, e).board[m.to] == r,
        unmove(p, m, r, e).ep == e,
{
    let u = unmove(p, m, r, e);
    lemma_pred_is_unmove(p, u, m);
    let mover = 1 - p.stm;
    let before = if m.promo != 0 {
        code_of(1, mover) as u8
    } else {
        p.board[m.to]
    };
    let took_ep = role_of(before as int) == 1 && e != 64 && m.to == e && file_of(m.to) != file_of(m.from);
    if took_ep {
        assert(crate::position::ep_consistent(u.board, u.stm as int, u.ep as int));
        let cap = m.to - pawn_dir(mover);
        assert(0 <= cap < 64);
    }
}

impl Position {
    /// Whether two positions are the same.
    pub fn same(&self, other: &Position) -> (r: bool)
        ensures
            r == (self@ == other@),
    {
        if self.stm != other.stm || self.ep != other.ep {
            return false;
        }
        let mut s: usize = 0;
        while s < 64
            invariant
                0 <= s <= 64,
                forall|j: int| 0 <= j < s ==> self.board@[j] == other.board@[j],
            decreases 64 - s,
        {
            if self.board[s] != other.board[s] {
                return false;
            }
            s = s + 1;
        }
        proof {
            assert(self.board@ =~= other.board@);
        }
        true
    }

    /// Whether the move is legal.
    pub fn is_legal_move(&self, m: Move) -> (r: bool)
        requires
            self@.valid(),
        ensures
            r == legal(self@, m@),
    {
        if !self.pseudo_legal_move(m) {
            return false;
        }
        let (wk, bk) = self.king_squares();
        let own: u8 = if self.stm == 0 {
            wk
        } else {
            bk
        };
        let q = self.play(m);
        let ksq: u8 = if self.board[m.from as usize] == 6 + 8 * self.stm {
            m.to
        } else {
            own
        };
        proof {
            lemma_apply_kings(self@, m@);
            lemma_king_sq(q@, king_code(self@.stm as int), ksq as int);
        }
        !q.checked(self.stm, ksq)
    }

    /// The position before the move `m`, if the square reached held `r`
    /// before and the en-passant square was `e`, provided that this is a
    /// valid position from which `m` is legal and leads here.
    pub fn unmoved(&self, m: Move, r: u8, e: u8) -> (res: Option<Position>)
        requires
            self@.valid(),
            m.from < 64,
            m.to < 64,
            m.from != m.to,
            r < 16,
            e <= 64,
        ensures
            res is Some <==> is_pred(self@, unmove(self@, m@, r, e), m@),
            res matches Some(q) ==> q@ == unmove(self@, m@, r, e),
    {
        let mover: u8 = 1 - self.stm;
        if m.promo > 5 {
            proof {
                let u = unmove(self@, m@, r, e);
                if pseudo_legal(u, m@) {
                    assert(u.board[m.from as int] == code_of(1, mover as int));
                }
            }
            return None;
        }
        let before: u8 = if m.promo != 0 {
            1 + 8 * mover
        } else {
            self.board[m.to as usize]
        };
        proof {
            assert(self@.board[m.to as int] == 0 || is_piece_code(self@.board[m.to as int] as int));
        }
        let mut board: [u8; 64] = self.board;
        board[m.to as usize] = r;
        board[m.from as usize] = before;
        let role: u8 = if before >= 9 {
            before - 8
        } else {
            before
        };
        let took_ep = role == 1 && e != 64 && m.to == e && m.to % 8 != m.from % 8;
        if took_ep {
            let cap: i16 = if mover == 0 {
                m.to as i16 - 8
            } else {
                m.to as i16 + 8
            };
            if cap < 0 || cap >= 64 {
                proof {
                    let u = unmove(self@, m@, r, e);
                    if u.valid() {
                        assert(crate::position::ep_consistent(u.board, u.stm as int, u.ep as int));
                    }
                }
                return None;
            }
            board[cap as usize] = 1 + 8 * self.stm;
        }
        let q = Position { board, stm: mover, ep: e };
        proof {
            assert(q@.board =~= unmove(self@, m@, r, e).board);
            assert(q@ == unmove(self@, m@, r, e));
        }
        let mut ok = true;
        let mut s: usize = 0;
        let ghost mut bad: int = 0;
        while s < 64
            invariant
                0 <= s <= 64,
                ok ==> forall|j: int| 0 <= j < s ==> q@.board[j] == 0 || is_piece_code(#[trigger] q@.board[j] as int),
                !ok ==> 0 <= bad < 64 && !(q@.board[bad] == 0 || is_piece_code(q@.board[bad] as int)),
            decreases 64 - s,
        {
            let c = q.board[s];
            if !(c == 0 || (1 <= c && c <= 6) || (9 <= c && c <= 14)) {
                ok = false;
                proof {
                    bad = s as int;
                }
            }
            s = s + 1;
        }
        if !ok {
            proof {
                if q@.valid() {
                    assert(q@.board[bad] == 0 || is_piece_code(q@.board[bad] as int));
                }
            }
            return None;
        }
        if !q.is_valid() {
            return None;
        }
        if !q.is_legal_move(m) {
            return None;
        }
        let p = q.play(m);
        if !p.same(self) {
            return None;
        }
        Some(q)
    }

    /// The positions before the move `m`, for every piece that may have been
    /// taken and every en-passant square that may have stood.
    pub fn unmoves_of(&self, m: Move, out: &mut Vec<(Position, Move)>)
        requires
            self@.valid(),
            m.from < 64,
            m.to < 64,
            m.from != m.to,
            no_twice(old(out)@),
            forall|i: int| 0 <= i < old(out)@.len() ==> (#[trigger] old(out)@[i]).1@ != m@,
        ensures
            forall|q: Pos, x: Mv| #[trigger] listed_pred(final(out)@, q, x) <==> (listed_pred(old(out)@, q, x) || (x == m@ && is_pred(self@, q, x))),
            no_twice(final(out)@),
            final(out)@.len() >= old(out)@.len(),
            forall|i: int| 0 <= i < final(out)@.len() ==> (i < old(out)@.len() && #[trigger] final(out)@[i] == old(out)@[i]) || final(out)@[i].1 == m,
    {
        let ghost o0 = out@;
        let mut r: u8 = 0;
        while r < 16
            invariant
                0 <= r <= 16,
                self@.valid(),
                m.from < 64,
                m.to < 64,
                m.from != m.to,
                no_twice(out@),
                out@.len() >= o0.len(),
                forall|i: int| 0 <= i < o0.len() ==> #[trigger] out@[i] == o0[i],
                forall|i: int| 0 <= i < o0.len() ==> (#[trigger] o0[i]).1@ != m@,
                forall|i: int| o0.len() <= i < out@.len() ==> (#[trigger] out@[i]).1 == m && out@[i].0@.board[m.to as int] < r,
                forall|q: Pos, x: Mv| #[trigger] listed_pred(out@, q, x) <==> (listed_pred(o0, q, x) || (x == m@ && is_pred(self@, q, x) && q.board[m.to as int] < r)),
            decreases 16 - r,
        {
            let mut e: u8 = 0;
            while e <= 64
                invariant
                    0 <= e <= 65,
                    0 <= r < 16,
                    self@.valid(),
                    m.from < 64,
                    m.to < 64,
                    m.from != m.to,
                    no_twice(out@),
                    out@.len() >= o0.len(),
                    forall|i: int| 0 <= i < o0.len() ==> #[trigger] out@[i] == o0[i],
                    forall|i: int| 0 <= i < o0.len() ==> (#[trigger] o0[i]).1@ != m@,
                    forall|i: int| o0.len() <= i < out@.len() ==> (#[trigger] out@[i]).1 == m && (out@[i].0@.board[m.to as int] < r || (
                    out@[i].0@.board[m.to as int] == r && out@[i].0@.ep < e)),
                    forall|q: Pos, x: Mv| #[trigger] listed_pred(out@, q, x) <==> (listed_pred(o0, q, x) || (x == m@ && is_pred(self@, q, x) && (q.board[m.to as int] < r || (q.board[m.to as int] == r && q.ep < e)))),
                decreases 65 - e,
            {
                let ghost before = out@;
                let res = self.unmoved(m, r, e);
                match res {
                    Some(q) => {
                        proof {
                            lemma_unmove_key(self@, m@, r, e);
                        }
                        out.push((q, m));
                    },
                    None => {},
                }
                proof {
                    let u = unmove(self@, m@, r, e);
                    assert forall|q: Pos, x: Mv| #[trigger] listed_pred(out@, q, x) <==> (listed_pred(o0, q, x) || (x == m@ && is_pred(self@, q, x) && (q.board[m.to as int] < r || (q.board[m.to as int] == r && q.ep < e + 1)))) by {
                        if res is Some {
                            lemma_listed_pred_push(before, (res->Some_0, m), q, x);
                        }
                        if x == m@ && is_pred(self@, q, x) {
                            lemma_pred_is_unmove(self@, q, x);
                        }
                        if is_pred(self@, u, m@) {
                            lemma_pred_is_unmove(self@, u, m@);
                        }
                    }
                }
                e = e + 1;
            }
            proof {
                assert forall|q: Pos, x: Mv| #[trigger] listed_pred(out@, q, x) <==> (listed_pred(o0, q, x) || (x == m@ && is_pred(self@, q, x) && q.board[m.to as int] < r + 1)) by {
                    if x == m@ && is_pred(self@, q, x) {
                        lemma_pred_is_unmove(self@, q, x);
                    }
                }
            }
            r = r + 1;
        }
        proof {
            assert forall|q: Pos, x: Mv| #[trigger] listed_pred(out@, q, x) <==> (listed_pred(o0, q, x) || (x == m@ && is_pred(self@, q, x))) by {
                if x == m@ && is_pred(self@, q, x) {
                    lemma_pred_is_unmove(self@, q, x);
                }
            }
        }
    }

    /// The predecessors: every valid position together with the legal move
    /// that leads from it to this position.
    pub fn predecessors(&self) -> (out: Vec<(Position, Move)>)
        requires
            self@.valid(),
        ensures
            forall|q: Pos, m: Mv| #[trigger] listed_pred(out@, q, m) <==> is_pred(self@, q, m),
            no_twice(out@),
    {
        let mut out: Vec<(Position, Move)> = Vec::new();
        let mut to: u8 = 0;
        while to < 64
            invariant
                0 <= to <= 64,
                self@.valid(),
                forall|q: Pos, m: Mv| #[trigger] listed_pred(out@, q, m) <==> (is_pred(self@, q, m) && m.to < to),
                no_twice(out@),
                forall|i: int| 0 <= i < out@.len() ==> (#[trigger] out@[i]).1.to < to,
            decreases 64 - to,
        {
            let c = self.board[to as usize];
            let mine = c != 0 && (c >= 9) != (self.stm == 1);
            let mut from: u8 = 0;
            while from < 64
                invariant
                    0 <= from <= 64,
                    0 <= to < 64,
                    self@.valid(),
                    c == self@.board[to as int],
                    mine == own_piece(c, 1 - self@.stm),
                    forall|q: Pos, m: Mv| #[trigger] listed_pred(out@, q, m) <==> (is_pred(self@, q, m) && (m.to < to || (m.to == to && m.from < from))),
                    no_twice(out@),
                    forall|i: int| 0 <= i < out@.len() ==> (#[trigger] out@[i]).1.to < to || (out@[i].1.to == to && out@[i].1.from < from),
                decreases 64 - from,
            {
                let ghost o0 = out@;
                let m0 = Move { from, to, promo: 0 };
                let m2 = Move { from, to, promo: 2 };
                let m3 = Move { from, to, promo: 3 };
                let m4 = Move { from, to, promo: 4 };
                let m5 = Move { from, to, promo: 5 };
                let go = mine && from != to && self.board[from as usize] == 0;
                if go {
                    self.unmoves_of(m0, &mut out);
                }
                let ghost o1 = out@;
                if go {
                    self.unmoves_of(m2, &mut out);
                }
                let ghost o2 = out@;
                if go {
                    self.unmoves_of(m3, &mut out);
                }
                let ghost o3 = out@;
                if go {
                    self.unmoves_of(m4, &mut out);
                }
                let ghost o4 = out@;
                if go {
                    self.unmoves_of(m5, &mut out);
                }
                proof {
                    assert forall|q: Pos, m: Mv| #[trigger] listed_pred(out@, q, m) <==> (is_pred(self@, q, m) && (m.to < to || (m.to == to && m.from < from + 1))) by {
                        if is_pred(self@, q, m) {
                            lemma_pred_is_unmove(self@, q, m);
                        }
                        if m.to == to && m.from == from && is_pred(self@, q, m) {
                            assert(m == m0@ || m == m2@ || m == m3@ || m == m4@ || m == m5@);
                        }
                        let a0 = listed_pred(o0, q, m);
                        let a1 = listed_pred(o1, q, m);
                        let a2 = listed_pred(o2, q, m);
                        let a3 = listed_pred(o3, q, m);
                        let a4 = listed_pred(o4, q, m);
                    }
                }
                from = from + 1;
            }
            to = to + 1;
        }
        out
    }
}

} // verus!
