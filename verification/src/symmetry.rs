//! The symmetries of the empty board and the exchange of the two colors.
//!
//! A transform is a number below eight: when it is four or more the board is
//! first reflected in the a1-h8 diagonal, then bit 0 reflects the files and
//! bit 1 the ranks.
use vstd::prelude::*;
use crate::codes::{is_piece_code, swap_code, swapped_code};
use crate::position::{Pos, Position};

verus! {

/// Whether the transform reflects the files.
pub open spec fn flips_files(t: int) -> bool {
    t == 1 || t == 3 || t == 5 || t == 7
}

/// Whether the transform reflects the ranks.
pub open spec fn flips_ranks(t: int) -> bool {
    t == 2 || t == 3 || t == 6 || t == 7
}

/// The file of the image of the square on file `f` and rank `r`.
pub open spec fn tf_file(t: int, f: int, r: int) -> int {
    let f1 = if t >= 4 {
        r
    } else {
        f
    };
    if flips_files(t) {
        7 - f1
    } else {
        f1
    }
}

/// The rank of the image of the square on file `f` and rank `r`.
pub open spec fn tf_rank(t: int, f: int, r: int) -> int {
    let r1 = if t >= 4 {
        f
    } else {
        r
    };
    if flips_ranks(t) {
        7 - r1
    } else {
        r1
    }
}

/// Where the transform `t` sends the square `sq`.
pub open spec fn tf_square(t: int, sq: int) -> int {
    tf_rank(t, sq % 8, sq / 8) * 8 + tf_file(t, sq % 8, sq / 8)
}

/// The transform that undoes `t`.
pub open spec fn tf_inverse(t: int) -> int {
    if t == 5 {
        6
    } else if t == 6 {
        5
    } else {
        t
    }
}

/// The transform that applies `b` and then `a`.
pub open spec fn tf_compose(a: int, b: int) -> int {
    let x = if (a >= 4) != (b >= 4) {
        4int
    } else {
        0int
    };
    let f = if a >= 4 {
        flips_ranks(b)
    } else {
        flips_files(b)
    };
    let r = if a >= 4 {
        flips_files(b)
    } else {
        flips_ranks(b)
    };
    let ff = if flips_files(a) != f {
        1int
    } else {
        0int
    };
    let rr = if flips_ranks(a) != r {
        2int
    } else {
        0int
    };
    x + ff + rr
}

/// Where the transform sends an en-passant square; "none" stays "none".
pub open spec fn tf_ep(t: int, ep: int) -> int {
    if ep == 64 {
        64
    } else {
        tf_square(t, ep)
    }
}

/// The board after the transform: what stood on `sq` stands on
/// `tf_square(t, sq)`.
pub open spec fn tf_board(t: int, board: Seq<u8>) -> Seq<u8> {
    Seq::new(64, |s: int| board[tf_square(tf_inverse(t), s)])
}

/// The position after the transform.
pub open spec fn tf_pos(t: int, p: Pos) -> Pos {
    Pos { board: tf_board(t, p.board), stm: p.stm, ep: tf_ep(t, p.ep as int) as u8 }
}

/// The board with the colors exchanged and the ranks reflected.
pub open spec fn mirror_board(board: Seq<u8>) -> Seq<u8> {
    Seq::new(64, |s: int| swap_code(board[tf_square(2, s)] as int) as u8)
}

/// The position with the colors exchanged: every piece changes color, the
/// ranks are reflected, and the other side is to move.
pub open spec fn mirror_pos(p: Pos) -> Pos {
    Pos { board: mirror_board(p.board), stm: (1 - p.stm) as u8, ep: tf_ep(2, p.ep as int) as u8 }
}

/// The file and rank of an image are those that the transform computes.
pub proof fn lemma_tf_coords(t: int, sq: int)
    requires
        0 <= t < 8,
        0 <= sq < 64,
    ensures
        0 <= tf_square(t, sq) < 64,
        tf_square(t, sq) % 8 == tf_file(t, sq % 8, sq / 8),
        tf_square(t, sq) / 8 == tf_rank(t, sq % 8, sq / 8),
        0 <= sq % 8 < 8,
        0 <= sq / 8 < 8,
        sq == (sq / 8) * 8 + sq % 8,
{
    let f = tf_file(t, sq % 8, sq / 8);
    let r = tf_rank(t, sq % 8, sq / 8);
    assert(0 <= f < 8 && 0 <= r < 8);
    assert((r * 8 + f) % 8 == f && (r * 8 + f) / 8 == r);
}

pub proof fn lemma_tf_compose(a: int, b: int, sq: int)
    requires
        0 <= a < 8,
        0 <= b < 8,
        0 <= sq < 64,
    ensures
        0 <= tf_compose(a, b) < 8,
        tf_square(a, tf_square(b, sq)) == tf_square(tf_compose(a, b), sq),
{
    lemma_tf_coords(b, sq);
    let f = sq % 8;
    let r = sq / 8;
    let f1 = tf_file(b, f, r);
    let r1 = tf_rank(b, f, r);
    let c = tf_compose(a, b);
    assert(tf_file(a, f1, r1) == tf_file(c, f, r));
    assert(tf_rank(a, f1, r1) == tf_rank(c, f, r));
}

pub proof fn lemma_tf_inverse(t: int, sq: int)
    requires
        0 <= t < 8,
        0 <= sq < 64,
    ensures
        0 <= tf_inverse(t) < 8,
        tf_square(tf_inverse(t), tf_square(t, sq)) == sq,
        tf_square(t, tf_square(tf_inverse(t), sq)) == sq,
        tf_compose(tf_inverse(t), t) == 0,
        tf_compose(t, tf_inverse(t)) == 0,
        tf_inverse(tf_inverse(t)) == t,
        tf_square(0, sq) == sq,
{
    lemma_tf_coords(t, sq);
    lemma_tf_coords(tf_inverse(t), sq);
    lemma_tf_compose(tf_inverse(t), t, sq);
    lemma_tf_compose(t, tf_inverse(t), sq);
    lemma_tf_coords(0, sq);
}

/// Composing with a fixed transform permutes the transforms.
pub proof fn lemma_tf_compose_cancel(a: int, b: int)
    requires
        0 <= a < 8,
        0 <= b < 8,
    ensures
        tf_compose(tf_compose(a, tf_inverse(b)), b) == a,
        tf_inverse(tf_compose(a, b)) == tf_compose(tf_inverse(b), tf_inverse(a)),
        0 <= tf_compose(a, b) < 8,
        a < 2 && b < 2 ==> tf_compose(a, b) < 2,
{
}

pub fn transform_square(t: u8, sq: u8) -> (r: u8)
    requires
        t < 8,
        sq < 64,
    ensures
        r == tf_square(t as int, sq as int),
        r < 64,
{
    let f: u8 = sq % 8;
    let r: u8 = sq / 8;
    let f1: u8 = if t >= 4 {
        r
    } else {
        f
    };
    let r1: u8 = if t >= 4 {
        f
    } else {
        r
    };
    let f2: u8 = if t == 1 || t == 3 || t == 5 || t == 7 {
        7 - f1
    } else {
        f1
    };
    let r2: u8 = if t == 2 || t == 3 || t == 6 || t == 7 {
        7 - r1
    } else {
        r1
    };
    r2 * 8 + f2
}

pub fn inverse_transform(t: u8) -> (r: u8)
    requires
        t < 8,
    ensures
        r == tf_inverse(t as int),
        r < 8,
{
    if t == 5 {
        6
    } else if t == 6 {
        5
    } else {
        t
    }
}

impl Position {
    /// The position after the board symmetry `t`.
    pub fn transformed(&self, t: u8) -> (q: Position)
        requires
            t < 8,
            self@.wf(),
        ensures
            q@ == tf_pos(t as int, self@),
            q@.wf(),
    {
        let inv = inverse_transform(t);
        let mut board: [u8; 64] = [0u8; 64];
        let mut s: u8 = 0;
        while s < 64
            invariant
                0 <= s <= 64,
                t < 8,
                inv == tf_inverse(t as int),
                self@.wf(),
                forall|k: int| 0 <= k < s ==> #[trigger] board@[k] == self.board@[tf_square(inv as int, k)],
            decreases 64 - s,
        {
            let src = transform_square(inv, s);
            board[s as usize] = self.board[src as usize];
            s = s + 1;
        }
        let ep = if self.ep == 64 {
            64
        } else {
            transform_square(t, self.ep)
        };
        let q = Position { board, stm: self.stm, ep };
        proof {
            assert(q@.board =~= tf_board(t as int, self@.board));
            assert forall|sq: int| 0 <= sq < 64 implies q@.board[sq] == 0 || is_piece_code(#[trigger] q@.board[sq] as int) by {
                let src = tf_square(inv as int, sq);
                assert(self@.board[src] == 0 || is_piece_code(self@.board[src] as int));
            }
        }
        q
    }

    /// The position with the colors exchanged.
    pub fn mirrored(&self) -> (q: Position)
        requires
            self@.wf(),
        ensures
            q@ == mirror_pos(self@),
            q@.wf(),
    {
        let mut board: [u8; 64] = [0u8; 64];
        let mut s: u8 = 0;
        while s < 64
            invariant
                0 <= s <= 64,
                self@.wf(),
                forall|k: int| 0 <= k < s ==> #[trigger] board@[k] == swap_code(self.board@[tf_square(2, k)] as int),
            decreases 64 - s,
        {
            let src = transform_square(2, s);
            assert(self@.board[src as int] == 0 || is_piece_code(self@.board[src as int] as int));
            board[s as usize] = swapped_code(self.board[src as usize]);
            s = s + 1;
        }
        let ep = if self.ep == 64 {
            64
        } else {
            transform_square(2, self.ep)
        };
        let q = Position { board, stm: 1 - self.stm, ep };
        proof {
            assert(q@.board =~= mirror_board(self@.board));
            assert forall|sq: int| 0 <= sq < 64 implies q@.board[sq] == 0 || is_piece_code(#[trigger] q@.board[sq] as int) by {
                let src = tf_square(2, sq);
                assert(self@.board[src] == 0 || is_piece_code(self@.board[src] as int));
            }
        }
        q
    }
}

/// Transforming twice is transforming once by the composition.
pub proof fn lemma_tf_pos_compose(a: int, b: int, p: Pos)
    requires
        0 <= a < 8,
        0 <= b < 8,
        p.wf(),
    ensures
        tf_pos(a, tf_pos(b, p)) == tf_pos(tf_compose(a, b), p),
        tf_pos(b, p).wf(),
{
    let c = tf_compose(a, b);
    lemma_tf_compose_cancel(a, b);
    let l = tf_pos(a, tf_pos(b, p));
    let r = tf_pos(c, p);
    assert forall|s: int| 0 <= s < 64 implies l.board[s] == r.board[s] by {
        let s1 = tf_square(tf_inverse(a), s);
        lemma_tf_compose(tf_inverse(b), tf_inverse(a), s);
    }
    assert(l.board =~= r.board);
    if p.ep != 64 {
        lemma_tf_compose(a, b, p.ep as int);
    }
    lemma_tf_pos_wf(b, p);
}

pub proof fn lemma_tf_pos_wf(t: int, p: Pos)
    requires
        0 <= t < 8,
        p.wf(),
    ensures
        tf_pos(t, p).wf(),
{
    let q = tf_pos(t, p);
    assert forall|sq: int| 0 <= sq < 64 implies q.board[sq] == 0 || is_piece_code(#[trigger] q.board[sq] as int) by {
        let src = tf_square(tf_inverse(t), sq);
        assert(p.board[src] == 0 || is_piece_code(p.board[src] as int));
    }
}

} // verus!
