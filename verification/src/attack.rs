//! How the pieces attack, and when a king is in check.
use vstd::prelude::*;
use crate::codes::{color_of, file_of, is_piece_code, is_square, rank_of, role_of};
use crate::position::{Pos, Position};

verus! {

pub open spec fn sign(x: int) -> int {
    if x > 0 {
        1
    } else if x < 0 {
        -1
    } else {
        0
    }
}

pub open spec fn abs(x: int) -> int {
    if x < 0 {
        -x
    } else {
        x
    }
}

/// The number of king steps between two squares.
pub open spec fn dist(a: int, b: int) -> int {
    let df = abs(file_of(b) - file_of(a));
    let dr = abs(rank_of(b) - rank_of(a));
    if df > dr {
        df
    } else {
        dr
    }
}

/// What one step from `a` towards `b` adds to the square number.
pub open spec fn step_of(a: int, b: int) -> int {
    sign(file_of(b) - file_of(a)) + 8 * sign(rank_of(b) - rank_of(a))
}

/// The two squares differ and share a rank, a file or a diagonal.
pub open spec fn aligned(a: int, b: int) -> bool {
    let df = file_of(b) - file_of(a);
    let dr = rank_of(b) - rank_of(a);
    a != b && (df == 0 || dr == 0 || abs(df) == abs(dr))
}

/// The squares strictly between two aligned squares are empty.
pub open spec fn path_clear(board: Seq<u8>, a: int, b: int) -> bool {
    forall|k: int| 1 <= k < dist(a, b) ==> #[trigger] board[a + k * step_of(a, b)] == 0
}

/// The piece on `from` attacks the square `to`.
pub open spec fn attacks(board: Seq<u8>, from: int, to: int) -> bool {
    let c = board[from] as int;
    let role = role_of(c);
    let df = file_of(to) - file_of(from);
    let dr = rank_of(to) - rank_of(from);
    if role == 6 {
        dist(from, to) == 1
    } else if role == 2 {
        (abs(df) == 1 && abs(dr) == 2) || (abs(df) == 2 && abs(dr) == 1)
    } else if role == 1 {
        abs(df) == 1 && dr == if color_of(c) == 0 {
            1int
        } else {
            -1int
        }
    } else if role == 3 {
        df != 0 && abs(df) == abs(dr) && path_clear(board, from, to)
    } else if role == 4 {
        (df == 0) != (dr == 0) && path_clear(board, from, to)
    } else if role == 5 {
        aligned(from, to) && path_clear(board, from, to)
    } else {
        false
    }
}

/// The code belongs to a piece of the color.
pub open spec fn own_piece(c: u8, color: int) -> bool {
    c != 0 && color_of(c as int) == color
}

/// The code belongs to a piece of the other color.
pub open spec fn enemy_piece(c: u8, color: int) -> bool {
    c != 0 && color_of(c as int) != color
}

/// The code of the king of a color.
pub open spec fn king_code(color: int) -> int {
    6 + 8 * color
}

impl Pos {
    /// A piece of the other color attacks `sq`.
    pub open spec fn attacked_by_enemy(self, color: int, sq: int) -> bool {
        exists|s: int| 0 <= s < 64 && enemy_piece(#[trigger] self.board[s], color) && attacks(self.board, s, sq)
    }

    /// The king of the color is attacked.
    pub open spec fn in_check(self, color: int) -> bool {
        self.attacked_by_enemy(color, self.king_sq(king_code(color)))
    }
}

/// The squares on the way between two aligned squares are on the board.
pub proof fn lemma_path_square(a: int, b: int, k: int)
    requires
        is_square(a),
        is_square(b),
        aligned(a, b),
        0 <= k <= dist(a, b),
    ensures
        is_square(a + k * step_of(a, b)),
        file_of(a + k * step_of(a, b)) == file_of(a) + k * sign(file_of(b) - file_of(a)),
        rank_of(a + k * step_of(a, b)) == rank_of(a) + k * sign(rank_of(b) - rank_of(a)),
        k == dist(a, b) ==> a + k * step_of(a, b) == b,
{
    let sf = sign(file_of(b) - file_of(a));
    let sr = sign(rank_of(b) - rank_of(a));
    let f = file_of(a) + k * sf;
    let r = rank_of(a) + k * sr;
    assert(k * step_of(a, b) == k * sf + 8 * (k * sr)) by (nonlinear_arith)
        requires
            step_of(a, b) == sf + 8 * sr,
    ;
    assert(-k <= k * sf <= k && -k <= k * sr <= k) by (nonlinear_arith)
        requires
            -1 <= sf <= 1,
            -1 <= sr <= 1,
            0 <= k,
    ;
    assert(sf == 1 ==> k * sf == k) by (nonlinear_arith);
    assert(sf == -1 ==> k * sf == -k) by (nonlinear_arith);
    assert(sf == 0 ==> k * sf == 0) by (nonlinear_arith);
    assert(sr == 1 ==> k * sr == k) by (nonlinear_arith);
    assert(sr == -1 ==> k * sr == -k) by (nonlinear_arith);
    assert(sr == 0 ==> k * sr == 0) by (nonlinear_arith);
    assert(0 <= f < 8 && 0 <= r < 8);
    assert(a + k * step_of(a, b) == r * 8 + f);
}

/// Whether the piece on `from` attacks `to`.
pub fn attacks_exec(board: &[u8; 64], from: u8, to: u8) -> (r: bool)
    requires
        from < 64,
        to < 64,
    ensures
        r == attacks(board@, from as int, to as int),
{
    let c = board[from as usize];
    let role: u8 = if c >= 9 {
        c - 8
    } else {
        c
    };
    let ff: i8 = (from % 8) as i8;
    let fr: i8 = (from / 8) as i8;
    let tf: i8 = (to % 8) as i8;
    let tr: i8 = (to / 8) as i8;
    let df: i8 = tf - ff;
    let dr: i8 = tr - fr;
    let adf: i8 = if df < 0 {
        -df
    } else {
        df
    };
    let adr: i8 = if dr < 0 {
        -dr
    } else {
        dr
    };
    if role == 6 {
        return (adf == 1 && adr <= 1) || (adr == 1 && adf <= 1);
    }
    if role == 2 {
        return (adf == 1 && adr == 2) || (adf == 2 && adr == 1);
    }
    if role == 1 {
        return adf == 1 && dr == if c >= 9 {
            -1
        } else {
            1
        };
    }
    let shape = if role == 3 {
        df != 0 && adf == adr
    } else if role == 4 {
        (df == 0) != (dr == 0)
    } else if role == 5 {
        from != to && (df == 0 || dr == 0 || adf == adr)
    } else {
        false
    };
    if !shape {
        return false;
    }
    let sf: i8 = if df > 0 {
        1
    } else if df < 0 {
        -1
    } else {
        0
    };
    let sr: i8 = if dr > 0 {
        1
    } else if dr < 0 {
        -1
    } else {
        0
    };
    let step: i8 = sf + 8 * sr;
    let n: i8 = if adf > adr {
        adf
    } else {
        adr
    };
    let ghost a = from as int;
    let ghost b = to as int;
    assert(aligned(a, b));
    assert(n == dist(a, b));
    assert(step == step_of(a, b));
    let mut k: i8 = 1;
    let mut cur: i8 = from as i8 + step;
    proof {
        lemma_path_square(a, b, 1);
        assert(1 * step_of(a, b) == step_of(a, b)) by (nonlinear_arith);
    }
    while k < n
        invariant
            1 <= k <= n,
            n == dist(a, b),
            step == step_of(a, b),
            a == from,
            b == to,
            is_square(a),
            is_square(b),
            aligned(a, b),
            cur == a + k * step_of(a, b),
            0 <= cur < 64,
            forall|j: int| 1 <= j < k ==> #[trigger] board@[a + j * step_of(a, b)] == 0,
        decreases n - k,
    {
        if board[cur as usize] != 0 {
            return false;
        }
        proof {
            lemma_path_square(a, b, k + 1);
            assert((k + 1) * step_of(a, b) == k * step_of(a, b) + step_of(a, b)) by (nonlinear_arith);
        }
        k = k + 1;
        cur = cur + step;
    }
    true
}

impl Position {
    /// Whether a piece of the other color attacks `sq`.
    pub fn attacked(&self, color: u8, sq: u8) -> (r: bool)
        requires
            color <= 1,
            sq < 64,
        ensures
            r == self@.attacked_by_enemy(color as int, sq as int),
    {
        let mut s: u8 = 0;
        while s < 64
            invariant
                0 <= s <= 64,
                color <= 1,
                sq < 64,
                forall|j: int| 0 <= j < s ==> !(enemy_piece(#[trigger] self@.board[j], color as int) && attacks(self@.board, j, sq as int)),
            decreases 64 - s,
        {
            let c = self.board[s as usize];
            if c != 0 && (c >= 9) != (color == 1) {
                if attacks_exec(&self.board, s, sq) {
                    proof {
                        assert(enemy_piece(self@.board[s as int], color as int));
                        assert(attacks(self@.board, s as int, sq as int));
                    }
                    return true;
                }
            }
            s = s + 1;
        }
        false
    }

    /// Whether the king of the color, which stands on `ksq`, is in check.
    pub fn checked(&self, color: u8, ksq: u8) -> (r: bool)
        requires
            color <= 1,
            ksq < 64,
            ksq == self@.king_sq(king_code(color as int)),
        ensures
            r == self@.in_check(color as int),
    {
        self.attacked(color, ksq)
    }
}

} // verus!
