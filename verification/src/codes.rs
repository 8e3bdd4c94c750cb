//! The integer alphabet in which positions cross the boundary of the
//! library: piece codes, square codes and the side to move.
use vstd::prelude::*;

verus! {

/// Code of an unused slot or an empty square.
pub const EMPTY: u8 = 0;

pub const PAWN: u8 = 1;

pub const KNIGHT: u8 = 2;

pub const BISHOP: u8 = 3;

pub const ROOK: u8 = 4;

pub const QUEEN: u8 = 5;

pub const KING: u8 = 6;

/// What is added to a role to get the second color's piece code.
pub const SECOND: u8 = 8;

/// The en-passant code that stands for "none".
pub const NO_SQUARE: u8 = 64;

/// The most pieces, both kings included, that a position may hold.
pub const MAX_PIECES: usize = 6;

/// Codes 1 to 6 are the first color's pawn, knight, bishop, rook, queen and
/// king; codes 9 to 14 are the second color's.
pub open spec fn is_piece_code(c: int) -> bool {
    1 <= c <= 6 || 9 <= c <= 14
}

/// The role (1 to 6) of a piece code.
pub open spec fn role_of(c: int) -> int {
    if c >= 9 {
        c - 8
    } else {
        c
    }
}

/// The color (0 first, 1 second) of a piece code.
pub open spec fn color_of(c: int) -> int {
    if c >= 9 {
        1
    } else {
        0
    }
}

/// The piece code of a role in a color.
pub open spec fn code_of(role: int, color: int) -> int {
    role + 8 * color
}

/// The same role in the other color.
pub open spec fn swap_code(c: int) -> int {
    if c == 0 {
        0
    } else if c >= 9 {
        c - 8
    } else {
        c + 8
    }
}

pub open spec fn file_of(sq: int) -> int {
    sq % 8
}

pub open spec fn rank_of(sq: int) -> int {
    sq / 8
}

pub open spec fn is_square(sq: int) -> bool {
    0 <= sq < 64
}

/// Chebyshev distance at most one: the same square or a neighbour.
pub open spec fn squares_touch(a: int, b: int) -> bool {
    &&& -1 <= file_of(a) - file_of(b) <= 1
    &&& -1 <= rank_of(a) - rank_of(b) <= 1
}

pub fn piece_code_ok(c: u8) -> (ok: bool)
    ensures
        ok == is_piece_code(c as int),
{
    (1 <= c && c <= 6) || (9 <= c && c <= 14)
}

pub fn piece_role(c: u8) -> (r: u8)
    ensures
        r == role_of(c as int),
{
    if c >= 9 {
        c - 8
    } else {
        c
    }
}

pub fn piece_color(c: u8) -> (r: u8)
    ensures
        r == color_of(c as int),
{
    if c >= 9 {
        1
    } else {
        0
    }
}

pub fn make_code(role: u8, color: u8) -> (c: u8)
    requires
        1 <= role <= 6,
        color <= 1,
    ensures
        c == code_of(role as int, color as int),
        is_piece_code(c as int),
        role_of(c as int) == role,
        color_of(c as int) == color,
{
    role + 8 * color
}

pub fn swapped_code(c: u8) -> (r: u8)
    requires
        c == 0 || is_piece_code(c as int),
    ensures
        r == swap_code(c as int),
{
    if c == 0 {
        0
    } else if c >= 9 {
        c - 8
    } else {
        c + 8
    }
}

pub fn touching(a: u8, b: u8) -> (t: bool)
    requires
        a < 64,
        b < 64,
    ensures
        t == squares_touch(a as int, b as int),
{
    let fa: u8 = a % 8;
    let fb: u8 = b % 8;
    let ra: u8 = a / 8;
    let rb: u8 = b / 8;
    fa <= fb + 1 && fb <= fa + 1 && ra <= rb + 1 && rb <= ra + 1
}

} // verus!
