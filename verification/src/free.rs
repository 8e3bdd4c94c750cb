//! The free squares of a board. A group of pieces is placed on the squares
//! that the kings and the groups before it leave free, so its squares are
//! counted among the free squares only.
use vstd::prelude::*;
use crate::codes::is_piece_code;
use crate::combination::is_combination;
use crate::material::{group_code, selects, squares_list, lemma_list_props};

verus! {

/// How many squares below `s` are occupied.
pub open spec fn occupied_below(b: Seq<u8>, s: int) -> int {
    squares_list(b, 0, s).len() as int
}

/// The rank of the square `s` among the free squares: how many squares
/// below it are free.
pub open spec fn free_rank(b: Seq<u8>, s: int) -> int {
    s - occupied_below(b, s)
}

/// How many squares are free.
pub open spec fn free_count(b: Seq<u8>) -> int {
    free_rank(b, 64)
}

/// The free square below `n` with rank `r` (0 if there is none).
pub open spec fn nth_free(b: Seq<u8>, r: int, n: int) -> int
    decreases n,
{
    if n <= 0 {
        0
    } else if b[n - 1] == 0 && free_rank(b, n - 1) == r {
        n - 1
    } else {
        nth_free(b, r, n - 1)
    }
}

pub proof fn lemma_free_rank_step(b: Seq<u8>, s: int)
    requires
        0 <= s,
    ensures
        free_rank(b, s + 1) == free_rank(b, s) + if b[s] == 0 {
            1int
        } else {
            0int
        },
        free_rank(b, 0) == 0,
{
    assert(squares_list(b, 0, 0).len() == 0);
}

/// Higher squares have no lower rank, and a square above a free square has
/// a higher rank than it.
pub proof fn lemma_free_rank_monotone(b: Seq<u8>, s: int, t: int)
    requires
        0 <= s <= t,
    ensures
        0 <= free_rank(b, s) <= free_rank(b, t),
        free_rank(b, s) <= s,
        s < t && b[s] == 0 ==> free_rank(b, s) < free_rank(b, t),
    decreases t,
{
    if s < t {
        lemma_free_rank_monotone(b, s, t - 1);
        lemma_free_rank_step(b, t - 1);
    } else {
        lemma_free_rank_zero(b, s);
    }
}

pub proof fn lemma_free_rank_zero(b: Seq<u8>, s: int)
    requires
        0 <= s,
    ensures
        0 <= free_rank(b, s) <= s,
    decreases s,
{
    if s > 0 {
        lemma_free_rank_zero(b, s - 1);
        lemma_free_rank_step(b, s - 1);
    } else {
        lemma_free_rank_step(b, 0);
    }
}

/// The rank of a free square leads back to the square.
pub proof fn lemma_nth_free(b: Seq<u8>, s: int, n: int)
    requires
        0 <= s < n,
        b[s] == 0,
    ensures
        nth_free(b, free_rank(b, s), n) == s,
    decreases n,
{
    if n - 1 > s {
        lemma_free_rank_monotone(b, s, n - 1);
        lemma_nth_free(b, s, n - 1);
    }
}

/// What `nth_free` names is a square of the board.
pub proof fn lemma_nth_free_range(b: Seq<u8>, r: int, n: int)
    requires
        0 <= n <= 64,
    ensures
        0 <= nth_free(b, r, n) < 64,
    decreases n,
{
    if n > 0 {
        lemma_nth_free_range(b, r, n - 1);
    }
}

/// The ranks, among the free squares of `base`, of the squares below `n`
/// that the selector picks on `board`, in order.
pub open spec fn free_list(base: Seq<u8>, board: Seq<u8>, sel: int, n: int) -> Seq<int>
    decreases n,
{
    if n <= 0 {
        Seq::empty()
    } else if selects(board[n - 1], sel) {
        free_list(base, board, sel, n - 1).push(free_rank(base, n - 1))
    } else {
        free_list(base, board, sel, n - 1)
    }
}

/// The squares with the given ranks among the free squares of `base`.
pub open spec fn squares_of_ranks(base: Seq<u8>, ranks: Seq<int>) -> Seq<int> {
    Seq::new(ranks.len(), |i: int| nth_free(base, ranks[i], 64))
}

/// The ranks of pieces that stand on free squares of `base` form a
/// combination of the free squares, one rank for each piece.
pub proof fn lemma_free_list(base: Seq<u8>, board: Seq<u8>, sel: int, n: int)
    requires
        0 <= n <= 64,
        board.len() == 64,
        forall|s: int| 0 <= s < 64 && selects(#[trigger] board[s], sel) ==> base[s] == 0,
    ensures
        is_combination(free_list(base, board, sel, n), free_rank(base, n)),
        free_list(base, board, sel, n).len() == squares_list(board, sel, n).len(),
        forall|i: int| 0 <= i < free_list(base, board, sel, n).len() ==> #[trigger] free_list(base, board, sel, n)[i] == free_rank(
            base,
            squares_list(board, sel, n)[i],
        ),
    decreases n,
{
    if n > 0 {
        lemma_free_list(base, board, sel, n - 1);
        lemma_free_rank_step(base, n - 1);
        lemma_free_rank_zero(base, n - 1);
        if selects(board[n - 1], sel) {
            assert(base[n - 1] == 0);
        }
    } else {
        lemma_free_rank_step(base, 0);
    }
}

/// The squares of the ranks of a group are the squares of the group.
pub proof fn lemma_squares_of_free_list(base: Seq<u8>, board: Seq<u8>, sel: int)
    requires
        board.len() == 64,
        forall|s: int| 0 <= s < 64 && selects(#[trigger] board[s], sel) ==> base[s] == 0,
    ensures
        squares_of_ranks(base, free_list(base, board, sel, 64)) == squares_list(board, sel, 64),
{
    let fl = free_list(base, board, sel, 64);
    let sl = squares_list(board, sel, 64);
    lemma_free_list(base, board, sel, 64);
    lemma_list_props(board, sel, 64);
    assert forall|i: int| 0 <= i < fl.len() implies nth_free(base, fl[i], 64) == sl[i] by {
        assert(sl.contains(sl[i]));
        lemma_nth_free(base, sl[i], 64);
    }
    assert(squares_of_ranks(base, fl) =~= sl);
}

/// The group (0 to 9) of a code that is neither empty nor a king.
pub open spec fn group_index_of(c: int) -> int {
    if c < 6 {
        5 - c
    } else {
        18 - c
    }
}

/// The kings and the pieces of the first `g` groups.
pub open spec fn kept(c: u8, g: int) -> bool {
    c == 6 || c == 14 || (c != 0 && group_index_of(c as int) < g)
}

/// The board with only the kings and the first `g` groups left on it.
pub open spec fn partial_board(board: Seq<u8>, g: int) -> Seq<u8> {
    Seq::new(64, |s: int| if kept(board[s], g) {
        board[s]
    } else {
        0u8
    })
}

/// How many pieces of the first `g` groups stand below `s`.
pub open spec fn groups_below(board: Seq<u8>, g: int, s: int) -> int
    decreases g,
{
    if g <= 0 {
        0
    } else {
        groups_below(board, g - 1, s) + squares_list(board, group_code(g - 1), s).len()
    }
}

pub proof fn lemma_groups_below_step(board: Seq<u8>, g: int, s: int)
    requires
        0 <= g <= 10,
        0 <= s,
        board[s] == 0 || is_piece_code(board[s] as int),
    ensures
        groups_below(board, g, s + 1) == groups_below(board, g, s) + if board[s] != 0 && board[s] != 6 && board[s] != 14
            && group_index_of(board[s] as int) < g {
            1int
        } else {
            0int
        },
        groups_below(board, g, 0) == 0,
    decreases g,
{
    if g > 0 {
        lemma_groups_below_step(board, g - 1, s);
        assert(squares_list(board, group_code(g - 1), 0).len() == 0);
    }
}

/// What stands below `s` on the board of the kings and the first `g` groups
/// are the kings and the pieces of those groups below `s`.
pub proof fn lemma_occupied_partial(board: Seq<u8>, g: int, s: int)
    requires
        board.len() == 64,
        forall|t: int| 0 <= t < 64 ==> board[t] == 0 || is_piece_code(#[trigger] board[t] as int),
        0 <= g <= 10,
        0 <= s <= 64,
    ensures
        occupied_below(partial_board(board, g), s) == squares_list(board, 6, s).len() + squares_list(board, 14, s).len()
            + groups_below(board, g, s),
    decreases s,
{
    if s > 0 {
        lemma_occupied_partial(board, g, s - 1);
        assert(board[s - 1] == 0 || is_piece_code(board[s - 1] as int));
        lemma_groups_below_step(board, g, s - 1);
    } else {
        lemma_groups_below_step(board, g, 0);
    }
}

pub proof fn lemma_nth_free_none(b: Seq<u8>, r: int, n: int)
    requires
        forall|j: int| 0 <= j < n ==> !(#[trigger] b[j] == 0 && free_rank(b, j) == r),
    ensures
        nth_free(b, r, n) == 0,
    decreases n,
{
    if n > 0 {
        assert(!(b[n - 1] == 0 && free_rank(b, n - 1) == r));
        lemma_nth_free_none(b, r, n - 1);
    }
}

/// The free square with rank `r` (square 0 if there is none).
pub fn nth_free_square(base: &[u8; 64], r: usize) -> (s: usize)
    ensures
        s == nth_free(base@, r as int, 64),
        s < 64,
{
    let mut fr: usize = 0;
    let mut t: usize = 0;
    proof {
        lemma_free_rank_step(base@, 0);
    }
    while t < 64
        invariant
            0 <= t <= 64,
            fr == free_rank(base@, t as int),
            fr <= t,
            forall|j: int| 0 <= j < t ==> !(#[trigger] base@[j] == 0 && free_rank(base@, j) == r),
        decreases 64 - t,
    {
        proof {
            lemma_free_rank_step(base@, t as int);
        }
        if base[t] == 0 {
            if fr == r {
                proof {
                    lemma_nth_free(base@, t as int, 64);
                }
                return t;
            }
            fr = fr + 1;
        }
        t = t + 1;
    }
    proof {
        lemma_nth_free_none(base@, r as int, 64);
    }
    0
}

} // verus!
