//! The index of a position inside the table of its signature.
//!
//! The king pair gives the leading digit; each group of like pieces adds a
//! digit, the rank of its set of squares among the combinations of the
//! squares that the kings and the groups before it leave free; a signature
//! with pawns adds a digit for the en-passant file; the side to move is the
//! last digit. Among the images of a position under the board symmetries
//! that its signature admits, the one with the least number is the reduced
//! position, and that number is the index.
use vstd::prelude::*;
use crate::codes::{is_piece_code, is_square};
use crate::combination::{binom, comb_rank, p64, is_combination, BinomTable, lemma_rank_bound, lemma_binom_bound};
use crate::kings::{kings_admissible, kk_rank, kk_total, kings_ok, KingTable, lemma_kk_rank_bound, lemma_kk_count_monotone};
use crate::free::{
    free_count, free_list, free_rank, groups_below, occupied_below, partial_board, lemma_free_list,
    lemma_free_rank_zero, lemma_occupied_partial,
};
use crate::material::{
    count_sel, squares_list, sig_of_board, sig_has_pawns, sig_total, sig_wf, group_code, group_of,
    lemma_list_props, lemma_one_king_count, lemma_sig_wf, MaterialSignature,
};
use crate::orient::{
    needs_swap, oriented, canonical_sig, lemma_oriented_mirror, lemma_tf_valid, lemma_tf_kings,
    lemma_tf_sig, lemma_pawnless_no_ep,
};
use crate::position::{Pos, Position};
use crate::symmetry::{tf_pos, tf_square, transform_square, lemma_tf_coords};

verus! {

/// What stands for "no index".
pub const NO_INDEX: u64 = 0xffff_ffff_ffff_ffff;

/// The digits of the king pair and of the first `g` groups, composed. The
/// digit of a group is the rank of its squares among the combinations of the
/// squares that the kings and the groups before it leave free.
pub open spec fn groups_index(board: Seq<u8>, kk: int, g: int) -> int
    decreases g,
{
    if g <= 0 {
        kk
    } else {
        let base = partial_board(board, g - 1);
        groups_index(board, kk, g - 1) * binom(free_count(base), count_sel(board, group_code(g - 1))) + comb_rank(
            free_list(base, board, group_code(g - 1), 64),
        )
    }
}

/// How many squares are free when group `g` is placed: all but those of the
/// kings and of the groups before it.
pub open spec fn free_at(sig: Seq<int>, g: int) -> int {
    62 - sum_upto(sig, g)
}

/// The number of values that the king pair and the first `g` groups take.
pub open spec fn size_upto(sig: Seq<int>, g: int) -> int
    decreases g,
{
    if g <= 0 {
        kk_total(sig_has_pawns(sig))
    } else {
        size_upto(sig, g - 1) * binom(free_at(sig, g - 1), sig[g - 1])
    }
}

/// The sum of the first `g` counts.
pub open spec fn sum_upto(sig: Seq<int>, g: int) -> int
    decreases g,
{
    if g <= 0 {
        0
    } else {
        sum_upto(sig, g - 1) + sig[g - 1]
    }
}

/// The number of en-passant digits: nine with pawns, one without.
pub open spec fn ep_factor(sig: Seq<int>) -> int {
    if sig_has_pawns(sig) {
        9
    } else {
        1
    }
}

/// The number of indices of the table of a signature.
pub open spec fn table_size(sig: Seq<int>) -> int {
    size_upto(sig, 10) * ep_factor(sig) * 2
}

/// The en-passant digit: 0 for none, else one more than the file.
pub open spec fn ep_digit(ep: int) -> int {
    if ep == 64 {
        0
    } else {
        1 + ep % 8
    }
}

/// The number of a position as it stands, without any symmetry applied.
pub open spec fn raw_index(q: Pos) -> int {
    let sig = sig_of_board(q.board);
    let pawns = sig_has_pawns(sig);
    let kk = kk_rank(pawns, q.king_sq(6), q.king_sq(14));
    let body = groups_index(q.board, kk, 10);
    let with_ep = if pawns {
        body * 9 + ep_digit(q.ep as int)
    } else {
        body
    };
    with_ep * 2 + q.stm
}

/// How many board symmetries a signature admits.
pub open spec fn transforms(pawns: bool) -> int {
    if pawns {
        2
    } else {
        8
    }
}

/// The king pair of the position is in reduced form.
pub open spec fn pos_admissible(q: Pos) -> bool {
    kings_admissible(sig_has_pawns(sig_of_board(q.board)), q.king_sq(6), q.king_sq(14))
}

/// The number of the image under `t`, if its king pair is in reduced form.
pub open spec fn candidate(p: Pos, t: int) -> int {
    let q = tf_pos(t, p);
    if pos_admissible(q) {
        raw_index(q)
    } else {
        NO_INDEX as int
    }
}

/// The least number among the images under the first `n` symmetries.
pub open spec fn best_upto(p: Pos, n: int) -> int
    decreases n,
{
    if n <= 0 {
        NO_INDEX as int
    } else {
        let b = best_upto(p, n - 1);
        let c = candidate(p, n - 1);
        if c < b {
            c
        } else {
            b
        }
    }
}

/// The index of a position that is keyed as it stands.
pub open spec fn reduced_index(p: Pos) -> int {
    best_upto(p, transforms(sig_has_pawns(sig_of_board(p.board))))
}

/// The index of a position in the table of its signature.
pub open spec fn canonical_index(p: Pos) -> int {
    reduced_index(oriented(p))
}

pub proof fn lemma_mixed_radix(a: int, big: int, r: int, radix: int)
    requires
        0 <= a < big,
        0 <= r < radix,
    ensures
        0 <= a * radix + r < big * radix,
{
    assert(a * radix + r < big * radix) by (nonlinear_arith)
        requires
            0 <= a < big,
            0 <= r < radix,
    {
        assert(a * radix + radix == (a + 1) * radix);
        assert((a + 1) * radix <= big * radix);
    }
    assert(0 <= a * radix) by (nonlinear_arith)
        requires
            0 <= a,
            0 < radix,
    ;
}

pub proof fn lemma_p64_mul(a: int, b: int)
    requires
        0 <= a,
        0 <= b,
        a + b <= 6,
    ensures
        p64(a) * p64(b) == p64(a + b),
    decreases b,
{
    if b > 0 {
        lemma_p64_mul(a, b - 1);
        assert(p64(b) == 64 * p64(b - 1));
        assert(p64(a + b) == 64 * p64(a + b - 1));
        assert(p64(a) * (64 * p64(b - 1)) == 64 * (p64(a) * p64(b - 1))) by (nonlinear_arith);
    }
}

pub proof fn lemma_sum_upto(sig: Seq<int>, g: int)
    requires
        sig_wf(sig),
        0 <= g <= 10,
    ensures
        0 <= sum_upto(sig, g) <= sig_total(sig),
        g == 10 ==> sum_upto(sig, g) == sig_total(sig),
        g < 10 ==> sum_upto(sig, g) + sig[g] <= sig_total(sig),
{
    assert(sum_upto(sig, 0) == 0);
    assert(sum_upto(sig, 1) == sig[0]);
    assert(sum_upto(sig, 2) == sum_upto(sig, 1) + sig[1]);
    assert(sum_upto(sig, 3) == sum_upto(sig, 2) + sig[2]);
    assert(sum_upto(sig, 4) == sum_upto(sig, 3) + sig[3]);
    assert(sum_upto(sig, 5) == sum_upto(sig, 4) + sig[4]);
    assert(sum_upto(sig, 6) == sum_upto(sig, 5) + sig[5]);
    assert(sum_upto(sig, 7) == sum_upto(sig, 6) + sig[6]);
    assert(sum_upto(sig, 8) == sum_upto(sig, 7) + sig[7]);
    assert(sum_upto(sig, 9) == sum_upto(sig, 8) + sig[8]);
    assert(sum_upto(sig, 10) == sum_upto(sig, 9) + sig[9]);
}

/// The digits of a table stay small enough for machine arithmetic.
pub proof fn lemma_size_bound(sig: Seq<int>, g: int)
    requires
        sig_wf(sig),
        0 <= g <= 10,
    ensures
        0 <= size_upto(sig, g) <= 4096 * p64(sum_upto(sig, g)),
        size_upto(sig, g) <= 4096 * p64(6),
    decreases g,
{
    lemma_sum_upto(sig, g);
    if g <= 0 {
        lemma_kk_count_monotone(sig_has_pawns(sig), 0, 4096);
    } else {
        lemma_size_bound(sig, g - 1);
        lemma_sum_upto(sig, g - 1);
        let k = sig[g - 1];
        let s = sum_upto(sig, g - 1);
        lemma_binom_bound(free_at(sig, g - 1), k);
        lemma_p64_mul(s, k);
        let a = size_upto(sig, g - 1);
        let r = binom(free_at(sig, g - 1), k);
        assert(a * r <= (4096 * p64(s)) * p64(k)) by (nonlinear_arith)
            requires
                0 <= a <= 4096 * p64(s),
                0 <= r <= p64(k),
        ;
        assert((4096 * p64(s)) * p64(k) == 4096 * (p64(s) * p64(k))) by (nonlinear_arith);
        assert(0 <= a * r) by (nonlinear_arith)
            requires
                0 <= a,
                0 <= r,
        ;
    }
    assert(p64(sum_upto(sig, g)) <= p64(6));
}

/// The pieces of the first `g` groups are as many as the signature counts.
pub proof fn lemma_groups_total(board: Seq<u8>, g: int)
    requires
        0 <= g <= 10,
    ensures
        groups_below(board, g, 64) == sum_upto(sig_of_board(board), g),
    decreases g,
{
    if g > 0 {
        lemma_groups_total(board, g - 1);
        assert(sig_of_board(board)[g - 1] == count_sel(board, group_code(g - 1)));
    }
}

/// The kings and the first `g` groups of a valid position leave as many
/// squares free as its signature says.
pub proof fn lemma_free_at(q: Pos, g: int)
    requires
        q.valid(),
        0 <= g <= 10,
    ensures
        free_count(partial_board(q.board, g)) == free_at(sig_of_board(q.board), g),
        58 <= free_at(sig_of_board(q.board), g) <= 62,
{
    lemma_occupied_partial(q.board, g, 64);
    lemma_one_king_count(q, 6);
    lemma_one_king_count(q, 14);
    lemma_groups_total(q.board, g);
    lemma_sig_wf(q);
    lemma_sum_upto(sig_of_board(q.board), g);
}

/// A group stands on squares that the kings and the groups before it leave
/// free.
pub proof fn lemma_group_on_free(q: Pos, g: int)
    requires
        q.wf(),
        0 <= g < 10,
    ensures
        forall|s: int| 0 <= s < 64 && crate::material::selects(#[trigger] q.board[s], group_code(g)) ==> partial_board(q.board, g)[s] == 0,
{
}

/// The composed digits lie below the number of values they can take.
pub proof fn lemma_groups_bound(q: Pos, kk: int, g: int)
    requires
        q.valid(),
        0 <= g <= 10,
        0 <= kk < kk_total(sig_has_pawns(sig_of_board(q.board))),
    ensures
        0 <= groups_index(q.board, kk, g) < size_upto(sig_of_board(q.board), g),
    decreases g,
{
    if g > 0 {
        lemma_groups_bound(q, kk, g - 1);
        let base = partial_board(q.board, g - 1);
        let l = free_list(base, q.board, group_code(g - 1), 64);
        lemma_group_on_free(q, g - 1);
        lemma_free_list(base, q.board, group_code(g - 1), 64);
        lemma_rank_bound(l, free_count(base));
        lemma_free_at(q, g - 1);
        let sig = sig_of_board(q.board);
        assert(sig[g - 1] == l.len());
        lemma_mixed_radix(groups_index(q.board, kk, g - 1), size_upto(sig, g - 1), comb_rank(l), binom(free_count(base), l.len() as int));
    }
}

/// The number of a valid position with its king pair in reduced form lies
/// inside the table of its material.
pub proof fn lemma_raw_index_bound(q: Pos)
    requires
        q.valid(),
        pos_admissible(q),
    ensures
        0 <= raw_index(q) < table_size(sig_of_board(q.board)),
        table_size(sig_of_board(q.board)) <= 4096 * p64(6) * 18,
        sig_wf(sig_of_board(q.board)),
{
    let sig = sig_of_board(q.board);
    let pawns = sig_has_pawns(sig);
    let wk = q.king_sq(6);
    let bk = q.king_sq(14);
    assert(wk * 64 + bk < 4096);
    assert((wk * 64 + bk) / 64 == wk && (wk * 64 + bk) % 64 == bk);
    lemma_kk_rank_bound(pawns, wk * 64 + bk);
    lemma_groups_bound(q, kk_rank(pawns, wk, bk), 10);
    lemma_sig_wf(q);
    lemma_size_bound(sig, 10);
    let body = groups_index(q.board, kk_rank(pawns, wk, bk), 10);
    if pawns {
        lemma_pawn_ep_rank(q);
        lemma_mixed_radix(body, size_upto(sig, 10), ep_digit(q.ep as int), 9);
        lemma_mixed_radix(body * 9 + ep_digit(q.ep as int), size_upto(sig, 10) * 9, q.stm as int, 2);
    } else {
        lemma_mixed_radix(body, size_upto(sig, 10), q.stm as int, 2);
    }
}

/// The en-passant digit of a valid position is below nine.
pub proof fn lemma_pawn_ep_rank(q: Pos)
    requires
        q.valid(),
    ensures
        0 <= ep_digit(q.ep as int) < 9,
{
}

/// Both kings of a valid position are on the board.
pub proof fn lemma_kings_on_board(p: Pos)
    requires
        p.valid(),
    ensures
        p.sole_king(6, p.king_sq(6)),
        p.sole_king(14, p.king_sq(14)),
{
}

impl Position {
    /// The squares of the two kings.
    pub fn king_squares(&self) -> (r: (u8, u8))
        requires
            self@.valid(),
        ensures
            r.0 == self@.king_sq(6),
            r.1 == self@.king_sq(14),
            r.0 < 64,
            r.1 < 64,
    {
        let ghost x = self@.king_sq(6);
        let ghost y = self@.king_sq(14);
        proof {
            lemma_kings_on_board(self@);
        }
        let mut wk: u8 = 0;
        let mut bk: u8 = 0;
        let mut s: u8 = 0;
        while s < 64
            invariant
                0 <= s <= 64,
                self@.sole_king(6, x),
                self@.sole_king(14, y),
                s > x ==> wk == x,
                s > y ==> bk == y,
            decreases 64 - s,
        {
            let c = self.board[s as usize];
            if c == 6 {
                wk = s;
            }
            if c == 14 {
                bk = s;
            }
            s = s + 1;
        }
        (wk, bk)
    }
}

/// The three tables that indexing consults.
pub struct Indexer {
    pub binom: BinomTable,
    pub plain: KingTable,
    pub pawned: KingTable,
}

/// Where a position is found: the table, the index in it, and whether the
/// table sees the position with the colors exchanged.
#[derive(Clone, Copy, Debug)]
pub struct Located {
    pub sig: MaterialSignature,
    pub index: u64,
    pub swapped: bool,
}

impl Indexer {
    pub open spec fn wf(&self) -> bool {
        &&& self.binom.wf()
        &&& self.plain.wf()
        &&& self.pawned.wf()
        &&& !self.plain.pawns
        &&& self.pawned.pawns
    }

    pub fn new() -> (ix: Indexer)
        ensures
            ix.wf(),
    {
        Indexer { binom: BinomTable::new(), plain: KingTable::new(false), pawned: KingTable::new(true) }
    }

    /// The number of indices of the table of a signature.
    pub fn table_size(&self, sig: &MaterialSignature) -> (n: u64)
        requires
            self.wf(),
            sig_wf(sig@),
        ensures
            n == table_size(sig@),
            n <= 4096 * p64(6) * 18,
    {
        let pawns = sig.has_pawns();
        let mut n: u64 = if pawns {
            self.pawned.total() as u64
        } else {
            self.plain.total() as u64
        };
        let mut used: usize = 0;
        let mut g: usize = 0;
        while g < 10
            invariant
                0 <= g <= 10,
                self.wf(),
                sig_wf(sig@),
                n == size_upto(sig@, g as int),
                used == sum_upto(sig@, g as int),
            decreases 10 - g,
        {
            proof {
                lemma_size_bound(sig@, g as int);
                lemma_size_bound(sig@, g + 1);
                lemma_sum_upto(sig@, g as int);
                assert(sig@[g as int] == sig.counts@[g as int]);
            }
            let k = sig.counts[g] as usize;
            let r = self.binom.get(62 - used, k);
            n = n * r;
            used = used + k;
            g = g + 1;
        }
        proof {
            lemma_size_bound(sig@, 10);
        }
        if pawns {
            n * 9 * 2
        } else {
            n * 2
        }
    }

    /// The number of a position as it stands, given its kings and whether its
    /// material has pawns.
    pub fn raw_of(&self, q: &Position, pawns: bool, wk: u8, bk: u8) -> (r: u64)
        requires
            self.wf(),
            q@.valid(),
            pawns == sig_has_pawns(sig_of_board(q@.board)),
            wk == q@.king_sq(6),
            bk == q@.king_sq(14),
            pos_admissible(q@),
        ensures
            r == raw_index(q@),
            r < table_size(sig_of_board(q@.board)),
    {
        let ghost board = q@.board;
        let ghost sig = sig_of_board(board);
        proof {
            lemma_raw_index_bound(q@);
        }
        let mut cnt: [u8; 10] = [0u8; 10];
        let mut acc: [u64; 10] = [0u64; 10];
        let mut kseen: usize = 0;
        let mut s: usize = 0;
        while s < 64
            invariant
                0 <= s <= 64,
                self.wf(),
                board == q@.board,
                q@.valid(),
                sig == sig_of_board(board),
                sig_wf(sig),
                kseen == squares_list(board, 6, s as int).len() + squares_list(board, 14, s as int).len(),
                forall|g: int| 0 <= g < 10 ==> #[trigger] cnt@[g] == squares_list(board, group_code(g), s as int).len(),
                forall|g: int| 0 <= g < 10 ==> #[trigger] acc@[g] == comb_rank(free_list(partial_board(board, g), board, group_code(g), s as int)),
            decreases 64 - s,
        {
            let c = q.board[s];
            proof {
                assert(board[s as int] == 0 || is_piece_code(board[s as int] as int));
                lemma_list_props(board, 6, s as int);
                lemma_list_props(board, 14, s as int);
            }
            if c == 6 || c == 14 {
                kseen = kseen + 1;
            } else if c != 0 {
                let g = group_of(c);
                let ghost base = partial_board(board, g as int);
                let mut occ: usize = kseen;
                let mut h: usize = 0;
                while h < g
                    invariant
                        0 <= h <= g < 10,
                        0 <= s < 64,
                        board.len() == 64,
                        occ == kseen + groups_below(board, h as int, s as int),
                        occ <= 128 + 64 * h,
                        kseen <= 128,
                        forall|j: int| 0 <= j < 10 ==> #[trigger] cnt@[j] == squares_list(board, group_code(j), s as int).len(),
                    decreases g - h,
                {
                    proof {
                        lemma_list_props(board, group_code(h as int), s as int);
                        assert(cnt@[h as int] == squares_list(board, group_code(h as int), s as int).len());
                    }
                    occ = occ + cnt[h] as usize;
                    h = h + 1;
                }
                let ghost l0 = free_list(base, board, group_code(g as int), s as int);
                let ghost l1 = free_list(base, board, group_code(g as int), s + 1);
                proof {
                    lemma_occupied_partial(board, g as int, s as int);
                    lemma_free_rank_zero(base, s as int);
                    lemma_free_rank_zero(base, s + 1);
                    assert(occ == occupied_below(base, s as int));
                    assert(cnt@[g as int] == squares_list(board, group_code(g as int), s as int).len());
                    assert(acc@[g as int] == comb_rank(l0));
                    assert(l1 == l0.push(free_rank(base, s as int)));
                    assert(l1.drop_last() =~= l0);
                    lemma_list_len_monotone(board, group_code(g as int), s + 1, 64);
                    assert(sig[g as int] == count_sel(board, group_code(g as int)));
                    assert(sig[g as int] <= 4);
                    lemma_group_on_free(q@, g as int);
                    lemma_free_list(base, board, group_code(g as int), s + 1);
                    lemma_free_list(base, board, group_code(g as int), s as int);
                    lemma_rank_bound(l1, free_rank(base, s + 1));
                    lemma_binom_bound(free_rank(base, s + 1), l1.len() as int);
                    lemma_rank_bound(l0, free_rank(base, s as int));
                }
                let fr: usize = s - occ;
                let k: u8 = cnt[g] + 1;
                let b = self.binom.get(fr, k as usize);
                cnt[g] = k;
                acc[g] = acc[g] + b;
            }
            s = s + 1;
        }
        let kk: u64 = if pawns {
            self.pawned.rank_of_pair(wk, bk) as u64
        } else {
            self.plain.rank_of_pair(wk, bk) as u64
        };
        let mut idx: u64 = kk;
        let mut used: usize = 0;
        let mut g: usize = 0;
        while g < 10
            invariant
                0 <= g <= 10,
                self.wf(),
                q@.valid(),
                board == q@.board,
                sig == sig_of_board(board),
                sig_wf(sig),
                0 <= kk < kk_total(sig_has_pawns(sig)),
                idx == groups_index(board, kk as int, g as int),
                used == sum_upto(sig, g as int),
                forall|j: int| 0 <= j < 10 ==> #[trigger] cnt@[j] == count_sel(board, group_code(j)),
                forall|j: int| 0 <= j < 10 ==> #[trigger] acc@[j] == comb_rank(free_list(partial_board(board, j), board, group_code(j), 64)),
            decreases 10 - g,
        {
            proof {
                lemma_groups_bound(q@, kk as int, g as int);
                lemma_groups_bound(q@, kk as int, g + 1);
                lemma_size_bound(sig, g + 1);
                lemma_sum_upto(sig, g as int);
                lemma_free_at(q@, g as int);
                assert(sig[g as int] == count_sel(board, group_code(g as int)));
                assert(cnt@[g as int] == count_sel(board, group_code(g as int)));
                assert(acc@[g as int] == comb_rank(free_list(partial_board(board, g as int), board, group_code(g as int), 64)));
                let a = groups_index(board, kk as int, g as int);
                let r = binom(free_count(partial_board(board, g as int)), count_sel(board, group_code(g as int)));
                lemma_binom_bound(free_at(sig, g as int), sig[g as int]);
                assert(0 <= a * r) by (nonlinear_arith)
                    requires
                        0 <= a,
                        0 <= r,
                ;
                let l = free_list(partial_board(board, g as int), board, group_code(g as int), 64);
                lemma_group_on_free(q@, g as int);
                lemma_free_list(partial_board(board, g as int), board, group_code(g as int), 64);
                lemma_rank_bound(l, free_count(partial_board(board, g as int)));
            }
            let k = cnt[g] as usize;
            let r = self.binom.get(62 - used, k);
            idx = idx * r + acc[g];
            used = used + k;
            g = g + 1;
        }
        proof {
            lemma_groups_bound(q@, kk as int, 10);
            lemma_size_bound(sig, 10);
            lemma_pawn_ep_rank(q@);
        }
        let with_ep: u64 = if pawns {
            let d: u64 = if q.ep == 64 {
                0
            } else {
                1 + (q.ep % 8) as u64
            };
            idx * 9 + d
        } else {
            idx
        };
        with_ep * 2 + q.stm as u64
    }
}

/// A longer prefix of the board selects no fewer squares.
pub proof fn lemma_list_len_monotone(board: Seq<u8>, sel: int, a: int, b: int)
    requires
        a <= b,
    ensures
        squares_list(board, sel, a).len() <= squares_list(board, sel, b).len(),
    decreases b - a,
{
    if a < b {
        lemma_list_len_monotone(board, sel, a, b - 1);
    }
}

} // verus!
