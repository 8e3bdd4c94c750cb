//! From an index back to the position it stands for, and the proof that
//! decoding and indexing agree.
use vstd::prelude::*;
use vstd::arithmetic::div_mod::{lemma_fundamental_div_mod_converse, lemma_multiply_divide_lt};
use crate::codes::is_piece_code;
use crate::combination::{
    binom, comb_rank, comb_top, comb_unrank, lemma_binom_nonneg, lemma_binom_monotone,
    lemma_comb_top_range, lemma_rank_bound, lemma_unrank_rank, lemma_binom_bound,
};
use crate::free::{
    free_count, free_list, kept, nth_free, nth_free_square, partial_board, squares_of_ranks,
    lemma_free_list, lemma_nth_free_range, lemma_squares_of_free_list,
};
use crate::index::{
    canonical_index, ep_digit, ep_factor, free_at, groups_index, pos_admissible, raw_index,
    reduced_index, size_upto, sum_upto, table_size, lemma_free_at, lemma_group_on_free,
    lemma_size_bound, lemma_raw_index_bound, lemma_groups_bound, lemma_sum_upto, Indexer,
};
use crate::kings::{kk_rank, kk_total, kk_unrank, lemma_kk_nth, lemma_kk_count_monotone};
use crate::locate::{lemma_reduced_index, lemma_reduced_symmetric};
use crate::material::{
    code_of_group, count_sel, group_code, sig_has_pawns, sig_of_board, sig_wf, squares_list,
    lemma_list_props, MaterialSignature,
};
use crate::orient::{canonical_sig, needs_swap, oriented, lemma_oriented_mirror, lemma_pawnless_no_ep};
use crate::position::{Pos, Position};
use crate::symmetry::tf_pos;

verus! {

/// The board with `code` put on each of the squares.
pub open spec fn place_all(board: Seq<u8>, squares: Seq<int>, code: u8) -> Seq<u8>
    decreases squares.len(),
{
    if squares.len() == 0 {
        board
    } else {
        place_all(board, squares.drop_last(), code).update(squares.last(), code)
    }
}

pub open spec fn empty_board() -> Seq<u8> {
    Seq::new(64, |s: int| 0u8)
}

/// The board that holds only the king pair with reduced value `kk`.
pub open spec fn kings_board(pawns: bool, kk: int) -> Seq<u8> {
    let c = kk_unrank(pawns, kk);
    empty_board().update(c / 64, 6u8).update(c % 64, 14u8)
}

/// The board that the king pair and the first `g` groups of the composed
/// digits `x` describe: each group on the free squares, among those that the
/// kings and the groups before it leave, whose ranks its digit names.
pub open spec fn decode_board(sig: Seq<int>, x: int, g: int) -> Seq<u8>
    decreases g,
{
    if g <= 0 {
        kings_board(sig_has_pawns(sig), x)
    } else {
        let n = free_at(sig, g - 1);
        let radix = binom(n, sig[g - 1]);
        let base = decode_board(sig, x / radix, g - 1);
        place_all(base, squares_of_ranks(base, comb_unrank(sig[g - 1], x % radix, n)), group_code(g - 1) as u8)
    }
}

/// The board after the pieces of `code` are put, highest first, on the
/// free squares of `base` whose ranks the combination with rank `r` names.
pub open spec fn place_ranks(base: Seq<u8>, b: Seq<u8>, code: u8, k: int, r: int, n: int) -> Seq<u8>
    decreases k,
{
    if k <= 0 {
        b
    } else {
        let t = comb_top(k, r, n);
        place_ranks(base, b.update(nth_free(base, t, 64), code), code, k - 1, r - binom(t, k), t)
    }
}

/// The en-passant square of a digit: behind a pawn of the side that is not
/// to move.
pub open spec fn decode_ep(stm: int, d: int) -> int {
    if d == 0 {
        64
    } else if stm == 0 {
        40 + d - 1
    } else {
        16 + d - 1
    }
}

/// The position that an index of the table of a signature stands for.
pub open spec fn index_pos(sig: Seq<int>, idx: int) -> Pos {
    let stm = idx % 2;
    let y = idx / 2;
    let pawns = sig_has_pawns(sig);
    let d = if pawns {
        y % 9
    } else {
        0
    };
    let body = if pawns {
        y / 9
    } else {
        y
    };
    Pos { board: decode_board(sig, body, 10), stm: stm as u8, ep: decode_ep(stm, d) as u8 }
}

pub proof fn lemma_push_contains(l: Seq<int>, t: int, s: int)
    ensures
        l.push(t).contains(s) <==> (l.contains(s) || s == t),
{
    let m = l.push(t);
    if m.contains(s) {
        let i = choose|i: int| 0 <= i < m.len() && m[i] == s;
        if i < l.len() {
            assert(l[i] == s);
        }
    }
    if l.contains(s) {
        let i = choose|i: int| 0 <= i < l.len() && l[i] == s;
        assert(m[i] == s);
    }
    if s == t {
        assert(m[l.len() as int] == s);
    }
}

/// After placing, a square holds the code if it is one of the squares, and
/// what it held before otherwise.
pub proof fn lemma_place_all(board: Seq<u8>, squares: Seq<int>, code: u8)
    requires
        board.len() == 64,
        forall|i: int| 0 <= i < squares.len() ==> 0 <= #[trigger] squares[i] < 64,
    ensures
        place_all(board, squares, code).len() == 64,
        forall|s: int| 0 <= s < 64 ==> #[trigger] place_all(board, squares, code)[s] == if squares.contains(s) {
            code
        } else {
            board[s]
        },
    decreases squares.len(),
{
    if squares.len() > 0 {
        let rest = squares.drop_last();
        lemma_place_all(board, rest, code);
        assert forall|s: int| 0 <= s < 64 implies #[trigger] place_all(board, squares, code)[s] == if squares.contains(s) {
            code
        } else {
            board[s]
        } by {
            lemma_push_contains(rest, squares.last(), s);
            assert(rest.push(squares.last()) =~= squares);
        }
    } else {
        assert forall|s: int| 0 <= s < 64 implies !squares.contains(s) by {
            if squares.contains(s) {
                let i = choose|i: int| 0 <= i < squares.len() && squares[i] == s;
            }
        }
    }
}

/// Unranking gives `k` squares of the board.
pub proof fn lemma_unrank_range(k: int, r: int, n: int)
    requires
        0 <= k,
        0 <= r,
        0 <= n <= 64,
    ensures
        comb_unrank(k, r, n).len() == k,
        forall|i: int| 0 <= i < k ==> 0 <= #[trigger] comb_unrank(k, r, n)[i] < 64,
    decreases k,
{
    if k > 0 {
        let t = comb_top(k, r, n);
        if n >= 1 {
            lemma_comb_top_range(k, r, n);
        }
        lemma_unrank_range(k - 1, r - binom(t, k), t);
    }
}

pub proof fn lemma_binom_positive(n: int, k: int)
    requires
        0 <= k <= n,
    ensures
        binom(n, k) >= 1,
    decreases n,
{
    if k > 0 {
        lemma_binom_positive(n - 1, k - 1);
        lemma_binom_nonneg(n - 1, k);
    }
}

/// Putting pieces on squares by rank, highest first, puts them on the
/// squares of the ranks.
pub proof fn lemma_place_ranks(base: Seq<u8>, b: Seq<u8>, code: u8, k: int, r: int, n: int)
    requires
        b.len() == 64,
        0 <= k,
    ensures
        place_ranks(base, b, code, k, r, n) == place_all(b, squares_of_ranks(base, comb_unrank(k, r, n)), code),
    decreases k,
{
    let sq = squares_of_ranks(base, comb_unrank(k, r, n));
    assert forall|i: int| 0 <= i < sq.len() implies 0 <= #[trigger] sq[i] < 64 by {
        lemma_nth_free_range(base, comb_unrank(k, r, n)[i], 64);
    }
    lemma_place_all(b, sq, code);
    if k > 0 {
        let t = comb_top(k, r, n);
        let s0 = nth_free(base, t, 64);
        lemma_nth_free_range(base, t, 64);
        let b1 = b.update(s0, code);
        let rest = squares_of_ranks(base, comb_unrank(k - 1, r - binom(t, k), t));
        lemma_place_ranks(base, b1, code, k - 1, r - binom(t, k), t);
        assert forall|i: int| 0 <= i < rest.len() implies 0 <= #[trigger] rest[i] < 64 by {
            lemma_nth_free_range(base, comb_unrank(k - 1, r - binom(t, k), t)[i], 64);
        }
        lemma_place_all(b1, rest, code);
        assert(sq =~= rest.push(s0));
        let l = place_ranks(base, b, code, k, r, n);
        let w = place_all(b, sq, code);
        assert forall|s: int| 0 <= s < 64 implies l[s] == w[s] by {
            lemma_push_contains(rest, s0, s);
        }
        assert(l =~= w);
    } else {
        assert(sq =~= Seq::<int>::empty());
    }
}

/// Decoding the digits of the king pair and of the first `g` groups gives
/// those pieces back.
pub proof fn lemma_decode_groups(q: Pos, g: int)
    requires
        q.valid(),
        pos_admissible(q),
        0 <= g <= 10,
    ensures
        decode_board(
            sig_of_board(q.board),
            groups_index(
                q.board,
                kk_rank(sig_has_pawns(sig_of_board(q.board)), q.king_sq(6), q.king_sq(14)),
                g,
            ),
            g,
        ) == partial_board(q.board, g),
    decreases g,
{
    let sig = sig_of_board(q.board);
    let pawns = sig_has_pawns(sig);
    let wk = q.king_sq(6);
    let bk = q.king_sq(14);
    let kk = kk_rank(pawns, wk, bk);
    assert(q.sole_king(6, wk) && q.sole_king(14, bk));
    if g <= 0 {
        let c = wk * 64 + bk;
        assert(c / 64 == wk && c % 64 == bk);
        lemma_kk_nth(pawns, c, 4096);
        assert(kings_board(pawns, kk) =~= partial_board(q.board, 0));
    } else {
        lemma_decode_groups(q, g - 1);
        let code = group_code(g - 1);
        let base = partial_board(q.board, g - 1);
        let fl = free_list(base, q.board, code, 64);
        let sl = squares_list(q.board, code, 64);
        let a = groups_index(q.board, kk, g - 1);
        let n = free_at(sig, g - 1);
        lemma_free_at(q, g - 1);
        lemma_group_on_free(q, g - 1);
        lemma_free_list(base, q.board, code, 64);
        lemma_list_props(q.board, code, 64);
        lemma_rank_bound(fl, n);
        assert(sig[g - 1] == fl.len());
        let radix = binom(n, fl.len() as int);
        let r = comb_rank(fl);
        lemma_fundamental_div_mod_converse(a * radix + r, radix, a, r);
        lemma_unrank_rank(fl, n);
        lemma_squares_of_free_list(base, q.board, code);
        lemma_place_all(base, sl, code as u8);
        let after = place_all(base, sl, code as u8);
        assert forall|s: int| 0 <= s < 64 implies after[s] == partial_board(q.board, g)[s] by {
            assert(q.board[s] == 0 || is_piece_code(q.board[s] as int));
            assert(sl.contains(s) <==> q.board[s] == code);
        }
        assert(after =~= partial_board(q.board, g));
    }
}

/// Decoding the number of a valid position whose king pair is in reduced
/// form gives the position back.
pub proof fn lemma_decode_raw(q: Pos)
    requires
        q.valid(),
        pos_admissible(q),
    ensures
        index_pos(sig_of_board(q.board), raw_index(q)) == q,
{
    let sig = sig_of_board(q.board);
    let pawns = sig_has_pawns(sig);
    let kk = kk_rank(pawns, q.king_sq(6), q.king_sq(14));
    let body = groups_index(q.board, kk, 10);
    lemma_decode_groups(q, 10);
    assert(partial_board(q.board, 10) =~= q.board) by {
        assert forall|s: int| 0 <= s < 64 implies partial_board(q.board, 10)[s] == q.board[s] by {
            assert(q.board[s] == 0 || is_piece_code(q.board[s] as int));
        }
    }
    if pawns {
        let d = ep_digit(q.ep as int);
        lemma_fundamental_div_mod_converse((body * 9 + d) * 2 + q.stm, 2, body * 9 + d, q.stm as int);
        lemma_fundamental_div_mod_converse(body * 9 + d, 9, body, d);
    } else {
        lemma_pawnless_no_ep(q);
        lemma_fundamental_div_mod_converse(body * 2 + q.stm, 2, body, q.stm as int);
    }
    let r = index_pos(sig, raw_index(q));
    assert(r.board == q.board);
    assert(r.stm == q.stm);
    assert(r.ep == q.ep);
}

/// Round trip: the index of a valid position decodes to a valid position of
/// the same table, keyed as it stands, whose index is the same.
pub proof fn lemma_index_round_trip(p: Pos)
    requires
        p.valid(),
    ensures
        index_pos(canonical_sig(p), canonical_index(p)).valid(),
        !needs_swap(index_pos(canonical_sig(p), canonical_index(p))),
        canonical_sig(index_pos(canonical_sig(p), canonical_index(p))) == canonical_sig(p),
        canonical_index(index_pos(canonical_sig(p), canonical_index(p))) == canonical_index(p),
{
    let o = oriented(p);
    lemma_oriented_mirror(p);
    let t = lemma_reduced_index(o);
    let q = tf_pos(t, o);
    lemma_decode_raw(q);
    lemma_reduced_symmetric(o, t);
    assert(needs_swap(q) == needs_swap(o));
}

impl Indexer {
    /// Puts `k` pieces of one code on the free squares whose ranks, among
    /// `n` free squares, the combination with rank `r` names.
    pub fn place_group(&self, board: &mut [u8; 64], code: u8, k: u8, r: u64, n: usize)
        requires
            self.wf(),
            k <= 6,
            n <= 64,
        ensures
            final(board)@ == place_all(
                old(board)@,
                squares_of_ranks(old(board)@, comb_unrank(k as int, r as int, n as int)),
                code,
            ),
            forall|s: int| 0 <= s < 64 ==> #[trigger] final(board)@[s] == code || final(board)@[s] == old(board)@[s],
    {
        let base: [u8; 64] = *board;
        let ghost b0 = board@;
        let mut j: u8 = k;
        let mut rr: u64 = r;
        let mut nn: usize = n;
        while j > 0
            invariant
                self.wf(),
                j <= k <= 6,
                nn <= 64,
                base@ == b0,
                b0.len() == 64,
                place_ranks(b0, board@, code, j as int, rr as int, nn as int) == place_ranks(b0, b0, code, k as int, r as int, n as int),
                forall|s: int| 0 <= s < 64 ==> #[trigger] board@[s] == code || board@[s] == b0[s],
            decreases j,
        {
            let t = self.binom.top(j as usize, rr, nn);
            let b = self.binom.get(t, j as usize);
            let sq = nth_free_square(&base, t);
            proof {
                if nn == 0 {
                    assert(binom(0, j as int) == 0);
                }
            }
            board[sq] = code;
            rr = rr - b;
            nn = t;
            j = j - 1;
        }
        proof {
            lemma_place_ranks(b0, b0, code, k as int, r as int, n as int);
        }
    }

    /// The position that an index of the table of a signature stands for.
    pub fn position_at(&self, sig: &MaterialSignature, idx: u64) -> (p: Position)
        requires
            self.wf(),
            sig_wf(sig@),
            idx < table_size(sig@),
        ensures
            p@ == index_pos(sig@, idx as int),
            p@.wf(),
    {
        let pawns = sig.has_pawns();
        let stm: u8 = (idx % 2) as u8;
        let y: u64 = idx / 2;
        let ghost s10 = size_upto(sig@, 10);
        proof {
            lemma_size_bound(sig@, 10);
            assert(table_size(sig@) == (s10 * ep_factor(sig@)) * 2);
            lemma_multiply_divide_lt(idx as int, 2, s10 * ep_factor(sig@));
            if pawns {
                lemma_multiply_divide_lt(y as int, 9, s10);
            }
        }
        let d: u64 = if pawns {
            y % 9
        } else {
            0
        };
        let body: u64 = if pawns {
            y / 9
        } else {
            y
        };
        let mut pre: [usize; 11] = [0usize; 11];
        let mut g: usize = 0;
        while g < 10
            invariant
                0 <= g <= 10,
                sig_wf(sig@),
                forall|j: int| 0 <= j <= g ==> #[trigger] pre@[j] == sum_upto(sig@, j),
            decreases 10 - g,
        {
            proof {
                assert(sig@[g as int] == sig.counts@[g as int]);
                lemma_sum_upto(sig@, g as int);
                lemma_sum_upto(sig@, g + 1);
            }
            pre[g + 1] = pre[g] + sig.counts[g] as usize;
            g = g + 1;
        }
        let mut xs: [u64; 11] = [0u64; 11];
        xs[10] = body;
        let mut g: usize = 10;
        while g > 0
            invariant
                0 <= g <= 10,
                self.wf(),
                sig_wf(sig@),
                xs@[10] == body,
                forall|j: int| 0 <= j <= 10 ==> #[trigger] pre@[j] == sum_upto(sig@, j),
                forall|j: int| g <= j <= 10 ==> 0 <= #[trigger] xs@[j] < size_upto(sig@, j),
                forall|j: int| g <= j < 10 ==> #[trigger] xs@[j] as int == (xs@[j + 1] as int) / binom(free_at(sig@, j), sig@[j]),
            decreases g,
        {
            let ghost k = sig@[g - 1];
            proof {
                assert(sig@[g - 1] == sig.counts@[g - 1]);
                assert(pre@[g - 1] == sum_upto(sig@, g - 1));
                lemma_size_bound(sig@, g as int);
                lemma_sum_upto(sig@, g - 1);
                lemma_binom_positive(free_at(sig@, g - 1), k);
                lemma_binom_bound(free_at(sig@, g - 1), k);
                let c = size_upto(sig@, g - 1);
                let b = binom(free_at(sig@, g - 1), k);
                assert(c * b == b * c) by (nonlinear_arith);
                lemma_multiply_divide_lt(xs@[g as int] as int, b, c);
            }
            let radix = self.binom.get(62 - pre[g - 1], sig.counts[g - 1] as usize);
            let v = xs[g] / radix;
            xs[g - 1] = v;
            g = g - 1;
        }
        proof {
            lemma_kk_count_monotone(pawns, 0, 4096);
            assert(xs@[0] < size_upto(sig@, 0));
        }
        let kk: u16 = xs[0] as u16;
        let (wk, bk) = if pawns {
            self.pawned.pair_of_rank(kk)
        } else {
            self.plain.pair_of_rank(kk)
        };
        let mut board: [u8; 64] = [0u8; 64];
        board[wk as usize] = 6;
        board[bk as usize] = 14;
        proof {
            assert(board@ =~= kings_board(pawns, xs@[0] as int));
        }
        let mut g: usize = 0;
        while g < 10
            invariant
                0 <= g <= 10,
                self.wf(),
                sig_wf(sig@),
                forall|j: int| 0 <= j <= 10 ==> #[trigger] pre@[j] == sum_upto(sig@, j),
                forall|j: int| 0 <= j <= 10 ==> 0 <= #[trigger] xs@[j] < size_upto(sig@, j),
                forall|j: int| 0 <= j < 10 ==> #[trigger] xs@[j] as int == (xs@[j + 1] as int) / binom(free_at(sig@, j), sig@[j]),
                board@ == decode_board(sig@, xs@[g as int] as int, g as int),
                forall|s: int| 0 <= s < 64 ==> #[trigger] board@[s] == 0 || is_piece_code(board@[s] as int),
            decreases 10 - g,
        {
            proof {
                assert(sig@[g as int] == sig.counts@[g as int]);
                assert(pre@[g as int] == sum_upto(sig@, g as int));
                lemma_sum_upto(sig@, g as int);
                lemma_binom_positive(free_at(sig@, g as int), sig@[g as int]);
                lemma_binom_bound(free_at(sig@, g as int), sig@[g as int]);
                assert(xs@[g as int] as int == (xs@[g + 1] as int) / binom(free_at(sig@, g as int), sig@[g as int]));
            }
            let n: usize = 62 - pre[g];
            let radix = self.binom.get(n, sig.counts[g] as usize);
            let r = xs[g + 1] % radix;
            if sig.counts[g] > 0 {
                self.place_group(&mut board, code_of_group(g), sig.counts[g], r, n);
            } else {
                proof {
                    let none = squares_of_ranks(board@, comb_unrank(0, r as int, n as int));
                    assert(none =~= Seq::<int>::empty());
                }
            }
            g = g + 1;
        }
        let ep: u8 = if d == 0 {
            64
        } else if stm == 0 {
            (40 + d - 1) as u8
        } else {
            (16 + d - 1) as u8
        };
        Position { board, stm, ep }
    }
}

} // verus!
