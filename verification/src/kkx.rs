//! King, king and one more piece: the index of such a position read from a
//! table made once, in place of the general composition, with the proof
//! that the two agree.
use vstd::prelude::*;
use crate::codes::{is_piece_code, is_square, squares_touch, touching};
use crate::combination::{binom, comb_rank};
use crate::decode::empty_board;
use crate::free::{
    free_count, free_list, free_rank, partial_board, lemma_free_list,
};
use crate::index::{
    best_upto, candidate, canonical_index, free_at, groups_index, pos_admissible, raw_index,
    reduced_index, sum_upto, table_size, transforms, lemma_free_at, lemma_group_on_free, Indexer,
    Located, NO_INDEX,
};
use crate::kings::{kings_admissible, kk_rank};
use crate::locate::lemma_reduced_index;
use crate::material::{
    count_sel, group_code, selects, side_key, sig_has_pawns, sig_of_board, sig_wf, squares_list,
    lemma_list_props, MaterialSignature,
};
use crate::orient::{canonical_sig, needs_swap, oriented, lemma_king_sq, lemma_pawnless_no_ep};
use crate::position::{count_pieces, lemma_count_pieces_zero, lemma_count_update, Pos, Position};
use crate::symmetry::{tf_inverse, tf_pos, tf_square, lemma_tf_coords, lemma_tf_inverse};

verus! {

/// The board with the two kings only.
pub open spec fn kings_only(wk: int, bk: int) -> Seq<u8> {
    empty_board().update(wk, 6u8).update(bk, 14u8)
}

/// The board with the two kings and one more piece.
pub open spec fn kkx_board(wk: int, bk: int, x: int, code: u8) -> Seq<u8> {
    kings_only(wk, bk).update(x, code)
}

/// The position with the two kings, one more piece, and no en-passant
/// square.
pub open spec fn kkx_pos(wk: int, bk: int, x: int, code: u8, stm: u8) -> Pos {
    Pos { board: kkx_board(wk, bk, x, code), stm, ep: 64 }
}

/// Three different squares, the kings' apart.
pub open spec fn kkx_squares_ok(wk: int, bk: int, x: int) -> bool {
    &&& is_square(wk)
    &&& is_square(bk)
    &&& is_square(x)
    &&& x != wk
    &&& x != bk
    &&& !squares_touch(wk, bk)
}

/// A knight, bishop, rook or queen of the first color.
pub open spec fn is_officer(code: u8) -> bool {
    2 <= code <= 5
}

/// The pieces that a selector picks on a board where one square at most
/// holds what it picks.
pub proof fn lemma_list_single(board: Seq<u8>, sel: int, x: int)
    requires
        board.len() == 64,
        forall|s: int| 0 <= s < 64 && selects(#[trigger] board[s], sel) ==> s == x,
    ensures
        0 <= x < 64 && selects(board[x], sel) ==> squares_list(board, sel, 64) == seq![x],
        !(0 <= x < 64 && selects(board[x], sel)) ==> squares_list(board, sel, 64) == Seq::<int>::empty(),
{
    let l = squares_list(board, sel, 64);
    lemma_list_props(board, sel, 64);
    if l.len() >= 2 {
        assert(l.contains(l[0]) && l.contains(l[1]));
        assert(l[0] < l[1]);
    }
    if l.len() >= 1 {
        assert(l.contains(l[0]));
    }
    if 0 <= x < 64 && selects(board[x], sel) {
        assert(l.contains(x));
        assert(l =~= seq![x]);
    } else {
        assert(l =~= Seq::<int>::empty());
    }
}

/// The material of king, king and an officer of the first color.
pub proof fn lemma_kkx_material(wk: int, bk: int, x: int, code: u8)
    requires
        kkx_squares_ok(wk, bk, x),
        is_officer(code),
    ensures
        forall|g: int| 0 <= g < 10 ==> #[trigger] sig_of_board(kkx_board(wk, bk, x, code))[g] == if g == 5 - code {
            1int
        } else {
            0int
        },
        squares_list(kkx_board(wk, bk, x, code), code as int, 64) == seq![x],
        !sig_has_pawns(sig_of_board(kkx_board(wk, bk, x, code))),
{
    let b = kkx_board(wk, bk, x, code);
    assert forall|g: int| 0 <= g < 10 implies #[trigger] sig_of_board(b)[g] == if g == 5 - code {
        1int
    } else {
        0int
    } by {
        lemma_list_single(b, group_code(g), x);
    }
    lemma_list_single(b, code as int, x);
}

/// King, king and an officer of the first color make a valid position that
/// is keyed as it stands.
pub proof fn lemma_kkx_valid(wk: int, bk: int, x: int, code: u8, stm: u8)
    requires
        kkx_squares_ok(wk, bk, x),
        is_officer(code),
        stm <= 1,
    ensures
        kkx_pos(wk, bk, x, code, stm).valid(),
        kkx_pos(wk, bk, x, code, stm).king_sq(6) == wk,
        kkx_pos(wk, bk, x, code, stm).king_sq(14) == bk,
        !needs_swap(kkx_pos(wk, bk, x, code, stm)),
{
    let p = kkx_pos(wk, bk, x, code, stm);
    let e = empty_board();
    let b1 = e.update(wk, 6u8);
    let b2 = b1.update(bk, 14u8);
    assert(p.sole_king(6, wk));
    assert(p.sole_king(14, bk));
    lemma_king_sq(p, 6, wk);
    lemma_king_sq(p, 14, bk);
    lemma_count_pieces_zero(e, 64);
    lemma_count_update(e, wk, 6u8, 64);
    lemma_count_update(b1, bk, 14u8, 64);
    lemma_count_update(b2, x, code, 64);
    lemma_kkx_material(wk, bk, x, code);
    let sig = sig_of_board(p.board);
    assert(sig[0] + sig[1] + sig[2] + sig[3] >= 1);
    assert(sig[5] == 0 && sig[6] == 0 && sig[7] == 0 && sig[8] == 0 && sig[9] == 0 && sig[4] == 0);
    assert(side_key(sig, 1) == 0);
    assert(side_key(sig, 0) > 0);
}

pub proof fn lemma_binom_one(n: int)
    requires
        n >= 0,
    ensures
        binom(n, 1) == n,
        binom(n, 0) == 1,
    decreases n,
{
    if n > 0 {
        lemma_binom_one(n - 1);
    }
}

/// The digits of king, king and an officer: the king pair's, times the 62
/// free squares, plus the rank of the officer's square among them.
pub proof fn lemma_kkx_groups(wk: int, bk: int, x: int, code: u8, kk: int, g: int)
    requires
        kkx_squares_ok(wk, bk, x),
        is_officer(code),
        0 <= g <= 10,
    ensures
        groups_index(kkx_board(wk, bk, x, code), kk, g) == if g <= 5 - code {
            kk
        } else {
            kk * 62 + free_rank(kings_only(wk, bk), x)
        },
    decreases g,
{
    let b = kkx_board(wk, bk, x, code);
    let p = kkx_pos(wk, bk, x, code, 0);
    if g > 0 {
        lemma_kkx_groups(wk, bk, x, code, kk, g - 1);
        lemma_kkx_valid(wk, bk, x, code, 0);
        lemma_kkx_material(wk, bk, x, code);
        let base = partial_board(b, g - 1);
        let sel = group_code(g - 1);
        lemma_group_on_free(p, g - 1);
        lemma_free_list(base, b, sel, 64);
        lemma_free_at(p, g - 1);
        let fl = free_list(base, b, sel, 64);
        assert(sig_of_board(b)[g - 1] == count_sel(b, sel));
        if g - 1 == 5 - code {
            assert(base =~= kings_only(wk, bk));
            crate::index::lemma_sum_upto(sig_of_board(b), g - 1);
            lemma_sum_zero(sig_of_board(b), g - 1);
            assert(free_count(base) == 62);
            lemma_binom_one(62);
            assert(fl.len() == 1);
            assert(fl[0] == free_rank(base, squares_list(b, sel, 64)[0]));
            assert(fl.drop_last() =~= Seq::<int>::empty());
            crate::free::lemma_free_rank_zero(base, x);
            lemma_binom_one(free_rank(base, x));
            assert(comb_rank(fl) == comb_rank(fl.drop_last()) + binom(fl.last(), 1));
            assert(comb_rank(Seq::<int>::empty()) == 0);
        } else {
            assert(fl.len() == 0);
            lemma_binom_one(free_count(base));
            crate::free::lemma_free_rank_zero(base, 64);
            assert(comb_rank(fl) == 0);
            let a = groups_index(b, kk, g - 1);
            assert(a * 1 + 0 == a);
        }
    }
}

/// Counts that are all zero sum to zero.
pub proof fn lemma_sum_zero(sig: Seq<int>, g: int)
    requires
        0 <= g <= 10,
        forall|h: int| 0 <= h < g ==> #[trigger] sig[h] == 0,
    ensures
        sum_upto(sig, g) == 0,
    decreases g,
{
    if g > 0 {
        lemma_sum_zero(sig, g - 1);
    }
}

/// The number of king, king and an officer as it stands.
pub proof fn lemma_kkx_raw(wk: int, bk: int, x: int, code: u8, stm: u8)
    requires
        kkx_squares_ok(wk, bk, x),
        is_officer(code),
        stm <= 1,
    ensures
        raw_index(kkx_pos(wk, bk, x, code, stm)) == (kk_rank(false, wk, bk) * 62 + free_rank(kings_only(wk, bk), x)) * 2 + stm,
        pos_admissible(kkx_pos(wk, bk, x, code, stm)) == kings_admissible(false, wk, bk),
{
    lemma_kkx_valid(wk, bk, x, code, stm);
    lemma_kkx_material(wk, bk, x, code);
    lemma_kkx_groups(wk, bk, x, code, kk_rank(false, wk, bk), 10);
}

/// A board symmetry moves the three pieces.
pub proof fn lemma_kkx_transform(t: int, wk: int, bk: int, x: int, code: u8, stm: u8)
    requires
        0 <= t < 8,
        kkx_squares_ok(wk, bk, x),
    ensures
        tf_pos(t, kkx_pos(wk, bk, x, code, stm)) == kkx_pos(tf_square(t, wk), tf_square(t, bk), tf_square(t, x), code, stm),
        kkx_squares_ok(tf_square(t, wk), tf_square(t, bk), tf_square(t, x)),
{
    let l = tf_pos(t, kkx_pos(wk, bk, x, code, stm));
    let r = kkx_pos(tf_square(t, wk), tf_square(t, bk), tf_square(t, x), code, stm);
    lemma_tf_coords(t, wk);
    lemma_tf_coords(t, bk);
    lemma_tf_coords(t, x);
    lemma_tf_inverse(t, wk);
    lemma_tf_inverse(t, bk);
    lemma_tf_inverse(t, x);
    crate::orient::lemma_tf_touch(t, wk, bk);
    assert forall|s: int| 0 <= s < 64 implies l.board[s] == r.board[s] by {
        let u = tf_square(tf_inverse(t), s);
        lemma_tf_coords(tf_inverse(t), s);
        lemma_tf_inverse(t, s);
    }
    assert(l.board =~= r.board);
}

/// Which officer stands on the third square, and who is to move, changes a
/// candidate by the digit of the side to move only.
pub proof fn lemma_kkx_candidate(t: int, wk: int, bk: int, x: int, code: u8, stm: u8)
    requires
        0 <= t < 8,
        kkx_squares_ok(wk, bk, x),
        is_officer(code),
        stm <= 1,
    ensures
        candidate(kkx_pos(wk, bk, x, code, stm), t) == if candidate(kkx_pos(wk, bk, x, 5, 0), t) == NO_INDEX {
            NO_INDEX as int
        } else {
            candidate(kkx_pos(wk, bk, x, 5, 0), t) + stm
        },
        candidate(kkx_pos(wk, bk, x, 5, 0), t) == NO_INDEX || candidate(kkx_pos(wk, bk, x, 5, 0), t) + 1 < NO_INDEX,
{
    lemma_kkx_transform(t, wk, bk, x, code, stm);
    lemma_kkx_transform(t, wk, bk, x, 5, 0);
    let a = tf_square(t, wk);
    let b = tf_square(t, bk);
    let c = tf_square(t, x);
    lemma_kkx_raw(a, b, c, code, stm);
    lemma_kkx_raw(a, b, c, 5, 0);
    lemma_kkx_valid(a, b, c, 5, 0);
    if pos_admissible(kkx_pos(a, b, c, 5, 0)) {
        crate::index::lemma_raw_index_bound(kkx_pos(a, b, c, 5, 0));
    }
}

pub proof fn lemma_kkx_best(n: int, wk: int, bk: int, x: int, code: u8, stm: u8)
    requires
        0 <= n <= 8,
        kkx_squares_ok(wk, bk, x),
        is_officer(code),
        stm <= 1,
    ensures
        best_upto(kkx_pos(wk, bk, x, code, stm), n) == if best_upto(kkx_pos(wk, bk, x, 5, 0), n) == NO_INDEX {
            NO_INDEX as int
        } else {
            best_upto(kkx_pos(wk, bk, x, 5, 0), n) + stm
        },
        best_upto(kkx_pos(wk, bk, x, 5, 0), n) == NO_INDEX || best_upto(kkx_pos(wk, bk, x, 5, 0), n) + 1 < NO_INDEX,
    decreases n,
{
    if n > 0 {
        lemma_kkx_best(n - 1, wk, bk, x, code, stm);
        lemma_kkx_candidate(n - 1, wk, bk, x, code, stm);
    }
}

/// Agreement: the index of king, king and an officer of the first color is
/// the index of the same squares with a queen and the first color to move,
/// plus the digit of the side to move.
pub proof fn lemma_kkx_index(wk: int, bk: int, x: int, code: u8, stm: u8)
    requires
        kkx_squares_ok(wk, bk, x),
        is_officer(code),
        stm <= 1,
    ensures
        canonical_index(kkx_pos(wk, bk, x, code, stm)) == canonical_index(kkx_pos(wk, bk, x, 5, 0)) + stm,
        canonical_index(kkx_pos(wk, bk, x, 5, 0)) % 2 == 0,
        0 <= canonical_index(kkx_pos(wk, bk, x, 5, 0)) < 0x10_0000,
{
    let p = kkx_pos(wk, bk, x, code, stm);
    let q = kkx_pos(wk, bk, x, 5, 0);
    lemma_kkx_valid(wk, bk, x, code, stm);
    lemma_kkx_valid(wk, bk, x, 5, 0);
    lemma_kkx_material(wk, bk, x, code);
    lemma_kkx_material(wk, bk, x, 5);
    lemma_kkx_best(8, wk, bk, x, code, stm);
    let t = lemma_reduced_index(q);
    crate::meaning::lemma_index_parity(q);
    let sig = sig_of_board(q.board);
    crate::index::lemma_size_bound(sig, 10);
    crate::index::lemma_sum_upto(sig, 10);
    assert(crate::material::sig_total(sig) == 1);
    assert(crate::combination::p64(1) == 64);
    assert(table_size(sig) == crate::index::size_upto(sig, 10) * 1 * 2);
}

/// The place of three squares in the table.
pub open spec fn kkx_slot(wk: int, bk: int, x: int) -> int {
    (wk * 64 + bk) * 64 + x
}

/// The place of three squares names the squares.
pub proof fn lemma_slot(wk: int, bk: int, x: int)
    requires
        is_square(wk),
        is_square(bk),
        is_square(x),
    ensures
        0 <= kkx_slot(wk, bk, x) < 64 * 64 * 64,
        kkx_slot(wk, bk, x) / 4096 == wk,
        (kkx_slot(wk, bk, x) / 64) % 64 == bk,
        kkx_slot(wk, bk, x) % 64 == x,
{
}

/// What stands in the table where the three squares are no position.
pub const KKX_NONE: u32 = 0xffff_ffff;

/// For every three squares, half the index of king, king and queen on them
/// with the first color to move.
pub struct KkxTable {
    pub cells: Vec<u32>,
}

impl KkxTable {
    pub open spec fn wf(&self) -> bool {
        &&& self.cells@.len() == 64 * 64 * 64
        &&& forall|wk: int, bk: int, x: int|
            kkx_squares_ok(wk, bk, x) ==> self.cells@[#[trigger] kkx_slot(wk, bk, x)] * 2 == canonical_index(kkx_pos(wk, bk, x, 5, 0))
    }

    /// The cell for three squares.
    pub fn cell_for(ix: &Indexer, wk: u8, bk: u8, x: u8) -> (v: u32)
        requires
            ix.wf(),
            wk < 64,
            bk < 64,
            x < 64,
        ensures
            kkx_squares_ok(wk as int, bk as int, x as int) ==> v * 2 == canonical_index(kkx_pos(wk as int, bk as int, x as int, 5, 0)),
    {
        if x != wk && x != bk && !touching(wk, bk) {
            let mut board: [u8; 64] = [0u8; 64];
            board[wk as usize] = 6;
            board[bk as usize] = 14;
            board[x as usize] = 5;
            let p = Position { board, stm: 0, ep: 64 };
            proof {
                assert(p@.board =~= kkx_board(wk as int, bk as int, x as int, 5));
                lemma_kkx_valid(wk as int, bk as int, x as int, 5, 0);
                lemma_kkx_index(wk as int, bk as int, x as int, 5, 0);
            }
            let loc = ix.locate(&p);
            (loc.index / 2) as u32
        } else {
            KKX_NONE
        }
    }

    /// Makes the table, by the general composition.
    pub fn new(ix: &Indexer) -> (t: KkxTable)
        requires
            ix.wf(),
        ensures
            t.wf(),
    {
        let mut cells: Vec<u32> = Vec::new();
        let mut c: usize = 0;
        while c < 64 * 64 * 64
            invariant
                0 <= c <= 64 * 64 * 64,
                ix.wf(),
                cells@.len() == c,
                forall|wk: int, bk: int, x: int|
                    kkx_squares_ok(wk, bk, x) && #[trigger] kkx_slot(wk, bk, x) < c ==> cells@[kkx_slot(wk, bk, x)] * 2 == canonical_index(
                        kkx_pos(wk, bk, x, 5, 0),
                    ),
            decreases 64 * 64 * 64 - c,
        {
            let wk: u8 = (c / 4096) as u8;
            let bk: u8 = ((c / 64) % 64) as u8;
            let x: u8 = (c % 64) as u8;
            let ghost before = cells@;
            let v = KkxTable::cell_for(ix, wk, bk, x);
            cells.push(v);
            proof {
                assert forall|a: int, b: int, y: int| kkx_squares_ok(a, b, y) && #[trigger] kkx_slot(a, b, y) < c + 1 implies cells@[kkx_slot(a, b, y)] * 2
                    == canonical_index(kkx_pos(a, b, y, 5, 0)) by {
                    lemma_slot(a, b, y);
                    if kkx_slot(a, b, y) == c {
                    } else {
                        assert(before[kkx_slot(a, b, y)] * 2 == canonical_index(kkx_pos(a, b, y, 5, 0)));
                    }
                }
            }
            c = c + 1;
        }
        proof {
            assert forall|a: int, b: int, y: int| kkx_squares_ok(a, b, y) implies cells@[#[trigger] kkx_slot(a, b, y)] * 2 == canonical_index(
                kkx_pos(a, b, y, 5, 0),
            ) by {
                lemma_slot(a, b, y);
            }
        }
        KkxTable { cells }
    }

    /// The index of king, king and an officer of the first color, read from
    /// the table.
    pub fn index_of(&self, wk: u8, bk: u8, x: u8, code: u8, stm: u8) -> (i: u64)
        requires
            self.wf(),
            kkx_squares_ok(wk as int, bk as int, x as int),
            is_officer(code),
            stm <= 1,
        ensures
            i == canonical_index(kkx_pos(wk as int, bk as int, x as int, code, stm)),
    {
        proof {
            lemma_kkx_index(wk as int, bk as int, x as int, code, stm);
            assert(self.cells@[kkx_slot(wk as int, bk as int, x as int)] * 2 == canonical_index(kkx_pos(wk as int, bk as int, x as int, 5, 0)));
        }
        let slot: usize = (wk as usize * 64 + bk as usize) * 64 + x as usize;
        self.cells[slot] as u64 * 2 + stm as u64
    }

    /// Where a position is found; for king, king and an officer of the first
    /// color from the table, for any other position by the general
    /// composition. The two agree.
    pub fn locate(&self, ix: &Indexer, p: &Position) -> (r: Located)
        requires
            self.wf(),
            ix.wf(),
            p@.valid(),
        ensures
            r.swapped == needs_swap(p@),
            r.sig@ == canonical_sig(p@),
            sig_wf(r.sig@),
            r.index == canonical_index(p@),
            r.index < table_size(r.sig@),
    {
        let (wk, bk) = p.king_squares();
        let mut others: u8 = 0;
        let mut x: u8 = 0;
        let mut code: u8 = 0;
        let mut s: u8 = 0;
        while s < 64
            invariant
                0 <= s <= 64,
                others <= 2,
                others == 0 ==> forall|j: int| 0 <= j < s ==> #[trigger] p@.board[j] == 0 || p@.board[j] == 6 || p@.board[j] == 14,
                others == 1 ==> x < s && p@.board[x as int] == code && code != 0 && code != 6 && code != 14 && forall|j: int|
                    0 <= j < s && j != x ==> #[trigger] p@.board[j] == 0 || p@.board[j] == 6 || p@.board[j] == 14,
            decreases 64 - s,
        {
            let c = p.board[s as usize];
            if c != 0 && c != 6 && c != 14 {
                if others == 0 {
                    x = s;
                    code = c;
                    others = 1;
                } else {
                    others = 2;
                }
            }
            s = s + 1;
        }
        if others == 1 && 2 <= code && code <= 5 && p.ep == 64 {
            proof {
                assert(p@.sole_king(6, wk as int) && p@.sole_king(14, bk as int));
                assert(p@.board =~= kkx_board(wk as int, bk as int, x as int, code));
                assert(p@ == kkx_pos(wk as int, bk as int, x as int, code, p@.stm));
                lemma_kkx_valid(wk as int, bk as int, x as int, code, p@.stm);
                lemma_kkx_material(wk as int, bk as int, x as int, code);
                let t = lemma_reduced_index(p@);
            }
            let index = self.index_of(wk, bk, x, code, p.stm);
            let mut counts: [u8; 10] = [0u8; 10];
            counts[(5 - code) as usize] = 1;
            let sig = MaterialSignature { counts };
            proof {
                assert(sig@ =~= sig_of_board(p@.board));
            }
            Located { sig, index, swapped: false }
        } else {
            ix.locate(p)
        }
    }
}

} // verus!
