//! Material: where the pieces of one kind stand, how many there are, and the
//! signature that names the table of a position.
use vstd::prelude::*;
use vstd::relations::injective_on;
use vstd::set_lib::{lemma_len_subset, lemma_map_size};
use crate::codes::{is_piece_code, swap_code};
use crate::combination::is_combination;
use crate::position::{count_pieces, Pos, Position};
use crate::symmetry::{tf_square, tf_inverse, tf_board, mirror_board, lemma_tf_inverse, lemma_tf_coords};

verus! {

/// Whether the selector picks the code: selector 0 picks every piece, any
/// other selector picks the pieces of that code.
pub open spec fn selects(c: u8, sel: int) -> bool {
    if sel == 0 {
        c != 0
    } else {
        c == sel
    }
}

/// The squares below `n` whose piece the selector picks, in increasing order.
pub open spec fn squares_list(board: Seq<u8>, sel: int, n: int) -> Seq<int>
    decreases n,
{
    if n <= 0 {
        Seq::empty()
    } else if selects(board[n - 1], sel) {
        squares_list(board, sel, n - 1).push(n - 1)
    } else {
        squares_list(board, sel, n - 1)
    }
}

/// How many pieces on the board the selector picks.
pub open spec fn count_sel(board: Seq<u8>, sel: int) -> int {
    squares_list(board, sel, 64).len() as int
}

/// The list holds exactly the selected squares, in increasing order.
pub proof fn lemma_list_props(board: Seq<u8>, sel: int, n: int)
    requires
        0 <= n <= board.len(),
    ensures
        is_combination(squares_list(board, sel, n), n),
        squares_list(board, sel, n).len() <= n,
        forall|s: int| #[trigger] squares_list(board, sel, n).contains(s) <==> (0 <= s < n && selects(board[s], sel)),
    decreases n,
{
    let l = squares_list(board, sel, n);
    if n > 0 {
        let lp = squares_list(board, sel, n - 1);
        lemma_list_props(board, sel, n - 1);
        if selects(board[n - 1], sel) {
            assert(l == lp.push(n - 1));
            assert forall|s: int| #[trigger] l.contains(s) <==> (0 <= s < n && selects(board[s], sel)) by {
                if l.contains(s) {
                    let i = choose|i: int| 0 <= i < l.len() && l[i] == s;
                    if i < lp.len() {
                        assert(lp[i] == s);
                        assert(lp.contains(s));
                    }
                }
                if 0 <= s < n && selects(board[s], sel) {
                    if s == n - 1 {
                        assert(l[l.len() - 1] == s);
                    } else {
                        assert(lp.contains(s));
                        let i = choose|i: int| 0 <= i < lp.len() && lp[i] == s;
                        assert(l[i] == s);
                    }
                }
            }
        }
    } else {
        assert forall|s: int| #[trigger] l.contains(s) <==> (0 <= s < n && selects(board[s], sel)) by {
            if l.contains(s) {
                let i = choose|i: int| 0 <= i < l.len() && l[i] == s;
            }
        }
    }
}

/// The number of occupied squares is the length of the list of all pieces.
pub proof fn lemma_count_pieces_list(board: Seq<u8>, n: int)
    ensures
        count_pieces(board, n) == squares_list(board, 0, n).len(),
    decreases n,
{
    if n > 0 {
        lemma_count_pieces_list(board, n - 1);
    }
}

/// If a one-to-one map of the squares sends every square selected on one
/// board to a square selected on another, the other board has as many
/// selected squares at least.
pub proof fn lemma_count_mapped(b1: Seq<u8>, sel1: int, b2: Seq<u8>, sel2: int, f: spec_fn(int) -> int)
    requires
        b1.len() == 64,
        b2.len() == 64,
        forall|s: int| 0 <= s < 64 && selects(b1[s], sel1) ==> 0 <= #[trigger] f(s) < 64 && selects(b2[f(s)], sel2),
        forall|s: int, u: int| 0 <= s < 64 && 0 <= u < 64 && #[trigger] f(s) == #[trigger] f(u) ==> s == u,
    ensures
        count_sel(b1, sel1) <= count_sel(b2, sel2),
{
    let l1 = squares_list(b1, sel1, 64);
    let l2 = squares_list(b2, sel2, 64);
    lemma_list_props(b1, sel1, 64);
    lemma_list_props(b2, sel2, 64);
    assert(l1.no_duplicates());
    assert(l2.no_duplicates());
    l1.unique_seq_to_set();
    l2.unique_seq_to_set();
    vstd::seq_lib::seq_to_set_is_finite(l1);
    vstd::seq_lib::seq_to_set_is_finite(l2);
    let s1 = l1.to_set();
    let s2 = l2.to_set();
    let img = s1.map(f);
    assert(injective_on(f, s1)) by {
        assert forall|x1: int, x2: int| s1.contains(x1) && s1.contains(x2) && #[trigger] f(x1) == #[trigger] f(x2) implies x1 == x2 by {
            assert(l1.contains(x1) && l1.contains(x2));
        }
    }
    lemma_map_size(s1, img, f);
    assert(img.subset_of(s2)) by {
        assert forall|y: int| img.contains(y) implies s2.contains(y) by {
            let x = choose|x: int| s1.contains(x) && f(x) == y;
            assert(l1.contains(x));
            assert(l2.contains(f(x)));
        }
    }
    lemma_len_subset(img, s2);
}

/// A board symmetry keeps the number of pieces of each kind.
pub proof fn lemma_count_transform(t: int, board: Seq<u8>, sel: int)
    requires
        0 <= t < 8,
        board.len() == 64,
    ensures
        count_sel(tf_board(t, board), sel) == count_sel(board, sel),
{
    let b2 = tf_board(t, board);
    let f = |s: int| tf_square(t, s);
    let g = |s: int| tf_square(tf_inverse(t), s);
    assert forall|s: int| 0 <= s < 64 implies 0 <= #[trigger] f(s) < 64 && b2[f(s)] == board[s] by {
        lemma_tf_inverse(t, s);
        lemma_tf_coords(t, s);
    }
    assert forall|s: int, u: int| 0 <= s < 64 && 0 <= u < 64 && #[trigger] f(s) == #[trigger] f(u) implies s == u by {
        lemma_tf_inverse(t, s);
        lemma_tf_inverse(t, u);
    }
    assert forall|s: int| 0 <= s < 64 implies 0 <= #[trigger] g(s) < 64 && b2[s] == board[g(s)] by {
        lemma_tf_coords(tf_inverse(t), s);
    }
    assert forall|s: int, u: int| 0 <= s < 64 && 0 <= u < 64 && #[trigger] g(s) == #[trigger] g(u) implies s == u by {
        lemma_tf_inverse(t, s);
        lemma_tf_inverse(t, u);
    }
    lemma_count_mapped(board, sel, b2, sel, f);
    lemma_count_mapped(b2, sel, board, sel, g);
}

/// The selector that picks the same role in the other color.
pub open spec fn swap_sel(sel: int) -> int {
    swap_code(sel)
}

/// Exchanging the colors exchanges the counts of the two sides.
pub proof fn lemma_count_mirror(board: Seq<u8>, sel: int)
    requires
        board.len() == 64,
        forall|sq: int| 0 <= sq < 64 ==> board[sq] == 0 || is_piece_code(#[trigger] board[sq] as int),
        sel == 0 || is_piece_code(sel),
    ensures
        count_sel(mirror_board(board), swap_sel(sel)) == count_sel(board, sel),
{
    let b2 = mirror_board(board);
    let f = |s: int| tf_square(2, s);
    assert forall|s: int| 0 <= s < 64 implies 0 <= #[trigger] f(s) < 64 && b2[f(s)] == swap_code(board[s] as int) && b2[s] == swap_code(board[f(s)] as int) by {
        lemma_tf_inverse(2, s);
        lemma_tf_coords(2, s);
        let u = f(s);
        assert(board[u] == 0 || is_piece_code(board[u] as int));
        assert(board[s] == 0 || is_piece_code(board[s] as int));
    }
    assert forall|s: int, u: int| 0 <= s < 64 && 0 <= u < 64 && #[trigger] f(s) == #[trigger] f(u) implies s == u by {
        lemma_tf_inverse(2, s);
        lemma_tf_inverse(2, u);
    }
    assert forall|s: int| 0 <= s < 64 && selects(board[s], sel) implies selects(b2[f(s)], swap_sel(sel)) by {
        assert(board[s] == 0 || is_piece_code(board[s] as int));
    }
    assert forall|s: int| 0 <= s < 64 && selects(b2[s], swap_sel(sel)) implies selects(board[f(s)], sel) by {
        let u = f(s);
        assert(board[u] == 0 || is_piece_code(board[u] as int));
    }
    lemma_count_mapped(board, sel, b2, swap_sel(sel), f);
    lemma_count_mapped(b2, swap_sel(sel), board, sel, f);
}

/// The code of the `g`-th group of a signature: queen, rook, bishop, knight
/// and pawn of the first color, then of the second.
pub open spec fn group_code(g: int) -> int {
    if g < 5 {
        5 - g
    } else {
        18 - g
    }
}

/// The counts of the ten groups on a board.
pub open spec fn sig_of_board(board: Seq<u8>) -> Seq<int> {
    Seq::new(10, |g: int| count_sel(board, group_code(g)))
}

/// The weight of one side's material, greater for the side with more queens,
/// then rooks, bishops, knights and pawns.
pub open spec fn side_key(sig: Seq<int>, color: int) -> int {
    let o = 5 * color;
    (((sig[o] * 8 + sig[o + 1]) * 8 + sig[o + 2]) * 8 + sig[o + 3]) * 8 + sig[o + 4]
}

/// The signature with the two sides exchanged.
pub open spec fn swap_sig(sig: Seq<int>) -> Seq<int> {
    Seq::new(10, |g: int| if g < 5 {
        sig[g + 5]
    } else {
        sig[g - 5]
    })
}

pub open spec fn sig_has_pawns(sig: Seq<int>) -> bool {
    sig[4] > 0 || sig[9] > 0
}

/// The sum of the ten counts.
pub open spec fn sig_total(sig: Seq<int>) -> int {
    sig[0] + sig[1] + sig[2] + sig[3] + sig[4] + sig[5] + sig[6] + sig[7] + sig[8] + sig[9]
}

/// A signature of the library: ten counts, none negative, at most four in
/// all, which with the two kings makes six pieces.
pub open spec fn sig_wf(sig: Seq<int>) -> bool {
    &&& sig.len() == 10
    &&& forall|g: int| 0 <= g < 10 ==> 0 <= #[trigger] sig[g]
    &&& sig_total(sig) <= 4
}

/// The ten groups and the kings together hold no more pieces than the
/// board.
pub proof fn lemma_groups_within_pieces(board: Seq<u8>, n: int)
    requires
        0 <= n <= 64,
    ensures
        squares_list(board, 5, n).len() + squares_list(board, 4, n).len() + squares_list(board, 3, n).len()
            + squares_list(board, 2, n).len() + squares_list(board, 1, n).len() + squares_list(board, 13, n).len()
            + squares_list(board, 12, n).len() + squares_list(board, 11, n).len() + squares_list(board, 10, n).len()
            + squares_list(board, 9, n).len() + squares_list(board, 6, n).len() + squares_list(board, 14, n).len()
            <= squares_list(board, 0, n).len(),
    decreases n,
{
    if n > 0 {
        lemma_groups_within_pieces(board, n - 1);
    }
}

/// A king that stands alone is counted once.
pub proof fn lemma_one_king_count(p: Pos, k: int)
    requires
        p.board.len() == 64,
        k == 6 || k == 14,
        p.one_king(k),
    ensures
        count_sel(p.board, k) == 1,
{
    let l = squares_list(p.board, k, 64);
    let x = p.king_sq(k);
    assert(p.sole_king(k, x));
    lemma_list_props(p.board, k, 64);
    assert(l.contains(x));
    if l.len() >= 2 {
        assert(l.contains(l[0]));
        assert(l.contains(l[1]));
        assert(l[0] < l[1]);
    }
}

/// The signature of a valid position is well formed.
pub proof fn lemma_sig_wf(p: Pos)
    requires
        p.valid(),
    ensures
        sig_wf(sig_of_board(p.board)),
{
    lemma_groups_within_pieces(p.board, 64);
    lemma_count_pieces_list(p.board, 64);
    lemma_one_king_count(p, 6);
    lemma_one_king_count(p, 14);
}

/// The material signature that names a table.
#[derive(Clone, Copy, Debug, PartialEq, Eq)]
pub struct MaterialSignature {
    pub counts: [u8; 10],
}

impl View for MaterialSignature {
    type V = Seq<int>;

    open spec fn view(&self) -> Seq<int> {
        Seq::new(10, |g: int| self.counts@[g] as int)
    }
}

/// The group (0 to 9) of a code that is neither empty nor a king.
pub fn group_of(c: u8) -> (g: usize)
    requires
        is_piece_code(c as int),
        c != 6,
        c != 14,
    ensures
        g < 10,
        group_code(g as int) == c,
{
    if c < 6 {
        (5 - c) as usize
    } else {
        (18 - c) as usize
    }
}

pub fn code_of_group(g: usize) -> (c: u8)
    requires
        g < 10,
    ensures
        c == group_code(g as int),
        is_piece_code(c as int),
        c != 6,
        c != 14,
{
    if g < 5 {
        (5 - g) as u8
    } else {
        (18 - g) as u8
    }
}

impl MaterialSignature {
    /// Whether the counts are those of at most six pieces, the two kings,
    /// which a signature does not count, included.
    pub fn well_formed(&self) -> (b: bool)
        ensures
            b == sig_wf(self@),
    {
        proof {
            assert(self@[0] == self.counts@[0] && self@[1] == self.counts@[1] && self@[2] == self.counts@[2]);
            assert(self@[3] == self.counts@[3] && self@[4] == self.counts@[4] && self@[5] == self.counts@[5]);
            assert(self@[6] == self.counts@[6] && self@[7] == self.counts@[7] && self@[8] == self.counts@[8]);
            assert(self@[9] == self.counts@[9]);
        }
        let c = &self.counts;
        let total: u16 = c[0] as u16 + c[1] as u16 + c[2] as u16 + c[3] as u16 + c[4] as u16 + c[5] as u16
            + c[6] as u16 + c[7] as u16 + c[8] as u16 + c[9] as u16;
        total <= 4
    }

    pub fn has_pawns(&self) -> (b: bool)
        ensures
            b == sig_has_pawns(self@),
    {
        self.counts[4] > 0 || self.counts[9] > 0
    }

    /// Whether the two signatures name the same table.
    pub fn same(&self, other: &MaterialSignature) -> (b: bool)
        ensures
            b == (self@ == other@),
    {
        let mut g: usize = 0;
        while g < 10
            invariant
                0 <= g <= 10,
                forall|j: int| 0 <= j < g ==> self.counts@[j] == other.counts@[j],
            decreases 10 - g,
        {
            if self.counts[g] != other.counts[g] {
                proof {
                    assert(self@[g as int] != other@[g as int]);
                }
                return false;
            }
            g = g + 1;
        }
        proof {
            assert(self@ =~= other@);
        }
        true
    }

    /// The weight of one side's material.
    pub fn key(&self, color: u8) -> (k: u32)
        requires
            color <= 1,
            sig_wf(self@),
        ensures
            k == side_key(self@, color as int),
    {
        let o: usize = 5 * color as usize;
        proof {
            assert(self@[o as int] == self.counts@[o as int]);
            assert(self@[o + 1] == self.counts@[o + 1]);
            assert(self@[o + 2] == self.counts@[o + 2]);
            assert(self@[o + 3] == self.counts@[o + 3]);
            assert(self@[o + 4] == self.counts@[o + 4]);
            assert(forall|g: int| 0 <= g < 10 ==> 0 <= #[trigger] self@[g] <= 4);
        }
        let a: u32 = self.counts[o] as u32;
        let b: u32 = self.counts[o + 1] as u32;
        let c: u32 = self.counts[o + 2] as u32;
        let d: u32 = self.counts[o + 3] as u32;
        let e: u32 = self.counts[o + 4] as u32;
        (((a * 8 + b) * 8 + c) * 8 + d) * 8 + e
    }
}

impl Position {
    /// The counts of the ten groups on the board, as it stands.
    pub fn material(&self) -> (sig: MaterialSignature)
        requires
            self@.valid(),
        ensures
            sig@ == sig_of_board(self@.board),
            sig_wf(sig@),
    {
        let mut counts: [u8; 10] = [0u8; 10];
        let mut s: usize = 0;
        let ghost board = self@.board;
        while s < 64
            invariant
                0 <= s <= 64,
                board == self@.board,
                self@.wf(),
                forall|g: int| 0 <= g < 10 ==> #[trigger] counts@[g] == squares_list(board, group_code(g), s as int).len(),
            decreases 64 - s,
        {
            let c = self.board[s];
            proof {
                assert(board[s as int] == 0 || is_piece_code(board[s as int] as int));
                assert forall|g: int| 0 <= g < 10 implies squares_list(board, group_code(g), s as int).len() <= s by {
                    lemma_list_props(board, group_code(g), s as int);
                }
            }
            if c != 0 && c != 6 && c != 14 {
                let g = group_of(c);
                assert(counts@[g as int] == squares_list(board, group_code(g as int), s as int).len());
                counts[g] = counts[g] + 1;
            }
            s = s + 1;
        }
        let sig = MaterialSignature { counts };
        proof {
            assert(sig@ =~= sig_of_board(board));
            lemma_sig_wf(self@);
        }
        sig
    }
}

} // verus!
