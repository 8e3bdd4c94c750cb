//! How validity, kings and material behave under the board symmetries and
//! under the exchange of colors, and the choice of which side a table is
//! keyed by.
use vstd::prelude::*;
use crate::codes::{is_piece_code, is_square, squares_touch, swap_code};
use crate::position::{count_pieces, ep_consistent, Pos};
use crate::symmetry::{
    tf_square, tf_inverse, tf_board, tf_pos, tf_ep, mirror_board, mirror_pos, lemma_tf_inverse,
    lemma_tf_coords, lemma_tf_pos_wf,
};
use crate::material::{
    count_sel, squares_list, sig_of_board, sig_has_pawns, swap_sig, side_key, group_code, sig_wf,
    lemma_count_transform, lemma_count_mirror, lemma_count_pieces_list, lemma_list_props, lemma_sig_wf,
};

verus! {

/// A king that stands alone on `sq` is the king that `king_sq` names.
pub proof fn lemma_king_sq(p: Pos, k: int, sq: int)
    requires
        p.sole_king(k, sq),
    ensures
        p.one_king(k),
        p.king_sq(k) == sq,
{
    let x = p.king_sq(k);
    assert(p.sole_king(k, x));
}

/// A symmetry moves the kings with the board.
pub proof fn lemma_tf_kings(t: int, p: Pos, k: int)
    requires
        0 <= t < 8,
        p.wf(),
        p.one_king(k),
    ensures
        tf_pos(t, p).one_king(k),
        tf_pos(t, p).king_sq(k) == tf_square(t, p.king_sq(k)),
        is_square(p.king_sq(k)),
{
    let q = tf_pos(t, p);
    let x = p.king_sq(k);
    assert(p.sole_king(k, x));
    let y = tf_square(t, x);
    lemma_tf_inverse(t, x);
    lemma_tf_coords(t, x);
    assert forall|s: int| 0 <= s < 64 && #[trigger] q.board[s] == k implies s == y by {
        let u = tf_square(tf_inverse(t), s);
        lemma_tf_coords(tf_inverse(t), s);
        lemma_tf_inverse(t, s);
        assert(p.board[u] == k);
    }
    assert(q.sole_king(k, y));
    lemma_king_sq(q, k, y);
}

/// Symmetries keep neighbours neighbours.
pub proof fn lemma_tf_touch(t: int, a: int, b: int)
    requires
        0 <= t < 8,
        is_square(a),
        is_square(b),
    ensures
        squares_touch(tf_square(t, a), tf_square(t, b)) == squares_touch(a, b),
{
    lemma_tf_coords(t, a);
    lemma_tf_coords(t, b);
}

/// A position without pawns has no en-passant square.
pub proof fn lemma_pawnless_no_ep(p: Pos)
    requires
        p.valid(),
        !sig_has_pawns(sig_of_board(p.board)),
    ensures
        p.ep == 64,
{
    if p.ep != 64 {
        let sel: int = if p.stm == 0 {
            9
        } else {
            1
        };
        let s: int = if p.stm == 0 {
            p.ep - 8
        } else {
            p.ep + 8
        };
        lemma_list_props(p.board, sel, 64);
        assert(squares_list(p.board, sel, 64).contains(s));
        assert(count_sel(p.board, sel) > 0);
        assert(sig_of_board(p.board)[9] == count_sel(p.board, group_code(9)));
        assert(sig_of_board(p.board)[4] == count_sel(p.board, group_code(4)));
    }
}

/// A symmetry keeps the material.
pub proof fn lemma_tf_sig(t: int, p: Pos)
    requires
        0 <= t < 8,
        p.wf(),
    ensures
        sig_of_board(tf_pos(t, p).board) == sig_of_board(p.board),
        tf_pos(t, p).piece_count() == p.piece_count(),
{
    let q = tf_pos(t, p);
    assert forall|g: int| 0 <= g < 10 implies sig_of_board(q.board)[g] == sig_of_board(p.board)[g] by {
        lemma_count_transform(t, p.board, group_code(g));
    }
    assert(sig_of_board(q.board) =~= sig_of_board(p.board));
    lemma_count_transform(t, p.board, 0);
    lemma_count_pieces_list(p.board, 64);
    lemma_count_pieces_list(q.board, 64);
}

/// A symmetry that the signature admits keeps a position valid: any of the
/// eight without an en-passant square, the reflection of the files with one.
pub proof fn lemma_tf_valid(t: int, p: Pos)
    requires
        0 <= t < 8,
        p.valid(),
        t < 2 || p.ep == 64,
    ensures
        tf_pos(t, p).valid(),
{
    let q = tf_pos(t, p);
    lemma_tf_pos_wf(t, p);
    lemma_tf_kings(t, p, 6);
    lemma_tf_kings(t, p, 14);
    lemma_tf_touch(t, p.king_sq(6), p.king_sq(14));
    lemma_tf_sig(t, p);
    if p.ep != 64 {
        let e = p.ep as int;
        lemma_tf_coords(t, e);
        lemma_tf_coords(t, e + 8);
        lemma_tf_coords(t, e - 8);
        lemma_tf_inverse(t, e);
        lemma_tf_inverse(t, e + 8);
        lemma_tf_inverse(t, e - 8);
        assert(tf_square(t, e + 8) == tf_square(t, e) + 8);
        assert(tf_square(t, e - 8) == tf_square(t, e) - 8);
    }
}

/// Exchanging the colors moves each king to the other color and the
/// reflected square.
pub proof fn lemma_mirror_kings(p: Pos, k: int)
    requires
        p.wf(),
        k == 6 || k == 14,
        p.one_king(k),
    ensures
        mirror_pos(p).one_king(swap_code(k)),
        mirror_pos(p).king_sq(swap_code(k)) == tf_square(2, p.king_sq(k)),
        is_square(p.king_sq(k)),
{
    let q = mirror_pos(p);
    let x = p.king_sq(k);
    assert(p.sole_king(k, x));
    let y = tf_square(2, x);
    lemma_tf_inverse(2, x);
    lemma_tf_coords(2, x);
    assert forall|s: int| 0 <= s < 64 && #[trigger] q.board[s] == swap_code(k) implies s == y by {
        let u = tf_square(2, s);
        lemma_tf_coords(2, s);
        lemma_tf_inverse(2, s);
        assert(p.board[u] == 0 || is_piece_code(p.board[u] as int));
        assert(p.board[u] == k);
    }
    assert(q.sole_king(swap_code(k), y));
    lemma_king_sq(q, swap_code(k), y);
}

pub proof fn lemma_mirror_wf(p: Pos)
    requires
        p.wf(),
    ensures
        mirror_pos(p).wf(),
{
    let q = mirror_pos(p);
    assert forall|sq: int| 0 <= sq < 64 implies q.board[sq] == 0 || is_piece_code(#[trigger] q.board[sq] as int) by {
        let u = tf_square(2, sq);
        lemma_tf_coords(2, sq);
        assert(p.board[u] == 0 || is_piece_code(p.board[u] as int));
    }
    if p.ep != 64 {
        lemma_tf_coords(2, p.ep as int);
    }
}

/// Exchanging the colors exchanges the material of the two sides.
pub proof fn lemma_mirror_sig(p: Pos)
    requires
        p.wf(),
    ensures
        sig_of_board(mirror_pos(p).board) == swap_sig(sig_of_board(p.board)),
        mirror_pos(p).piece_count() == p.piece_count(),
{
    let q = mirror_pos(p);
    assert forall|g: int| 0 <= g < 10 implies sig_of_board(q.board)[g] == swap_sig(sig_of_board(p.board))[g] by {
        let h = if g < 5 {
            g + 5
        } else {
            g - 5
        };
        lemma_count_mirror(p.board, group_code(h));
    }
    assert(sig_of_board(q.board) =~= swap_sig(sig_of_board(p.board)));
    lemma_count_mirror(p.board, 0);
    lemma_count_pieces_list(p.board, 64);
    lemma_count_pieces_list(q.board, 64);
}

/// Exchanging the colors keeps a position valid.
pub proof fn lemma_mirror_valid(p: Pos)
    requires
        p.valid(),
    ensures
        mirror_pos(p).valid(),
{
    let q = mirror_pos(p);
    lemma_mirror_wf(p);
    lemma_mirror_kings(p, 6);
    lemma_mirror_kings(p, 14);
    lemma_tf_touch(2, p.king_sq(6), p.king_sq(14));
    lemma_mirror_sig(p);
    if p.ep != 64 {
        let e = p.ep as int;
        lemma_tf_coords(2, e);
        lemma_tf_coords(2, e + 8);
        lemma_tf_coords(2, e - 8);
        lemma_tf_inverse(2, e);
        lemma_tf_inverse(2, e + 8);
        lemma_tf_inverse(2, e - 8);
        assert(tf_square(2, e + 8) == tf_square(2, e) - 8);
        assert(tf_square(2, e - 8) == tf_square(2, e) + 8);
    }
}

/// Exchanging the colors twice changes nothing.
pub proof fn lemma_mirror_involution(p: Pos)
    requires
        p.wf(),
    ensures
        mirror_pos(mirror_pos(p)) == p,
{
    let q = mirror_pos(p);
    let r = mirror_pos(q);
    assert forall|s: int| 0 <= s < 64 implies r.board[s] == p.board[s] by {
        let u = tf_square(2, s);
        lemma_tf_coords(2, s);
        lemma_tf_inverse(2, s);
        assert(p.board[s] == 0 || is_piece_code(p.board[s] as int));
    }
    assert(r.board =~= p.board);
    if p.ep != 64 {
        lemma_tf_coords(2, p.ep as int);
        lemma_tf_inverse(2, p.ep as int);
    }
}

/// Whether the table of the position is keyed by the colors exchanged: when
/// the second side has the heavier material, or the same and the move.
pub open spec fn needs_swap(p: Pos) -> bool {
    let sig = sig_of_board(p.board);
    side_key(sig, 1) > side_key(sig, 0) || (side_key(sig, 1) == side_key(sig, 0) && p.stm == 1)
}

/// The position as its table sees it.
pub open spec fn oriented(p: Pos) -> Pos {
    if needs_swap(p) {
        mirror_pos(p)
    } else {
        p
    }
}

/// The signature of the table that covers the position.
pub open spec fn canonical_sig(p: Pos) -> Seq<int> {
    sig_of_board(oriented(p).board)
}

/// Exchanging the sides of a signature exchanges their weights.
pub proof fn lemma_swap_keys(sig: Seq<int>)
    requires
        sig.len() == 10,
    ensures
        side_key(swap_sig(sig), 0) == side_key(sig, 1),
        side_key(swap_sig(sig), 1) == side_key(sig, 0),
{
    let sw = swap_sig(sig);
    assert(sw[0] == sig[5] && sw[1] == sig[6] && sw[2] == sig[7] && sw[3] == sig[8] && sw[4] == sig[9]);
    assert(sw[5] == sig[0] && sw[6] == sig[1] && sw[7] == sig[2] && sw[8] == sig[3] && sw[9] == sig[4]);
}

/// Of a position and its mirror image exactly one is keyed as it stands, and
/// both are seen by their table as the same position.
pub proof fn lemma_oriented_mirror(p: Pos)
    requires
        p.valid(),
    ensures
        needs_swap(mirror_pos(p)) == !needs_swap(p),
        oriented(mirror_pos(p)) == oriented(p),
        oriented(p).valid(),
        !needs_swap(oriented(p)),
{
    let m = mirror_pos(p);
    let sig = sig_of_board(p.board);
    lemma_mirror_sig(p);
    lemma_mirror_involution(p);
    lemma_mirror_valid(p);
    lemma_swap_keys(sig);
    assert(sig_of_board(m.board) == swap_sig(sig));
    assert(m.stm == 1 - p.stm);
    assert(p.stm == 0 || p.stm == 1);
    assert(needs_swap(m) == !needs_swap(p));
}

} // verus!
