//! Finding a position in its table: the choice of the side the table is
//! keyed by, and of the board symmetry that gives the least number.
use vstd::prelude::*;
use crate::index::{
    best_upto, candidate, canonical_index, pos_admissible, raw_index, reduced_index, table_size,
    transforms, lemma_raw_index_bound, Indexer, Located, NO_INDEX,
};
use crate::kings::{kings_admissible, kings_ok};
use crate::material::{sig_has_pawns, sig_of_board, sig_wf, MaterialSignature};
use crate::orient::{
    canonical_sig, needs_swap, oriented, lemma_oriented_mirror, lemma_pawnless_no_ep, lemma_tf_kings,
    lemma_tf_sig, lemma_tf_touch, lemma_tf_valid,
};
use crate::position::{Pos, Position};
use crate::symmetry::{
    tf_pos, tf_square, tf_compose, tf_inverse, tf_ep, mirror_pos, transform_square, lemma_tf_coords,
    lemma_tf_pos_compose, lemma_tf_compose_cancel, lemma_tf_compose, lemma_tf_inverse,
};
use crate::codes::{is_piece_code, swap_code};

verus! {

/// A symmetry that brings a king pair into reduced form: reflect the files
/// if the first king stands on files e to h; without pawns, reflect the ranks
/// if it stands on ranks 5 to 8, and then reflect in the diagonal if it
/// stands above it, or on it with the second king above.
pub open spec fn norm_transform(pawns: bool, wk: int, bk: int) -> int {
    let a = wk % 8 > 3;
    let b = wk / 8 > 3;
    if pawns {
        if a {
            1
        } else {
            0
        }
    } else {
        let f = if a {
            7 - wk % 8
        } else {
            wk % 8
        };
        let r = if b {
            7 - wk / 8
        } else {
            wk / 8
        };
        let bf = if a {
            7 - bk % 8
        } else {
            bk % 8
        };
        let br = if b {
            7 - bk / 8
        } else {
            bk / 8
        };
        if r > f || (r == f && br > bf) {
            4 + (if b {
                1int
            } else {
                0int
            }) + (if a {
                2int
            } else {
                0int
            })
        } else {
            (if a {
                1int
            } else {
                0int
            }) + (if b {
                2int
            } else {
                0int
            })
        }
    }
}

/// Every valid position has an image whose king pair is in reduced form.
pub proof fn lemma_some_admissible(p: Pos) -> (t: int)
    requires
        p.valid(),
    ensures
        0 <= t < transforms(sig_has_pawns(sig_of_board(p.board))),
        pos_admissible(tf_pos(t, p)),
{
    let pawns = sig_has_pawns(sig_of_board(p.board));
    let wk = p.king_sq(6);
    let bk = p.king_sq(14);
    let t = norm_transform(pawns, wk, bk);
    lemma_tf_kings(t, p, 6);
    lemma_tf_kings(t, p, 14);
    lemma_tf_sig(t, p);
    lemma_tf_touch(t, wk, bk);
    lemma_tf_coords(t, wk);
    lemma_tf_coords(t, bk);
    t
}

/// The least number is no greater than any candidate.
pub proof fn lemma_best_le(p: Pos, n: int, t: int)
    requires
        0 <= t < n,
    ensures
        best_upto(p, n) <= candidate(p, t),
    decreases n,
{
    if t < n - 1 {
        lemma_best_le(p, n - 1, t);
    }
}

/// The least number, if there is one, is the number of some candidate.
pub proof fn lemma_best_attained(p: Pos, n: int) -> (t: int)
    requires
        best_upto(p, n) < NO_INDEX,
    ensures
        0 <= t < n,
        candidate(p, t) == best_upto(p, n),
    decreases n,
{
    if n <= 0 {
        0
    } else if candidate(p, n - 1) < best_upto(p, n - 1) {
        n - 1
    } else {
        lemma_best_attained(p, n - 1)
    }
}

/// The index of a valid position that is keyed as it stands lies inside its
/// table, and is the number of an image whose king pair is in reduced form.
pub proof fn lemma_reduced_index(p: Pos) -> (t: int)
    requires
        p.valid(),
    ensures
        0 <= t < transforms(sig_has_pawns(sig_of_board(p.board))),
        pos_admissible(tf_pos(t, p)),
        tf_pos(t, p).valid(),
        sig_of_board(tf_pos(t, p).board) == sig_of_board(p.board),
        reduced_index(p) == raw_index(tf_pos(t, p)),
        0 <= reduced_index(p) < table_size(sig_of_board(p.board)),
        sig_wf(sig_of_board(p.board)),
{
    let pawns = sig_has_pawns(sig_of_board(p.board));
    let n = transforms(pawns);
    let t0 = lemma_some_admissible(p);
    if !pawns {
        lemma_pawnless_no_ep(p);
    }
    lemma_tf_valid(t0, p);
    lemma_tf_sig(t0, p);
    lemma_raw_index_bound(tf_pos(t0, p));
    lemma_best_le(p, n, t0);
    let t = lemma_best_attained(p, n);
    lemma_tf_valid(t, p);
    lemma_tf_sig(t, p);
    lemma_raw_index_bound(tf_pos(t, p));
    t
}

impl Indexer {
    /// The signature and the index of a position that is keyed as it stands.
    pub fn reduce(&self, p: &Position) -> (r: (MaterialSignature, u64))
        requires
            self.wf(),
            p@.valid(),
        ensures
            r.0@ == sig_of_board(p@.board),
            sig_wf(r.0@),
            r.1 == reduced_index(p@),
            r.1 < table_size(r.0@),
    {
        let sig = p.material();
        let pawns = sig.has_pawns();
        let (wk, bk) = p.king_squares();
        let nt: u8 = if pawns {
            2
        } else {
            8
        };
        let mut best: u64 = NO_INDEX;
        let mut t: u8 = 0;
        while t < nt
            invariant
                0 <= t <= nt,
                nt == transforms(pawns),
                self.wf(),
                p@.valid(),
                pawns == sig_has_pawns(sig_of_board(p@.board)),
                wk == p@.king_sq(6),
                bk == p@.king_sq(14),
                wk < 64,
                bk < 64,
                best == best_upto(p@, t as int),
            decreases nt - t,
        {
            let wkt = transform_square(t, wk);
            let bkt = transform_square(t, bk);
            proof {
                lemma_tf_kings(t as int, p@, 6);
                lemma_tf_kings(t as int, p@, 14);
                lemma_tf_sig(t as int, p@);
                if !pawns {
                    lemma_pawnless_no_ep(p@);
                }
                lemma_tf_valid(t as int, p@);
            }
            if kings_ok(pawns, wkt, bkt) {
                let q = p.transformed(t);
                let r = self.raw_of(&q, pawns, wkt, bkt);
                proof {
                    lemma_raw_index_bound(q@);
                }
                if r < best {
                    best = r;
                }
            }
            t = t + 1;
        }
        proof {
            let t1 = lemma_reduced_index(p@);
        }
        (sig, best)
    }

    /// The table that covers a position, the index of the position in it, and
    /// whether the table sees the position with the colors exchanged.
    pub fn locate(&self, p: &Position) -> (r: Located)
        requires
            self.wf(),
            p@.valid(),
        ensures
            r.swapped == needs_swap(p@),
            r.sig@ == canonical_sig(p@),
            sig_wf(r.sig@),
            r.index == canonical_index(p@),
            r.index < table_size(r.sig@),
    {
        let sig0 = p.material();
        let k0 = sig0.key(0);
        let k1 = sig0.key(1);
        let swapped = k1 > k0 || (k1 == k0 && p.stm == 1);
        proof {
            lemma_oriented_mirror(p@);
        }
        let p1 = if swapped {
            p.mirrored()
        } else {
            *p
        };
        let (sig, index) = self.reduce(&p1);
        Located { sig, index, swapped }
    }
}

/// The candidates of an image are the candidates of the position, in another
/// order.
pub proof fn lemma_candidate_compose(p: Pos, h: int, t: int)
    requires
        p.wf(),
        0 <= h < 8,
        0 <= t < 8,
    ensures
        candidate(tf_pos(h, p), t) == candidate(p, tf_compose(t, h)),
{
    lemma_tf_pos_compose(t, h, p);
}

/// A position that is keyed as it stands and its image under a symmetry that
/// its signature admits have the same index.
pub proof fn lemma_reduced_symmetric(p: Pos, h: int)
    requires
        p.valid(),
        0 <= h < transforms(sig_has_pawns(sig_of_board(p.board))),
    ensures
        tf_pos(h, p).valid(),
        sig_of_board(tf_pos(h, p).board) == sig_of_board(p.board),
        reduced_index(tf_pos(h, p)) == reduced_index(p),
{
    let pawns = sig_has_pawns(sig_of_board(p.board));
    let n = transforms(pawns);
    let q = tf_pos(h, p);
    if !pawns {
        lemma_pawnless_no_ep(p);
    }
    lemma_tf_valid(h, p);
    lemma_tf_sig(h, p);
    let t1 = lemma_reduced_index(q);
    let c1 = tf_compose(t1, h);
    lemma_tf_compose_cancel(t1, h);
    lemma_candidate_compose(p, h, t1);
    lemma_best_le(p, n, c1);
    let u = lemma_reduced_index(p);
    let c2 = tf_compose(u, tf_inverse(h));
    lemma_tf_compose_cancel(u, h);
    lemma_tf_compose_cancel(u, tf_inverse(h));
    lemma_candidate_compose(p, h, c2);
    lemma_best_le(q, n, c2);
}

/// Exchanging the colors after a symmetry is a symmetry after exchanging the
/// colors.
pub proof fn lemma_mirror_transform(p: Pos, h: int)
    requires
        p.wf(),
        0 <= h < 8,
    ensures
        mirror_pos(tf_pos(h, p)) == tf_pos(tf_compose(2, tf_compose(h, 2)), mirror_pos(p)),
        0 <= tf_compose(2, tf_compose(h, 2)) < 8,
        h < 2 ==> tf_compose(2, tf_compose(h, 2)) == h,
{
    let c = tf_compose(2, tf_compose(h, 2));
    let l = mirror_pos(tf_pos(h, p));
    let r = tf_pos(c, mirror_pos(p));
    lemma_tf_compose_cancel(h, 2);
    lemma_tf_compose_cancel(2, tf_compose(h, 2));
    assert forall|s: int| 0 <= s < 64 implies l.board[s] == r.board[s] by {
        let s2 = tf_square(2, s);
        lemma_tf_coords(2, s);
        lemma_tf_coords(tf_inverse(h), s2);
        let u = tf_square(tf_inverse(c), s);
        lemma_tf_coords(tf_inverse(c), s);
        lemma_tf_coords(2, u);
        lemma_tf_coords(h, tf_square(2, u));
        lemma_tf_inverse(h, tf_square(2, u));
        lemma_tf_inverse(c, s);
        lemma_tf_compose(h, 2, u);
        lemma_tf_compose(2, tf_compose(h, 2), u);
        lemma_tf_inverse(2, tf_square(tf_compose(h, 2), u));
    }
    assert(l.board =~= r.board);
    if p.ep != 64 {
        let e = p.ep as int;
        lemma_tf_coords(h, e);
        lemma_tf_coords(2, e);
        lemma_tf_inverse(2, e);
        lemma_tf_compose(h, 2, tf_square(2, e));
        lemma_tf_compose(2, tf_compose(h, 2), tf_square(2, e));
        lemma_tf_coords(2, tf_square(h, e));
    }
}

/// Symmetry: a position and its image under a board symmetry that its
/// signature admits (any of the eight without pawns, the reflection of the
/// files with pawns) are found in the same table at the same index, seen
/// from the same side.
pub proof fn lemma_index_symmetric(p: Pos, h: int)
    requires
        p.valid(),
        0 <= h < transforms(sig_has_pawns(sig_of_board(p.board))),
    ensures
        tf_pos(h, p).valid(),
        needs_swap(tf_pos(h, p)) == needs_swap(p),
        canonical_sig(tf_pos(h, p)) == canonical_sig(p),
        canonical_index(tf_pos(h, p)) == canonical_index(p),
{
    lemma_reduced_symmetric(p, h);
    if needs_swap(p) {
        let m = mirror_pos(p);
        let c = tf_compose(2, tf_compose(h, 2));
        lemma_mirror_transform(p, h);
        lemma_oriented_mirror(p);
        crate::orient::lemma_mirror_sig(p);
        let sig = sig_of_board(p.board);
        assert(sig_has_pawns(crate::material::swap_sig(sig)) == sig_has_pawns(sig));
        lemma_reduced_symmetric(m, c);
    }
}

/// Orientation: a position and its mirror image (colors exchanged, the other
/// side to move) are found in the same table at the same index, seen from
/// opposite sides.
pub proof fn lemma_index_mirror(p: Pos)
    requires
        p.valid(),
    ensures
        mirror_pos(p).valid(),
        needs_swap(mirror_pos(p)) == !needs_swap(p),
        canonical_sig(mirror_pos(p)) == canonical_sig(p),
        canonical_index(mirror_pos(p)) == canonical_index(p),
{
    lemma_oriented_mirror(p);
    crate::orient::lemma_mirror_valid(p);
}

} // verus!
