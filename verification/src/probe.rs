//! The query path: from a position to its distance to mate.
use vstd::prelude::*;
use crate::dtm::{Dtm, UNKNOWN_RAW};
use crate::index::canonical_index;
use crate::locate::{lemma_index_mirror, lemma_index_symmetric};
use crate::index::transforms;
use crate::material::{sig_has_pawns, sig_of_board};
use crate::orient::{canonical_sig, needs_swap};
use crate::position::{slots_pos, slots_valid, Pos, Position};
use crate::registry::TableRegistry;
use crate::store::{CompressedTable, DecompressionContext};
use crate::symmetry::{mirror_pos, tf_pos};

verus! {

/// The cell that stands for "not known".
pub const CELL_UNKNOWN: u16 = 0;

/// The cell that stands for a draw.
pub const CELL_DRAW: u16 = 2001;

/// The outcome that a cell stands for: 0 is unknown, 2001 a draw, and a cell
/// from 2 to 2000 the ply count `cell - 1001`; any other cell is unknown.
pub open spec fn cell_dtm(c: u16) -> Dtm {
    if c == CELL_DRAW {
        Dtm::Draw
    } else if 2 <= c <= 2000 {
        Dtm::Decisive((c - 1001) as i32)
    } else {
        Dtm::Unknown
    }
}

/// The cell that stands for an outcome.
pub open spec fn dtm_cell(d: Dtm) -> u16 {
    match d {
        Dtm::Unknown => CELL_UNKNOWN,
        Dtm::Draw => CELL_DRAW,
        Dtm::Decisive(n) => (n + 1001) as u16,
    }
}

pub fn dtm_of_cell(c: u16) -> (d: Dtm)
    ensures
        d == cell_dtm(c),
        d.wf(),
{
    if c == CELL_DRAW {
        Dtm::Draw
    } else if 2 <= c && c <= 2000 {
        Dtm::Decisive(c as i32 - 1001)
    } else {
        Dtm::Unknown
    }
}

pub fn cell_of_dtm(d: Dtm) -> (c: u16)
    requires
        d.wf(),
    ensures
        c == dtm_cell(d),
        cell_dtm(c) == d,
{
    match d {
        Dtm::Unknown => CELL_UNKNOWN,
        Dtm::Draw => CELL_DRAW,
        Dtm::Decisive(n) => (n + 1001) as u16,
    }
}

/// What a probe of a valid position returns: unknown if no table of its
/// signature is registered; else the outcome in the cell at its index, with
/// winner and loser exchanged if the table sees the position with the colors
/// exchanged.
pub open spec fn probe_spec(reg: &TableRegistry, p: Pos) -> Dtm {
    let sig = canonical_sig(p);
    if !reg.has(sig) {
        Dtm::Unknown
    } else {
        let v = cell_dtm(reg.cells(sig)[canonical_index(p)]);
        if needs_swap(p) {
            v.flipped()
        } else {
            v
        }
    }
}

/// What the boundary returns for a candidate given as slots: the integer of
/// the probe if the candidate is structurally legal, the "unknown" integer
/// if it is not.
pub open spec fn probe_raw_spec(reg: &TableRegistry, pieces: Seq<i32>, squares: Seq<i32>, stm: int, ep: int) -> int {
    if slots_valid(pieces, squares, stm, ep) {
        probe_spec(reg, slots_pos(pieces, squares, stm, ep)).raw()
    } else {
        UNKNOWN_RAW as int
    }
}

impl CompressedTable {
    /// The outcome held at an index, read through the caller's context.
    pub fn read_value(&self, index: usize, ctx: &mut DecompressionContext) -> (d: Dtm)
        requires
            self.wf(),
            index < self.len,
            old(ctx).fits(self),
        ensures
            d == cell_dtm(self@[index as int]),
            d.wf(),
            final(ctx).holds(self, index as int / self.block_size as int),
            old(ctx).holds(self, index as int / self.block_size as int) ==> *final(ctx) == *old(ctx),
    {
        dtm_of_cell(self.read_cell(index, ctx))
    }
}

impl TableRegistry {
    /// Probes a valid position, reusing the caller's context.
    pub fn probe_position(&self, p: &Position, ctx: &mut DecompressionContext) -> (d: Dtm)
        requires
            self.wf(),
            p@.valid(),
            self.agrees(old(ctx)),
        ensures
            d == probe_spec(self, p@),
            d.wf(),
            self.agrees(final(ctx)),
    {
        let loc = self.locate(p);
        match self.find(&loc.sig) {
            None => Dtm::Unknown,
            Some(i) => {
                let t = &self.tables[i];
                proof {
                    assert(crate::registry::table_fits(&self.tables@[i as int]));
                    assert(old(ctx).fits(&self.tables@[i as int]));
                }
                let v = t.read_value(loc.index as usize, ctx);
                proof {
                    assert forall|j: int| 0 <= j < self.tables@.len() implies ctx.fits(#[trigger] &self.tables@[j]) by {
                        if j != i {
                            if j < i {
                                assert(self.tables@[j].sig@ != self.tables@[i as int].sig@);
                            } else {
                                assert(self.tables@[i as int].sig@ != self.tables@[j].sig@);
                            }
                        }
                    }
                }
                if loc.swapped {
                    v.flip()
                } else {
                    v
                }
            },
        }
    }

    /// Probes a candidate given as slots, reusing the caller's context. A
    /// candidate that is not structurally legal is answered as unknown.
    pub fn probe_with_context(&self, pieces: &[i32], squares: &[i32], stm: i32, ep: i32, ctx: &mut DecompressionContext) -> (r: i32)
        requires
            self.wf(),
            self.agrees(old(ctx)),
        ensures
            r == probe_raw_spec(self, pieces@, squares@, stm as int, ep as int),
            self.agrees(final(ctx)),
    {
        match Position::from_slots(pieces, squares, stm, ep) {
            None => UNKNOWN_RAW,
            Some(p) => self.probe_position(&p, ctx).to_raw(),
        }
    }

    /// Probes a candidate given as slots with a context of its own.
    pub fn probe(&self, pieces: &[i32], squares: &[i32], stm: i32, ep: i32) -> (r: i32)
        requires
            self.wf(),
        ensures
            r == probe_raw_spec(self, pieces@, squares@, stm as int, ep as int),
    {
        let mut ctx = DecompressionContext::new();
        self.probe_with_context(pieces, squares, stm, ep, &mut ctx)
    }
}

/// Symmetry: a probe answers a position and its image under a board symmetry
/// that its signature admits (any of the eight without pawns) alike.
pub proof fn lemma_probe_symmetric(reg: &TableRegistry, p: Pos, h: int)
    requires
        p.valid(),
        0 <= h < transforms(sig_has_pawns(sig_of_board(p.board))),
    ensures
        tf_pos(h, p).valid(),
        probe_spec(reg, tf_pos(h, p)) == probe_spec(reg, p),
{
    lemma_index_symmetric(p, h);
}

/// Orientation: exchanging the colors, the side to move with them, exchanges
/// winner and loser of a decisive outcome and leaves draws and unknowns as
/// they are.
pub proof fn lemma_probe_mirror(reg: &TableRegistry, p: Pos)
    requires
        p.valid(),
    ensures
        mirror_pos(p).valid(),
        probe_spec(reg, mirror_pos(p)) == probe_spec(reg, p).flipped(),
        probe_spec(reg, p) is Draw ==> probe_spec(reg, mirror_pos(p)) is Draw,
        probe_spec(reg, p) matches Dtm::Decisive(n) ==> probe_spec(reg, mirror_pos(p)) == Dtm::Decisive((-n) as i32),
{
    lemma_index_mirror(p);
}

/// Sentinels: without a table of the signature every probe answers
/// "unknown", and a cell that holds the draw marker is answered as a draw
/// from either side.
pub proof fn lemma_probe_sentinels(reg: &TableRegistry, p: Pos)
    requires
        p.valid(),
    ensures
        !reg.has(canonical_sig(p)) ==> probe_spec(reg, p).raw() == -1001,
        reg.has(canonical_sig(p)) && reg.cells(canonical_sig(p))[canonical_index(p)] == CELL_DRAW ==> probe_spec(reg, p).raw() == 1000,
{
}

} // verus!
