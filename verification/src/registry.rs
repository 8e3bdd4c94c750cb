//! The record of the tables that are available, one per signature.
use vstd::prelude::*;
use crate::index::{canonical_index, table_size, Indexer, Located};
use crate::kkx::KkxTable;
use crate::orient::{canonical_sig, needs_swap};
use crate::position::Position;
use crate::material::{sig_wf, MaterialSignature};
use crate::store::{CompressedTable, DecompressionContext};

verus! {

/// Why a table was not registered.
#[derive(Clone, Copy, Debug, PartialEq, Eq, Structural)]
pub enum RegisterError {
    /// The signature is not one of the library's, or the table does not have
    /// the number of cells of its signature.
    Mismatch,
    /// A table of the same signature is registered already.
    Duplicate,
}

/// The tables known to a prober, and the tables for indexing that every
/// probe consults.
pub struct TableRegistry {
    pub indexer: Indexer,
    /// The direct lookup for king, king and one more piece.
    pub kkx: KkxTable,
    pub tables: Vec<CompressedTable>,
}

/// A table that can be registered: well formed, of a signature of the
/// library, with one cell for each index.
pub open spec fn table_fits(t: &CompressedTable) -> bool {
    &&& t.wf()
    &&& sig_wf(t.sig@)
    &&& t.len == table_size(t.sig@)
}

impl TableRegistry {
    pub open spec fn wf(&self) -> bool {
        &&& self.indexer.wf()
        &&& self.kkx.wf()
        &&& forall|i: int| 0 <= i < self.tables@.len() ==> table_fits(#[trigger] &self.tables@[i])
        &&& forall|i: int, j: int| 0 <= i < j < self.tables@.len() ==> (#[trigger] self.tables@[i]).sig@ != (#[trigger] self.tables@[j]).sig@
    }

    /// Table `i` is the table of the signature.
    pub open spec fn is_slot(&self, sig: Seq<int>, i: int) -> bool {
        0 <= i < self.tables@.len() && self.tables@[i].sig@ == sig
    }

    /// A table of the signature is registered.
    pub open spec fn has(&self, sig: Seq<int>) -> bool {
        exists|i: int| self.is_slot(sig, i)
    }

    /// The place of the table of a signature.
    pub open spec fn slot(&self, sig: Seq<int>) -> int {
        choose|i: int| self.is_slot(sig, i)
    }

    /// The cells of the table of a signature.
    pub open spec fn cells(&self, sig: Seq<int>) -> Seq<u16> {
        self.tables@[self.slot(sig)]@
    }

    /// The context holds nothing that contradicts a registered table.
    pub open spec fn agrees(&self, ctx: &DecompressionContext) -> bool {
        forall|i: int| 0 <= i < self.tables@.len() ==> ctx.fits(#[trigger] &self.tables@[i])
    }

    /// A registry without tables.
    pub fn new() -> (r: TableRegistry)
        ensures
            r.wf(),
            r.tables@.len() == 0,
            forall|sig: Seq<int>| !r.has(sig),
    {
        let indexer = Indexer::new();
        let kkx = KkxTable::new(&indexer);
        TableRegistry { indexer, kkx, tables: Vec::new() }
    }

    /// Where a position is found: the table, the index in it, and whether
    /// the table sees the position with the colors exchanged.
    pub fn locate(&self, p: &Position) -> (r: Located)
        requires
            self.wf(),
            p@.valid(),
        ensures
            r.swapped == needs_swap(p@),
            r.sig@ == canonical_sig(p@),
            sig_wf(r.sig@),
            r.index == canonical_index(p@),
            r.index < table_size(r.sig@),
    {
        self.kkx.locate(&self.indexer, p)
    }

    /// The number of tables registered.
    pub fn count(&self) -> (n: usize)
        ensures
            n == self.tables@.len(),
    {
        self.tables.len()
    }

    /// The place of the table of a signature, if one is registered.
    pub fn find(&self, sig: &MaterialSignature) -> (r: Option<usize>)
        requires
            self.wf(),
        ensures
            r is Some <==> self.has(sig@),
            r matches Some(i) ==> i == self.slot(sig@) && self.is_slot(sig@, i as int),
    {
        let mut i: usize = 0;
        while i < self.tables.len()
            invariant
                0 <= i <= self.tables@.len(),
                self.wf(),
                forall|j: int| 0 <= j < i ==> !self.is_slot(sig@, j),
            decreases self.tables@.len() - i,
        {
            if self.tables[i].sig.same(sig) {
                proof {
                    assert(self.is_slot(sig@, i as int));
                    let s = self.slot(sig@);
                    assert(self.is_slot(sig@, s));
                    if s < i {
                        assert(self.tables@[s].sig@ != self.tables@[i as int].sig@);
                    }
                    if i < s {
                        assert(self.tables@[i as int].sig@ != self.tables@[s].sig@);
                    }
                }
                return Some(i);
            }
            i = i + 1;
        }
        None
    }

    /// Registers a table. The table is taken if its signature is one of the
    /// library's, it has one cell for each index, and no table of its
    /// signature is registered yet; the result is then the number of tables
    /// known. Tables registered before stay as they are.
    pub fn register(&mut self, t: CompressedTable) -> (r: Result<usize, RegisterError>)
        requires
            old(self).wf(),
            t.wf(),
        ensures
            final(self).wf(),
            final(self).indexer == old(self).indexer,
            final(self).kkx == old(self).kkx,
            r == Err::<usize, RegisterError>(RegisterError::Mismatch) <==> !table_fits(&t),
            r == Err::<usize, RegisterError>(RegisterError::Duplicate) <==> table_fits(&t) && old(self).has(t.sig@),
            r is Err ==> final(self).tables@ == old(self).tables@,
            r matches Ok(n) ==> n == old(self).tables@.len() + 1 && final(self).tables@ == old(self).tables@.push(t),
    {
        if !t.sig.well_formed() {
            return Err(RegisterError::Mismatch);
        }
        let size = self.indexer.table_size(&t.sig);
        if t.len as u64 != size {
            return Err(RegisterError::Mismatch);
        }
        match self.find(&t.sig) {
            Some(_) => Err(RegisterError::Duplicate),
            None => {
                let ghost before = self.tables@;
                self.tables.push(t);
                proof {
                    assert forall|i: int, j: int| 0 <= i < j < self.tables@.len() implies (#[trigger] self.tables@[i]).sig@ != (#[trigger] self.tables@[j]).sig@ by {
                        if j == before.len() {
                            assert(!old(self).is_slot(t.sig@, i));
                        }
                    }
                }
                Ok(self.tables.len())
            },
        }
    }
}

} // verus!
