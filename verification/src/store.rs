//! The compressed table: the cells of one signature cut into blocks of a
//! fixed size, each block compressed by itself, and the scratch context that
//! keeps the block decoded last.
use vstd::prelude::*;
use vstd::arithmetic::div_mod::{lemma_fundamental_div_mod, lemma_div_is_ordered, lemma_mod_pos_bound};
use vstd::arithmetic::mul::{lemma_mul_inequality, lemma_mul_strict_inequality_converse};
use crate::codec::{block_ok, rle_bytes, rle_plain, encode_block, decode_block};
use crate::material::MaterialSignature;

verus! {

/// How many blocks of `bs` cells cover `len` cells.
pub open spec fn block_count(len: int, bs: int) -> int {
    if len % bs == 0 {
        len / bs
    } else {
        len / bs + 1
    }
}

/// How many cells block `b` holds: `bs`, but for a shorter last block.
pub open spec fn block_len(len: int, bs: int, b: int) -> int {
    if len - b * bs >= bs {
        bs
    } else {
        len - b * bs
    }
}

/// The block of an index, its place in the block, and that both exist.
pub proof fn lemma_block_of(len: int, bs: int, index: int)
    requires
        0 <= index < len,
        bs >= 1,
    ensures
        0 <= index / bs < block_count(len, bs),
        0 <= index % bs < block_len(len, bs, index / bs),
        index == (index / bs) * bs + index % bs,
        block_len(len, bs, index / bs) <= bs,
        (index / bs) * bs <= index,
{
    let b = index / bs;
    let q = len / bs;
    lemma_fundamental_div_mod(index, bs);
    lemma_fundamental_div_mod(len, bs);
    lemma_mod_pos_bound(index, bs);
    lemma_mod_pos_bound(len, bs);
    lemma_div_is_ordered(index, len, bs);
    lemma_div_is_ordered(0, index, bs);
    assert(bs * b == b * bs) by (nonlinear_arith);
    assert(bs * q == q * bs) by (nonlinear_arith);
    assert((b + 1) * bs == b * bs + bs) by (nonlinear_arith);
    if b < q {
        lemma_mul_inequality(b + 1, q, bs);
    }
}

/// A table in compressed form.
pub struct CompressedTable {
    pub sig: MaterialSignature,
    /// The number of cells.
    pub len: usize,
    /// The number of cells in a block.
    pub block_size: usize,
    /// The compressed blocks, in order.
    pub blocks: Vec<Vec<u8>>,
}

impl CompressedTable {
    /// There are as many blocks as cover the cells, and each expands to the
    /// number of cells it stands for.
    pub open spec fn wf(&self) -> bool {
        &&& self.block_size >= 1
        &&& self.blocks@.len() == block_count(self.len as int, self.block_size as int)
        &&& forall|b: int| 0 <= b < self.blocks@.len() ==> block_ok(
            #[trigger] self.blocks@[b]@,
            block_len(self.len as int, self.block_size as int, b),
        )
    }

    /// The cells of block `b`.
    pub open spec fn block_plain(&self, b: int) -> Seq<u16> {
        rle_plain(self.blocks@[b]@)
    }

    /// Every block holds the runs that the encoder writes for its cells.
    pub open spec fn packed(&self) -> bool {
        forall|b: int| 0 <= b < self.blocks@.len() ==> (#[trigger] self.blocks@[b])@ == rle_bytes(self.block_plain(b))
    }

    /// The cell at an index.
    pub open spec fn cell_at(&self, index: int) -> u16 {
        self.block_plain(index / (self.block_size as int))[index % (self.block_size as int)]
    }

    /// Compresses the cells of a table, block by block.
    pub fn compress(sig: MaterialSignature, values: &Vec<u16>, block_size: usize) -> (t: CompressedTable)
        requires
            block_size >= 1,
        ensures
            t.wf(),
            t.sig == sig,
            t.block_size == block_size,
            t.len == values@.len(),
            t@ == values@,
            t.packed(),
    {
        let len: usize = values.len();
        let mut blocks: Vec<Vec<u8>> = Vec::new();
        let mut start: usize = 0;
        let ghost bs = block_size as int;
        proof {
            assert(0 * bs == 0) by (nonlinear_arith);
        }
        while len - start > block_size
            invariant
                bs == block_size,
                bs >= 1,
                len == values@.len(),
                0 <= start <= len,
                start < len || len == 0,
                start == blocks@.len() * bs,
                forall|b: int| 0 <= b < blocks@.len() ==> block_ok(#[trigger] blocks@[b]@, bs),
                forall|b: int| 0 <= b < blocks@.len() ==> rle_plain(#[trigger] blocks@[b]@) == values@.subrange(b * bs, b * bs + bs),
                forall|b: int| 0 <= b < blocks@.len() ==> (#[trigger] blocks@[b])@ == rle_bytes(rle_plain(blocks@[b]@)),
            decreases len - start,
        {
            let ghost nb = blocks@.len() as int;
            let block = encode_block(values, start, start + block_size);
            blocks.push(block);
            proof {
                assert((nb + 1) * bs == nb * bs + bs) by (nonlinear_arith);
            }
            start = start + block_size;
        }
        let ghost nb = blocks@.len() as int;
        if start < len {
            let block = encode_block(values, start, len);
            blocks.push(block);
        }
        let t = CompressedTable { sig, len, block_size, blocks };
        proof {
            assert((nb + 1) * bs == nb * bs + bs) by (nonlinear_arith);
            if len > 0 {
                lemma_block_total(len as int, bs, nb + 1);
            } else {
                assert(block_count(0, bs) == 0);
                assert(nb == 0) by (nonlinear_arith)
                    requires
                        nb * bs == 0,
                        bs >= 1,
                        nb >= 0,
                ;
            }
            assert forall|b: int| 0 <= b < t.blocks@.len() implies block_ok(#[trigger] t.blocks@[b]@, block_len(len as int, bs, b))
                && rle_plain(t.blocks@[b]@) == values@.subrange(b * bs, b * bs + block_len(len as int, bs, b)) by {
                assert((b + 1) * bs == b * bs + bs) by (nonlinear_arith);
                if b < nb {
                    lemma_mul_inequality(b + 1, nb, bs);
                }
            }
            assert forall|i: int| 0 <= i < len implies t.cell_at(i) == values@[i] by {
                lemma_block_of(len as int, bs, i);
                let b = i / bs;
                assert(rle_plain(t.blocks@[b]@) == values@.subrange(b * bs, b * bs + block_len(len as int, bs, b)));
            }
            assert(t@ =~= values@);
        }
        t
    }

    /// The number of cells.
    pub fn size(&self) -> (n: usize)
        ensures
            n == self.len,
    {
        self.len
    }
}

impl View for CompressedTable {
    type V = Seq<u16>;

    open spec fn view(&self) -> Seq<u16> {
        Seq::new(self.len as nat, |i: int| self.cell_at(i))
    }
}

/// `n` blocks cover the cells if the last of them holds the last cell.
pub proof fn lemma_block_total(len: int, bs: int, n: int)
    requires
        bs >= 1,
        n >= 1,
        (n - 1) * bs < len <= n * bs,
    ensures
        block_count(len, bs) == n,
{
    lemma_fundamental_div_mod(len, bs);
    lemma_mod_pos_bound(len, bs);
    let q = len / bs;
    assert(bs * q == q * bs) by (nonlinear_arith);
    assert((q + 1) * bs == q * bs + bs) by (nonlinear_arith);
    if len % bs == 0 {
        lemma_mul_strict_inequality_converse(n - 1, q, bs);
        if q > n {
            lemma_mul_inequality(n + 1, q, bs);
            assert((n + 1) * bs == n * bs + bs) by (nonlinear_arith);
        }
    } else {
        lemma_mul_strict_inequality_converse(q, n, bs);
        lemma_mul_strict_inequality_converse(n - 1, q + 1, bs);
    }
}

/// The scratch state of one prober: the cells of the block decoded last, and
/// the table and block they belong to.
pub struct DecompressionContext {
    /// Whether the context holds a block at all.
    pub filled: bool,
    pub sig: MaterialSignature,
    pub block: usize,
    pub plain: Vec<u16>,
}

impl DecompressionContext {
    /// A context that holds nothing: it is fresh, and contradicts no table.
    pub fn new() -> (ctx: DecompressionContext)
        ensures
            ctx.fresh(),
            forall|t: &CompressedTable| #[trigger] ctx.fits(t),
    {
        let ctx = DecompressionContext { filled: false, sig: MaterialSignature { counts: [0u8; 10] }, block: 0, plain: Vec::new() };
        proof {
            assert(ctx.sig@ =~= Seq::new(10, |g: int| 0int));
        }
        ctx
    }

    /// The context as it is made: it holds no block, its buffer is empty, and
    /// its tag names the signature without pieces and block 0.
    pub open spec fn fresh(&self) -> bool {
        &&& !self.filled
        &&& self.plain@ == Seq::<u16>::empty()
        &&& self.block == 0
        &&& self.sig@ == Seq::new(10, |g: int| 0int)
    }

    /// The context holds block `b` of the table.
    pub open spec fn holds(&self, t: &CompressedTable, b: int) -> bool {
        &&& self.filled
        &&& self.sig@ == t.sig@
        &&& self.block == b
        &&& 0 <= b < t.blocks@.len()
        &&& self.plain@ == t.block_plain(b)
    }

    /// What the context holds under the table's signature, if anything, are
    /// cells of that table.
    pub open spec fn fits(&self, t: &CompressedTable) -> bool {
        self.filled && self.sig@ == t.sig@ ==> self.holds(t, self.block as int)
    }

    /// Forgets the block held.
    pub fn reset(&mut self)
        ensures
            !final(self).filled,
    {
        self.filled = false;
    }
}

impl CompressedTable {
    /// The cell at an index. The block of the index is decoded into the
    /// context unless the context holds it already.
    pub fn read_cell(&self, index: usize, ctx: &mut DecompressionContext) -> (v: u16)
        requires
            self.wf(),
            index < self.len,
            old(ctx).fits(self),
        ensures
            v == self@[index as int],
            final(ctx).holds(self, index as int / self.block_size as int),
            old(ctx).holds(self, index as int / self.block_size as int) ==> *final(ctx) == *old(ctx),
    {
        let b: usize = index / self.block_size;
        let off: usize = index % self.block_size;
        proof {
            lemma_block_of(self.len as int, self.block_size as int, index as int);
            assert(block_ok(self.blocks@[b as int]@, block_len(self.len as int, self.block_size as int, b as int)));
        }
        let hit = ctx.filled && ctx.block == b && ctx.sig.same(&self.sig);
        if !hit {
            let base: usize = index - off;
            let n: usize = if self.len - base >= self.block_size {
                self.block_size
            } else {
                self.len - base
            };
            ctx.filled = false;
            let ok = decode_block(&self.blocks[b], n, &mut ctx.plain);
            ctx.sig = self.sig;
            ctx.block = b;
            ctx.filled = true;
        }
        ctx.plain[off]
    }
}

} // verus!
