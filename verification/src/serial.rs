//! The compressed table as a string of bytes, for keeping it in a file.
//!
//! Layout, every number with the low byte first: the four bytes "PTB1"; the
//! ten counts of the signature; the block size and the number of cells,
//! eight bytes each; then block after block, the length of its runs in
//! eight bytes and the runs themselves.
use vstd::prelude::*;
use crate::codec::{block_ok, decode_block};
use crate::index::table_size;
use crate::material::{sig_wf, MaterialSignature};
use crate::registry::{table_fits, RegisterError, TableRegistry};
use vstd::arithmetic::div_mod::{lemma_fundamental_div_mod, lemma_fundamental_div_mod_converse, lemma_mod_pos_bound};
use vstd::arithmetic::mul::{lemma_mul_inequality, lemma_mul_strict_inequality_converse};
use crate::store::{block_count, block_len, CompressedTable};

verus! {

/// The bytes before the first block.
pub const HEADER: usize = 30;

/// Why bytes are not a table.
#[derive(Clone, Copy, Debug, PartialEq, Eq, Structural)]
pub enum LoadError {
    /// The bytes are too few for a header, do not start with "PTB1", name a
    /// block size of zero, or name more cells than this machine can address.
    Header,
    /// A block is cut short, or its runs do not expand to the number of
    /// cells that it stands for.
    Block,
    /// Bytes follow the last block.
    Trailing,
}

/// The eight bytes of a number, the low byte first.
#[verifier::opaque]
pub open spec fn le64(n: int) -> Seq<u8> {
    let q1 = n / 256;
    let q2 = q1 / 256;
    let q3 = q2 / 256;
    let q4 = q3 / 256;
    let q5 = q4 / 256;
    let q6 = q5 / 256;
    let q7 = q6 / 256;
    seq![
        (n % 256) as u8,
        (q1 % 256) as u8,
        (q2 % 256) as u8,
        (q3 % 256) as u8,
        (q4 % 256) as u8,
        (q5 % 256) as u8,
        (q6 % 256) as u8,
        (q7 % 256) as u8,
    ]
}

/// The number in the eight bytes from `at`.
#[verifier::opaque]
pub open spec fn read64(bytes: Seq<u8>, at: int) -> int {
    bytes[at] as int + 256 * (bytes[at + 1] as int + 256 * (bytes[at + 2] as int + 256 * (bytes[at + 3] as int + 256 * (bytes[at
        + 4] as int + 256 * (bytes[at + 5] as int + 256 * (bytes[at + 6] as int + 256 * (bytes[at + 7] as int)))))))
}

pub open spec fn magic() -> Seq<u8> {
    seq![0x50u8, 0x54u8, 0x42u8, 0x31u8]
}

/// The first `n` blocks, each behind its length.
pub open spec fn blocks_bytes(blocks: Seq<Vec<u8>>, n: int) -> Seq<u8>
    decreases n,
{
    if n <= 0 {
        Seq::empty()
    } else {
        blocks_bytes(blocks, n - 1) + le64(blocks[n - 1]@.len() as int) + blocks[n - 1]@
    }
}

/// The header of a table.
pub open spec fn header_bytes(t: &CompressedTable) -> Seq<u8> {
    magic() + t.sig.counts@ + le64(t.block_size as int) + le64(t.len as int)
}

/// The bytes of a table.
pub open spec fn table_bytes(t: &CompressedTable) -> Seq<u8> {
    header_bytes(t) + blocks_bytes(t.blocks@, t.blocks@.len() as int)
}

/// The blocks from number `b` on, read from `at`: each must lie within the
/// bytes and expand to the cells it stands for, and the last must end the
/// bytes.
pub open spec fn parse_blocks(bytes: Seq<u8>, at: int, len: int, bs: int, b: int) -> Result<Seq<Seq<u8>>, LoadError>
    decreases block_count(len, bs) - b,
{
    if b >= block_count(len, bs) {
        if at == bytes.len() {
            Ok(Seq::empty())
        } else {
            Err(LoadError::Trailing)
        }
    } else if at + 8 > bytes.len() || at + 8 + read64(bytes, at) > bytes.len() {
        Err(LoadError::Block)
    } else {
        let n = read64(bytes, at);
        let blk = bytes.subrange(at + 8, at + 8 + n);
        if !block_ok(blk, block_len(len, bs, b)) {
            Err(LoadError::Block)
        } else {
            match parse_blocks(bytes, at + 8 + n, len, bs, b + 1) {
                Ok(rest) => Ok(seq![blk] + rest),
                Err(e) => Err(e),
            }
        }
    }
}

/// The header is that of a table that this machine can hold.
pub open spec fn header_ok(bytes: Seq<u8>) -> bool {
    &&& bytes.len() >= HEADER
    &&& bytes.subrange(0, 4) == magic()
    &&& read64(bytes, 14) >= 1
    &&& read64(bytes, 14) <= usize::MAX
    &&& read64(bytes, 22) <= usize::MAX
}

/// What the bytes hold: a signature, a block size, a number of cells and the
/// blocks, or the reason why they are no table.
pub open spec fn parse_table(bytes: Seq<u8>) -> Result<(Seq<u8>, int, int, Seq<Seq<u8>>), LoadError> {
    if !header_ok(bytes) {
        Err(LoadError::Header)
    } else {
        let bs = read64(bytes, 14);
        let len = read64(bytes, 22);
        match parse_blocks(bytes, HEADER as int, len, bs, 0) {
            Ok(blocks) => Ok((bytes.subrange(4, 14), bs, len, blocks)),
            Err(e) => Err(e),
        }
    }
}

/// The table is what the parse gave.
pub open spec fn table_is(t: &CompressedTable, parsed: (Seq<u8>, int, int, Seq<Seq<u8>>)) -> bool {
    &&& t.sig.counts@ == parsed.0
    &&& t.block_size == parsed.1
    &&& t.len == parsed.2
    &&& t.blocks@.len() == parsed.3.len()
    &&& forall|b: int| 0 <= b < t.blocks@.len() ==> (#[trigger] t.blocks@[b])@ == parsed.3[b]
}

pub proof fn lemma_read_le64(n: int)
    requires
        0 <= n < 0x1_0000_0000_0000_0000,
    ensures
        le64(n).len() == 8,
        read64(le64(n), 0) == n,
{
    reveal(le64);
    reveal(read64);
    let q1 = n / 256;
    let q2 = q1 / 256;
    let q3 = q2 / 256;
    let q4 = q3 / 256;
    let q5 = q4 / 256;
    let q6 = q5 / 256;
    let q7 = q6 / 256;
    assert(q7 < 256);
    let l = le64(n);
    assert(l[7] == q7);
    assert(l[6] as int + 256 * q7 == q6);
    assert(l[5] as int + 256 * q6 == q5);
    assert(l[4] as int + 256 * q5 == q4);
    assert(l[3] as int + 256 * q4 == q3);
    assert(l[2] as int + 256 * q3 == q2);
    assert(l[1] as int + 256 * q2 == q1);
    assert(l[0] as int + 256 * q1 == n);
}

/// A number is written in eight bytes.
pub proof fn lemma_le64_len(n: int)
    ensures
        le64(n).len() == 8,
{
    reveal(le64);
}

/// The same eight bytes hold the same number.
pub proof fn lemma_read64_same(a: Seq<u8>, i: int, b: Seq<u8>, j: int)
    requires
        a[i] == b[j],
        a[i + 1] == b[j + 1],
        a[i + 2] == b[j + 2],
        a[i + 3] == b[j + 3],
        a[i + 4] == b[j + 4],
        a[i + 5] == b[j + 5],
        a[i + 6] == b[j + 6],
        a[i + 7] == b[j + 7],
    ensures
        read64(a, i) == read64(b, j),
{
    reveal(read64);
}

/// Writes a number as eight bytes.
pub fn push_le64(out: &mut Vec<u8>, n: u64)
    ensures
        final(out)@ == old(out)@ + le64(n as int),
{
    let ghost before = out@;
    let q1: u64 = n / 256;
    let q2: u64 = q1 / 256;
    let q3: u64 = q2 / 256;
    let q4: u64 = q3 / 256;
    let q5: u64 = q4 / 256;
    let q6: u64 = q5 / 256;
    let q7: u64 = q6 / 256;
    out.push((n % 256) as u8);
    out.push((q1 % 256) as u8);
    out.push((q2 % 256) as u8);
    out.push((q3 % 256) as u8);
    out.push((q4 % 256) as u8);
    out.push((q5 % 256) as u8);
    out.push((q6 % 256) as u8);
    out.push((q7 % 256) as u8);
    proof {
        reveal(le64);
        assert(out@ =~= before + le64(n as int));
    }
}

/// Reads the number in the eight bytes from `at`.
pub fn get_le64(bytes: &[u8], at: usize) -> (n: u64)
    requires
        at + 8 <= bytes@.len(),
    ensures
        n == read64(bytes@, at as int),
{
    let total: usize = bytes.len();
    assert(at + 8 <= total);
    proof {
        reveal(read64);
    }
    let h7: u64 = bytes[at + 7] as u64;
    let h6: u64 = bytes[at + 6] as u64 + 256 * h7;
    let h5: u64 = bytes[at + 5] as u64 + 256 * h6;
    let h4: u64 = bytes[at + 4] as u64 + 256 * h5;
    let h3: u64 = bytes[at + 3] as u64 + 256 * h4;
    let h2: u64 = bytes[at + 2] as u64 + 256 * h3;
    let h1: u64 = bytes[at + 1] as u64 + 256 * h2;
    bytes[at] as u64 + 256 * h1
}

/// Adds the bytes of a slice to a vector.
pub fn push_all(out: &mut Vec<u8>, src: &[u8], from: usize, to: usize)
    requires
        from <= to <= src@.len(),
    ensures
        final(out)@ == old(out)@ + src@.subrange(from as int, to as int),
{
    let ghost before = out@;
    let mut i: usize = from;
    while i < to
        invariant
            from <= i <= to <= src@.len(),
            out@ == before + src@.subrange(from as int, i as int),
        decreases to - i,
    {
        out.push(src[i]);
        proof {
            assert(src@.subrange(from as int, i + 1) =~= src@.subrange(from as int, i as int).push(src@[i as int]));
            assert(out@ =~= before + src@.subrange(from as int, i + 1));
        }
        i = i + 1;
    }
    proof {
        assert(out@ =~= before + src@.subrange(from as int, to as int));
    }
}

impl CompressedTable {
    /// The table as bytes.
    pub fn to_bytes(&self) -> (out: Vec<u8>)
        ensures
            out@ == table_bytes(self),
    {
        let mut out: Vec<u8> = Vec::new();
        out.push(0x50);
        out.push(0x54);
        out.push(0x42);
        out.push(0x31);
        push_all(&mut out, self.sig.counts.as_slice(), 0, 10);
        push_le64(&mut out, self.block_size as u64);
        push_le64(&mut out, self.len as u64);
        proof {
            assert(self.sig.counts@.subrange(0, 10) =~= self.sig.counts@);
            assert(out@ =~= header_bytes(self));
        }
        let ghost head = out@;
        let mut b: usize = 0;
        while b < self.blocks.len()
            invariant
                0 <= b <= self.blocks@.len(),
                out@ == head + blocks_bytes(self.blocks@, b as int),
            decreases self.blocks@.len() - b,
        {
            let ghost before = out@;
            let blk = &self.blocks[b];
            push_le64(&mut out, blk.len() as u64);
            push_all(&mut out, blk.as_slice(), 0, blk.len());
            proof {
                assert(blk@.subrange(0, blk@.len() as int) =~= blk@);
                assert(out@ =~= head + blocks_bytes(self.blocks@, b + 1));
            }
            b = b + 1;
        }
        out
    }
}

/// Block `b` exists exactly if the blocks before it do not cover the cells.
pub proof fn lemma_block_exists(len: int, bs: int, b: int)
    requires
        bs >= 1,
        b >= 0,
        len >= 0,
    ensures
        b < block_count(len, bs) <==> b * bs < len,
{
    lemma_fundamental_div_mod(len, bs);
    lemma_mod_pos_bound(len, bs);
    let q = len / bs;
    assert(bs * q == q * bs) by (nonlinear_arith);
    assert((q + 1) * bs == q * bs + bs) by (nonlinear_arith);
    if b < q {
        lemma_mul_inequality(b + 1, q, bs);
        assert((b + 1) * bs == b * bs + bs) by (nonlinear_arith);
    }
    if b > q {
        lemma_mul_inequality(q + 1, b, bs);
    }
    if b * bs < len && len % bs == 0 {
        lemma_mul_strict_inequality_converse(b, q, bs);
    }
}

/// What is parsed from `at` on, behind the blocks parsed already.
pub open spec fn behind(done: Seq<Seq<u8>>, rest: Result<Seq<Seq<u8>>, LoadError>) -> Result<Seq<Seq<u8>>, LoadError> {
    match rest {
        Ok(r) => Ok(done + r),
        Err(e) => Err(e),
    }
}

impl CompressedTable {
    /// Reads a table from bytes. Every block is expanded once to see that it
    /// holds the cells it stands for, so that reading a cell later cannot
    /// fail.
    pub fn from_bytes(bytes: &[u8]) -> (r: Result<CompressedTable, LoadError>)
        ensures
            match parse_table(bytes@) {
                Ok(parsed) => r matches Ok(t) && t.wf() && table_is(&t, parsed),
                Err(e) => r == Err::<CompressedTable, LoadError>(e),
            },
    {
        let total = bytes.len();
        if total < HEADER {
            return Err(LoadError::Header);
        }
        if bytes[0] != 0x50 || bytes[1] != 0x54 || bytes[2] != 0x42 || bytes[3] != 0x31 {
            proof {
                let m = bytes@.subrange(0, 4);
                assert(m[0] == bytes@[0] && m[1] == bytes@[1] && m[2] == bytes@[2] && m[3] == bytes@[3]);
            }
            return Err(LoadError::Header);
        }
        proof {
            assert(bytes@.subrange(0, 4) =~= magic());
        }
        let bs64 = get_le64(bytes, 14);
        let len64 = get_le64(bytes, 22);
        if bs64 < 1 || bs64 > usize::MAX as u64 || len64 > usize::MAX as u64 {
            return Err(LoadError::Header);
        }
        let bs: usize = bs64 as usize;
        let len: usize = len64 as usize;
        let mut counts: [u8; 10] = [0u8; 10];
        let mut i: usize = 0;
        while i < 10
            invariant
                0 <= i <= 10,
                total == bytes@.len(),
                total >= HEADER,
                forall|j: int| 0 <= j < i ==> #[trigger] counts@[j] == bytes@[4 + j],
            decreases 10 - i,
        {
            counts[i] = bytes[4 + i];
            i = i + 1;
        }
        proof {
            assert(counts@ =~= bytes@.subrange(4, 14));
        }
        let mut blocks: Vec<Vec<u8>> = Vec::new();
        let mut scratch: Vec<u16> = Vec::new();
        let mut at: usize = HEADER;
        let mut rest: usize = len;
        let ghost mut done: Seq<Seq<u8>> = Seq::empty();
        let ghost want = parse_blocks(bytes@, HEADER as int, len as int, bs as int, 0);
        proof {
            assert(0 * (bs as int) == 0) by (nonlinear_arith);
            assert(behind(done, want) == want) by {
                if want is Ok {
                    assert(done + want->Ok_0 =~= want->Ok_0);
                }
            }
        }
        while rest > 0
            invariant
                bs >= 1,
                total == bytes@.len(),
                header_ok(bytes@),
                bs == read64(bytes@, 14),
                len == read64(bytes@, 22),
                want == parse_blocks(bytes@, HEADER as int, len as int, bs as int, 0),
                HEADER <= at <= total,
                rest == if blocks@.len() * bs < len {
                    len - blocks@.len() * bs
                } else {
                    0
                },
                blocks@.len() <= block_count(len as int, bs as int),
                done.len() == blocks@.len(),
                forall|j: int| 0 <= j < blocks@.len() ==> (#[trigger] blocks@[j])@ == done[j],
                forall|j: int| 0 <= j < blocks@.len() ==> block_ok(#[trigger] blocks@[j]@, block_len(len as int, bs as int, j)),
                want == behind(done, parse_blocks(bytes@, at as int, len as int, bs as int, blocks@.len() as int)),
            decreases rest,
        {
            let ghost b = blocks@.len() as int;
            proof {
                lemma_block_exists(len as int, bs as int, b);
                lemma_block_exists(len as int, bs as int, b + 1);
                assert((b + 1) * bs == b * bs + bs) by (nonlinear_arith);
            }
            if total - at < 8 {
                return Err(LoadError::Block);
            }
            let n64 = get_le64(bytes, at);
            if n64 > (total - at - 8) as u64 {
                return Err(LoadError::Block);
            }
            let n: usize = n64 as usize;
            let cells: usize = if rest >= bs {
                bs
            } else {
                rest
            };
            let mut blk: Vec<u8> = Vec::new();
            push_all(&mut blk, bytes, at + 8, at + 8 + n);
            proof {
                assert(blk@ =~= bytes@.subrange(at + 8, at + 8 + n));
                assert(cells == block_len(len as int, bs as int, b));
            }
            let ok = decode_block(&blk, cells, &mut scratch);
            if !ok {
                return Err(LoadError::Block);
            }
            proof {
                let next = parse_blocks(bytes@, at + 8 + n, len as int, bs as int, b + 1);
                let here = parse_blocks(bytes@, at as int, len as int, bs as int, b);
                assert(here == (match next {
                    Ok(r) => Ok(seq![blk@] + r),
                    Err(e) => Err(e),
                }));
                if next is Ok {
                    assert(done + (seq![blk@] + next->Ok_0) =~= done.push(blk@) + next->Ok_0);
                }
                done = done.push(blk@);
            }
            blocks.push(blk);
            at = at + 8 + n;
            rest = rest - cells;
        }
        proof {
            lemma_block_exists(len as int, bs as int, blocks@.len() as int);
        }
        if at != total {
            return Err(LoadError::Trailing);
        }
        let t = CompressedTable { sig: MaterialSignature { counts }, len, block_size: bs, blocks };
        proof {
            let last = parse_blocks(bytes@, at as int, len as int, bs as int, blocks@.len() as int);
            assert(last == Ok::<Seq<Seq<u8>>, LoadError>(Seq::empty()));
            assert(done + Seq::<Seq<u8>>::empty() =~= done);
            assert(want == Ok::<Seq<Seq<u8>>, LoadError>(done));
        }
        Ok(t)
    }
}

/// The runs of the blocks of a table.
pub open spec fn block_views(t: &CompressedTable) -> Seq<Seq<u8>> {
    Seq::new(t.blocks@.len(), |b: int| t.blocks@[b]@)
}

/// Block `b` as it lies in the bytes of the first `n` blocks: behind the
/// blocks before it, its length first.
pub proof fn lemma_block_written(blocks: Seq<Vec<u8>>, b: int, n: int)
    requires
        0 <= b < n <= blocks.len(),
    ensures
        blocks_bytes(blocks, b + 1).len() == blocks_bytes(blocks, b).len() + 8 + blocks[b]@.len(),
        blocks_bytes(blocks, b + 1).len() <= blocks_bytes(blocks, n).len(),
        read64(blocks_bytes(blocks, n), blocks_bytes(blocks, b).len() as int) == blocks[b]@.len(),
        blocks_bytes(blocks, n).subrange(
            blocks_bytes(blocks, b).len() as int + 8,
            blocks_bytes(blocks, b).len() as int + 8 + blocks[b]@.len() as int,
        ) == blocks[b]@,
    decreases n - b,
{
    let off = blocks_bytes(blocks, b).len() as int;
    let l = blocks[b]@.len() as int;
    assert(blocks[b].len() == blocks[b]@.len());
    lemma_read_le64(l);
    lemma_le64_len(l);
    let one = blocks_bytes(blocks, b + 1);
    assert(one == blocks_bytes(blocks, b) + le64(l) + blocks[b]@);
    if n == b + 1 {
        lemma_read64_same(one, off, le64(l), 0);
        assert(one.subrange(off + 8, off + 8 + l) =~= blocks[b]@);
    } else {
        lemma_block_written(blocks, b, n - 1);
        let prev = blocks_bytes(blocks, n - 1);
        let all = blocks_bytes(blocks, n);
        assert(all == prev + le64(blocks[n - 1]@.len() as int) + blocks[n - 1]@);
        lemma_le64_len(blocks[n - 1]@.len() as int);
        lemma_read64_same(all, off, prev, off);
        assert(all.subrange(off + 8, off + 8 + l) =~= prev.subrange(off + 8, off + 8 + l));
    }
}

/// Parsing what was written from block `b` on gives the blocks from `b` on.
pub proof fn lemma_parse_written(t: &CompressedTable, b: int)
    requires
        t.wf(),
        0 <= b <= t.blocks@.len(),
    ensures
        parse_blocks(
            table_bytes(t),
            HEADER + blocks_bytes(t.blocks@, b).len(),
            t.len as int,
            t.block_size as int,
            b,
        ) == Ok::<Seq<Seq<u8>>, LoadError>(block_views(t).subrange(b, t.blocks@.len() as int)),
    decreases t.blocks@.len() - b,
{
    let n = t.blocks@.len() as int;
    let bytes = table_bytes(t);
    let head = header_bytes(t);
    let body = blocks_bytes(t.blocks@, n);
    let views = block_views(t);
    lemma_le64_len(t.block_size as int);
    lemma_le64_len(t.len as int);
    assert(head.len() == HEADER);
    let off = blocks_bytes(t.blocks@, b).len() as int;
    if b == n {
        assert(views.subrange(b, n) =~= Seq::<Seq<u8>>::empty());
    } else {
        lemma_block_written(t.blocks@, b, n);
        lemma_parse_written(t, b + 1);
        let l = t.blocks@[b]@.len() as int;
        lemma_read64_same(bytes, HEADER + off, body, off);
        assert(bytes.subrange(HEADER + off + 8, HEADER + off + 8 + l) =~= body.subrange(off + 8, off + 8 + l));
        assert(block_ok(t.blocks@[b]@, block_len(t.len as int, t.block_size as int, b)));
        assert(seq![t.blocks@[b]@] + views.subrange(b + 1, n) =~= views.subrange(b, n));
    }
}

/// Round trip: the bytes of a well-formed table parse to its signature, its
/// sizes and its blocks.
pub proof fn lemma_bytes_round_trip(t: &CompressedTable)
    requires
        t.wf(),
    ensures
        parse_table(table_bytes(t)) == Ok::<(Seq<u8>, int, int, Seq<Seq<u8>>), LoadError>(
            (t.sig.counts@, t.block_size as int, t.len as int, block_views(t)),
        ),
{
    let bytes = table_bytes(t);
    let head = header_bytes(t);
    let bs = t.block_size as int;
    let len = t.len as int;
    lemma_read_le64(bs);
    lemma_read_le64(len);
    assert(head.len() == HEADER);
    assert forall|k: int| 0 <= k < HEADER implies bytes[k] == head[k] by {
    }
    assert(bytes.subrange(0, 4) =~= magic());
    assert(bytes.subrange(4, 14) =~= t.sig.counts@);
    lemma_read64_same(bytes, 14, le64(bs), 0);
    lemma_read64_same(bytes, 22, le64(len), 0);
    lemma_parse_written(t, 0);
    assert(blocks_bytes(t.blocks@, 0).len() == 0);
    assert(block_views(t).subrange(0, t.blocks@.len() as int) =~= block_views(t));
}

/// The signature that parsed bytes name.
pub open spec fn parsed_sig(parsed: (Seq<u8>, int, int, Seq<Seq<u8>>)) -> Seq<int> {
    Seq::new(10, |g: int| parsed.0[g] as int)
}

/// What registering bytes reports: the number of tables then known, or -1,
/// -2, -3 for bytes that are no table (bad header, bad block, trailing
/// bytes), -4 for a table that does not fit its signature, -5 for a table
/// of a signature that is registered already.
pub open spec fn register_bytes_code(reg: &TableRegistry, bytes: Seq<u8>) -> int {
    match parse_table(bytes) {
        Err(LoadError::Header) => -1,
        Err(LoadError::Block) => -2,
        Err(LoadError::Trailing) => -3,
        Ok(parsed) => {
            let sig = parsed_sig(parsed);
            if !(sig_wf(sig) && parsed.2 == table_size(sig)) {
                -4
            } else if reg.has(sig) {
                -5
            } else {
                reg.tables@.len() as int + 1
            }
        },
    }
}

impl TableRegistry {
    /// Registers the table that the bytes hold. On success the table is
    /// added behind the tables known; in every other case the registry stays
    /// as it is.
    pub fn register_bytes(&mut self, bytes: &[u8]) -> (code: i64)
        requires
            old(self).wf(),
            old(self).tables@.len() < 0x7fff_ffff_ffff_ffff,
        ensures
            final(self).wf(),
            code == register_bytes_code(old(self), bytes@),
            code < 0 ==> final(self).tables@ == old(self).tables@,
            code >= 0 ==> final(self).tables@.len() == old(self).tables@.len() + 1 && final(self).tables@.subrange(
                0,
                old(self).tables@.len() as int,
            ) == old(self).tables@ && table_is(&final(self).tables@[old(self).tables@.len() as int], parse_table(bytes@)->Ok_0),
    {
        match CompressedTable::from_bytes(bytes) {
            Err(LoadError::Header) => -1,
            Err(LoadError::Block) => -2,
            Err(LoadError::Trailing) => -3,
            Ok(t) => {
                proof {
                    assert(t.sig@ =~= parsed_sig(parse_table(bytes@)->Ok_0));
                }
                let ghost before = self.tables@;
                match self.register(t) {
                    Err(RegisterError::Mismatch) => -4,
                    Err(RegisterError::Duplicate) => -5,
                    Ok(n) => {
                        proof {
                            assert(self.tables@.subrange(0, before.len() as int) =~= before);
                        }
                        n as i64
                    },
                }
            },
        }
    }
}

/// Two well-formed tables with the same cells in blocks of the same size
/// have the same cells in each block.
pub proof fn lemma_same_plain(t1: &CompressedTable, t2: &CompressedTable, b: int)
    requires
        t1.wf(),
        t2.wf(),
        t1.len == t2.len,
        t1.block_size == t2.block_size,
        t1@ == t2@,
        0 <= b < t1.blocks@.len(),
    ensures
        t1.block_plain(b) == t2.block_plain(b),
{
    let bs = t1.block_size as int;
    let len = t1.len as int;
    let n = block_len(len, bs, b);
    let p1 = t1.block_plain(b);
    let p2 = t2.block_plain(b);
    assert(block_ok(t1.blocks@[b]@, n));
    assert(block_ok(t2.blocks@[b]@, n));
    lemma_block_exists(len, bs, b);
    assert forall|k: int| 0 <= k < n implies p1[k] == p2[k] by {
        let i = b * bs + k;
        lemma_fundamental_div_mod_converse(i, bs, b, k);
        assert(t1@[i] == t1.cell_at(i));
        assert(t2@[i] == t2.cell_at(i));
    }
    assert(p1 =~= p2);
}

pub proof fn lemma_same_blocks_bytes(b1: Seq<Vec<u8>>, b2: Seq<Vec<u8>>, n: int)
    requires
        0 <= n <= b1.len(),
        n <= b2.len(),
        forall|b: int| 0 <= b < n ==> (#[trigger] b1[b])@ == b2[b]@,
    ensures
        blocks_bytes(b1, n) == blocks_bytes(b2, n),
    decreases n,
{
    if n > 0 {
        lemma_same_blocks_bytes(b1, b2, n - 1);
        assert(b1[n - 1]@ == b2[n - 1]@);
    }
}

/// Determinism down to the byte: two tables of one signature with the same
/// cells in blocks of the same size, both packed by the encoder, are the
/// same bytes.
pub proof fn lemma_same_bytes(t1: &CompressedTable, t2: &CompressedTable)
    requires
        t1.wf(),
        t2.wf(),
        t1.packed(),
        t2.packed(),
        t1.sig.counts@ == t2.sig.counts@,
        t1.len == t2.len,
        t1.block_size == t2.block_size,
        t1@ == t2@,
    ensures
        table_bytes(t1) == table_bytes(t2),
{
    let n = t1.blocks@.len() as int;
    assert forall|b: int| 0 <= b < n implies (#[trigger] t1.blocks@[b])@ == t2.blocks@[b]@ by {
        lemma_same_plain(t1, t2, b);
    }
    lemma_same_blocks_bytes(t1.blocks@, t2.blocks@, n);
}

} // verus!
