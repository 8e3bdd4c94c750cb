//! The compression of one block: runs of equal cells. A run takes four
//! bytes, the length and then the cell, each as sixteen bits with the low
//! byte first.
use vstd::prelude::*;

verus! {

/// The sixteen-bit number with low byte `lo` and high byte `hi`.
pub open spec fn word(lo: u8, hi: u8) -> int {
    lo as int + 256 * (hi as int)
}

/// `count` copies of `v`.
pub open spec fn repeat(v: u16, count: int) -> Seq<u16> {
    Seq::new(count as nat, |i: int| v)
}

/// The cells that the runs in `bytes` expand to. Bytes after the last whole
/// run are ignored.
pub open spec fn rle_plain(bytes: Seq<u8>) -> Seq<u16>
    decreases bytes.len(),
{
    if bytes.len() < 4 {
        Seq::empty()
    } else {
        let n = bytes.len() - bytes.len() % 4;
        rle_plain(bytes.take(n - 4)) + repeat(word(bytes[n - 2], bytes[n - 1]) as u16, word(bytes[n - 4], bytes[n - 3]))
    }
}

/// The bytes are whole runs that expand to exactly `n` cells.
pub open spec fn block_ok(bytes: Seq<u8>, n: int) -> bool {
    bytes.len() % 4 == 0 && rle_plain(bytes).len() == n
}

/// One more run at the end adds its cells at the end.
pub proof fn lemma_rle_push(bytes: Seq<u8>, c0: u8, c1: u8, v0: u8, v1: u8)
    requires
        bytes.len() % 4 == 0,
    ensures
        rle_plain(bytes.push(c0).push(c1).push(v0).push(v1)) == rle_plain(bytes) + repeat(word(v0, v1) as u16, word(c0, c1)),
{
    let b = bytes.push(c0).push(c1).push(v0).push(v1);
    assert(b.len() % 4 == 0);
    assert(b.take(b.len() - 4) =~= bytes);
}

/// The runs in the first `4 * (j + 1)` bytes are those in the first `4 * j`
/// and one more.
pub proof fn lemma_rle_prefix(bytes: Seq<u8>, j: int)
    requires
        0 <= j,
        4 * (j + 1) <= bytes.len(),
    ensures
        rle_plain(bytes.take(4 * (j + 1))) == rle_plain(bytes.take(4 * j)) + repeat(
            word(bytes[4 * j + 2], bytes[4 * j + 3]) as u16,
            word(bytes[4 * j], bytes[4 * j + 1]),
        ),
{
    let b = bytes.take(4 * (j + 1));
    assert(b.len() == 4 * (j + 1));
    assert(b.len() % 4 == 0);
    assert(b.take(b.len() - 4) =~= bytes.take(4 * j));
}

/// A prefix of the runs expands to no more cells than all of them.
pub proof fn lemma_rle_prefix_len(bytes: Seq<u8>, j: int)
    requires
        bytes.len() % 4 == 0,
        0 <= j,
        4 * j <= bytes.len(),
    ensures
        rle_plain(bytes.take(4 * j)).len() <= rle_plain(bytes).len(),
    decreases bytes.len() - 4 * j,
{
    if 4 * j == bytes.len() {
        assert(bytes.take(4 * j) =~= bytes);
    } else {
        lemma_rle_prefix(bytes, j);
        lemma_rle_prefix_len(bytes, j + 1);
    }
}

/// How many cells from the `c`-th on continue the run that the first cell
/// starts; a run ends after 65535 cells.
pub open spec fn more(values: Seq<u16>, c: nat) -> nat
    decreases values.len() - c,
{
    if c < values.len() && c < 65535 && values[c as int] == values[0] {
        1 + more(values, c + 1)
    } else {
        0
    }
}

/// The runs that the encoder writes: each run as long as it can be.
pub open spec fn rle_bytes(values: Seq<u16>) -> Seq<u8>
    decreases values.len(),
{
    let c = 1 + more(values, 1);
    if values.len() == 0 || c > values.len() {
        Seq::empty()
    } else {
        seq![(c % 256) as u8, (c / 256) as u8, (values[0] % 256) as u8, (values[0] / 256) as u8] + rle_bytes(
            values.skip(c as int),
        )
    }
}

/// Compresses the cells from `start` to `end` into runs.
pub fn encode_block(values: &Vec<u16>, start: usize, end: usize) -> (out: Vec<u8>)
    requires
        start <= end <= values@.len(),
    ensures
        block_ok(out@, end - start),
        rle_plain(out@) == values@.subrange(start as int, end as int),
        out@ == rle_bytes(values@.subrange(start as int, end as int)),
{
    let mut out: Vec<u8> = Vec::new();
    let mut i: usize = start;
    let ghost all = values@.subrange(start as int, end as int);
    proof {
        assert(rle_plain(out@) =~= values@.subrange(start as int, i as int));
        assert(values@.subrange(i as int, end as int) =~= all);
        assert(out@ + rle_bytes(all) =~= rle_bytes(all));
    }
    while i < end
        invariant
            start <= i <= end <= values@.len(),
            out@.len() % 4 == 0,
            rle_plain(out@) == values@.subrange(start as int, i as int),
            all == values@.subrange(start as int, end as int),
            out@ + rle_bytes(values@.subrange(i as int, end as int)) == rle_bytes(all),
        decreases end - i,
    {
        let v = values[i];
        let ghost sub = values@.subrange(i as int, end as int);
        let mut c: usize = 1;
        while i + c < end && c < 65535 && values[i + c] == v
            invariant
                start <= i < end <= values@.len(),
                1 <= c <= 65535,
                i + c <= end,
                v == values@[i as int],
                sub == values@.subrange(i as int, end as int),
                forall|k: int| i <= k < i + c ==> values@[k] == v,
                more(sub, 1) == (c - 1) + more(sub, c as nat),
            decreases end - i - c,
        {
            proof {
                assert(sub[c as int] == values@[i + c]);
                assert(sub[0] == v);
            }
            c = c + 1;
        }
        let ghost before = out@;
        let c0: u8 = (c % 256) as u8;
        let c1: u8 = (c / 256) as u8;
        let v0: u8 = (v % 256) as u8;
        let v1: u8 = (v / 256) as u8;
        out.push(c0);
        out.push(c1);
        out.push(v0);
        out.push(v1);
        proof {
            lemma_rle_push(before, c0, c1, v0, v1);
            assert(word(c0, c1) == c);
            assert(word(v0, v1) == v);
            assert(values@.subrange(start as int, i as int) + repeat(v, c as int) =~= values@.subrange(start as int, i + c));
            if i + c < end {
                assert(sub[c as int] == values@[i + c]);
            }
            assert(sub[0] == v);
            assert(more(sub, c as nat) == 0);
            assert(sub.skip(c as int) =~= values@.subrange(i + c, end as int));
            assert(rle_bytes(sub) == seq![c0, c1, v0, v1] + rle_bytes(sub.skip(c as int)));
            assert(out@ =~= before + seq![c0, c1, v0, v1]);
            assert(out@ + rle_bytes(values@.subrange(i + c, end as int)) =~= before + rle_bytes(sub));
        }
        i = i + c;
    }
    proof {
        assert(values@.subrange(end as int, end as int) =~= Seq::<u16>::empty());
        assert(out@ + Seq::<u8>::empty() =~= out@);
    }
    out
}

/// Expands the runs of a block into `out`, whose old content is dropped.
/// Reports whether the bytes are whole runs that expand to exactly `n` cells.
pub fn decode_block(bytes: &Vec<u8>, n: usize, out: &mut Vec<u16>) -> (ok: bool)
    ensures
        ok == block_ok(bytes@, n as int),
        ok ==> final(out)@ == rle_plain(bytes@),
{
    out.clear();
    let len = bytes.len();
    if len % 4 != 0 {
        return false;
    }
    let runs: usize = len / 4;
    let mut j: usize = 0;
    proof {
        assert(rle_plain(bytes@.take(0)) =~= Seq::<u16>::empty());
    }
    while j < runs
        invariant
            0 <= j <= runs,
            len == bytes@.len(),
            len == 4 * runs,
            out@ == rle_plain(bytes@.take(4 * j)),
            out@.len() <= n,
        decreases runs - j,
    {
        let c: usize = bytes[4 * j] as usize + 256 * (bytes[4 * j + 1] as usize);
        let v: u16 = (bytes[4 * j + 2] as u16) + 256 * (bytes[4 * j + 3] as u16);
        proof {
            lemma_rle_prefix(bytes@, j as int);
            lemma_rle_prefix_len(bytes@, j + 1);
        }
        if c > n - out.len() {
            return false;
        }
        let ghost base = out@;
        let mut k: usize = 0;
        while k < c
            invariant
                0 <= k <= c,
                base.len() + c <= n,
                out@ == base + repeat(v, k as int),
            decreases c - k,
        {
            out.push(v);
            proof {
                assert(base + repeat(v, k as int).push(v) =~= base + repeat(v, k + 1));
                assert(repeat(v, k as int).push(v) =~= repeat(v, k + 1));
            }
            k = k + 1;
        }
        j = j + 1;
    }
    proof {
        assert(bytes@.take(4 * runs) =~= bytes@);
    }
    out.len() == n
}

} // verus!
