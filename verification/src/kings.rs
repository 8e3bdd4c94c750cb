//! The enumeration of king pairs. Board symmetry lets the first king be
//! brought into a corner region: the triangle a1-d1-d4 where a signature has
//! no pawns, the files a to d where it has. The admissible pairs, kings
//! apart, are numbered in the order of `first * 64 + second`.
use vstd::prelude::*;
use crate::codes::{is_square, squares_touch, file_of, rank_of, touching};

verus! {

/// The first king stands in the triangle a1-d1-d4.
pub open spec fn in_triangle(sq: int) -> bool {
    file_of(sq) <= 3 && rank_of(sq) <= file_of(sq)
}

pub open spec fn on_diagonal(sq: int) -> bool {
    rank_of(sq) == file_of(sq)
}

/// A king pair in reduced form: the kings apart, the first in its corner
/// region, and, when it stands on the long diagonal of a pawnless board, the
/// second not above that diagonal.
pub open spec fn kings_admissible(pawns: bool, wk: int, bk: int) -> bool {
    &&& is_square(wk)
    &&& is_square(bk)
    &&& !squares_touch(wk, bk)
    &&& if pawns {
        file_of(wk) <= 3
    } else {
        in_triangle(wk) && (on_diagonal(wk) ==> rank_of(bk) <= file_of(bk))
    }
}

/// The pair with the number `c = first * 64 + second` is admissible.
pub open spec fn code_admissible(pawns: bool, c: int) -> bool {
    kings_admissible(pawns, c / 64, c % 64)
}

/// How many admissible pairs have a number below `n`.
pub open spec fn kk_count(pawns: bool, n: int) -> int
    decreases n,
{
    if n <= 0 {
        0
    } else {
        kk_count(pawns, n - 1) + if code_admissible(pawns, n - 1) {
            1int
        } else {
            0int
        }
    }
}

/// The reduced value of an admissible king pair.
pub open spec fn kk_rank(pawns: bool, wk: int, bk: int) -> int {
    kk_count(pawns, wk * 64 + bk)
}

/// The number of admissible king pairs.
pub open spec fn kk_total(pawns: bool) -> int {
    kk_count(pawns, 4096)
}

/// The admissible pair below `n` whose reduced value is `r` (0 if none).
pub open spec fn kk_nth(pawns: bool, r: int, n: int) -> int
    decreases n,
{
    if n <= 0 {
        0
    } else if code_admissible(pawns, n - 1) && kk_count(pawns, n - 1) == r {
        n - 1
    } else {
        kk_nth(pawns, r, n - 1)
    }
}

/// The number `first * 64 + second` of the pair with reduced value `r`.
pub open spec fn kk_unrank(pawns: bool, r: int) -> int {
    kk_nth(pawns, r, 4096)
}

pub proof fn lemma_kk_count_monotone(pawns: bool, a: int, b: int)
    requires
        0 <= a <= b,
    ensures
        0 <= kk_count(pawns, a) <= kk_count(pawns, b),
        kk_count(pawns, b) <= kk_count(pawns, a) + (b - a),
    decreases b,
{
    if a < b {
        lemma_kk_count_monotone(pawns, a, b - 1);
    } else {
        if a > 0 {
            lemma_kk_count_monotone(pawns, 0, a - 1);
            lemma_kk_count_monotone(pawns, a - 1, a - 1);
        }
    }
}

/// The reduced value of an admissible pair leads back to the pair.
pub proof fn lemma_kk_nth(pawns: bool, c: int, n: int)
    requires
        0 <= c < n,
        code_admissible(pawns, c),
    ensures
        kk_nth(pawns, kk_count(pawns, c), n) == c,
    decreases n,
{
    if n - 1 > c {
        lemma_kk_count_monotone(pawns, c + 1, n - 1);
        lemma_kk_nth(pawns, c, n - 1);
    }
}

/// The reduced value of an admissible pair is below the total.
pub proof fn lemma_kk_rank_bound(pawns: bool, c: int)
    requires
        0 <= c < 4096,
        code_admissible(pawns, c),
    ensures
        0 <= kk_count(pawns, c) < kk_total(pawns),
        kk_total(pawns) <= 4096,
{
    lemma_kk_count_monotone(pawns, 0, c);
    lemma_kk_count_monotone(pawns, c + 1, 4096);
    lemma_kk_count_monotone(pawns, 0, 4096);
}

/// The reduction of king pairs is one to one: two admissible pairs with the
/// same reduced value are the same pair.
pub proof fn lemma_kk_rank_injective(pawns: bool, c: int, d: int)
    requires
        0 <= c < 4096,
        0 <= d < 4096,
        code_admissible(pawns, c),
        code_admissible(pawns, d),
        kk_count(pawns, c) == kk_count(pawns, d),
    ensures
        c == d,
{
    lemma_kk_nth(pawns, c, 4096);
    lemma_kk_nth(pawns, d, 4096);
}

pub fn kings_ok(pawns: bool, wk: u8, bk: u8) -> (ok: bool)
    requires
        wk < 64,
        bk < 64,
    ensures
        ok == kings_admissible(pawns, wk as int, bk as int),
{
    if touching(wk, bk) {
        return false;
    }
    let f: u8 = wk % 8;
    let r: u8 = wk / 8;
    if pawns {
        f <= 3
    } else {
        f <= 3 && r <= f && (r != f || bk / 8 <= bk % 8)
    }
}

/// Both directions of the enumeration, tabulated.
pub struct KingTable {
    pub pawns: bool,
    /// `rank[c]` is the number of admissible pairs below `c`.
    pub rank: Vec<u16>,
    /// `pairs[r]` is the pair with reduced value `r`.
    pub pairs: Vec<u16>,
}

impl KingTable {
    pub open spec fn wf(&self) -> bool {
        &&& self.rank@.len() == 4096
        &&& self.pairs@.len() == kk_total(self.pawns)
        &&& forall|c: int| 0 <= c < 4096 ==> #[trigger] self.rank@[c] == kk_count(self.pawns, c)
        &&& forall|r: int| 0 <= r < self.pairs@.len() ==> #[trigger] self.pairs@[r] == kk_unrank(self.pawns, r)
        &&& forall|r: int| 0 <= r < self.pairs@.len() ==> (#[trigger] self.pairs@[r]) < 4096 && code_admissible(self.pawns, self.pairs@[r] as int) && kk_count(self.pawns, self.pairs@[r] as int) == r
    }

    pub fn new(pawns: bool) -> (t: KingTable)
        ensures
            t.wf(),
            t.pawns == pawns,
    {
        let mut rank: Vec<u16> = Vec::new();
        let mut pairs: Vec<u16> = Vec::new();
        let mut c: u16 = 0;
        while c < 4096
            invariant
                0 <= c <= 4096,
                rank@.len() == c,
                pairs@.len() == kk_count(pawns, c as int),
                pairs@.len() <= c,
                forall|j: int| 0 <= j < c ==> #[trigger] rank@[j] == kk_count(pawns, j),
                forall|r: int| 0 <= r < pairs@.len() ==> (#[trigger] pairs@[r]) < c && code_admissible(pawns, pairs@[r] as int) && kk_count(pawns, pairs@[r] as int) == r,
            decreases 4096 - c,
        {
            let n: u16 = pairs.len() as u16;
            rank.push(n);
            if kings_ok(pawns, (c / 64) as u8, (c % 64) as u8) {
                pairs.push(c);
            }
            c = c + 1;
        }
        proof {
            assert forall|r: int| 0 <= r < pairs@.len() implies #[trigger] pairs@[r] == kk_unrank(pawns, r) by {
                lemma_kk_nth(pawns, pairs@[r] as int, 4096);
            }
        }
        KingTable { pawns, rank, pairs }
    }

    /// The reduced value of an admissible king pair.
    pub fn rank_of_pair(&self, wk: u8, bk: u8) -> (r: u16)
        requires
            self.wf(),
            wk < 64,
            bk < 64,
        ensures
            r == kk_rank(self.pawns, wk as int, bk as int),
            kings_admissible(self.pawns, wk as int, bk as int) ==> r < kk_total(self.pawns),
            kk_total(self.pawns) <= 4096,
    {
        let c: usize = wk as usize * 64 + bk as usize;
        proof {
            assert(c / 64 == wk && c % 64 == bk);
            if kings_admissible(self.pawns, wk as int, bk as int) {
                lemma_kk_rank_bound(self.pawns, c as int);
            }
            lemma_kk_count_monotone(self.pawns, 0, 4096);
        }
        self.rank[c]
    }

    /// The number of admissible king pairs.
    pub fn total(&self) -> (n: u16)
        requires
            self.wf(),
        ensures
            n == kk_total(self.pawns),
    {
        proof {
            lemma_kk_count_monotone(self.pawns, 0, 4096);
        }
        self.pairs.len() as u16
    }

    /// The king pair with reduced value `r`.
    pub fn pair_of_rank(&self, r: u16) -> (p: (u8, u8))
        requires
            self.wf(),
            r < kk_total(self.pawns),
        ensures
            p.0 as int == kk_unrank(self.pawns, r as int) / 64,
            p.1 as int == kk_unrank(self.pawns, r as int) % 64,
            kings_admissible(self.pawns, p.0 as int, p.1 as int),
            kk_rank(self.pawns, p.0 as int, p.1 as int) == r,
    {
        let c: u16 = self.pairs[r as usize];
        proof {
            assert(c < 4096 && code_admissible(self.pawns, c as int));
            assert((c / 64) as int * 64 + (c % 64) as int == c);
        }
        ((c / 64) as u8, (c % 64) as u8)
    }
}

} // verus!
