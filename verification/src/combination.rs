//! Binomial coefficients and the ranking of combinations: a set of `k`
//! squares, listed in increasing order, gets the number
//! `C(s[0], 1) + C(s[1], 2) + ... + C(s[k-1], k)`.
use vstd::prelude::*;

verus! {

/// The binomial coefficient `C(n, k)`, by Pascal's rule.
pub open spec fn binom(n: int, k: int) -> int
    decreases n,
{
    if k == 0 {
        1
    } else if n <= 0 || k < 0 {
        0
    } else {
        binom(n - 1, k - 1) + binom(n - 1, k)
    }
}

/// Powers of 64 up to the sixth.
pub open spec fn p64(k: int) -> int {
    if k <= 0 {
        1
    } else if k == 1 {
        64
    } else if k == 2 {
        4096
    } else if k == 3 {
        262144
    } else if k == 4 {
        16777216
    } else if k == 5 {
        1073741824
    } else {
        68719476736
    }
}

pub proof fn lemma_binom_nonneg(n: int, k: int)
    ensures
        binom(n, k) >= 0,
    decreases n,
{
    if k != 0 && n > 0 && k > 0 {
        lemma_binom_nonneg(n - 1, k - 1);
        lemma_binom_nonneg(n - 1, k);
    }
}

/// `C(n, k)` does not fall when `n` grows.
pub proof fn lemma_binom_monotone(n: int, m: int, k: int)
    requires
        n <= m,
    ensures
        binom(n, k) <= binom(m, k),
    decreases m - n,
{
    if n < m {
        lemma_binom_monotone(n, m - 1, k);
        lemma_binom_nonneg(m - 1, k - 1);
        lemma_binom_nonneg(m - 1, k);
        lemma_binom_nonneg(n, k);
    }
}

/// On a board of 64 squares a group of `k` pieces has at most `64^k` places.
pub proof fn lemma_binom_bound(n: int, k: int)
    requires
        0 <= n <= 64,
        0 <= k <= 6,
    ensures
        0 <= binom(n, k) <= p64(k),
        k >= 1 ==> binom(n, k) <= n * p64(k - 1),
    decreases n,
{
    lemma_binom_nonneg(n, k);
    if k != 0 && n > 0 {
        lemma_binom_bound(n - 1, k - 1);
        lemma_binom_bound(n - 1, k);
        if k == 1 {
        } else if k == 2 {
        } else if k == 3 {
        } else if k == 4 {
        } else if k == 5 {
        } else {
        }
    }
}

/// Strictly increasing, with every element in `[0, n)`.
pub open spec fn is_combination(s: Seq<int>, n: int) -> bool {
    &&& forall|i: int| 0 <= i < s.len() ==> 0 <= #[trigger] s[i] < n
    &&& forall|i: int, j: int| 0 <= i < j < s.len() ==> #[trigger] s[i] < #[trigger] s[j]
}

/// The rank of a combination listed in increasing order.
pub open spec fn comb_rank(s: Seq<int>) -> int
    decreases s.len(),
{
    if s.len() == 0 {
        0
    } else {
        comb_rank(s.drop_last()) + binom(s.last(), s.len() as int)
    }
}

/// The largest `t` below `n` with `C(t, k) <= r` (0 if `n` is at most 1).
pub open spec fn comb_top(k: int, r: int, n: int) -> int
    decreases n,
{
    if n <= 1 {
        0
    } else if binom(n - 1, k) <= r {
        n - 1
    } else {
        comb_top(k, r, n - 1)
    }
}

/// The combination of `k` elements below `n` that has rank `r`.
pub open spec fn comb_unrank(k: int, r: int, n: int) -> Seq<int>
    decreases k,
{
    if k <= 0 {
        Seq::empty()
    } else {
        let t = comb_top(k, r, n);
        comb_unrank(k - 1, r - binom(t, k), t).push(t)
    }
}

/// The ranks of the `k`-combinations below `n` lie in `[0, C(n, k))`.
pub proof fn lemma_rank_bound(s: Seq<int>, n: int)
    requires
        is_combination(s, n),
    ensures
        0 <= comb_rank(s) < binom(n, s.len() as int),
    decreases s.len(),
{
    if s.len() > 0 {
        let t = s.last();
        let k = s.len() as int;
        assert(is_combination(s.drop_last(), t)) by {
            assert forall|i: int| 0 <= i < s.drop_last().len() implies 0 <= #[trigger] s.drop_last()[i] < t by {
                assert(s[i] < s[k - 1]);
            }
        }
        lemma_rank_bound(s.drop_last(), t);
        lemma_binom_nonneg(t, k);
        lemma_binom_monotone(t + 1, n, k);
        assert(binom(t + 1, k) == binom(t, k - 1) + binom(t, k));
    }
}

pub proof fn lemma_comb_top(k: int, r: int, n: int, t: int)
    requires
        0 <= t < n,
        binom(t, k) <= r < binom(t + 1, k),
    ensures
        comb_top(k, r, n) == t,
    decreases n,
{
    if n <= 1 {
    } else if n - 1 == t {
    } else {
        lemma_binom_monotone(t + 1, n - 1, k);
        lemma_comb_top(k, r, n - 1, t);
    }
}

pub proof fn lemma_comb_top_range(k: int, r: int, n: int)
    requires
        n >= 1,
        k >= 1,
        r >= 0,
    ensures
        0 <= comb_top(k, r, n) < n,
        binom(comb_top(k, r, n), k) <= r,
    decreases n,
{
    if n <= 1 {
    } else if binom(n - 1, k) <= r {
    } else {
        lemma_comb_top_range(k, r, n - 1);
    }
}

/// Unranking the rank of a combination gives the combination back.
pub proof fn lemma_unrank_rank(s: Seq<int>, n: int)
    requires
        is_combination(s, n),
    ensures
        comb_unrank(s.len() as int, comb_rank(s), n) == s,
    decreases s.len(),
{
    if s.len() > 0 {
        let t = s.last();
        let k = s.len() as int;
        let rest = s.drop_last();
        assert(is_combination(rest, t)) by {
            assert forall|i: int| 0 <= i < rest.len() implies 0 <= #[trigger] rest[i] < t by {
                assert(s[i] < s[k - 1]);
            }
        }
        lemma_rank_bound(rest, t);
        assert(binom(t + 1, k) == binom(t, k - 1) + binom(t, k));
        lemma_comb_top(k, comb_rank(s), n, t);
        lemma_unrank_rank(rest, t);
        assert(rest.push(t) =~= s);
    } else {
        assert(comb_unrank(0, comb_rank(s), n) =~= s);
    }
}

/// Pascal's triangle up to row 64 and column 6, held row by row.
pub struct BinomTable {
    pub cells: Vec<u64>,
}

impl BinomTable {
    pub open spec fn wf(&self) -> bool {
        &&& self.cells@.len() == 65 * 7
        &&& forall|n: int, k: int| 0 <= n <= 64 && 0 <= k <= 6 ==> #[trigger] self.cells@[n * 7 + k] == binom(n, k)
    }

    pub fn new() -> (t: BinomTable)
        ensures
            t.wf(),
    {
        let mut cells: Vec<u64> = Vec::new();
        let mut n: usize = 0;
        while n <= 64
            invariant
                0 <= n <= 65,
                cells@.len() == n * 7,
                forall|a: int, b: int| 0 <= a < n && 0 <= b <= 6 ==> #[trigger] cells@[a * 7 + b] == binom(a, b),
            decreases 65 - n,
        {
            let mut k: usize = 0;
            while k <= 6
                invariant
                    0 <= n <= 64,
                    0 <= k <= 7,
                    cells@.len() == n * 7 + k,
                    forall|a: int, b: int| 0 <= a < n && 0 <= b <= 6 ==> #[trigger] cells@[a * 7 + b] == binom(a, b),
                    forall|b: int| 0 <= b < k ==> #[trigger] cells@[n * 7 + b] == binom(n as int, b),
                decreases 7 - k,
            {
                let v: u64 = if k == 0 {
                    1
                } else if n == 0 {
                    0
                } else {
                    proof {
                        lemma_binom_bound(n - 1, k - 1);
                        lemma_binom_bound(n - 1, k as int);
                        assert(cells@[(n - 1) * 7 + (k - 1)] == binom(n - 1, k - 1));
                        assert(cells@[(n - 1) * 7 + k] == binom(n - 1, k as int));
                    }
                    cells[(n - 1) * 7 + (k - 1)] + cells[(n - 1) * 7 + k]
                };
                let ghost before = cells@;
                cells.push(v);
                proof {
                    assert forall|a: int, b: int| 0 <= a < n && 0 <= b <= 6 implies #[trigger] cells@[a * 7 + b] == binom(a, b) by {
                        assert(before[a * 7 + b] == binom(a, b));
                    }
                    assert forall|b: int| 0 <= b < k + 1 implies #[trigger] cells@[n * 7 + b] == binom(n as int, b) by {
                        if b < k {
                            assert(before[n * 7 + b] == binom(n as int, b));
                        }
                    }
                }
                k = k + 1;
            }
            proof {
                assert forall|a: int, b: int| 0 <= a < n + 1 && 0 <= b <= 6 implies #[trigger] cells@[a * 7 + b] == binom(a, b) by {
                    if a == n {
                        assert(cells@[n * 7 + b] == binom(n as int, b));
                    }
                }
            }
            n = n + 1;
        }
        BinomTable { cells }
    }

    /// `C(n, k)` for `n` up to 64 and `k` up to 6.
    pub fn get(&self, n: usize, k: usize) -> (v: u64)
        requires
            self.wf(),
            n <= 64,
            k <= 6,
        ensures
            v == binom(n as int, k as int),
            v <= p64(k as int),
    {
        proof {
            lemma_binom_bound(n as int, k as int);
            assert(self.cells@[n * 7 + k] == binom(n as int, k as int));
        }
        self.cells[n * 7 + k]
    }

    /// The largest `t` below `n` with `C(t, k) <= r`.
    pub fn top(&self, k: usize, r: u64, n: usize) -> (t: usize)
        requires
            self.wf(),
            1 <= k <= 6,
            n <= 64,
        ensures
            t == comb_top(k as int, r as int, n as int),
            n >= 1 ==> t < n && binom(t as int, k as int) <= r,
    {
        let mut m: usize = n;
        while m > 1 && self.get(m - 1, k) > r
            invariant
                self.wf(),
                1 <= k <= 6,
                m <= n <= 64,
                comb_top(k as int, r as int, n as int) == comb_top(k as int, r as int, m as int),
            decreases m,
        {
            m = m - 1;
        }
        proof {
            if n >= 1 {
                lemma_comb_top_range(k as int, r as int, n as int);
            }
        }
        if m <= 1 {
            0
        } else {
            m - 1
        }
    }
}

} // verus!
