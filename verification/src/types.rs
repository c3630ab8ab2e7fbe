//! Blocks, the length function and the longest-common-prefix table.
use vstd::prelude::*;
use vstd::arithmetic::power2::{pow2, lemma_pow2_unfold, lemma2_to64};

verus! {

/// Cost, in energy units, of every byte of either string that no block covers.
pub const KAPPA: usize = 8;

/// A candidate block: exact diagonal match between `source[i..i+len]` and `target[j..j+len]`.
#[derive(Debug, Clone, Copy, PartialEq, Eq, Structural, Hash, PartialOrd, Ord)]
pub struct Block {
    /// Start of the block in the source.
    pub i: usize,
    /// Start of the block in the target.
    pub j: usize,
    /// Number of bytes the block spans in each string.
    pub len: usize,
}

/// Number of binary digits of `x` (zero for zero).
pub open spec fn bit_len(x: nat) -> nat
    decreases x,
{
    if x == 0 {
        0
    } else {
        1 + bit_len(x / 2)
    }
}

/// The description length of a natural number: one for 0 and 1, the bit length otherwise.
pub open spec fn lambda_spec(x: nat) -> nat {
    if x <= 1 {
        1
    } else {
        bit_len(x)
    }
}

/// A number below `2^w` has at most `w` binary digits.
pub proof fn lemma_bit_len_bound(x: nat, w: nat)
    requires
        x < pow2(w),
    ensures
        bit_len(x) <= w,
    decreases w,
{
    if w == 0 {
        lemma2_to64();
    } else {
        lemma_pow2_unfold(w);
        lemma_bit_len_bound(x / 2, (w - 1) as nat);
    }
}

/// The description length of a machine word is between 1 and 64.
pub proof fn lemma_lambda_bounds(x: usize)
    ensures
        1 <= lambda_spec(x as nat) <= 64,
{
    lemma2_to64();
    lemma_bit_len_bound(x as nat, 64);
    if x > 1 {
        lemma_bit_len_pos(x as nat);
    }
}

/// A positive number has at least one binary digit.
pub proof fn lemma_bit_len_pos(x: nat)
    requires
        x > 0,
    ensures
        bit_len(x) >= 1,
{
}

/// MDL length function (log2-like): 1 for 0 and 1, the number of binary digits otherwise.
pub fn lambda(x: usize) -> (r: usize)
    ensures
        r == lambda_spec(x as nat),
        1 <= r <= 64,
{
    proof {
        lemma_lambda_bounds(x);
    }
    if x <= 1 {
        return 1;
    }
    let mut v: usize = x;
    let mut n: usize = 0;
    while v > 0
        invariant
            n + bit_len(v as nat) == bit_len(x as nat),
            bit_len(x as nat) <= 64,
        decreases v,
    {
        v = v / 2;
        n = n + 1;
    }
    n
}

} // verus!

verus! {

/// Whether the spans of two blocks intersect in the source and in the target.
pub open spec fn overlaps(a: Block, b: Block) -> bool {
    &&& a.i < b.i + b.len
    &&& b.i < a.i + a.len
    &&& a.j < b.j + b.len
    &&& b.j < a.j + a.len
}

/// The ends of the block's spans are machine words.
pub open spec fn ends_fit(b: Block) -> bool {
    b.i + b.len <= usize::MAX && b.j + b.len <= usize::MAX
}

/// Check if two blocks overlap: their source spans intersect and their target spans intersect.
pub fn block_overlaps(a: &Block, b: &Block) -> (r: bool)
    requires
        ends_fit(*a),
        ends_fit(*b),
    ensures
        r == overlaps(*a, *b),
{
    // Range intersection test: [a.i, a.i+a.len) overlaps [b.i, b.i+b.len)
    // AND [a.j, a.j+a.len) overlaps [b.j, b.j+b.len)
    a.i < b.i + b.len && b.i < a.i + a.len && a.j < b.j + b.len && b.j < a.j + a.len
}

/// Length of the longest common prefix of `s[i..]` and `t[j..]`.
pub open spec fn lcp_spec(s: Seq<u8>, t: Seq<u8>, i: int, j: int) -> nat
    decreases s.len() - i,
{
    if 0 <= i < s.len() && 0 <= j < t.len() && s[i] == t[j] {
        1 + lcp_spec(s, t, i + 1, j + 1)
    } else {
        0
    }
}

/// Position `x` of `s` holds the same byte as position `y` of `t`.
pub open spec fn same_byte(s: Seq<u8>, t: Seq<u8>, x: int, y: int) -> bool {
    s[x] == t[y]
}

/// A common prefix never runs past the end of either string, and it is a match.
pub proof fn lemma_lcp_bounds(s: Seq<u8>, t: Seq<u8>, i: int, j: int)
    requires
        0 <= i,
        0 <= j,
    ensures
        i + lcp_spec(s, t, i, j) <= s.len() || lcp_spec(s, t, i, j) == 0,
        j + lcp_spec(s, t, i, j) <= t.len() || lcp_spec(s, t, i, j) == 0,
        forall|k: int| 0 <= k < lcp_spec(s, t, i, j) ==> #[trigger] same_byte(s, t, i + k, j + k),
    decreases s.len() - i,
{
    if 0 <= i < s.len() && 0 <= j < t.len() && s[i] == t[j] {
        lemma_lcp_bounds(s, t, i + 1, j + 1);
        assert forall|k: int| 0 <= k < lcp_spec(s, t, i, j) implies #[trigger] same_byte(
            s,
            t,
            i + k,
            j + k,
        ) by {
            if k > 0 {
                assert(same_byte(s, t, (i + 1) + (k - 1), (j + 1) + (k - 1)));
            }
        }
    }
}

/// Precomputed longest common prefix table for fast candidate generation.
pub struct MatchTable {
    lcp: Vec<Vec<usize>>,
}

impl View for MatchTable {
    type V = Seq<Seq<usize>>;

    closed spec fn view(&self) -> Seq<Seq<usize>> {
        Seq::new(self.lcp@.len(), |i: int| self.lcp@[i]@)
    }
}

impl MatchTable {
    /// The table holds, at row `i` and column `j` (`i <= |s|`, `j <= |t|`), the length
    /// of the longest common prefix of `s[i..]` and `t[j..]`.
    pub open spec fn is_table_for(&self, s: Seq<u8>, t: Seq<u8>) -> bool {
        &&& self@.len() == s.len() + 1
        &&& forall|i: int| 0 <= i <= s.len() ==> (#[trigger] self@[i]).len() == t.len() + 1
        &&& forall|i: int, j: int|
            0 <= i <= s.len() && 0 <= j <= t.len() ==> #[trigger] self@[i][j] == lcp_spec(s, t, i, j)
    }

    /// Build the LCP table for strings `s` and `t`.
    pub fn new(s: &[u8], t: &[u8]) -> (r: Self)
        requires
            s.len() < usize::MAX,
            t.len() < usize::MAX,
        ensures
            r.is_table_for(s@, t@),
    {
        let n = s.len();
        let m = t.len();
        // Rows from the last (all zero) up to the first.
        let mut rows: Vec<Vec<usize>> = Vec::new();
        let mut last: Vec<usize> = Vec::new();
        let mut j: usize = 0;
        while j <= m
            invariant
                j <= m + 1,
                m == t.len(),
                m < usize::MAX,
                last@.len() == j,
                forall|q: int| 0 <= q < j ==> last@[q] == 0,
            decreases m + 1 - j,
        {
            last.push(0);
            j = j + 1;
        }
        proof {
            assert forall|q: int| 0 <= q <= m implies last@[q] == lcp_spec(s@, t@, n as int, q) by {}
        }
        rows.push(last);
        let mut i: usize = n;
        while i > 0
            invariant
                i <= n,
                n == s.len(),
                m == t.len(),
                m < usize::MAX,
                rows@.len() == n + 1 - i,
                forall|r: int|
                    0 <= r < rows@.len() ==> (#[trigger] rows@[r])@.len() == m + 1,
                forall|r: int, q: int|
                    0 <= r < rows@.len() && 0 <= q <= m ==> #[trigger] rows@[r]@[q] == lcp_spec(
                        s@,
                        t@,
                        n - r,
                        q,
                    ),
            decreases i,
        {
            i = i - 1;
            let below = rows.len() - 1;
            let mut row: Vec<usize> = Vec::new();
            let mut q: usize = 0;
            while q < m
                invariant
                    i < n,
                    n == s.len(),
                    m == t.len(),
                    m < usize::MAX,
                    q <= m,
                    below == rows@.len() - 1,
                    rows@.len() == n - i,
                    rows@[below as int]@.len() == m + 1,
                    forall|z: int|
                        0 <= z <= m ==> #[trigger] rows@[below as int]@[z] == lcp_spec(
                            s@,
                            t@,
                            i + 1,
                            z,
                        ),
                    row@.len() == q,
                    forall|z: int| 0 <= z < q ==> #[trigger] row@[z] == lcp_spec(s@, t@, i as int, z),
                decreases m - q,
            {
                if s[i] == t[q] {
                    proof {
                        lemma_lcp_bounds(s@, t@, i + 1, q + 1);
                    }
                    let v = rows[below][q + 1];
                    row.push(1 + v);
                } else {
                    row.push(0);
                }
                q = q + 1;
            }
            row.push(0);
            rows.push(row);
        }
        // `rows` holds row `n - r` at index `r`: pop them back in increasing order.
        let mut lcp: Vec<Vec<usize>> = Vec::new();
        while rows.len() > 0
            invariant
                n == s.len(),
                m == t.len(),
                rows@.len() + lcp@.len() == n + 1,
                forall|r: int|
                    0 <= r < rows@.len() ==> (#[trigger] rows@[r])@.len() == m + 1,
                forall|r: int, q: int|
                    0 <= r < rows@.len() && 0 <= q <= m ==> #[trigger] rows@[r]@[q] == lcp_spec(
                        s@,
                        t@,
                        n - r,
                        q,
                    ),
                forall|r: int| 0 <= r < lcp@.len() ==> (#[trigger] lcp@[r])@.len() == m + 1,
                forall|r: int, q: int|
                    0 <= r < lcp@.len() && 0 <= q <= m ==> #[trigger] lcp@[r]@[q] == lcp_spec(
                        s@,
                        t@,
                        r,
                        q,
                    ),
            decreases rows@.len(),
        {
            let row = rows.pop().unwrap();
            lcp.push(row);
        }
        let r = MatchTable { lcp };
        proof {
            assert forall|i: int| 0 <= i <= s.len() implies (#[trigger] r@[i]).len() == t.len() + 1 by {
                assert(r@[i] == r.lcp@[i]@);
            }
            assert forall|i: int, j: int|
                0 <= i <= s.len() && 0 <= j <= t.len() implies #[trigger] r@[i][j] == lcp_spec(
                s@,
                t@,
                i,
                j,
            ) by {
                assert(r@[i] == r.lcp@[i]@);
            }
        }
        r
    }

    /// Length of the longest exact match starting at (i, j).
    pub fn max_len(&self, i: usize, j: usize) -> (r: usize)
        requires
            i < self@.len(),
            j < self@[i as int].len(),
        ensures
            r == self@[i as int][j as int],
    {
        self.lcp[i][j]
    }
}

} // verus!
