//! The MDL energy of a block family: the model cost of describing the blocks
//! plus `KAPPA` for every byte of either string that no block covers.
use vstd::prelude::*;
use crate::types::{Block, KAPPA, lambda, lambda_spec, lemma_lambda_bounds};

verus! {

/// Where a block starts in one of the two strings (`true`: source, `false`: target).
pub open spec fn start_on(b: Block, source_side: bool) -> int {
    if source_side {
        b.i as int
    } else {
        b.j as int
    }
}

/// Whether block `b` spans position `x` of the source (`source_side`) or of the target.
pub open spec fn spans(b: Block, source_side: bool, x: int) -> bool {
    start_on(b, source_side) <= x < start_on(b, source_side) + b.len
}

/// Whether some block of `blocks` spans position `x` of the chosen string.
pub open spec fn covered_by(blocks: Seq<Block>, source_side: bool, x: int) -> bool {
    exists|k: int| 0 <= k < blocks.len() && #[trigger] spans(blocks[k], source_side, x)
}

/// Coverage map of a string of length `n`: entry `x` tells whether a block spans `x`.
pub open spec fn cover(blocks: Seq<Block>, n: nat, source_side: bool) -> Seq<bool> {
    Seq::new(n, |x: int| covered_by(blocks, source_side, x))
}

/// Number of `false` entries of a sequence.
pub open spec fn count_false(s: Seq<bool>) -> nat
    decreases s.len(),
{
    if s.len() == 0 {
        0
    } else {
        count_false(s.drop_last()) + if s.last() {
            0nat
        } else {
            1nat
        }
    }
}

/// `s` with every entry in `[a, b)` set to `true`.
pub open spec fn fill_true(s: Seq<bool>, a: int, b: int) -> Seq<bool> {
    Seq::new(s.len(), |x: int| if a <= x < b { true } else { s[x] })
}

/// Cost of describing one block: its two start positions (shifted by one) and its length.
pub open spec fn desc_cost(b: Block) -> nat {
    lambda_spec(b.i as nat + 1) + lambda_spec(b.j as nat + 1) + lambda_spec(b.len as nat)
}

/// Sum of the description costs of the blocks.
pub open spec fn sum_desc(blocks: Seq<Block>) -> nat
    decreases blocks.len(),
{
    if blocks.len() == 0 {
        0
    } else {
        sum_desc(blocks.drop_last()) + desc_cost(blocks.last())
    }
}

/// Model cost `L_m`: the length of the block count plus the description of every block.
pub open spec fn model_cost(blocks: Seq<Block>) -> nat {
    lambda_spec(blocks.len()) + sum_desc(blocks)
}

/// Number of uncovered source bytes plus uncovered target bytes.
pub open spec fn uncovered(blocks: Seq<Block>, n: nat, m: nat) -> nat {
    count_false(cover(blocks, n, true)) + count_false(cover(blocks, m, false))
}

/// The energy of a block family for a source of length `n` and a target of length `m`.
pub open spec fn energy_spec(blocks: Seq<Block>, n: nat, m: nat) -> nat {
    model_cost(blocks) + (KAPPA as nat) * uncovered(blocks, n, m)
}

/// A block whose spans lie inside the two strings (or that is empty), with start
/// positions that can be shifted by one without overflow.
pub open spec fn block_fits(b: Block, n: nat, m: nat) -> bool {
    &&& (b.len == 0 || (b.i + b.len <= n && b.j + b.len <= m))
    &&& b.i < usize::MAX
    &&& b.j < usize::MAX
}

/// Every block of the family fits the two strings.
pub open spec fn all_fit(blocks: Seq<Block>, n: nat, m: nat) -> bool {
    forall|k: int| 0 <= k < blocks.len() ==> #[trigger] block_fits(blocks[k], n, m)
}

// ---------------------------------------------------------------------------
// Lemmas on counting.

/// Counting `false` entries distributes over concatenation.
pub proof fn lemma_count_false_add(a: Seq<bool>, b: Seq<bool>)
    ensures
        count_false(a + b) == count_false(a) + count_false(b),
    decreases b.len(),
{
    if b.len() == 0 {
        assert(a + b =~= a);
    } else {
        lemma_count_false_add(a, b.drop_last());
        assert((a + b).drop_last() =~= a + b.drop_last());
    }
}

/// There are never more `false` entries than entries.
pub proof fn lemma_count_false_le_len(s: Seq<bool>)
    ensures
        count_false(s) <= s.len(),
    decreases s.len(),
{
    if s.len() > 0 {
        lemma_count_false_le_len(s.drop_last());
    }
}

/// A sequence of `true` has no `false` entry.
pub proof fn lemma_count_false_all_true(s: Seq<bool>)
    requires
        forall|x: int| 0 <= x < s.len() ==> s[x],
    ensures
        count_false(s) == 0,
    decreases s.len(),
{
    if s.len() > 0 {
        lemma_count_false_all_true(s.drop_last());
    }
}

/// Setting `[a, b)` to `true` removes exactly the `false` entries of that range.
pub proof fn lemma_count_false_fill(s: Seq<bool>, a: int, b: int)
    requires
        0 <= a <= b <= s.len(),
    ensures
        count_false(fill_true(s, a, b)) + count_false(s.subrange(a, b)) == count_false(s),
{
    let f = fill_true(s, a, b);
    assert(s =~= s.subrange(0, a) + s.subrange(a, b) + s.subrange(b, s.len() as int));
    assert(f =~= f.subrange(0, a) + f.subrange(a, b) + f.subrange(b, s.len() as int));
    assert(f.subrange(0, a) =~= s.subrange(0, a));
    assert(f.subrange(b, s.len() as int) =~= s.subrange(b, s.len() as int));
    lemma_count_false_add(s.subrange(0, a) + s.subrange(a, b), s.subrange(b, s.len() as int));
    lemma_count_false_add(s.subrange(0, a), s.subrange(a, b));
    lemma_count_false_add(f.subrange(0, a) + f.subrange(a, b), f.subrange(b, s.len() as int));
    lemma_count_false_add(f.subrange(0, a), f.subrange(a, b));
    lemma_count_false_all_true(f.subrange(a, b));
}

// ---------------------------------------------------------------------------
// Lemmas on coverage.

/// Covering with one more block sets exactly that block's span.
pub proof fn lemma_cover_push(blocks: Seq<Block>, c: Block, n: nat, side: bool)
    ensures
        cover(blocks.push(c), n, side) =~= fill_true(
            cover(blocks, n, side),
            start_on(c, side),
            start_on(c, side) + c.len,
        ),
{
    let bp = blocks.push(c);
    assert forall|x: int| 0 <= x < n implies covered_by(bp, side, x) == (covered_by(blocks, side, x)
        || spans(c, side, x)) by {
        if covered_by(blocks, side, x) {
            let k = choose|k: int| 0 <= k < blocks.len() && #[trigger] spans(blocks[k], side, x);
            assert(bp[k] == blocks[k]);
        }
        if spans(c, side, x) {
            assert(bp[blocks.len() as int] == c);
        }
        if covered_by(bp, side, x) {
            let k = choose|k: int| 0 <= k < bp.len() && #[trigger] spans(bp[k], side, x);
            if k < blocks.len() {
                assert(bp[k] == blocks[k]);
            }
        }
    }
}

/// Removing the block at `idx` uncovers exactly the part of its span that no other block covers.
pub proof fn lemma_cover_remove(blocks: Seq<Block>, idx: int, n: nat, side: bool)
    requires
        0 <= idx < blocks.len(),
    ensures
        cover(blocks, n, side) =~= fill_true(
            cover(blocks.remove(idx), n, side),
            start_on(blocks[idx], side),
            start_on(blocks[idx], side) + blocks[idx].len,
        ),
{
    let r = blocks.remove(idx);
    let c = blocks[idx];
    assert forall|x: int| 0 <= x < n implies covered_by(blocks, side, x) == (covered_by(r, side, x)
        || spans(c, side, x)) by {
        if covered_by(blocks, side, x) {
            let k = choose|k: int| 0 <= k < blocks.len() && #[trigger] spans(blocks[k], side, x);
            if k < idx {
                assert(r[k] == blocks[k]);
            } else if k > idx {
                assert(r[k - 1] == blocks[k]);
            }
        }
        if covered_by(r, side, x) {
            let k = choose|k: int| 0 <= k < r.len() && #[trigger] spans(r[k], side, x);
            if k < idx {
                assert(r[k] == blocks[k]);
            } else {
                assert(r[k] == blocks[k + 1]);
            }
        }
        if spans(c, side, x) {
            assert(spans(blocks[idx], side, x));
        }
    }
}

// ---------------------------------------------------------------------------
// Lemmas on the model cost.

/// Every block costs at least three and at most 192 units to describe.
pub proof fn lemma_desc_cost_bounds(b: Block)
    requires
        b.i < usize::MAX,
        b.j < usize::MAX,
    ensures
        3 <= desc_cost(b) <= 192,
{
    lemma_lambda_bounds((b.i + 1) as usize);
    lemma_lambda_bounds((b.j + 1) as usize);
    lemma_lambda_bounds(b.len);
}

/// The description of a family costs at least three units per block.
pub proof fn lemma_sum_desc_lower(blocks: Seq<Block>)
    requires
        forall|k: int| 0 <= k < blocks.len() ==> (#[trigger] blocks[k]).i < usize::MAX && blocks[k].j
            < usize::MAX,
    ensures
        sum_desc(blocks) >= 3 * blocks.len(),
    decreases blocks.len(),
{
    if blocks.len() > 0 {
        lemma_sum_desc_lower(blocks.drop_last());
        lemma_desc_cost_bounds(blocks.last());
    }
}

/// Removing the block at `idx` removes exactly its description cost.
pub proof fn lemma_sum_desc_remove(blocks: Seq<Block>, idx: int)
    requires
        0 <= idx < blocks.len(),
    ensures
        sum_desc(blocks.remove(idx)) + desc_cost(blocks[idx]) == sum_desc(blocks),
    decreases blocks.len(),
{
    if idx == blocks.len() - 1 {
        assert(blocks.remove(idx) =~= blocks.drop_last());
    } else {
        lemma_sum_desc_remove(blocks.drop_last(), idx);
        assert(blocks.remove(idx).drop_last() =~= blocks.drop_last().remove(idx));
        assert(blocks.remove(idx).last() == blocks.last());
    }
}

/// The sum of description costs depends on the blocks as a multiset.
proof fn lemma_sum_desc_permutation(f: Seq<Block>, g: Seq<Block>)
    requires
        f.to_multiset() == g.to_multiset(),
    ensures
        sum_desc(f) == sum_desc(g),
    decreases g.len(),
{
    broadcast use vstd::seq_lib::group_to_multiset_ensures;
    broadcast use vstd::multiset::group_multiset_axioms;
    f.to_multiset_ensures();
    g.to_multiset_ensures();
    assert(f.len() == g.len());
    if g.len() > 0 {
        let x = g.last();
        let d = g.drop_last();
        assert(g =~= d.push(x));
        assert(g.to_multiset().count(x) > 0);
        assert(f.contains(x));
        let k = choose|k: int| 0 <= k < f.len() && f[k] == x;
        lemma_sum_desc_remove(f, k);
        assert(f.remove(k).to_multiset() =~= f.to_multiset().remove(x));
        assert(d.to_multiset() =~= g.to_multiset().remove(x));
        lemma_sum_desc_permutation(f.remove(k), d);
    }
}

/// The energy of a family depends on its blocks as a multiset and on the two string
/// lengths only: reordering the blocks, or changing the bytes of the strings, leaves
/// it unchanged.
pub proof fn lemma_energy_permutation(f: Seq<Block>, g: Seq<Block>, n: nat, m: nat)
    requires
        f.to_multiset() == g.to_multiset(),
    ensures
        energy_spec(f, n, m) == energy_spec(g, n, m),
{
    broadcast use vstd::seq_lib::group_to_multiset_ensures;
    f.to_multiset_ensures();
    g.to_multiset_ensures();
    assert(f.len() == g.len());
    lemma_sum_desc_permutation(f, g);
    assert forall|side: bool, x: int| covered_by(f, side, x) <==> covered_by(g, side, x) by {
        if covered_by(f, side, x) {
            let k = choose|k: int| 0 <= k < f.len() && #[trigger] spans(f[k], side, x);
            assert(f.contains(f[k]));
            assert(g.to_multiset().count(f[k]) > 0);
            let q = choose|q: int| 0 <= q < g.len() && g[q] == f[k];
            assert(spans(g[q], side, x));
        }
        if covered_by(g, side, x) {
            let k = choose|k: int| 0 <= k < g.len() && #[trigger] spans(g[k], side, x);
            assert(g.contains(g[k]));
            assert(f.to_multiset().count(g[k]) > 0);
            let q = choose|q: int| 0 <= q < f.len() && f[q] == g[k];
            assert(spans(f[q], side, x));
        }
    }
    assert(cover(f, n, true) =~= cover(g, n, true));
    assert(cover(f, m, false) =~= cover(g, m, false));
}

// ---------------------------------------------------------------------------
// Executable computations of the energy's parts.

/// The coverage map of one string of length `n` by the blocks.
pub fn coverage(blocks: &[Block], n: usize, source_side: bool) -> (c: Vec<bool>)
    requires
        forall|k: int|
            0 <= k < blocks@.len() ==> (#[trigger] blocks@[k]).len == 0 || start_on(
                blocks@[k],
                source_side,
            ) + blocks@[k].len <= n,
    ensures
        c@ == cover(blocks@, n as nat, source_side),
{
    let mut c: Vec<bool> = Vec::new();
    let mut x: usize = 0;
    while x < n
        invariant
            x <= n,
            c@.len() == x,
            forall|q: int| 0 <= q < x ==> !c@[q],
        decreases n - x,
    {
        c.push(false);
        x = x + 1;
    }
    proof {
        assert(c@ =~= cover(blocks@.take(0), n as nat, source_side));
    }
    let mut k: usize = 0;
    while k < blocks.len()
        invariant
            k <= blocks.len(),
            forall|q: int|
                0 <= q < blocks@.len() ==> (#[trigger] blocks@[q]).len == 0 || start_on(
                    blocks@[q],
                    source_side,
                ) + blocks@[q].len <= n,
            c@ == cover(blocks@.take(k as int), n as nat, source_side),
        decreases blocks.len() - k,
    {
        let b = blocks[k];
        let start = if source_side {
            b.i
        } else {
            b.j
        };
        let ghost before = c@;
        let mut d: usize = 0;
        while d < b.len
            invariant
                b.len > 0 ==> start + b.len <= n,
                start == start_on(b, source_side),
                d <= b.len,
                c@.len() == n,
                c@ == fill_true(before, start as int, start + d),
                before.len() == n,
            decreases b.len - d,
        {
            c[start + d] = true;
            proof {
                assert(c@ =~= fill_true(before, start as int, start + d + 1));
            }
            d = d + 1;
        }
        proof {
            lemma_cover_push(blocks@.take(k as int), b, n as nat, source_side);
            assert(blocks@.take(k as int).push(b) =~= blocks@.take(k + 1));
        }
        k = k + 1;
    }
    proof {
        assert(blocks@.take(k as int) =~= blocks@);
    }
    c
}

/// Number of positions that the coverage map leaves uncovered.
pub fn count_uncovered(c: &Vec<bool>) -> (r: usize)
    ensures
        r == count_false(c@),
{
    let mut r: usize = 0;
    let mut x: usize = 0;
    while x < c.len()
        invariant
            x <= c.len(),
            r == count_false(c@.take(x as int)),
            r <= x,
        decreases c.len() - x,
    {
        proof {
            assert(c@.take(x + 1).drop_last() =~= c@.take(x as int));
        }
        if !c[x] {
            r = r + 1;
        }
        x = x + 1;
    }
    proof {
        assert(c@.take(x as int) =~= c@);
    }
    r
}

/// Every prefix of a family costs no more to describe than the family.
pub proof fn lemma_sum_desc_prefix(blocks: Seq<Block>, p: int)
    requires
        0 <= p <= blocks.len(),
    ensures
        sum_desc(blocks.take(p)) <= sum_desc(blocks),
    decreases blocks.len() - p,
{
    if p < blocks.len() {
        lemma_sum_desc_prefix(blocks, p + 1);
        assert(blocks.take(p + 1).drop_last() =~= blocks.take(p));
    } else {
        assert(blocks.take(p) =~= blocks);
    }
}

/// The model cost `L_m` of a family whose model cost is a machine word.
pub fn model_cost_exec(blocks: &[Block]) -> (r: usize)
    requires
        model_cost(blocks@) <= usize::MAX,
        forall|k: int| 0 <= k < blocks@.len() ==> (#[trigger] blocks@[k]).i < usize::MAX && blocks@[k].j < usize::MAX,
    ensures
        r == model_cost(blocks@),
{
    let mut l_m = lambda(blocks.len());
    let mut k: usize = 0;
    while k < blocks.len()
        invariant
            k <= blocks.len(),
            model_cost(blocks@) <= usize::MAX,
            forall|q: int| 0 <= q < blocks@.len() ==> (#[trigger] blocks@[q]).i < usize::MAX && blocks@[q].j < usize::MAX,
            l_m == lambda_spec(blocks@.len()) + sum_desc(blocks@.take(k as int)),
        decreases blocks.len() - k,
    {
        let b = blocks[k];
        proof {
            assert(blocks@.take(k + 1).drop_last() =~= blocks@.take(k as int));
            lemma_sum_desc_prefix(blocks@, k + 1);
        }
        l_m = l_m + lambda(b.i + 1) + lambda(b.j + 1) + lambda(b.len);
        k = k + 1;
    }
    proof {
        assert(blocks@.take(k as int) =~= blocks@);
    }
    l_m
}

} // verus!
