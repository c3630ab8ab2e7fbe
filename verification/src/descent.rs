//! The search space of the descent: candidate blocks, admissible families,
//! the order in which moves are compared, and the choice of the best move.
use vstd::prelude::*;
use crate::types::{Block, overlaps, lcp_spec, lemma_lcp_bounds, same_byte, ends_fit};
use crate::energy::{
    energy_spec, sum_desc, all_fit, block_fits, lemma_sum_desc_lower,
};
use crate::keys::{
    seq_lt, sort_blocks, key_rank, lemma_seq_lt_transitive, lemma_seq_lt_total,
    lemma_seq_lt_irreflexive, lemma_sort_len, lemma_key_rank_lt,
};

verus! {

// ---------------------------------------------------------------------------
// Candidates.

/// The blocks starting at `(i, j)` with lengths `1..=l`, shortest first.
pub open spec fn cell_cands(i: int, j: int, l: nat) -> Seq<Block> {
    Seq::new(l, |k: int| Block { i: i as usize, j: j as usize, len: (k + 1) as usize })
}

/// The candidates of source position `i` against target positions `0..jn`.
pub open spec fn row_cands(s: Seq<u8>, t: Seq<u8>, i: int, jn: nat) -> Seq<Block>
    decreases jn,
{
    if jn == 0 {
        Seq::empty()
    } else {
        row_cands(s, t, i, (jn - 1) as nat) + cell_cands(i, jn - 1, lcp_spec(s, t, i, jn - 1))
    }
}

/// The candidates of source positions `0..in_`.
pub open spec fn cands_upto(s: Seq<u8>, t: Seq<u8>, in_: nat) -> Seq<Block>
    decreases in_,
{
    if in_ == 0 {
        Seq::empty()
    } else {
        cands_upto(s, t, (in_ - 1) as nat) + row_cands(s, t, in_ - 1, t.len())
    }
}

/// Every exact diagonal match of `s` and `t`, ordered by source start, then target
/// start, then length.
pub open spec fn candidates(s: Seq<u8>, t: Seq<u8>) -> Seq<Block> {
    cands_upto(s, t, s.len())
}

/// A candidate is a non-empty exact match that lies inside both strings.
pub open spec fn is_match(s: Seq<u8>, t: Seq<u8>, c: Block) -> bool {
    &&& c.len >= 1
    &&& c.i + c.len <= s.len()
    &&& c.j + c.len <= t.len()
    &&& forall|k: int| 0 <= k < c.len ==> #[trigger] same_byte(s, t, c.i + k, c.j + k)
}

proof fn lemma_row_cands_match(s: Seq<u8>, t: Seq<u8>, i: int, jn: nat)
    requires
        0 <= i < s.len(),
        jn <= t.len(),
        s.len() <= usize::MAX,
        t.len() <= usize::MAX,
    ensures
        forall|k: int| 0 <= k < row_cands(s, t, i, jn).len() ==> is_match(s, t, #[trigger] row_cands(s, t, i, jn)[k]),
    decreases jn,
{
    if jn > 0 {
        lemma_row_cands_match(s, t, i, (jn - 1) as nat);
        let a = row_cands(s, t, i, (jn - 1) as nat);
        let j = jn - 1;
        let c = cell_cands(i, j, lcp_spec(s, t, i, j));
        lemma_lcp_bounds(s, t, i, j);
        assert forall|k: int| 0 <= k < c.len() implies is_match(s, t, #[trigger] c[k]) by {
            assert forall|q: int| 0 <= q < c[k].len implies #[trigger] same_byte(s, t, c[k].i + q, c[k].j + q) by {
                assert(same_byte(s, t, i + q, j + q));
            }
        }
        assert forall|k: int| 0 <= k < (a + c).len() implies is_match(s, t, #[trigger] (a + c)[k]) by {
            if k < a.len() {
                assert((a + c)[k] == a[k]);
            } else {
                assert((a + c)[k] == c[k - a.len()]);
            }
        }
    }
}

proof fn lemma_cands_upto_match(s: Seq<u8>, t: Seq<u8>, in_: nat)
    requires
        in_ <= s.len(),
        s.len() <= usize::MAX,
        t.len() <= usize::MAX,
    ensures
        forall|k: int| 0 <= k < cands_upto(s, t, in_).len() ==> is_match(s, t, #[trigger] cands_upto(s, t, in_)[k]),
    decreases in_,
{
    if in_ > 0 {
        lemma_cands_upto_match(s, t, (in_ - 1) as nat);
        lemma_row_cands_match(s, t, in_ - 1, t.len());
        let a = cands_upto(s, t, (in_ - 1) as nat);
        let c = row_cands(s, t, in_ - 1, t.len());
        assert forall|k: int| 0 <= k < (a + c).len() implies is_match(s, t, #[trigger] (a + c)[k]) by {
            if k < a.len() {
                assert((a + c)[k] == a[k]);
            } else {
                assert((a + c)[k] == c[k - a.len()]);
            }
        }
    }
}

/// Every candidate is an exact match inside both strings.
pub proof fn lemma_candidates_match(s: Seq<u8>, t: Seq<u8>)
    requires
        s.len() <= usize::MAX,
        t.len() <= usize::MAX,
    ensures
        forall|k: int| 0 <= k < candidates(s, t).len() ==> is_match(s, t, #[trigger] candidates(s, t)[k]),
{
    lemma_cands_upto_match(s, t, s.len());
}

// ---------------------------------------------------------------------------
// Families and moves.

/// No two blocks of the family overlap.
pub open spec fn admissible(blocks: Seq<Block>) -> bool {
    forall|p: int, q: int| 0 <= p < q < blocks.len() ==> !overlaps(#[trigger] blocks[p], #[trigger] blocks[q])
}

/// Every block of the family is an exact match of `s` and `t`.
pub open spec fn all_match(blocks: Seq<Block>, s: Seq<u8>, t: Seq<u8>) -> bool {
    forall|k: int| 0 <= k < blocks.len() ==> is_match(s, t, #[trigger] blocks[k])
}

/// The family with every copy of `c` taken out, the rest in order.
pub open spec fn without(blocks: Seq<Block>, c: Block) -> Seq<Block>
    decreases blocks.len(),
{
    if blocks.len() == 0 {
        blocks
    } else if blocks.last() == c {
        without(blocks.drop_last(), c)
    } else {
        without(blocks.drop_last(), c).push(blocks.last())
    }
}

/// `x` is better than `y`: lower energy, or equal energy and a smaller canonical key.
pub open spec fn better(x: Seq<Block>, y: Seq<Block>, n: nat, m: nat) -> bool {
    ||| energy_spec(x, n, m) < energy_spec(y, n, m)
    ||| (energy_spec(x, n, m) == energy_spec(y, n, m) && seq_lt(sort_blocks(x), sort_blocks(y)))
}

/// The first family of `ns` that is better than `init` and than every family before it,
/// scanning left to right and keeping the incumbent on ties; `init` if there is none.
pub open spec fn best_of(ns: Seq<Seq<Block>>, init: Seq<Block>, n: nat, m: nat) -> Seq<Block>
    decreases ns.len(),
{
    if ns.len() == 0 {
        init
    } else {
        let b = best_of(ns.drop_last(), init, n, m);
        if better(ns.last(), b, n, m) {
            ns.last()
        } else {
            b
        }
    }
}

// ---------------------------------------------------------------------------
// Lemmas.

/// Every element of `without(blocks, c)` is an element of `blocks` other than `c`.
pub proof fn lemma_without_elems(blocks: Seq<Block>, c: Block)
    ensures
        without(blocks, c).len() <= blocks.len(),
        forall|k: int| 0 <= k < without(blocks, c).len() ==> blocks.contains(#[trigger] without(blocks, c)[k]) && without(blocks, c)[k] != c,
        sum_desc(without(blocks, c)) <= sum_desc(blocks),
    decreases blocks.len(),
{
    if blocks.len() > 0 {
        let d = blocks.drop_last();
        lemma_without_elems(d, c);
        let w = without(d, c);
        assert forall|k: int| 0 <= k < w.len() implies blocks.contains(#[trigger] w[k]) by {
            let q = choose|q: int| 0 <= q < d.len() && d[q] == w[k];
            assert(blocks[q] == d[q]);
        }
        if blocks.last() != c {
            let wp = w.push(blocks.last());
            assert(wp.drop_last() =~= w);
            assert forall|k: int| 0 <= k < wp.len() implies blocks.contains(#[trigger] wp[k]) && wp[k] != c by {
                if k == w.len() {
                    assert(blocks[blocks.len() - 1] == wp[k]);
                } else {
                    assert(wp[k] == w[k]);
                }
            }
        }
    }
}

/// Strict order on families: `better` is transitive.
pub proof fn lemma_better_transitive(x: Seq<Block>, y: Seq<Block>, z: Seq<Block>, n: nat, m: nat)
    requires
        better(x, y, n, m),
        better(y, z, n, m),
    ensures
        better(x, z, n, m),
{
    if energy_spec(x, n, m) == energy_spec(y, n, m) && energy_spec(y, n, m) == energy_spec(z, n, m) {
        lemma_seq_lt_transitive(sort_blocks(x), sort_blocks(y), sort_blocks(z));
    }
}

/// Two families neither of which is better than the other have the same energy and key.
pub proof fn lemma_better_total(x: Seq<Block>, y: Seq<Block>, n: nat, m: nat)
    ensures
        better(x, y, n, m) || better(y, x, n, m) || (energy_spec(x, n, m) == energy_spec(y, n, m)
            && sort_blocks(x) == sort_blocks(y)),
        !better(x, x, n, m),
{
    lemma_seq_lt_total(sort_blocks(x), sort_blocks(y));
    lemma_seq_lt_irreflexive(sort_blocks(x));
}

/// The result of the scan is no worse than `init` nor than any family scanned.
pub proof fn lemma_best_of_minimal(ns: Seq<Seq<Block>>, init: Seq<Block>, n: nat, m: nat)
    ensures
        best_of(ns, init, n, m) == init || better(best_of(ns, init, n, m), init, n, m),
        best_of(ns, init, n, m) == init || ns.contains(best_of(ns, init, n, m)),
        forall|k: int| 0 <= k < ns.len() ==> !better(#[trigger] ns[k], best_of(ns, init, n, m), n, m),
    decreases ns.len(),
{
    if ns.len() > 0 {
        let d = ns.drop_last();
        lemma_best_of_minimal(d, init, n, m);
        let b = best_of(d, init, n, m);
        let r = best_of(ns, init, n, m);
        if b != init && !better(ns.last(), b, n, m) {
            let q = choose|q: int| 0 <= q < d.len() && d[q] == b;
            assert(ns[q] == d[q]);
        }
        if better(ns.last(), b, n, m) {
            assert(ns[ns.len() - 1] == ns.last());
            if b != init {
                lemma_better_transitive(ns.last(), b, init, n, m);
            }
            assert forall|k: int| 0 <= k < ns.len() implies !better(#[trigger] ns[k], r, n, m) by {
                lemma_better_total(r, r, n, m);
                if k < d.len() {
                    assert(ns[k] == d[k]);
                    assert(!better(d[k], b, n, m));
                    if better(ns[k], r, n, m) {
                        lemma_better_transitive(ns[k], r, b, n, m);
                    }
                }
            }
        } else {
            assert forall|k: int| 0 <= k < ns.len() implies !better(#[trigger] ns[k], r, n, m) by {
                if k < d.len() {
                    assert(ns[k] == d[k]);
                }
            }
        }
    }
}

/// If the scan does not improve on `init`, no scanned family is better than `init`.
pub proof fn lemma_no_better_than_fixed(ns: Seq<Seq<Block>>, init: Seq<Block>, n: nat, m: nat)
    requires
        !better(best_of(ns, init, n, m), init, n, m),
    ensures
        forall|k: int| 0 <= k < ns.len() ==> !better(#[trigger] ns[k], init, n, m),
{
    lemma_best_of_minimal(ns, init, n, m);
    let b = best_of(ns, init, n, m);
    assert(b == init);
    assert forall|k: int| 0 <= k < ns.len() implies !better(#[trigger] ns[k], init, n, m) by {
        assert(!better(ns[k], b, n, m));
    }
}

/// A better family has a lower energy, or the same energy and a lower key rank.
pub proof fn lemma_better_decreases(x: Seq<Block>, y: Seq<Block>, n: nat, m: nat, l: nat)
    requires
        better(x, y, n, m),
        x.len() <= l,
        y.len() <= l,
    ensures
        energy_spec(x, n, m) < energy_spec(y, n, m) || (energy_spec(x, n, m) == energy_spec(y, n, m)
            && key_rank(sort_blocks(x), l) < key_rank(sort_blocks(y), l)),
{
    if energy_spec(x, n, m) == energy_spec(y, n, m) {
        lemma_sort_len(x);
        lemma_sort_len(y);
        lemma_key_rank_lt(sort_blocks(x), sort_blocks(y), l);
    }
}

/// A family fitting the strings has at most a third of its energy in blocks.
pub proof fn lemma_len_le_energy(blocks: Seq<Block>, n: nat, m: nat)
    requires
        all_fit(blocks, n, m),
    ensures
        3 * blocks.len() <= energy_spec(blocks, n, m),
{
    assert forall|k: int| 0 <= k < blocks.len() implies (#[trigger] blocks[k]).i < usize::MAX && blocks[k].j < usize::MAX by {
        assert(block_fits(blocks[k], n, m));
    }
    lemma_sum_desc_lower(blocks);
}

/// Blocks fitting strings whose lengths are machine words have ends that are machine words.
pub proof fn lemma_fit_ends(blocks: Seq<Block>, n: nat, m: nat)
    requires
        all_fit(blocks, n, m),
        n <= usize::MAX,
        m <= usize::MAX,
    ensures
        forall|k: int| 0 <= k < blocks.len() ==> ends_fit(#[trigger] blocks[k]),
{
    assert forall|k: int| 0 <= k < blocks.len() implies ends_fit(#[trigger] blocks[k]) by {
        assert(block_fits(blocks[k], n, m));
    }
}

// ---------------------------------------------------------------------------
// Executable helpers on block sequences.

/// A fresh vector with the same blocks.
pub fn copy_blocks(blocks: &Vec<Block>) -> (r: Vec<Block>)
    ensures
        r@ == blocks@,
{
    let mut r: Vec<Block> = Vec::new();
    let mut k: usize = 0;
    while k < blocks.len()
        invariant
            k <= blocks.len(),
            r@ == blocks@.take(k as int),
        decreases blocks.len() - k,
    {
        r.push(blocks[k]);
        proof {
            assert(blocks@.take(k + 1) =~= blocks@.take(k as int).push(blocks@[k as int]));
        }
        k = k + 1;
    }
    proof {
        assert(blocks@.take(k as int) =~= blocks@);
    }
    r
}

/// Whether the family holds block `c`.
pub fn blocks_contain(blocks: &Vec<Block>, c: &Block) -> (r: bool)
    ensures
        r == blocks@.contains(*c),
{
    let mut k: usize = 0;
    while k < blocks.len()
        invariant
            k <= blocks.len(),
            forall|q: int| 0 <= q < k ==> blocks@[q] != *c,
        decreases blocks.len() - k,
    {
        if blocks[k] == *c {
            return true;
        }
        k = k + 1;
    }
    false
}

/// The family with every copy of `c` taken out.
pub fn remove_all(blocks: &Vec<Block>, c: &Block) -> (r: Vec<Block>)
    ensures
        r@ == without(blocks@, *c),
{
    let mut r: Vec<Block> = Vec::new();
    let mut k: usize = 0;
    while k < blocks.len()
        invariant
            k <= blocks.len(),
            r@ == without(blocks@.take(k as int), *c),
        decreases blocks.len() - k,
    {
        proof {
            assert(blocks@.take(k + 1).drop_last() =~= blocks@.take(k as int));
        }
        if blocks[k] != *c {
            r.push(blocks[k]);
        }
        k = k + 1;
    }
    proof {
        assert(blocks@.take(k as int) =~= blocks@);
    }
    r
}

/// Whether no two blocks overlap.
pub fn admissible_exec(blocks: &Vec<Block>) -> (r: bool)
    requires
        forall|k: int| 0 <= k < blocks@.len() ==> ends_fit(#[trigger] blocks@[k]),
    ensures
        r == admissible(blocks@),
{
    let mut p: usize = 0;
    while p < blocks.len()
        invariant
            p <= blocks.len(),
            forall|k: int| 0 <= k < blocks@.len() ==> ends_fit(#[trigger] blocks@[k]),
            forall|a: int, b: int| 0 <= a < p && a < b < blocks@.len() ==> !overlaps(#[trigger] blocks@[a], #[trigger] blocks@[b]),
        decreases blocks.len() - p,
    {
        let mut q: usize = p + 1;
        while q < blocks.len()
            invariant
                p < blocks.len(),
                p + 1 <= q <= blocks.len(),
                forall|k: int| 0 <= k < blocks@.len() ==> ends_fit(#[trigger] blocks@[k]),
                forall|a: int, b: int| 0 <= a < p && a < b < blocks@.len() ==> !overlaps(#[trigger] blocks@[a], #[trigger] blocks@[b]),
                forall|b: int| p < b < q ==> !overlaps(blocks@[p as int], #[trigger] blocks@[b]),
            decreases blocks.len() - q,
        {
            if crate::types::block_overlaps(&blocks[p], &blocks[q]) {
                return false;
            }
            q = q + 1;
        }
        p = p + 1;
    }
    true
}

} // verus!
