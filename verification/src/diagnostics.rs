//! Integer diagnostics of a block family: the parts of its energy and the
//! payoff of every block.
use vstd::prelude::*;
use crate::types::{Block, KAPPA, lambda, lambda_spec, lemma_lambda_bounds};
use crate::energy::{
    energy_spec, all_fit, block_fits, model_cost, uncovered, cover, count_false, coverage,
    count_uncovered, model_cost_exec, start_on, desc_cost, lemma_count_false_le_len,
};

verus! {

/// The parts of the energy of a family, with the counts they are made of.
#[derive(Debug, Clone, Copy, PartialEq, Eq)]
pub struct EnergyBreakdown {
    /// The energy: `desc_cost + residual_cost`.
    pub total_energy: usize,
    /// The model cost `L_m`.
    pub desc_cost: usize,
    /// `KAPPA` times the number of uncovered bytes.
    pub residual_cost: usize,
    /// Uncovered source bytes.
    pub uncovered_s: usize,
    /// Uncovered target bytes.
    pub uncovered_t: usize,
    /// Covered source bytes.
    pub covered_s: usize,
    /// Covered target bytes.
    pub covered_t: usize,
    /// Number of blocks.
    pub num_blocks: usize,
    /// Sum of the block lengths.
    pub total_block_len: usize,
    /// Energy of the empty family.
    pub empty_energy: usize,
    /// `empty_energy - total_energy`.
    pub bits_saved: i64,
}

/// Sum of the lengths of the blocks.
pub open spec fn total_len(blocks: Seq<Block>) -> nat
    decreases blocks.len(),
{
    if blocks.len() == 0 {
        0
    } else {
        total_len(blocks.drop_last()) + blocks.last().len as nat
    }
}

/// The energy of the empty family.
pub open spec fn empty_energy_spec(n: nat, m: nat) -> nat {
    lambda_spec(0) + (KAPPA as nat) * (n + m)
}

/// The family fits the strings and every figure of its breakdown is a machine word
/// (the two energies fit an `i64`).
pub open spec fn breakdown_fits(blocks: Seq<Block>, n: nat, m: nat) -> bool {
    &&& all_fit(blocks, n, m)
    &&& energy_spec(blocks, n, m) <= i64::MAX
    &&& empty_energy_spec(n, m) <= i64::MAX
    &&& energy_spec(blocks, n, m) <= usize::MAX
    &&& empty_energy_spec(n, m) <= usize::MAX
    &&& total_len(blocks) <= usize::MAX
}

/// The breakdown of the energy of `blocks` for strings of lengths `n` and `m`.
pub open spec fn breakdown_spec(blocks: Seq<Block>, n: nat, m: nat) -> EnergyBreakdown {
    let u_s = count_false(cover(blocks, n, true));
    let u_t = count_false(cover(blocks, m, false));
    EnergyBreakdown {
        total_energy: energy_spec(blocks, n, m) as usize,
        desc_cost: model_cost(blocks) as usize,
        residual_cost: ((KAPPA as nat) * uncovered(blocks, n, m)) as usize,
        uncovered_s: u_s as usize,
        uncovered_t: u_t as usize,
        covered_s: (n - u_s) as usize,
        covered_t: (m - u_t) as usize,
        num_blocks: blocks.len() as usize,
        total_block_len: total_len(blocks) as usize,
        empty_energy: empty_energy_spec(n, m) as usize,
        bits_saved: (empty_energy_spec(n, m) - energy_spec(blocks, n, m)) as i64,
    }
}

impl EnergyBreakdown {
    /// The breakdown of the energy of `blocks` for strings `s` and `t`.
    pub fn calculate(blocks: &[Block], s: &[u8], t: &[u8]) -> (r: Self)
        requires
            breakdown_fits(blocks@, s@.len(), t@.len()),
        ensures
            r == breakdown_spec(blocks@, s@.len(), t@.len()),
    {
        proof {
            assert forall|k: int| 0 <= k < blocks@.len() implies (#[trigger] blocks@[k]).len == 0 || start_on(blocks@[k], true) + blocks@[k].len <= s.len() by {
                assert(block_fits(blocks@[k], s@.len(), t@.len()));
            }
            assert forall|k: int| 0 <= k < blocks@.len() implies (#[trigger] blocks@[k]).len == 0 || start_on(blocks@[k], false) + blocks@[k].len <= t.len() by {
                assert(block_fits(blocks@[k], s@.len(), t@.len()));
            }
            assert forall|k: int| 0 <= k < blocks@.len() implies (#[trigger] blocks@[k]).i < usize::MAX && blocks@[k].j < usize::MAX by {
                assert(block_fits(blocks@[k], s@.len(), t@.len()));
            }
        }
        let covered_s = coverage(blocks, s.len(), true);
        let covered_t = coverage(blocks, t.len(), false);
        let u_s = count_uncovered(&covered_s);
        let u_t = count_uncovered(&covered_t);
        proof {
            lemma_count_false_le_len(covered_s@);
            lemma_count_false_le_len(covered_t@);
        }
        let c_s = s.len() - u_s;
        let c_t = t.len() - u_t;
        let l_m = model_cost_exec(blocks);
        let mut total_block_len: usize = 0;
        let mut k: usize = 0;
        while k < blocks.len()
            invariant
                k <= blocks.len(),
                total_len(blocks@) <= usize::MAX,
                total_block_len == total_len(blocks@.take(k as int)),
            decreases blocks.len() - k,
        {
            proof {
                assert(blocks@.take(k + 1).drop_last() =~= blocks@.take(k as int));
                lemma_total_len_prefix(blocks@, k + 1);
            }
            total_block_len = total_block_len + blocks[k].len;
            k = k + 1;
        }
        proof {
            assert(blocks@.take(k as int) =~= blocks@);
        }
        let total_energy = l_m + KAPPA * (u_s + u_t);
        let empty_energy = lambda(0) + KAPPA * (s.len() + t.len());
        EnergyBreakdown {
            total_energy,
            desc_cost: l_m,
            residual_cost: KAPPA * (u_s + u_t),
            uncovered_s: u_s,
            uncovered_t: u_t,
            covered_s: c_s,
            covered_t: c_t,
            num_blocks: blocks.len(),
            total_block_len,
            empty_energy,
            bits_saved: empty_energy as i64 - total_energy as i64,
        }
    }
}

/// Every prefix of a family is no longer in total than the family.
pub proof fn lemma_total_len_prefix(blocks: Seq<Block>, p: int)
    requires
        0 <= p <= blocks.len(),
    ensures
        total_len(blocks.take(p)) <= total_len(blocks),
    decreases blocks.len() - p,
{
    if p < blocks.len() {
        lemma_total_len_prefix(blocks, p + 1);
        assert(blocks.take(p + 1).drop_last() =~= blocks.take(p));
    } else {
        assert(blocks.take(p) =~= blocks);
    }
}

/// The payoff of one block: what describing it costs against the bytes it could save.
#[derive(Debug, Clone, Copy, PartialEq, Eq)]
pub struct BlockInsight {
    /// The block.
    pub block: Block,
    /// Its description cost.
    pub desc_cost: usize,
    /// `KAPPA` for each of the `2 * len` bytes it spans.
    pub saved_bits: usize,
    /// `saved_bits - desc_cost`.
    pub net_gain: i64,
}

/// The insight of one block.
pub open spec fn insight_of(b: Block) -> BlockInsight {
    BlockInsight {
        block: b,
        desc_cost: desc_cost(b) as usize,
        saved_bits: ((KAPPA as nat) * (2 * b.len)) as usize,
        net_gain: ((KAPPA as nat) * (2 * b.len) - desc_cost(b)) as i64,
    }
}

/// Insert `x` after every element whose gain is at least its gain.
pub open spec fn insert_by_gain(s: Seq<BlockInsight>, x: BlockInsight) -> Seq<BlockInsight>
    decreases s.len(),
{
    if s.len() == 0 {
        seq![x]
    } else if s[0].net_gain < x.net_gain {
        seq![x] + s
    } else {
        seq![s[0]] + insert_by_gain(s.drop_first(), x)
    }
}

/// Stable sort by decreasing gain: among equal gains the earlier element stays first.
pub open spec fn sort_by_gain(s: Seq<BlockInsight>) -> Seq<BlockInsight>
    decreases s.len(),
{
    if s.len() == 0 {
        s
    } else {
        insert_by_gain(sort_by_gain(s.drop_last()), s.last())
    }
}

/// The gains of the sequence do not increase from left to right.
pub open spec fn gains_non_increasing(s: Seq<BlockInsight>) -> bool {
    forall|p: int, q: int| 0 <= p < q < s.len() ==> (#[trigger] s[p]).net_gain >= (#[trigger] s[q]).net_gain
}

/// The blocks that [`BlockInsight::calculate_all`] accepts: each spans few enough bytes
/// and starts early enough that its figures are machine words.
pub open spec fn insights_fit(blocks: Seq<Block>) -> bool {
    forall|k: int| 0 <= k < blocks.len() ==> {
        &&& (#[trigger] blocks[k]).i < usize::MAX
        &&& blocks[k].j < usize::MAX
        &&& (KAPPA as nat) * (2 * blocks[k].len) <= i64::MAX
        &&& (KAPPA as nat) * (2 * blocks[k].len) <= usize::MAX
    }
}

proof fn lemma_insert_by_gain_props(s: Seq<BlockInsight>, x: BlockInsight)
    ensures
        insert_by_gain(s, x).len() == s.len() + 1,
        insert_by_gain(s, x).to_multiset() =~= s.to_multiset().insert(x),
        gains_non_increasing(s) ==> gains_non_increasing(insert_by_gain(s, x)),
        s.len() > 0 ==> insert_by_gain(s, x)[0] == s[0] || insert_by_gain(s, x)[0] == x,
    decreases s.len(),
{
    broadcast use vstd::seq_lib::group_to_multiset_ensures;
    broadcast use vstd::seq_lib::lemma_multiset_commutative;
    broadcast use vstd::multiset::group_multiset_axioms;
    assert(seq![x] =~= Seq::<BlockInsight>::empty().push(x));
    if s.len() > 0 {
        let r = insert_by_gain(s, x);
        assert(seq![s[0]] =~= Seq::<BlockInsight>::empty().push(s[0]));
        if s[0].net_gain < x.net_gain {
            assert(r =~= seq![x] + s);
            assert((seq![x] + s).drop_first() =~= s);
            assert(s =~= seq![s[0]] + s.drop_first());
            if gains_non_increasing(s) {
                assert forall|p: int, q: int| 0 <= p < q < r.len() implies (#[trigger] r[p]).net_gain >= (#[trigger] r[q]).net_gain by {
                    if p > 0 {
                        assert(r[p] == s[p - 1]);
                        assert(r[q] == s[q - 1]);
                    } else {
                        assert(r[q] == s[q - 1]);
                        if q > 1 {
                            assert(s[0].net_gain >= s[q - 1].net_gain);
                        }
                    }
                }
            }
        } else {
            let t = s.drop_first();
            lemma_insert_by_gain_props(t, x);
            let it = insert_by_gain(t, x);
            assert(r =~= seq![s[0]] + it);
            assert((seq![s[0]] + it).drop_first() =~= it);
            assert(s =~= seq![s[0]] + t);
            assert((seq![s[0]] + t).drop_first() =~= t);
            if gains_non_increasing(s) {
                assert(gains_non_increasing(t)) by {
                    assert forall|p: int, q: int| 0 <= p < q < t.len() implies (#[trigger] t[p]).net_gain >= (#[trigger] t[q]).net_gain by {
                        assert(t[p] == s[p + 1]);
                        assert(t[q] == s[q + 1]);
                    }
                }
                assert forall|p: int, q: int| 0 <= p < q < r.len() implies (#[trigger] r[p]).net_gain >= (#[trigger] r[q]).net_gain by {
                    assert(r[q] == it[q - 1]);
                    if p > 0 {
                        assert(r[p] == it[p - 1]);
                    } else {
                        assert(r[p] == s[0]);
                        // every element of `it` is an element of `t` or `x`
                        assert(it.to_multiset().count(it[q - 1]) > 0);
                        assert(t.to_multiset().insert(x).count(it[q - 1]) > 0);
                        if it[q - 1] != x {
                            assert(t.to_multiset().count(it[q - 1]) > 0);
                            assert(t.contains(it[q - 1]));
                            let z = choose|z: int| 0 <= z < t.len() && t[z] == it[q - 1];
                            assert(t[z] == s[z + 1]);
                        }
                    }
                }
            }
        }
    }
}

/// Sorting by gain orders the gains from highest to lowest and keeps every insight.
pub proof fn lemma_sort_by_gain_props(s: Seq<BlockInsight>)
    ensures
        sort_by_gain(s).len() == s.len(),
        sort_by_gain(s).to_multiset() =~= s.to_multiset(),
        gains_non_increasing(sort_by_gain(s)),
    decreases s.len(),
{
    broadcast use vstd::seq_lib::group_to_multiset_ensures;
    if s.len() > 0 {
        lemma_sort_by_gain_props(s.drop_last());
        lemma_insert_by_gain_props(sort_by_gain(s.drop_last()), s.last());
        assert(s =~= s.drop_last().push(s.last()));
    }
}

fn insert_insight(v: &mut Vec<BlockInsight>, x: BlockInsight)
    ensures
        final(v)@ == insert_by_gain(old(v)@, x),
{
    let ghost s = v@;
    let mut p: usize = 0;
    assert(s.skip(0) =~= s);
    assert(s.take(0) + s =~= s);
    while p < v.len() && !(v[p].net_gain < x.net_gain)
        invariant
            p <= v.len(),
            v@ == s,
            insert_by_gain(s, x) == s.take(p as int) + insert_by_gain(s.skip(p as int), x),
        decreases v.len() - p,
    {
        proof {
            let t = s.skip(p as int);
            assert(t[0] == s[p as int]);
            assert(t.drop_first() =~= s.skip(p + 1));
            assert(s.take(p as int) + seq![s[p as int]] =~= s.take(p + 1));
        }
        p = p + 1;
    }
    proof {
        if p < s.len() {
            assert(s.skip(p as int)[0] == s[p as int]);
        } else {
            assert(s.skip(p as int) =~= Seq::<BlockInsight>::empty());
        }
        assert(s.take(p as int) + (seq![x] + s.skip(p as int)) =~= s.insert(p as int, x));
    }
    v.insert(p, x);
}

impl BlockInsight {
    /// The insight of every block, highest net gain first; blocks of equal gain keep
    /// their order.
    pub fn calculate_all(blocks: &[Block], _s: &[u8], _t: &[u8]) -> (r: Vec<Self>)
        requires
            insights_fit(blocks@),
        ensures
            r@ == sort_by_gain(blocks@.map_values(|b: Block| insight_of(b))),
    {
        let ghost all = blocks@.map_values(|b: Block| insight_of(b));
        let mut insights: Vec<Self> = Vec::new();
        let mut k: usize = 0;
        while k < blocks.len()
            invariant
                k <= blocks.len(),
                insights_fit(blocks@),
                all == blocks@.map_values(|b: Block| insight_of(b)),
                insights@ == sort_by_gain(all.take(k as int)),
            decreases blocks.len() - k,
        {
            let b = blocks[k];
            proof {
                assert(b == blocks@[k as int]);
                assert((KAPPA as nat) * (2 * blocks@[k as int].len) <= usize::MAX);
                assert((KAPPA as nat) * (2 * blocks@[k as int].len) <= i64::MAX);
                lemma_lambda_bounds((b.i + 1) as usize);
                lemma_lambda_bounds((b.j + 1) as usize);
                lemma_lambda_bounds(b.len);
                assert(all.take(k + 1).drop_last() =~= all.take(k as int));
                assert(all.take(k + 1).last() == insight_of(b));
            }
            let desc_cost = lambda(b.i + 1) + lambda(b.j + 1) + lambda(b.len);
            let saved_bits = KAPPA * (2 * b.len); // Ideal saving
            let net_gain = saved_bits as i64 - desc_cost as i64;
            insert_insight(&mut insights, BlockInsight { block: b, desc_cost, saved_bits, net_gain });
            k = k + 1;
        }
        proof {
            assert(all.take(k as int) =~= all);
        }
        // Highest net_gain first
        insights
    }
}

/// The figures of a breakdown fit together: the covered and uncovered bytes of each
/// string add up to its length, the uncovered ones being the positions no block spans;
/// the energy is the description cost plus `KAPPA` per uncovered byte; the empty
/// family's energy is `1 + KAPPA (n + m)`; the bits saved are the difference of the two
/// energies; and the block count and total length are those of the family.
pub proof fn lemma_breakdown_consistent(blocks: Seq<Block>, n: nat, m: nat)
    requires
        breakdown_fits(blocks, n, m),
        n <= usize::MAX,
        m <= usize::MAX,
        blocks.len() <= usize::MAX,
    ensures
        ({
            let b = breakdown_spec(blocks, n, m);
            &&& b.covered_s + b.uncovered_s == n
            &&& b.covered_t + b.uncovered_t == m
            &&& b.uncovered_s == count_false(cover(blocks, n, true))
            &&& b.uncovered_t == count_false(cover(blocks, m, false))
            &&& b.total_energy == energy_spec(blocks, n, m)
            &&& b.total_energy == b.desc_cost + b.residual_cost
            &&& b.residual_cost == (KAPPA as nat) * (b.uncovered_s + b.uncovered_t)
            &&& b.desc_cost == model_cost(blocks)
            &&& b.empty_energy == 1 + (KAPPA as nat) * (n + m)
            &&& b.bits_saved == b.empty_energy - b.total_energy
            &&& b.num_blocks == blocks.len()
            &&& b.total_block_len == total_len(blocks)
        }),
{
    lemma_count_false_le_len(cover(blocks, n, true));
    lemma_count_false_le_len(cover(blocks, m, false));
    crate::types::lemma_lambda_bounds(0);
    assert(lambda_spec(0) == 1);
}

/// What one block of a family is worth: its description cost is
/// `λ(i + 1) + λ(j + 1) + λ(len)`, it saves `KAPPA` for each of the `2 len` bytes it
/// spans, and its net gain is the saving less the cost.
pub open spec fn insight_worth(x: BlockInsight, blocks: Seq<Block>) -> bool {
    &&& blocks.contains(x.block)
    &&& x.desc_cost == lambda_spec(x.block.i as nat + 1) + lambda_spec(x.block.j as nat + 1) + lambda_spec(
        x.block.len as nat,
    )
    &&& x.saved_bits == (KAPPA as nat) * 2 * x.block.len
    &&& x.net_gain == x.saved_bits - x.desc_cost
}

/// The insights of a family, as [`BlockInsight::calculate_all`] returns them.
pub open spec fn all_insights(blocks: Seq<Block>) -> Seq<BlockInsight> {
    sort_by_gain(blocks.map_values(|b: Block| insight_of(b)))
}

/// Each insight states what one block of the family is worth ([`insight_worth`]); the
/// insights are those of the family's blocks, one per block, highest gain first.
pub proof fn lemma_insights_worth(blocks: Seq<Block>)
    requires
        insights_fit(blocks),
    ensures
        all_insights(blocks).len() == blocks.len(),
        gains_non_increasing(all_insights(blocks)),
        forall|k: int| 0 <= k < blocks.len() ==> insight_worth(#[trigger] all_insights(blocks)[k], blocks),
{
    broadcast use vstd::seq_lib::group_to_multiset_ensures;
    let all = blocks.map_values(|b: Block| insight_of(b));
    lemma_sort_by_gain_props(all);
    let r = sort_by_gain(all);
    assert forall|k: int| 0 <= k < blocks.len() implies insight_worth(#[trigger] r[k], blocks) by {
        let x = r[k];
        assert(r.to_multiset().count(x) > 0);
        assert(all.to_multiset().count(x) > 0);
        assert(all.contains(x));
        let q = choose|q: int| 0 <= q < all.len() && all[q] == x;
        let b = blocks[q];
        assert(x == insight_of(b));
        assert(blocks.contains(b));
        lemma_lambda_bounds((b.i + 1) as usize);
        lemma_lambda_bounds((b.j + 1) as usize);
        lemma_lambda_bounds(b.len);
        assert(insights_fit(blocks));
        assert((KAPPA as nat) * (2 * b.len) <= i64::MAX);
        assert(insight_worth(x, blocks));
    }
}

} // verus!
