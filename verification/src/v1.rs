//! Baseline descent over the full candidate set.
//!
//! The descent generates every exact diagonal match between the strings and,
//! at each step, moves to the best neighbouring family: the current family with
//! one candidate inserted (when no overlap arises) or with one candidate removed.
use vstd::prelude::*;
use crate::types::{Block, MatchTable, lcp_spec, lemma_lcp_bounds};
use crate::energy::{
    energy_spec, all_fit, block_fits, model_cost, sum_desc, uncovered, coverage, count_uncovered,
    model_cost_exec, lemma_count_false_le_len, cover, lemma_desc_cost_bounds, desc_cost,
};
use crate::types::{KAPPA, lambda_spec, lemma_lambda_bounds};
use crate::diagnostics::{
    EnergyBreakdown, BlockInsight, breakdown_fits, breakdown_spec, insights_fit, sort_by_gain,
    insight_of,
};
use crate::keys::{sorted_key, key_less, sort_blocks, key_rank, seq_lt};
use crate::descent::{
    candidates, cands_upto, row_cands, cell_cands, is_match, lemma_candidates_match, admissible,
    without, better, best_of, copy_blocks, blocks_contain, remove_all, admissible_exec,
    lemma_without_elems, lemma_better_decreases, lemma_len_le_energy, lemma_fit_ends,
    lemma_no_better_than_fixed, all_match,
};

verus! {

/// An admissible family of non-overlapping blocks.
#[derive(Debug, Clone, PartialEq, Eq)]
pub struct BlockFamily {
    pub blocks: Vec<Block>,
}

impl View for BlockFamily {
    type V = Seq<Block>;

    open spec fn view(&self) -> Seq<Block> {
        self.blocks@
    }
}

impl Default for BlockFamily {
    fn default() -> (r: Self)
        ensures
            r@ == Seq::<Block>::empty(),
    {
        BlockFamily { blocks: Vec::new() }
    }
}

/// The neighbour reached through candidate `c`: without `c` if the family holds it,
/// else with `c` appended if the result is admissible.
pub open spec fn neighbor_of(f: Seq<Block>, c: Block) -> Option<Seq<Block>> {
    if f.contains(c) {
        Some(without(f, c))
    } else if admissible(f.push(c)) {
        Some(f.push(c))
    } else {
        None
    }
}

/// The neighbours reached through the candidates `cs`, in candidate order.
pub open spec fn neighbor_list(f: Seq<Block>, cs: Seq<Block>) -> Seq<Seq<Block>>
    decreases cs.len(),
{
    if cs.len() == 0 {
        Seq::empty()
    } else {
        let rest = neighbor_list(f, cs.drop_last());
        match neighbor_of(f, cs.last()) {
            Some(x) => rest.push(x),
            None => rest,
        }
    }
}

/// All neighbours of family `f` for strings `s` and `t`.
pub open spec fn neighbors_spec(f: Seq<Block>, s: Seq<u8>, t: Seq<u8>) -> Seq<Seq<Block>> {
    neighbor_list(f, candidates(s, t))
}

/// The best of the neighbours, scanned in order against `f` itself.
pub open spec fn best_neighbor(f: Seq<Block>, s: Seq<u8>, t: Seq<u8>) -> Seq<Block> {
    best_of(neighbors_spec(f, s, t), f, s.len(), t.len())
}

/// One descent step: the best neighbour if it is better than `f`, else `f`.
pub open spec fn step_spec(f: Seq<Block>, s: Seq<u8>, t: Seq<u8>) -> Seq<Block> {
    if better(best_neighbor(f, s, t), f, s.len(), t.len()) {
        best_neighbor(f, s, t)
    } else {
        f
    }
}

/// `f` after `k` descent steps.
pub open spec fn descend(f: Seq<Block>, s: Seq<u8>, t: Seq<u8>, k: nat) -> Seq<Block>
    decreases k,
{
    if k == 0 {
        f
    } else {
        step_spec(descend(f, s, t, (k - 1) as nat), s, t)
    }
}

/// No neighbour improves on `f`: the descent stops at `f`.
pub open spec fn is_fixed_point(f: Seq<Block>, s: Seq<u8>, t: Seq<u8>) -> bool {
    !better(best_neighbor(f, s, t), f, s.len(), t.len())
}

/// The family fits the strings, and the energy of every neighbour is a machine word.
pub open spec fn ready(f: Seq<Block>, n: nat, m: nat) -> bool {
    &&& all_fit(f, n, m)
    &&& n < usize::MAX
    &&& m < usize::MAX
    &&& energy_spec(f, n, m) + (KAPPA as nat) * (n + m) + 256 <= usize::MAX
}

/// Every neighbour fits the strings and costs at most `8 (n + m) + 256` more than `f`.
proof fn lemma_neighbor_ok(f: Seq<Block>, s: Seq<u8>, t: Seq<u8>, c: Block)
    requires
        ready(f, s.len(), t.len()),
        is_match(s, t, c),
    ensures
        neighbor_of(f, c) matches Some(x) ==> {
            &&& all_fit(x, s.len(), t.len())
            &&& energy_spec(x, s.len(), t.len()) <= energy_spec(f, s.len(), t.len()) + (KAPPA as nat) * (s.len() + t.len()) + 256
        },
{
    let n = s.len();
    let m = t.len();
    lemma_len_le_energy(f, n, m);
    lemma_lambda_bounds(f.len() as usize);
    if f.contains(c) {
        let x = without(f, c);
        lemma_without_elems(f, c);
        assert forall|k: int| 0 <= k < x.len() implies #[trigger] block_fits(x[k], n, m) by {
            let q = choose|q: int| 0 <= q < f.len() && f[q] == x[k];
            assert(block_fits(f[q], n, m));
        }
        lemma_lambda_bounds(x.len() as usize);
        lemma_count_false_le_len(cover(x, n, true));
        lemma_count_false_le_len(cover(x, m, false));
        assert(uncovered(x, n, m) <= n + m);
    } else if admissible(f.push(c)) {
        let x = f.push(c);
        assert forall|k: int| 0 <= k < x.len() implies #[trigger] block_fits(x[k], n, m) by {
            if k < f.len() {
                assert(x[k] == f[k]);
            }
        }
        assert(x.drop_last() =~= f);
        lemma_desc_cost_bounds(c);
        lemma_lambda_bounds(x.len() as usize);
        lemma_count_false_le_len(cover(x, n, true));
        lemma_count_false_le_len(cover(x, m, false));
        assert(uncovered(x, n, m) <= n + m);
    }
}

/// Every neighbour of a ready family fits the strings and has a bounded energy.
proof fn lemma_neighbors_ok(f: Seq<Block>, s: Seq<u8>, t: Seq<u8>, cs: Seq<Block>)
    requires
        ready(f, s.len(), t.len()),
        forall|k: int| 0 <= k < cs.len() ==> is_match(s, t, #[trigger] cs[k]),
    ensures
        forall|k: int| 0 <= k < neighbor_list(f, cs).len() ==> {
            &&& all_fit(#[trigger] neighbor_list(f, cs)[k], s.len(), t.len())
            &&& energy_spec(neighbor_list(f, cs)[k], s.len(), t.len()) <= energy_spec(f, s.len(), t.len())
                + (KAPPA as nat) * (s.len() + t.len()) + 256
        },
    decreases cs.len(),
{
    if cs.len() > 0 {
        let rest = neighbor_list(f, cs.drop_last());
        assert forall|k: int| 0 <= k < cs.drop_last().len() implies is_match(s, t, #[trigger] cs.drop_last()[k]) by {
            assert(cs.drop_last()[k] == cs[k]);
        }
        lemma_neighbors_ok(f, s, t, cs.drop_last());
        assert(is_match(s, t, cs[cs.len() - 1]));
        lemma_neighbor_ok(f, s, t, cs.last());
        let nl = neighbor_list(f, cs);
        assert forall|k: int| 0 <= k < nl.len() implies #[trigger] all_fit(nl[k], s.len(), t.len()) && energy_spec(nl[k], s.len(), t.len()) <= energy_spec(f, s.len(), t.len())
                + (KAPPA as nat) * (s.len() + t.len()) + 256 by {
            if k < rest.len() {
                assert(nl[k] == rest[k]);
            }
        }
    }
}

/// The kind of move a descent step makes.
#[derive(Debug, Clone, Copy, PartialEq, Eq, Structural)]
pub enum MoveKind {
    /// A candidate block was inserted.
    Add,
    /// Every copy of a block was removed.
    Delete,
}

/// What one improving descent step did.
#[derive(Debug, Clone, Copy, PartialEq, Eq)]
pub struct StepLog {
    /// The step number given by the caller.
    pub step: usize,
    /// Energy before the step.
    pub energy_before: usize,
    /// Energy after the step.
    pub energy_after: usize,
    /// Whether the step inserted or removed `block`.
    pub action: MoveKind,
    /// The block inserted or removed.
    pub block: Block,
}

/// The family that the move `(kind, c)` leads to from `f`, when `f` admits it.
pub open spec fn move_result(f: Seq<Block>, kind: MoveKind, c: Block) -> Option<Seq<Block>> {
    match kind {
        MoveKind::Delete => if f.contains(c) {
            Some(without(f, c))
        } else {
            None
        },
        MoveKind::Add => if !f.contains(c) {
            Some(f.push(c))
        } else {
            None
        },
    }
}

impl BlockFamily {
    /// Whether no two blocks of the family overlap.
    pub fn is_admissible(&self) -> (r: bool)
        requires
            forall|k: int| 0 <= k < self@.len() ==> crate::types::ends_fit(#[trigger] self@[k]),
        ensures
            r == admissible(self@),
    {
        admissible_exec(&self.blocks)
    }

    /// The energy of the family: model cost plus `KAPPA` per uncovered byte of `s` and of `t`.
    pub fn energy(&self, s: &[u8], t: &[u8]) -> (r: usize)
        requires
            all_fit(self@, s@.len(), t@.len()),
            energy_spec(self@, s@.len(), t@.len()) <= usize::MAX,
        ensures
            r == energy_spec(self@, s@.len(), t@.len()),
    {
        proof {
            assert forall|k: int| 0 <= k < self@.len() implies (#[trigger] self@[k]).i < usize::MAX && self@[k].j < usize::MAX by {
                assert(block_fits(self@[k], s@.len(), t@.len()));
            }
            assert forall|k: int| 0 <= k < self.blocks@.len() implies (#[trigger] self.blocks@[k]).len == 0 || crate::energy::start_on(self.blocks@[k], true) + self.blocks@[k].len <= s.len() by {
                assert(block_fits(self@[k], s@.len(), t@.len()));
            }
            assert forall|k: int| 0 <= k < self.blocks@.len() implies (#[trigger] self.blocks@[k]).len == 0 || crate::energy::start_on(self.blocks@[k], false) + self.blocks@[k].len <= t.len() by {
                assert(block_fits(self@[k], s@.len(), t@.len()));
            }
        }
        let covered_s = coverage(&self.blocks, s.len(), true);
        let covered_t = coverage(&self.blocks, t.len(), false);
        let u_x = count_uncovered(&covered_s);
        let u_y = count_uncovered(&covered_t);
        let l_m = model_cost_exec(&self.blocks);
        l_m + KAPPA * u_x + KAPPA * u_y
    }

    /// A copy of the family.
    fn copy(&self) -> (r: Self)
        ensures
            r@ == self@,
    {
        BlockFamily { blocks: copy_blocks(&self.blocks) }
    }

    /// The canonical key: the blocks in sorted order.
    fn canonical_key(&self) -> (r: Vec<Block>)
        ensures
            r@ == sort_blocks(self@),
    {
        sorted_key(&self.blocks)
    }

    /// Every exact match between `s` and `t`, by source start, target start, then length.
    fn all_candidate_blocks(s: &[u8], t: &[u8], mt: &MatchTable) -> (r: Vec<Block>)
        requires
            mt.is_table_for(s@, t@),
            s@.len() < usize::MAX,
        ensures
            r@ == candidates(s@, t@),
    {
        let mut cands: Vec<Block> = Vec::new();
        let mut i: usize = 0;
        while i < s.len()
            invariant
                i <= s.len(),
                s@.len() < usize::MAX,
                mt.is_table_for(s@, t@),
                cands@ == cands_upto(s@, t@, i as nat),
            decreases s.len() - i,
        {
            let mut j: usize = 0;
            while j < t.len()
                invariant
                    i < s.len(),
                    s@.len() < usize::MAX,
                    j <= t.len(),
                    mt.is_table_for(s@, t@),
                    cands@ == cands_upto(s@, t@, i as nat) + row_cands(s@, t@, i as int, j as nat),
                decreases t.len() - j,
            {
                let max_l = mt.max_len(i, j);
                proof {
                    lemma_lcp_bounds(s@, t@, i as int, j as int);
                }
                let ghost before = cands@;
                let mut len: usize = 1;
                while len <= max_l
                    invariant
                        1 <= len <= max_l + 1,
                        max_l == lcp_spec(s@, t@, i as int, j as int),
                        i + max_l <= s.len(),
                        s@.len() < usize::MAX,
                        i < s.len(),
                        j < t.len(),
                        cands@ == before + cell_cands(i as int, j as int, (len - 1) as nat),
                    decreases max_l + 1 - len,
                {
                    proof {
                        lemma_lcp_bounds(s@, t@, i as int, j as int);
                    }
                    cands.push(Block { i, j, len });
                    proof {
                        assert(cell_cands(i as int, j as int, len as nat) =~= cell_cands(i as int, j as int, (len - 1) as nat).push(Block { i, j, len }));
                    }
                    len = len + 1;
                }
                proof {
                    assert(before + cell_cands(i as int, j as int, max_l as nat) =~= cands_upto(s@, t@, i as nat) + row_cands(s@, t@, i as int, (j + 1) as nat));
                }
                j = j + 1;
            }
            proof {
                assert(cands_upto(s@, t@, (i + 1) as nat) =~= cands_upto(s@, t@, i as nat) + row_cands(s@, t@, i as int, t@.len()));
            }
            i = i + 1;
        }
        cands
    }

    /// All families one move away: each candidate is removed (every copy) if present,
    /// otherwise inserted if no overlap arises; in candidate order.
    pub fn neighbors(&self, s: &[u8], t: &[u8], mt: &MatchTable) -> (r: Vec<Self>)
        requires
            mt.is_table_for(s@, t@),
            ready(self@, s@.len(), t@.len()),
        ensures
            r@.len() == neighbors_spec(self@, s@, t@).len(),
            forall|k: int| 0 <= k < r@.len() ==> (#[trigger] r@[k])@ == neighbors_spec(self@, s@, t@)[k],
    {
        let mut neighbors: Vec<Self> = Vec::new();
        let candidates = Self::all_candidate_blocks(s, t, mt);
        proof {
            lemma_candidates_match(s@, t@);
            lemma_fit_ends(self@, s@.len(), t@.len());
        }
        let mut idx: usize = 0;
        while idx < candidates.len()
            invariant
                idx <= candidates@.len(),
                candidates@ == crate::descent::candidates(s@, t@),
                forall|k: int| 0 <= k < candidates@.len() ==> is_match(s@, t@, #[trigger] candidates@[k]),
                forall|k: int| 0 <= k < self@.len() ==> crate::types::ends_fit(#[trigger] self@[k]),
                ready(self@, s@.len(), t@.len()),
                neighbors@.len() == neighbor_list(self@, candidates@.take(idx as int)).len(),
                forall|k: int| 0 <= k < neighbors@.len() ==> (#[trigger] neighbors@[k])@ == neighbor_list(self@, candidates@.take(idx as int))[k],
            decreases candidates@.len() - idx,
        {
            let cand = candidates[idx];
            proof {
                assert(candidates@.take(idx + 1).drop_last() =~= candidates@.take(idx as int));
                assert(candidates@.take(idx + 1).last() == cand);
                assert(is_match(s@, t@, candidates@[idx as int]));
            }
            if blocks_contain(&self.blocks, &cand) {
                // Neighbors via deletion
                let next = BlockFamily { blocks: remove_all(&self.blocks, &cand) };
                neighbors.push(next);
            } else {
                // Neighbors via insertion
                let mut next = self.copy();
                next.blocks.push(cand);
                proof {
                    assert forall|k: int| 0 <= k < next@.len() implies crate::types::ends_fit(#[trigger] next@[k]) by {
                        if k < self@.len() {
                            assert(next@[k] == self@[k]);
                        }
                    }
                }
                if next.is_admissible() {
                    neighbors.push(next);
                }
            }
            idx = idx + 1;
        }
        proof {
            assert(candidates@.take(idx as int) =~= candidates@);
        }
        neighbors
    }

    /// One descent step: move to the best neighbour if it improves on the family.
    /// Returns whether the family changed.
    pub fn descent_step(&mut self, s: &[u8], t: &[u8], mt: &MatchTable) -> (changed: bool)
        requires
            mt.is_table_for(s@, t@),
            ready(old(self)@, s@.len(), t@.len()),
        ensures
            changed == better(best_neighbor(old(self)@, s@, t@), old(self)@, s@.len(), t@.len()),
            final(self)@ == step_spec(old(self)@, s@, t@),
    {
        let ghost f = self@;
        let ghost ns = neighbors_spec(f, s@, t@);
        let current_e = self.energy(s, t);
        let mut best = self.copy();
        let mut best_e = current_e;
        let mut best_key = self.canonical_key();
        let neighbors = self.neighbors(s, t, mt);
        proof {
            lemma_candidates_match(s@, t@);
            lemma_neighbors_ok(f, s@, t@, candidates(s@, t@));
        }
        let mut idx: usize = 0;
        while idx < neighbors.len()
            invariant
                idx <= neighbors@.len(),
                neighbors@.len() == ns.len(),
                forall|k: int| 0 <= k < neighbors@.len() ==> (#[trigger] neighbors@[k])@ == ns[k],
                forall|k: int| 0 <= k < ns.len() ==> {
                    &&& all_fit(#[trigger] ns[k], s@.len(), t@.len())
                    &&& energy_spec(ns[k], s@.len(), t@.len()) <= energy_spec(f, s@.len(), t@.len()) + (KAPPA as nat) * (s@.len() + t@.len()) + 256
                },
                ready(f, s@.len(), t@.len()),
                best@ == best_of(ns.take(idx as int), f, s@.len(), t@.len()),
                best_e == energy_spec(best@, s@.len(), t@.len()),
                best_key@ == sort_blocks(best@),
            decreases neighbors@.len() - idx,
        {
            let n = &neighbors[idx];
            proof {
                assert(ns.take(idx + 1).drop_last() =~= ns.take(idx as int));
                assert(ns.take(idx + 1).last() == ns[idx as int]);
                assert(all_fit(ns[idx as int], s@.len(), t@.len()));
            }
            let e = n.energy(s, t);
            let k = n.canonical_key();
            if e < best_e || (e == best_e && key_less(&k, &best_key)) {
                best = n.copy();
                best_e = e;
                best_key = k;
            }
            idx = idx + 1;
        }
        proof {
            assert(ns.take(idx as int) =~= ns);
        }
        let self_key = self.canonical_key();
        if best_e < current_e || (best_e == current_e && key_less(&best_key, &self_key)) {
            *self = best;
            true
        } else {
            false
        }
    }

    /// One descent step, reporting the step when the family changes: the energies before
    /// and after, and the move (insertion or removal of one block) that was taken.
    pub fn descent_step_with_log(&mut self, s: &[u8], t: &[u8], mt: &MatchTable, step: usize) -> (r: Option<StepLog>)
        requires
            mt.is_table_for(s@, t@),
            ready(old(self)@, s@.len(), t@.len()),
        ensures
            r is Some == better(best_neighbor(old(self)@, s@, t@), old(self)@, s@.len(), t@.len()),
            final(self)@ == step_spec(old(self)@, s@, t@),
            r matches Some(log) ==> {
                &&& log.step == step
                &&& log.energy_before == energy_spec(old(self)@, s@.len(), t@.len())
                &&& log.energy_after == energy_spec(final(self)@, s@.len(), t@.len())
                &&& move_result(old(self)@, log.action, log.block) == Some(final(self)@)
            },
    {
        let ghost f = self@;
        let ghost cs = candidates(s@, t@);
        let current_e = self.energy(s, t);
        let mut best = self.copy();
        let mut best_e = current_e;
        let mut best_key = self.canonical_key();
        let mut last_move: Option<(MoveKind, Block)> = None;

        let candidates = Self::all_candidate_blocks(s, t, mt);
        proof {
            lemma_candidates_match(s@, t@);
            lemma_fit_ends(self@, s@.len(), t@.len());
        }
        let mut idx: usize = 0;
        while idx < candidates.len()
            invariant
                idx <= candidates@.len(),
                candidates@ == cs,
                forall|k: int| 0 <= k < cs.len() ==> is_match(s@, t@, #[trigger] cs[k]),
                forall|k: int| 0 <= k < f.len() ==> crate::types::ends_fit(#[trigger] f[k]),
                self@ == f,
                ready(f, s@.len(), t@.len()),
                best@ == best_of(neighbor_list(f, cs.take(idx as int)), f, s@.len(), t@.len()),
                best_e == energy_spec(best@, s@.len(), t@.len()),
                best_key@ == sort_blocks(best@),
                current_e == energy_spec(f, s@.len(), t@.len()),
                last_move is None ==> best@ == f,
                last_move matches Some((kind, c)) ==> move_result(f, kind, c) == Some(best@),
            decreases candidates@.len() - idx,
        {
            let cand = candidates[idx];
            proof {
                assert(cs.take(idx + 1).drop_last() =~= cs.take(idx as int));
                assert(cs.take(idx + 1).last() == cand);
                assert(is_match(s@, t@, cs[idx as int]));
                lemma_neighbor_ok(f, s@, t@, cand);
            }
            let ghost ns_old = neighbor_list(f, cs.take(idx as int));
            if blocks_contain(&self.blocks, &cand) {
                // Neighbors via deletion
                let next = BlockFamily { blocks: remove_all(&self.blocks, &cand) };
                proof {
                    assert(neighbor_list(f, cs.take(idx + 1)) == ns_old.push(next@));
                    assert(ns_old.push(next@).drop_last() =~= ns_old);
                }
                let e = next.energy(s, t);
                let k = next.canonical_key();
                if e < best_e || (e == best_e && key_less(&k, &best_key)) {
                    best = next;
                    best_e = e;
                    best_key = k;
                    last_move = Some((MoveKind::Delete, cand));
                }
            } else {
                // Neighbors via insertion
                let mut next = self.copy();
                next.blocks.push(cand);
                proof {
                    assert forall|k: int| 0 <= k < next@.len() implies crate::types::ends_fit(#[trigger] next@[k]) by {
                        if k < f.len() {
                            assert(next@[k] == f[k]);
                        }
                    }
                }
                if next.is_admissible() {
                    proof {
                        assert(neighbor_list(f, cs.take(idx + 1)) == ns_old.push(next@));
                        assert(ns_old.push(next@).drop_last() =~= ns_old);
                    }
                    let e = next.energy(s, t);
                    let k = next.canonical_key();
                    if e < best_e || (e == best_e && key_less(&k, &best_key)) {
                        best = next;
                        best_e = e;
                        best_key = k;
                        last_move = Some((MoveKind::Add, cand));
                    }
                }
            }
            idx = idx + 1;
        }
        proof {
            assert(cs.take(idx as int) =~= cs);
        }
        let self_key = self.canonical_key();
        if best_e < current_e || (best_e == current_e && key_less(&best_key, &self_key)) {
            proof {
                crate::descent::lemma_better_total(f, f, s@.len(), t@.len());
            }
            match last_move {
                Some((action, block)) => {
                    *self = best;
                    Some(StepLog { step, energy_before: current_e, energy_after: best_e, action, block })
                },
                None => {
                    // `best` is still the family itself, which is not better than itself.
                    None
                },
            }
        } else {
            None
        }
    }

    /// Descend to a fixed point. With `debug`, every improving step is recorded, in order,
    /// and numbered from 1; without it, no step is recorded.
    pub fn run_with_diagnostics(&mut self, s: &[u8], t: &[u8], mt: &MatchTable, debug: bool) -> (logs: Vec<StepLog>)
        requires
            mt.is_table_for(s@, t@),
            ready(old(self)@, s@.len(), t@.len()),
        ensures
            exists|k: nat| final(self)@ == descend(old(self)@, s@, t@, k) && (debug ==> logs@.len() == k),
            is_fixed_point(final(self)@, s@, t@),
            !debug ==> logs@.len() == 0,
            debug ==> forall|q: int| 0 <= q < logs@.len() ==> {
                &&& (#[trigger] logs@[q]).step == step_number(q as nat)
                &&& logs@[q].energy_before == energy_spec(descend(old(self)@, s@, t@, q as nat), s@.len(), t@.len())
                &&& logs@[q].energy_after == energy_spec(descend(old(self)@, s@, t@, (q + 1) as nat), s@.len(), t@.len())
                &&& move_result(descend(old(self)@, s@, t@, q as nat), logs@[q].action, logs@[q].block)
                    == Some(descend(old(self)@, s@, t@, (q + 1) as nat))
            },
    {
        let mut logs: Vec<StepLog> = Vec::new();
        if !debug {
            self.run_to_fixed_point(s, t, mt);
            return logs;
        }
        let ghost f0 = self@;
        let ghost e0 = energy_spec(f0, s@.len(), t@.len());
        let mut step: usize = 1;
        proof {
            vstd::arithmetic::div_mod::lemma_small_mod(1, usize::MAX as nat + 1);
        }
        loop
            invariant
                mt.is_table_for(s@, t@),
                ready(self@, s@.len(), t@.len()),
                energy_spec(self@, s@.len(), t@.len()) <= e0,
                self@ == descend(f0, s@, t@, logs@.len()),
                step == step_number(logs@.len()),
                forall|q: int| 0 <= q < logs@.len() ==> {
                    &&& (#[trigger] logs@[q]).step == step_number(q as nat)
                    &&& logs@[q].energy_before == energy_spec(descend(f0, s@, t@, q as nat), s@.len(), t@.len())
                    &&& logs@[q].energy_after == energy_spec(descend(f0, s@, t@, (q + 1) as nat), s@.len(), t@.len())
                    &&& move_result(descend(f0, s@, t@, q as nat), logs@[q].action, logs@[q].block)
                        == Some(descend(f0, s@, t@, (q + 1) as nat))
                },
            ensures
                is_fixed_point(self@, s@, t@),
                self@ == descend(f0, s@, t@, logs@.len()),
                forall|q: int| 0 <= q < logs@.len() ==> {
                    &&& (#[trigger] logs@[q]).step == step_number(q as nat)
                    &&& logs@[q].energy_before == energy_spec(descend(f0, s@, t@, q as nat), s@.len(), t@.len())
                    &&& logs@[q].energy_after == energy_spec(descend(f0, s@, t@, (q + 1) as nat), s@.len(), t@.len())
                    &&& move_result(descend(f0, s@, t@, q as nat), logs@[q].action, logs@[q].block)
                        == Some(descend(f0, s@, t@, (q + 1) as nat))
                },
            decreases energy_spec(self@, s@.len(), t@.len()), key_rank(sort_blocks(self@), e0),
        {
            let ghost before = self@;
            proof {
                lemma_len_le_energy(before, s@.len(), t@.len());
            }
            let r = self.descent_step_with_log(s, t, mt, step);
            match r {
                None => {
                    break;
                },
                Some(log) => {
                    proof {
                        let ns = neighbors_spec(before, s@, t@);
                        lemma_candidates_match(s@, t@);
                        lemma_neighbors_ok(before, s@, t@, candidates(s@, t@));
                        crate::descent::lemma_best_of_minimal(ns, before, s@.len(), t@.len());
                        crate::descent::lemma_better_total(before, before, s@.len(), t@.len());
                        assert(self@ == best_of(ns, before, s@.len(), t@.len()));
                        assert(self@ != before);
                        let q = choose|q: int| 0 <= q < ns.len() && ns[q] == self@;
                        assert(all_fit(ns[q], s@.len(), t@.len()));
                        lemma_len_le_energy(self@, s@.len(), t@.len());
                        lemma_better_decreases(self@, before, s@.len(), t@.len(), e0);
                    }
                    let ghost old_logs = logs@;
                    logs.push(log);
                    proof {
                        assert forall|q: int| 0 <= q < logs@.len() implies {
                            &&& (#[trigger] logs@[q]).step == step_number(q as nat)
                            &&& logs@[q].energy_before == energy_spec(descend(f0, s@, t@, q as nat), s@.len(), t@.len())
                            &&& logs@[q].energy_after == energy_spec(descend(f0, s@, t@, (q + 1) as nat), s@.len(), t@.len())
                            &&& move_result(descend(f0, s@, t@, q as nat), logs@[q].action, logs@[q].block)
                                == Some(descend(f0, s@, t@, (q + 1) as nat))
                        } by {
                            if q < old_logs.len() {
                                assert(logs@[q] == old_logs[q]);
                            }
                        }
                    }
                    proof {
                        lemma_step_number_next(old_logs.len());
                    }
                    step = step.wrapping_add(1);
                },
            }
        }
        logs
    }

    /// The breakdown of the family's energy.
    pub fn analyze(&self, s: &[u8], t: &[u8]) -> (r: EnergyBreakdown)
        requires
            breakdown_fits(self@, s@.len(), t@.len()),
        ensures
            r == breakdown_spec(self@, s@.len(), t@.len()),
    {
        EnergyBreakdown::calculate(&self.blocks, s, t)
    }

    /// The payoff of every block, highest net gain first.
    pub fn block_insights(&self, s: &[u8], t: &[u8]) -> (r: Vec<BlockInsight>)
        requires
            insights_fit(self@),
        ensures
            r@ == sort_by_gain(self@.map_values(|b: Block| insight_of(b))),
    {
        BlockInsight::calculate_all(&self.blocks, s, t)
    }

    /// Descend until no neighbour improves on the family.
    pub fn run_to_fixed_point(&mut self, s: &[u8], t: &[u8], mt: &MatchTable)
        requires
            mt.is_table_for(s@, t@),
            ready(old(self)@, s@.len(), t@.len()),
        ensures
            exists|k: nat| final(self)@ == descend(old(self)@, s@, t@, k),
            is_fixed_point(final(self)@, s@, t@),
            ready(final(self)@, s@.len(), t@.len()),
            energy_spec(final(self)@, s@.len(), t@.len()) <= energy_spec(old(self)@, s@.len(), t@.len()),
    {
        let ghost f0 = self@;
        let ghost e0 = energy_spec(f0, s@.len(), t@.len());
        let ghost mut steps: nat = 0;
        loop
            invariant
                mt.is_table_for(s@, t@),
                ready(self@, s@.len(), t@.len()),
                energy_spec(self@, s@.len(), t@.len()) <= e0,
                self@ == descend(f0, s@, t@, steps),
            ensures
                is_fixed_point(self@, s@, t@),
                ready(self@, s@.len(), t@.len()),
                energy_spec(self@, s@.len(), t@.len()) <= e0,
                self@ == descend(f0, s@, t@, steps),
            decreases energy_spec(self@, s@.len(), t@.len()), key_rank(sort_blocks(self@), e0),
        {
            let ghost before = self@;
            proof {
                lemma_len_le_energy(before, s@.len(), t@.len());
            }
            let changed = self.descent_step(s, t, mt);
            if !changed {
                break;
            }
            proof {
                steps = steps + 1;
                let ns = neighbors_spec(before, s@, t@);
                lemma_candidates_match(s@, t@);
                lemma_neighbors_ok(before, s@, t@, candidates(s@, t@));
                crate::descent::lemma_best_of_minimal(ns, before, s@.len(), t@.len());
                crate::descent::lemma_better_total(before, before, s@.len(), t@.len());
                assert(self@ == best_of(ns, before, s@.len(), t@.len()));
                assert(self@ != before);
                let q = choose|q: int| 0 <= q < ns.len() && ns[q] == self@;
                assert(all_fit(ns[q], s@.len(), t@.len()));
                lemma_len_le_energy(self@, s@.len(), t@.len());
                lemma_better_decreases(self@, before, s@.len(), t@.len(), e0);
            }
        }
    }
}

/// At a fixed point of the descent no neighbour is better than the family: the
/// descent has reached a local optimum of the energy (ties broken by the key).
pub proof fn lemma_fixed_point_is_local_optimum(f: Seq<Block>, s: Seq<u8>, t: Seq<u8>)
    requires
        is_fixed_point(f, s, t),
    ensures
        forall|k: int| 0 <= k < neighbors_spec(f, s, t).len() ==> !better(#[trigger] neighbors_spec(f, s, t)[k], f, s.len(), t.len()),
{
    lemma_no_better_than_fixed(neighbors_spec(f, s, t), f, s.len(), t.len());
}

/// The number of the `q`-th recorded step (counting from zero), as a wrapping
/// machine-word counter that starts at 1.
pub open spec fn step_number(q: nat) -> int {
    (q as int + 1) % (usize::MAX as int + 1)
}

proof fn lemma_step_number_next(q: nat)
    ensures
        0 <= step_number(q) <= usize::MAX,
        step_number(q + 1) == vstd::wrapping::usize_specs::wrapping_add(step_number(q) as usize, 1),
{
    let m = usize::MAX as int + 1;
    vstd::arithmetic::div_mod::lemma_add_mod_noop(q as int + 1, 1, m);
    vstd::arithmetic::div_mod::lemma_small_mod(1, m as nat);
    let x = (q as int + 1) % m;
    if x + 1 < m {
        vstd::arithmetic::div_mod::lemma_small_mod((x + 1) as nat, m as nat);
    } else {
        vstd::arithmetic::div_mod::lemma_mod_self_0(m);
    }
}

/// A descent step never raises the energy.
pub proof fn lemma_step_never_raises_energy(f: Seq<Block>, s: Seq<u8>, t: Seq<u8>)
    ensures
        energy_spec(step_spec(f, s, t), s.len(), t.len()) <= energy_spec(f, s.len(), t.len()),
{
}

/// A fixed point is left unchanged by any number of further steps.
pub proof fn lemma_fixed_point_stays(f: Seq<Block>, s: Seq<u8>, t: Seq<u8>, k: nat)
    requires
        is_fixed_point(f, s, t),
    ensures
        descend(f, s, t, k) == f,
    decreases k,
{
    if k > 0 {
        lemma_fixed_point_stays(f, s, t, (k - 1) as nat);
    }
}

/// `a` steps followed by `b` steps are `a + b` steps.
pub proof fn lemma_descend_add(f: Seq<Block>, s: Seq<u8>, t: Seq<u8>, a: nat, b: nat)
    ensures
        descend(descend(f, s, t, a), s, t, b) == descend(f, s, t, a + b),
    decreases b,
{
    if b > 0 {
        lemma_descend_add(f, s, t, a, (b - 1) as nat);
    }
}

/// The descent is deterministic: from the same family and strings, every run that
/// stops, after however many steps, stops at the same family.
pub proof fn lemma_descent_result_unique(f: Seq<Block>, s: Seq<u8>, t: Seq<u8>, k1: nat, k2: nat)
    requires
        is_fixed_point(descend(f, s, t, k1), s, t),
        is_fixed_point(descend(f, s, t, k2), s, t),
    ensures
        descend(f, s, t, k1) == descend(f, s, t, k2),
{
    if k1 <= k2 {
        lemma_descend_add(f, s, t, k1, (k2 - k1) as nat);
        lemma_fixed_point_stays(descend(f, s, t, k1), s, t, (k2 - k1) as nat);
    } else {
        lemma_descend_add(f, s, t, k2, (k1 - k2) as nat);
        lemma_fixed_point_stays(descend(f, s, t, k2), s, t, (k1 - k2) as nat);
    }
}

/// Every neighbour reached through matching candidates from a family of matches
/// consists of matches.
proof fn lemma_neighbor_list_matches(f: Seq<Block>, s: Seq<u8>, t: Seq<u8>, cs: Seq<Block>)
    requires
        all_match(f, s, t),
        forall|k: int| 0 <= k < cs.len() ==> is_match(s, t, #[trigger] cs[k]),
    ensures
        forall|k: int| 0 <= k < neighbor_list(f, cs).len() ==> all_match(#[trigger] neighbor_list(f, cs)[k], s, t),
    decreases cs.len(),
{
    if cs.len() > 0 {
        let d = cs.drop_last();
        assert forall|k: int| 0 <= k < d.len() implies is_match(s, t, #[trigger] d[k]) by {
            assert(d[k] == cs[k]);
        }
        lemma_neighbor_list_matches(f, s, t, d);
        let c = cs.last();
        assert(is_match(s, t, cs[cs.len() - 1]));
        let rest = neighbor_list(f, d);
        let nl = neighbor_list(f, cs);
        assert forall|k: int| 0 <= k < nl.len() implies all_match(#[trigger] nl[k], s, t) by {
            if k < rest.len() {
                assert(nl[k] == rest[k]);
            } else if f.contains(c) {
                let x = without(f, c);
                lemma_without_elems(f, c);
                assert forall|q: int| 0 <= q < x.len() implies is_match(s, t, #[trigger] x[q]) by {
                    let p = choose|p: int| 0 <= p < f.len() && f[p] == x[q];
                    assert(is_match(s, t, f[p]));
                }
            } else {
                let x = f.push(c);
                assert forall|q: int| 0 <= q < x.len() implies is_match(s, t, #[trigger] x[q]) by {
                    if q < f.len() {
                        assert(x[q] == f[q]);
                    }
                }
            }
        }
    }
}

/// A descent step from a family of exact matches of `s` and `t` gives a family of
/// exact matches.
pub proof fn lemma_step_keeps_matches(f: Seq<Block>, s: Seq<u8>, t: Seq<u8>)
    requires
        all_match(f, s, t),
        s.len() <= usize::MAX,
        t.len() <= usize::MAX,
    ensures
        all_match(step_spec(f, s, t), s, t),
{
    let ns = neighbors_spec(f, s, t);
    lemma_candidates_match(s, t);
    lemma_neighbor_list_matches(f, s, t, candidates(s, t));
    crate::descent::lemma_best_of_minimal(ns, f, s.len(), t.len());
    let b = best_neighbor(f, s, t);
    if b != f {
        let q = choose|q: int| 0 <= q < ns.len() && ns[q] == b;
        assert(all_match(ns[q], s, t));
    }
}

/// Every family the descent reaches from a family of exact matches (the empty family
/// among them) consists of exact matches of `s` and `t`.
pub proof fn lemma_descend_keeps_matches(f: Seq<Block>, s: Seq<u8>, t: Seq<u8>, k: nat)
    requires
        all_match(f, s, t),
        s.len() <= usize::MAX,
        t.len() <= usize::MAX,
    ensures
        all_match(descend(f, s, t, k), s, t),
    decreases k,
{
    if k > 0 {
        lemma_descend_keeps_matches(f, s, t, (k - 1) as nat);
        lemma_step_keeps_matches(descend(f, s, t, (k - 1) as nat), s, t);
    }
}

/// Taking out every copy of a block keeps an admissible family admissible.
proof fn lemma_without_admissible(f: Seq<Block>, c: Block)
    requires
        admissible(f),
    ensures
        admissible(without(f, c)),
    decreases f.len(),
{
    if f.len() > 0 {
        let d = f.drop_last();
        assert(admissible(d)) by {
            assert forall|p: int, q: int| 0 <= p < q < d.len() implies !crate::types::overlaps(#[trigger] d[p], #[trigger] d[q]) by {
                assert(d[p] == f[p] && d[q] == f[q]);
            }
        }
        lemma_without_admissible(d, c);
        if f.last() != c {
            let w = without(d, c);
            lemma_without_elems(d, c);
            let x = w.push(f.last());
            assert(without(f, c) == x);
            assert forall|p: int, q: int| 0 <= p < q < x.len() implies !crate::types::overlaps(#[trigger] x[p], #[trigger] x[q]) by {
                assert(x[p] == w[p]);
                if q < w.len() {
                    assert(x[q] == w[q]);
                } else {
                    assert(d.contains(w[p]));
                    let r = choose|r: int| 0 <= r < d.len() && d[r] == w[p];
                    assert(f[r] == w[p]);
                    assert(x[q] == f[f.len() - 1]);
                    assert(!crate::types::overlaps(f[r], f[f.len() - 1]));
                }
            }
        }
    }
}

/// Every neighbour of an admissible family reached through matching candidates is
/// admissible, and each of its blocks is a block of the family or an exact match.
proof fn lemma_neighbor_list_admissible(f: Seq<Block>, s: Seq<u8>, t: Seq<u8>, cs: Seq<Block>)
    requires
        admissible(f),
        forall|k: int| 0 <= k < cs.len() ==> is_match(s, t, #[trigger] cs[k]),
    ensures
        forall|k: int| 0 <= k < neighbor_list(f, cs).len() ==> {
            &&& admissible(#[trigger] neighbor_list(f, cs)[k])
            &&& forall|q: int| 0 <= q < neighbor_list(f, cs)[k].len() ==>
                f.contains(neighbor_list(f, cs)[k][q]) || is_match(s, t, neighbor_list(f, cs)[k][q])
        },
    decreases cs.len(),
{
    if cs.len() > 0 {
        let d = cs.drop_last();
        assert forall|k: int| 0 <= k < d.len() implies is_match(s, t, #[trigger] d[k]) by {
            assert(d[k] == cs[k]);
        }
        lemma_neighbor_list_admissible(f, s, t, d);
        let c = cs.last();
        assert(is_match(s, t, cs[cs.len() - 1]));
        let rest = neighbor_list(f, d);
        let nl = neighbor_list(f, cs);
        assert forall|k: int| 0 <= k < nl.len() implies {
            &&& admissible(#[trigger] nl[k])
            &&& forall|q: int| 0 <= q < nl[k].len() ==> f.contains(nl[k][q]) || is_match(s, t, nl[k][q])
        } by {
            if k < rest.len() {
                assert(nl[k] == rest[k]);
            } else if f.contains(c) {
                let x = without(f, c);
                lemma_without_admissible(f, c);
                lemma_without_elems(f, c);
                assert(nl[k] == x);
            } else {
                let x = f.push(c);
                assert(nl[k] == x);
                assert forall|q: int| 0 <= q < x.len() implies f.contains(x[q]) || is_match(s, t, x[q]) by {
                    if q < f.len() {
                        assert(x[q] == f[q]);
                    }
                }
            }
        }
    }
}

/// A baseline step keeps an admissible family admissible, whatever its blocks, and
/// every block of the new family is a block of the old one or an exact match of `s`
/// and `t`.
pub proof fn lemma_step_keeps_admissible(f: Seq<Block>, s: Seq<u8>, t: Seq<u8>)
    requires
        admissible(f),
        s.len() <= usize::MAX,
        t.len() <= usize::MAX,
    ensures
        admissible(step_spec(f, s, t)),
        forall|q: int| 0 <= q < step_spec(f, s, t).len() ==> f.contains(#[trigger] step_spec(f, s, t)[q]) || is_match(s, t, step_spec(f, s, t)[q]),
{
    let ns = neighbors_spec(f, s, t);
    lemma_candidates_match(s, t);
    lemma_neighbor_list_admissible(f, s, t, candidates(s, t));
    crate::descent::lemma_best_of_minimal(ns, f, s.len(), t.len());
    let b = step_spec(f, s, t);
    if b != f {
        let q = choose|q: int| 0 <= q < ns.len() && ns[q] == b;
        assert(admissible(ns[q]));
    } else {
        assert forall|q: int| 0 <= q < b.len() implies f.contains(#[trigger] b[q]) || is_match(s, t, b[q]) by {
            assert(f[q] == b[q]);
        }
    }
}

} // verus!
