//! Fast descent: the family keeps its coverage bitsets and its energy, and
//! evaluates every move by the change it makes instead of recomputing.
use vstd::prelude::*;
use crate::types::{
    Block, MatchTable, KAPPA, lambda, lambda_spec, lemma_lambda_bounds, lcp_spec, lemma_lcp_bounds,
    overlaps, block_overlaps,
};
use crate::energy::{
    energy_spec, all_fit, block_fits, model_cost, sum_desc, cover, count_false, fill_true,
    lemma_count_false_fill, lemma_cover_push, lemma_cover_remove, lemma_sum_desc_remove,
    desc_cost, lemma_desc_cost_bounds, start_on, uncovered, lemma_count_false_le_len,
};
use crate::keys::{sorted_key, key_less, sort_blocks, key_rank};
use crate::descent::{
    candidates, cands_upto, row_cands, cell_cands, is_match, lemma_candidates_match, admissible,
    better, best_of, copy_blocks, lemma_better_decreases, lemma_len_le_energy,
    lemma_best_of_minimal, lemma_better_total, all_match,
};
use crate::coverage_bits::{CoverBits, bits_of};

verus! {

/// A block family that keeps its coverage bitsets and its energy up to date.
pub struct FastBlockFamily {
    pub blocks: Vec<Block>,
    covered_s: CoverBits,
    covered_t: CoverBits,
    energy: usize,
    s_len: usize,
    t_len: usize,
}

/// Whether some block of the family overlaps `c`.
pub open spec fn clashes(f: Seq<Block>, c: Block) -> bool {
    exists|k: int| 0 <= k < f.len() && overlaps(#[trigger] f[k], c)
}

/// The insertions of the fast descent, in candidate order: each candidate that
/// overlaps no block of `f`, appended to `f`.
pub open spec fn insertions(f: Seq<Block>, cs: Seq<Block>) -> Seq<Seq<Block>>
    decreases cs.len(),
{
    if cs.len() == 0 {
        Seq::empty()
    } else {
        let rest = insertions(f, cs.drop_last());
        if clashes(f, cs.last()) {
            rest
        } else {
            rest.push(f.push(cs.last()))
        }
    }
}

/// The removals of the fast descent: `f` without its block at index `k`, for each `k`.
pub open spec fn removals(f: Seq<Block>) -> Seq<Seq<Block>> {
    Seq::new(f.len(), |k: int| f.remove(k))
}

/// All moves of the fast descent: insertions first, then removals.
pub open spec fn fast_moves(f: Seq<Block>, s: Seq<u8>, t: Seq<u8>) -> Seq<Seq<Block>> {
    insertions(f, candidates(s, t)) + removals(f)
}

/// One step of the fast descent: the best move if one is better than `f`, else `f`.
pub open spec fn fast_step(f: Seq<Block>, s: Seq<u8>, t: Seq<u8>) -> Seq<Block> {
    best_of(fast_moves(f, s, t), f, s.len(), t.len())
}

/// No move of the fast descent is better than `f`.
pub open spec fn is_fast_fixed_point(f: Seq<Block>, s: Seq<u8>, t: Seq<u8>) -> bool {
    !better(fast_step(f, s, t), f, s.len(), t.len())
}

/// The string lengths leave room for every energy the fast descent computes: the kept
/// energy (at most `8 (n + m) + 1`) plus the change of a removal (up to `8` for each of
/// the `2 len` bytes a block spans) stays a signed machine word, as the signed
/// arithmetic of the energy updates needs.
pub open spec fn sizes_fit(n: nat, m: nat) -> bool {
    &&& n < usize::MAX
    &&& m < usize::MAX
    &&& 16 * (n + m) + 1024 <= isize::MAX
}

/// Every block spans at least one byte inside both strings.
pub open spec fn blocks_inside(f: Seq<Block>, n: nat, m: nat) -> bool {
    forall|k: int| 0 <= k < f.len() ==> {
        &&& (#[trigger] f[k]).len >= 1
        &&& f[k].i + f[k].len <= n
        &&& f[k].j + f[k].len <= m
    }
}

/// The states the fast descent moves through: admissible families of blocks inside the
/// strings, whose energy is at most that of the empty family.
pub open spec fn fast_state(f: Seq<Block>, n: nat, m: nat) -> bool {
    &&& sizes_fit(n, m)
    &&& blocks_inside(f, n, m)
    &&& admissible(f)
    &&& energy_spec(f, n, m) <= (KAPPA as nat) * (n + m) + 1
}

proof fn lemma_inside_fits(f: Seq<Block>, n: nat, m: nat)
    requires
        blocks_inside(f, n, m),
        n < usize::MAX,
        m < usize::MAX,
    ensures
        all_fit(f, n, m),
        forall|k: int| 0 <= k < f.len() ==> crate::types::ends_fit(#[trigger] f[k]),
{
    assert forall|k: int| 0 <= k < f.len() implies #[trigger] block_fits(f[k], n, m) by {
        assert(f[k].len >= 1);
    }
    assert forall|k: int| 0 <= k < f.len() implies crate::types::ends_fit(#[trigger] f[k]) by {
        assert(f[k].len >= 1);
    }
}

impl View for FastBlockFamily {
    type V = Seq<Block>;

    /// The blocks of the family.
    closed spec fn view(&self) -> Seq<Block> {
        self.blocks@
    }
}

impl FastBlockFamily {
    /// Length of the source the family was made for.
    pub closed spec fn source_len(&self) -> nat {
        self.s_len as nat
    }

    /// Length of the target the family was made for.
    pub closed spec fn target_len(&self) -> nat {
        self.t_len as nat
    }

    /// The energy the family keeps.
    pub closed spec fn kept_energy(&self) -> nat {
        self.energy as nat
    }

    /// The kept bitsets are the coverage of the blocks, the kept energy is their energy,
    /// and the blocks form a state of the fast descent.
    pub closed spec fn wf(&self) -> bool {
        &&& fast_state(self.blocks@, self.s_len as nat, self.t_len as nat)
        &&& bits_of(self.covered_s) == cover(self.blocks@, self.s_len as nat, true)
        &&& bits_of(self.covered_t) == cover(self.blocks@, self.t_len as nat, false)
        &&& self.energy == energy_spec(self.blocks@, self.s_len as nat, self.t_len as nat)
    }

    /// A well-formed family keeps exactly the energy of its blocks, the value
    /// [`crate::v1::BlockFamily::energy`] computes from scratch, and is a state of the descent.
    pub proof fn lemma_kept_energy(&self)
        requires
            self.wf(),
        ensures
            self.kept_energy() == energy_spec(self@, self.source_len(), self.target_len()),
            fast_state(self@, self.source_len(), self.target_len()),
    {
    }

    /// The blocks of the family, in order: the sequence its contracts speak of.
    pub fn blocks(&self) -> (r: &Vec<Block>)
        ensures
            r@ == self@,
    {
        &self.blocks
    }

    /// The empty family for strings of lengths `s_len` and `t_len`.
    pub fn new(s_len: usize, t_len: usize) -> (r: Self)
        requires
            sizes_fit(s_len as nat, t_len as nat),
        ensures
            r.wf(),
            r@ == Seq::<Block>::empty(),
            r.source_len() == s_len,
            r.target_len() == t_len,
    {
        assert(s_len <= usize::MAX / 8 && t_len <= usize::MAX / 8) by {
            assert(16 * (s_len + t_len) + 1024 <= isize::MAX);
            assert(isize::MAX as int <= usize::MAX as int);
        }
        assert(KAPPA * (s_len + t_len) + 1 <= usize::MAX) by {
            assert(16 * (s_len + t_len) + 1024 <= isize::MAX);
            assert(isize::MAX as int <= usize::MAX as int);
        }
        let energy = KAPPA * (s_len + t_len) + 1;
        let r = Self {
            blocks: Vec::new(),
            covered_s: CoverBits::zeros(s_len),
            covered_t: CoverBits::zeros(t_len),
            energy,
            s_len,
            t_len,
        };
        proof {
            let e = Seq::<Block>::empty();
            assert(cover(e, s_len as nat, true) =~= bits_of(r.covered_s));
            assert(cover(e, t_len as nat, false) =~= bits_of(r.covered_t));
            lemma_count_false_zeros(s_len as nat);
            lemma_count_false_zeros(t_len as nat);
        }
        r
    }

    /// The energy the family keeps; the strings are not read.
    pub fn energy(&self, _s: &[u8], _t: &[u8]) -> (r: usize)
        requires
            self.wf(),
        ensures
            r == energy_spec(self@, self.source_len(), self.target_len()),
    {
        self.energy
    }

    /// The energy recomputed from the bitsets and the blocks.
    #[allow(dead_code)]
    fn compute_energy(&self) -> (r: usize)
        requires
            self.wf(),
        ensures
            r == energy_spec(self.blocks@, self.source_len(), self.target_len()),
    {
        proof {
            lemma_inside_fits(self.blocks@, self.s_len as nat, self.t_len as nat);
        }
        let u_s = self.covered_s.count_zeros();
        let u_t = self.covered_t.count_zeros();
        let l_m = crate::energy::model_cost_exec(&self.blocks);
        l_m + KAPPA * u_s + KAPPA * u_t
    }

    /// The energy after inserting `cand`, or `None` if `cand` overlaps a block.
    fn try_insert(&self, cand: &Block) -> (r: Option<usize>)
        requires
            self.wf(),
            blocks_inside(seq![*cand], self.source_len(), self.target_len()),
        ensures
            r is Some == !clashes(self@, *cand),
            r matches Some(e) ==> e == energy_spec(self@.push(*cand), self.source_len(), self.target_len()),
    {
        let ghost f = self@;
        let ghost n = self.s_len as nat;
        let ghost m = self.t_len as nat;
        let ghost c = *cand;
        proof {
            assert(seq![*cand][0] == *cand);
        }
        if !self.admissible(cand) {
            return None;
        }
        let ghost cov_s = cover(f, n, true);
        let ghost cov_t = cover(f, m, false);
        let mut delta: isize = 0;
        let mut k: usize = cand.i;
        while k < cand.i + cand.len
            invariant
                self.wf(),
                f == self@,
                cov_s == bits_of(self.covered_s),
                cov_s.len() == n,
                c == *cand,
                c.len >= 1,
                c.i + c.len <= n,
                sizes_fit(n, m),
                c.i <= k <= c.i + c.len,
                delta == -((KAPPA as nat) * count_false(cov_s.subrange(c.i as int, k as int))) as int,
                count_false(cov_s.subrange(c.i as int, k as int)) <= k - c.i,
            decreases c.i + c.len - k,
        {
            proof {
                assert(cov_s.subrange(c.i as int, k + 1).drop_last() =~= cov_s.subrange(c.i as int, k as int));
                assert(cov_s.subrange(c.i as int, k + 1).last() == cov_s[k as int]);
            }
            if !self.covered_s.get(k) {
                delta -= KAPPA as isize;
            }
            k += 1;
        }
        let ghost cf_s = count_false(cov_s.subrange(c.i as int, c.i + c.len));
        let mut k: usize = cand.j;
        while k < cand.j + cand.len
            invariant
                self.wf(),
                f == self@,
                cov_t == bits_of(self.covered_t),
                cov_t.len() == m,
                c == *cand,
                c.len >= 1,
                c.j + c.len <= m,
                c.i + c.len <= n,
                sizes_fit(n, m),
                cf_s <= c.len,
                c.j <= k <= c.j + c.len,
                delta == -((KAPPA as nat) * cf_s) as int - ((KAPPA as nat) * count_false(cov_t.subrange(c.j as int, k as int))) as int,
                count_false(cov_t.subrange(c.j as int, k as int)) <= k - c.j,
            decreases c.j + c.len - k,
        {
            proof {
                assert(cov_t.subrange(c.j as int, k + 1).drop_last() =~= cov_t.subrange(c.j as int, k as int));
                assert(cov_t.subrange(c.j as int, k + 1).last() == cov_t[k as int]);
            }
            if !self.covered_t.get(k) {
                delta -= KAPPA as isize;
            }
            k += 1;
        }
        let ghost cf_t = count_false(cov_t.subrange(c.j as int, c.j + c.len));
        proof {
            lemma_desc_cost_bounds(c);
            lemma_inside_fits(f, n, m);
            lemma_len_le_energy(f, n, m);
            lemma_lambda_bounds(f.len() as usize);
            lemma_lambda_bounds((f.len() + 1) as usize);
        }
        delta += (lambda(cand.i + 1) + lambda(cand.j + 1) + lambda(cand.len)) as isize;
        let old_lm = lambda(self.blocks.len());
        let new_lm = lambda(self.blocks.len() + 1);
        delta += (new_lm as isize) - (old_lm as isize);
        proof {
            let p = f.push(c);
            lemma_cover_push(f, c, n, true);
            lemma_cover_push(f, c, m, false);
            lemma_count_false_fill(cov_s, c.i as int, c.i + c.len);
            lemma_count_false_fill(cov_t, c.j as int, c.j + c.len);
            assert(p.drop_last() =~= f);
            assert(sum_desc(p) == sum_desc(f) + desc_cost(c));
            assert(energy_spec(p, n, m) == energy_spec(f, n, m) + delta);
        }
        let new_e = (self.energy as isize + delta) as usize;
        Some(new_e)
    }

    /// The energy after removing the block at `idx`.
    fn try_remove(&self, idx: usize) -> (r: usize)
        requires
            self.wf(),
            idx < self@.len(),
        ensures
            r == energy_spec(self@.remove(idx as int), self.source_len(), self.target_len()),
    {
        let ghost f = self@;
        let ghost n = self.s_len as nat;
        let ghost m = self.t_len as nat;
        let ghost rm = f.remove(idx as int);
        let b = self.blocks[idx];
        let mut delta: isize = 0;

        let mut other_s = CoverBits::zeros(self.s_len);
        let mut other_t = CoverBits::zeros(self.t_len);
        proof {
            assert(bits_of(other_s) =~= cover(removed_prefix(f, idx as int, 0), n, true));
            assert(bits_of(other_t) =~= cover(removed_prefix(f, idx as int, 0), m, false));
        }
        let mut i: usize = 0;
        while i < self.blocks.len()
            invariant
                self.wf(),
                f == self@,
                n == self.s_len,
                m == self.t_len,
                idx < f.len(),
                i <= f.len(),
                bits_of(other_s) == cover(removed_prefix(f, idx as int, i as int), n, true),
                bits_of(other_t) == cover(removed_prefix(f, idx as int, i as int), m, false),
            decreases f.len() - i,
        {
            let ob = self.blocks[i];
            proof {
                assert(f[i as int] == ob);
                assert(ob.len >= 1);
                lemma_removed_prefix_step(f, idx as int, i as int);
            }
            if i != idx {
                other_s.fill_range(ob.i, ob.i + ob.len, true);
                other_t.fill_range(ob.j, ob.j + ob.len, true);
                proof {
                    let rp = removed_prefix(f, idx as int, i as int);
                    lemma_cover_push(rp, ob, n, true);
                    lemma_cover_push(rp, ob, m, false);
                    assert(bits_of(other_s) =~= fill_true(cover(rp, n, true), ob.i as int, ob.i + ob.len));
                    assert(bits_of(other_t) =~= fill_true(cover(rp, m, false), ob.j as int, ob.j + ob.len));
                }
            }
            i = i + 1;
        }
        proof {
            lemma_removed_prefix_end(f, idx as int);
            assert(f[idx as int] == b);
            assert(b.len >= 1);
        }
        let ghost oth_s = bits_of(other_s);
        let ghost oth_t = bits_of(other_t);
        let mut k: usize = b.i;
        while k < b.i + b.len
            invariant
                oth_s == bits_of(other_s),
                oth_s.len() == n,
                b.i + b.len <= n,
                sizes_fit(n, m),
                b.i <= k <= b.i + b.len,
                delta == ((KAPPA as nat) * count_false(oth_s.subrange(b.i as int, k as int))) as int,
                count_false(oth_s.subrange(b.i as int, k as int)) <= k - b.i,
            decreases b.i + b.len - k,
        {
            proof {
                assert(oth_s.subrange(b.i as int, k + 1).drop_last() =~= oth_s.subrange(b.i as int, k as int));
                assert(oth_s.subrange(b.i as int, k + 1).last() == oth_s[k as int]);
            }
            if !other_s.get(k) {
                delta += KAPPA as isize;
            }
            k += 1;
        }
        let ghost cf_s = count_false(oth_s.subrange(b.i as int, b.i + b.len));
        let mut k: usize = b.j;
        while k < b.j + b.len
            invariant
                oth_t == bits_of(other_t),
                oth_t.len() == m,
                b.j + b.len <= m,
                b.i + b.len <= n,
                sizes_fit(n, m),
                cf_s <= b.len,
                b.j <= k <= b.j + b.len,
                delta == ((KAPPA as nat) * cf_s) as int + ((KAPPA as nat) * count_false(oth_t.subrange(b.j as int, k as int))) as int,
                count_false(oth_t.subrange(b.j as int, k as int)) <= k - b.j,
            decreases b.j + b.len - k,
        {
            proof {
                assert(oth_t.subrange(b.j as int, k + 1).drop_last() =~= oth_t.subrange(b.j as int, k as int));
                assert(oth_t.subrange(b.j as int, k + 1).last() == oth_t[k as int]);
            }
            if !other_t.get(k) {
                delta += KAPPA as isize;
            }
            k += 1;
        }
        let ghost cf_t = count_false(oth_t.subrange(b.j as int, b.j + b.len));
        proof {
            lemma_desc_cost_bounds(b);
            lemma_inside_fits(f, n, m);
            lemma_len_le_energy(f, n, m);
            lemma_lambda_bounds(f.len() as usize);
            lemma_lambda_bounds((f.len() - 1) as usize);
        }
        delta -= (lambda(b.i + 1) + lambda(b.j + 1) + lambda(b.len)) as isize;
        let old_lm = lambda(self.blocks.len());
        let new_lm = lambda(self.blocks.len() - 1);
        delta += (new_lm as isize) - (old_lm as isize);
        proof {
            lemma_cover_remove(f, idx as int, n, true);
            lemma_cover_remove(f, idx as int, m, false);
            lemma_count_false_fill(oth_s, b.i as int, b.i + b.len);
            lemma_count_false_fill(oth_t, b.j as int, b.j + b.len);
            lemma_sum_desc_remove(f, idx as int);
            lemma_count_false_le_len(oth_s);
            lemma_count_false_le_len(oth_t);
            assert(energy_spec(rm, n, m) == energy_spec(f, n, m) + delta);
            lemma_count_false_le_len(cover(rm, n, true));
            lemma_count_false_le_len(cover(rm, m, false));
            lemma_lambda_bounds(rm.len() as usize);
            assert(energy_spec(rm, n, m) <= 64 + sum_desc(f) + (KAPPA as nat) * (n + m));
        }
        (self.energy as isize + delta) as usize
    }

    /// Insert `cand`, whose energy after insertion is `new_e`.
    fn apply_insert(&mut self, cand: Block, new_e: usize)
        requires
            old(self).wf(),
            blocks_inside(seq![cand], old(self).source_len(), old(self).target_len()),
            !clashes(old(self)@, cand),
            new_e == energy_spec(old(self)@.push(cand), old(self).source_len(), old(self).target_len()),
            new_e <= old(self).kept_energy(),
        ensures
            final(self).wf(),
            final(self)@ == old(self)@.push(cand),
            final(self).source_len() == old(self).source_len(),
            final(self).target_len() == old(self).target_len(),
    {
        let ghost f = self@;
        let ghost n = self.s_len as nat;
        let ghost m = self.t_len as nat;
        proof {
            assert(seq![cand][0] == cand);
        }
        self.covered_s.fill_range(cand.i, cand.i + cand.len, true);
        self.covered_t.fill_range(cand.j, cand.j + cand.len, true);
        self.blocks.push(cand);
        self.energy = new_e;
        proof {
            let p = f.push(cand);
            lemma_cover_push(f, cand, n, true);
            lemma_cover_push(f, cand, m, false);
            assert(bits_of(self.covered_s) =~= cover(p, n, true));
            assert(bits_of(self.covered_t) =~= cover(p, m, false));
            assert forall|a: int, b: int| 0 <= a < b < p.len() implies !overlaps(#[trigger] p[a], #[trigger] p[b]) by {
                assert(p[a] == f[a]);
                if b < f.len() {
                    assert(p[b] == f[b]);
                } else {
                    assert(!overlaps(f[a], cand));
                }
            }
            assert forall|k: int| 0 <= k < p.len() implies (#[trigger] p[k]).len >= 1 && p[k].i + p[k].len <= n && p[k].j + p[k].len <= m by {
                if k < f.len() {
                    assert(p[k] == f[k]);
                }
            }
        }
    }

    /// Remove the block at `idx`, whose energy after removal is `new_e`, and rebuild the bitsets.
    fn apply_remove(&mut self, idx: usize, new_e: usize)
        requires
            old(self).wf(),
            idx < old(self)@.len(),
            new_e == energy_spec(old(self)@.remove(idx as int), old(self).source_len(), old(self).target_len()),
            new_e <= old(self).kept_energy(),
        ensures
            final(self).wf(),
            final(self)@ == old(self)@.remove(idx as int),
            final(self).source_len() == old(self).source_len(),
            final(self).target_len() == old(self).target_len(),
    {
        let ghost f = self@;
        let ghost n = self.s_len as nat;
        let ghost m = self.t_len as nat;
        self.blocks.remove(idx);
        let ghost r = self.blocks@;
        proof {
            assert(r == f.remove(idx as int));
            assert forall|k: int| 0 <= k < r.len() implies (#[trigger] r[k]).len >= 1 && r[k].i + r[k].len <= n && r[k].j + r[k].len <= m by {
                if k < idx {
                    assert(r[k] == f[k]);
                } else {
                    assert(r[k] == f[k + 1]);
                }
            }
        }
        self.covered_s.fill(false);
        self.covered_t.fill(false);
        proof {
            assert(bits_of(self.covered_s) =~= cover(r.take(0), n, true));
            assert(bits_of(self.covered_t) =~= cover(r.take(0), m, false));
        }
        let mut q: usize = 0;
        while q < self.blocks.len()
            invariant
                r == self.blocks@,
                q <= r.len(),
                blocks_inside(r, n, m),
                n == self.s_len,
                m == self.t_len,
                bits_of(self.covered_s) == cover(r.take(q as int), n, true),
                bits_of(self.covered_t) == cover(r.take(q as int), m, false),
            decreases r.len() - q,
        {
            let b = self.blocks[q];
            proof {
                assert(r[q as int] == b);
            }
            self.covered_s.fill_range(b.i, b.i + b.len, true);
            self.covered_t.fill_range(b.j, b.j + b.len, true);
            proof {
                lemma_cover_push(r.take(q as int), b, n, true);
                lemma_cover_push(r.take(q as int), b, m, false);
                assert(r.take(q as int).push(b) =~= r.take(q + 1));
                assert(bits_of(self.covered_s) =~= cover(r.take(q + 1), n, true));
                assert(bits_of(self.covered_t) =~= cover(r.take(q + 1), m, false));
            }
            q = q + 1;
        }
        self.energy = new_e;
        proof {
            assert(r.take(q as int) =~= r);
            assert forall|a: int, b: int| 0 <= a < b < r.len() implies !overlaps(#[trigger] r[a], #[trigger] r[b]) by {
                let fa = if a < idx { a } else { a + 1 };
                let fb = if b < idx { b } else { b + 1 };
                assert(r[a] == f[fa]);
                assert(r[b] == f[fb]);
            }
        }
    }

    /// The incumbent of the scan: `target` is the family it stands for, `best_e` its energy,
    /// `best_key` its key, and `best_move` the move from `f` that reaches it, if any.
    spec fn incumbent(
        f: Seq<Block>,
        n: nat,
        m: nat,
        target: Seq<Block>,
        best_move: Option<(Move, usize, Vec<Block>)>,
        best_e: usize,
        best_key: Seq<Block>,
    ) -> bool {
        &&& best_e == energy_spec(target, n, m)
        &&& best_key == sort_blocks(target)
        &&& (best_move is None ==> target == f)
        &&& match best_move {
            Some((Move::Insert(c), e, _)) => {
                &&& target == f.push(c)
                &&& blocks_inside(seq![c], n, m)
                &&& !clashes(f, c)
                &&& e == best_e
            },
            Some((Move::Remove(i), e, _)) => {
                &&& i < f.len()
                &&& target == f.remove(i as int)
                &&& e == best_e
            },
            None => true,
        }
    }

    /// One descent step of the fast family: apply the best move (insertions are scanned
    /// in candidate order, then removals by index) if one improves on the family.
    pub fn descent_step(&mut self, s: &[u8], t: &[u8], mt: &MatchTable) -> (changed: bool)
        requires
            old(self).wf(),
            s@.len() == old(self).source_len(),
            t@.len() == old(self).target_len(),
            mt.is_table_for(s@, t@),
        ensures
            final(self).wf(),
            final(self).source_len() == old(self).source_len(),
            final(self).target_len() == old(self).target_len(),
            final(self)@ == fast_step(old(self)@, s@, t@),
            changed == better(fast_step(old(self)@, s@, t@), old(self)@, s@.len(), t@.len()),
    {
        let ghost f = self@;
        let ghost n = s@.len();
        let ghost m = t@.len();
        let mut best_move: Option<(Move, usize, Vec<Block>)> = None;
        let mut best_e = self.energy;
        let mut best_key = sorted_key(&self.blocks);

        // Try insertions
        let mut i: usize = 0;
        while i < s.len()
            invariant
                self.wf(),
                self@ == f,
                n == s@.len() == self.s_len,
                m == t@.len() == self.t_len,
                i <= n,
                mt.is_table_for(s@, t@),
                Self::incumbent(f, n, m, best_of(insertions(f, cands_upto(s@, t@, i as nat)), f, n, m), best_move, best_e, best_key@),
            decreases n - i,
        {
            let mut j: usize = 0;
            while j < t.len()
                invariant
                    self.wf(),
                    self@ == f,
                    n == s@.len() == self.s_len,
                    m == t@.len() == self.t_len,
                    i < n,
                    j <= m,
                    mt.is_table_for(s@, t@),
                    Self::incumbent(f, n, m, best_of(insertions(f, cands_upto(s@, t@, i as nat) + row_cands(s@, t@, i as int, j as nat)), f, n, m), best_move, best_e, best_key@),
                decreases m - j,
            {
                let max_l = mt.max_len(i, j);
                proof {
                    lemma_lcp_bounds(s@, t@, i as int, j as int);
                }
                let ghost before = cands_upto(s@, t@, i as nat) + row_cands(s@, t@, i as int, j as nat);
                let mut len: usize = 1;
                while len <= max_l
                    invariant
                        self.wf(),
                        self@ == f,
                        n == s@.len() == self.s_len,
                        m == t@.len() == self.t_len,
                        i < n,
                        j < m,
                        1 <= len <= max_l + 1,
                        max_l == lcp_spec(s@, t@, i as int, j as int),
                        i + max_l <= n,
                        j + max_l <= m,
                        sizes_fit(n, m),
                        Self::incumbent(f, n, m, best_of(insertions(f, before + cell_cands(i as int, j as int, (len - 1) as nat)), f, n, m), best_move, best_e, best_key@),
                    decreases max_l + 1 - len,
                {
                    let cand = Block { i, j, len };
                    let ghost prev = before + cell_cands(i as int, j as int, (len - 1) as nat);
                    let ghost next = before + cell_cands(i as int, j as int, len as nat);
                    proof {
                        assert(next =~= prev.push(cand));
                        assert(next.drop_last() =~= prev);
                        assert(seq![cand][0] == cand);
                    }
                    if let Some(new_e) = self.try_insert(&cand) {
                        let mut next_key = copy_blocks(&self.blocks);
                        next_key.push(cand);
                        let next_key = sorted_key(&next_key);
                        proof {
                            let ins = insertions(f, prev);
                            assert(insertions(f, next) == ins.push(f.push(cand)));
                            assert(ins.push(f.push(cand)).drop_last() =~= ins);
                        }
                        if new_e < best_e || (new_e == best_e && key_less(&next_key, &best_key)) {
                            best_e = new_e;
                            best_key = next_key;
                            best_move = Some((Move::Insert(cand), new_e, copy_blocks(&best_key)));
                        }
                    }
                    len = len + 1;
                }
                proof {
                    assert(before + cell_cands(i as int, j as int, max_l as nat) =~= cands_upto(s@, t@, i as nat) + row_cands(s@, t@, i as int, (j + 1) as nat));
                }
                j = j + 1;
            }
            proof {
                assert(cands_upto(s@, t@, (i + 1) as nat) =~= cands_upto(s@, t@, i as nat) + row_cands(s@, t@, i as int, t@.len()));
            }
            i = i + 1;
        }
        let ghost ins = insertions(f, candidates(s@, t@));
        proof {
            assert(ins + removals(f).take(0) =~= ins);
        }

        // Try deletions
        let mut i: usize = 0;
        while i < self.blocks.len()
            invariant
                self.wf(),
                self@ == f,
                n == s@.len() == self.s_len,
                m == t@.len() == self.t_len,
                i <= f.len(),
                Self::incumbent(f, n, m, best_of(ins + removals(f).take(i as int), f, n, m), best_move, best_e, best_key@),
            decreases f.len() - i,
        {
            let new_e = self.try_remove(i);
            let mut next_key = copy_blocks(&self.blocks);
            next_key.remove(i);
            let next_key = sorted_key(&next_key);
            proof {
                let pre = ins + removals(f).take(i as int);
                assert(ins + removals(f).take(i + 1) =~= pre.push(f.remove(i as int)));
                assert(pre.push(f.remove(i as int)).drop_last() =~= pre);
            }
            if new_e < best_e || (new_e == best_e && key_less(&next_key, &best_key)) {
                best_e = new_e;
                best_key = next_key;
                best_move = Some((Move::Remove(i), new_e, copy_blocks(&best_key)));
            }
            i = i + 1;
        }
        proof {
            assert(removals(f).take(i as int) =~= removals(f));
            let moves = fast_moves(f, s@, t@);
            lemma_best_of_minimal(moves, f, n, m);
            lemma_better_total(f, f, n, m);
            lemma_better_total(fast_step(f, s@, t@), f, n, m);
        }

        if let Some((mv, e, _)) = best_move {
            match mv {
                Move::Insert(b) => self.apply_insert(b, e),
                Move::Remove(i) => self.apply_remove(i, e),
            }
            true
        } else {
            false
        }
    }

    /// Descend until no move improves on the family.
    pub fn run(&mut self, s: &[u8], t: &[u8], mt: &MatchTable)
        requires
            old(self).wf(),
            s@.len() == old(self).source_len(),
            t@.len() == old(self).target_len(),
            mt.is_table_for(s@, t@),
        ensures
            final(self).wf(),
            final(self).source_len() == old(self).source_len(),
            final(self).target_len() == old(self).target_len(),
            exists|k: nat| final(self)@ == fast_descend(old(self)@, s@, t@, k),
            is_fast_fixed_point(final(self)@, s@, t@),
            energy_spec(final(self)@, s@.len(), t@.len()) <= energy_spec(old(self)@, s@.len(), t@.len()),
    {
        let ghost f0 = self@;
        let ghost e0 = energy_spec(f0, s@.len(), t@.len());
        let ghost mut steps: nat = 0;
        loop
            invariant
                self.wf(),
                s@.len() == self.s_len,
                t@.len() == self.t_len,
                s@.len() == old(self).source_len(),
                t@.len() == old(self).target_len(),
                mt.is_table_for(s@, t@),
                energy_spec(self@, s@.len(), t@.len()) <= e0,
                self@ == fast_descend(f0, s@, t@, steps),
            ensures
                self.wf(),
                s@.len() == self.s_len,
                t@.len() == self.t_len,
                is_fast_fixed_point(self@, s@, t@),
                energy_spec(self@, s@.len(), t@.len()) <= e0,
                self@ == fast_descend(f0, s@, t@, steps),
            decreases energy_spec(self@, s@.len(), t@.len()), key_rank(sort_blocks(self@), e0),
        {
            let ghost before = self@;
            proof {
                lemma_inside_fits(before, s@.len(), t@.len());
                lemma_len_le_energy(before, s@.len(), t@.len());
            }
            let changed = self.descent_step(s, t, mt);
            proof {
                lemma_best_of_minimal(fast_moves(before, s@, t@), before, s@.len(), t@.len());
            }
            if !changed {
                break;
            }
            proof {
                steps = steps + 1;
                lemma_inside_fits(self@, s@.len(), t@.len());
                lemma_len_le_energy(self@, s@.len(), t@.len());
                lemma_better_decreases(self@, before, s@.len(), t@.len(), e0);
            }
        }
    }

    /// Whether `cand` overlaps no block of the family.
    fn admissible(&self, cand: &Block) -> (r: bool)
        requires
            self.wf(),
            crate::types::ends_fit(*cand),
        ensures
            r == !clashes(self.blocks@, *cand),
    {
        proof {
            lemma_inside_fits(self.blocks@, self.s_len as nat, self.t_len as nat);
        }
        let mut k: usize = 0;
        while k < self.blocks.len()
            invariant
                k <= self.blocks@.len(),
                forall|q: int| 0 <= q < self.blocks@.len() ==> crate::types::ends_fit(#[trigger] self.blocks@[q]),
                crate::types::ends_fit(*cand),
                forall|q: int| 0 <= q < k ==> !overlaps(#[trigger] self.blocks@[q], *cand),
            decreases self.blocks@.len() - k,
        {
            if block_overlaps(&self.blocks[k], cand) {
                return false;
            }
            k = k + 1;
        }
        true
    }
}

/// The blocks `f[0..i]` without the block at `idx`.
pub open spec fn removed_prefix(f: Seq<Block>, idx: int, i: int) -> Seq<Block> {
    if i <= idx {
        f.take(i)
    } else {
        f.remove(idx).take(i - 1)
    }
}

proof fn lemma_removed_prefix_step(f: Seq<Block>, idx: int, i: int)
    requires
        0 <= idx < f.len(),
        0 <= i < f.len(),
    ensures
        i != idx ==> removed_prefix(f, idx, i + 1) =~= removed_prefix(f, idx, i).push(f[i]),
        i == idx ==> removed_prefix(f, idx, i + 1) =~= removed_prefix(f, idx, i),
{
    let r = f.remove(idx);
    if i > idx {
        assert(r[i - 1] == f[i]);
    }
}

proof fn lemma_removed_prefix_end(f: Seq<Block>, idx: int)
    requires
        0 <= idx < f.len(),
    ensures
        removed_prefix(f, idx, f.len() as int) =~= f.remove(idx),
{
}

proof fn lemma_count_false_zeros(n: nat)
    ensures
        count_false(Seq::new(n, |k: int| false)) == n,
    decreases n,
{
    if n > 0 {
        lemma_count_false_zeros((n - 1) as nat);
        assert(Seq::new(n, |k: int| false).drop_last() =~= Seq::new((n - 1) as nat, |k: int| false));
    }
}

/// `f` after `k` steps of the fast descent.
pub open spec fn fast_descend(f: Seq<Block>, s: Seq<u8>, t: Seq<u8>, k: nat) -> Seq<Block>
    decreases k,
{
    if k == 0 {
        f
    } else {
        fast_step(fast_descend(f, s, t, (k - 1) as nat), s, t)
    }
}

/// At a fixed point of the fast descent no move is better than the family.
pub proof fn lemma_fast_fixed_point_is_local_optimum(f: Seq<Block>, s: Seq<u8>, t: Seq<u8>)
    requires
        is_fast_fixed_point(f, s, t),
    ensures
        forall|k: int| 0 <= k < fast_moves(f, s, t).len() ==> !better(#[trigger] fast_moves(f, s, t)[k], f, s.len(), t.len()),
{
    crate::descent::lemma_no_better_than_fixed(fast_moves(f, s, t), f, s.len(), t.len());
}

/// A step of the fast descent never raises the energy.
pub proof fn lemma_fast_step_never_raises_energy(f: Seq<Block>, s: Seq<u8>, t: Seq<u8>)
    ensures
        energy_spec(fast_step(f, s, t), s.len(), t.len()) <= energy_spec(f, s.len(), t.len()),
{
    lemma_best_of_minimal(fast_moves(f, s, t), f, s.len(), t.len());
}

/// A fixed point of the fast descent is left unchanged by any number of further steps.
pub proof fn lemma_fast_fixed_point_stays(f: Seq<Block>, s: Seq<u8>, t: Seq<u8>, k: nat)
    requires
        is_fast_fixed_point(f, s, t),
    ensures
        fast_descend(f, s, t, k) == f,
    decreases k,
{
    lemma_best_of_minimal(fast_moves(f, s, t), f, s.len(), t.len());
    if k > 0 {
        lemma_fast_fixed_point_stays(f, s, t, (k - 1) as nat);
    }
}

/// `a` fast steps followed by `b` fast steps are `a + b` fast steps.
pub proof fn lemma_fast_descend_add(f: Seq<Block>, s: Seq<u8>, t: Seq<u8>, a: nat, b: nat)
    ensures
        fast_descend(fast_descend(f, s, t, a), s, t, b) == fast_descend(f, s, t, a + b),
    decreases b,
{
    if b > 0 {
        lemma_fast_descend_add(f, s, t, a, (b - 1) as nat);
    }
}

/// The fast descent is deterministic: from the same family and strings, every run that
/// stops, after however many steps, stops at the same family.
pub proof fn lemma_fast_descent_result_unique(f: Seq<Block>, s: Seq<u8>, t: Seq<u8>, k1: nat, k2: nat)
    requires
        is_fast_fixed_point(fast_descend(f, s, t, k1), s, t),
        is_fast_fixed_point(fast_descend(f, s, t, k2), s, t),
    ensures
        fast_descend(f, s, t, k1) == fast_descend(f, s, t, k2),
{
    if k1 <= k2 {
        lemma_fast_descend_add(f, s, t, k1, (k2 - k1) as nat);
        lemma_fast_fixed_point_stays(fast_descend(f, s, t, k1), s, t, (k2 - k1) as nat);
    } else {
        lemma_fast_descend_add(f, s, t, k2, (k1 - k2) as nat);
        lemma_fast_fixed_point_stays(fast_descend(f, s, t, k2), s, t, (k1 - k2) as nat);
    }
}

/// Every insertion of matching candidates into a family of matches consists of matches.
proof fn lemma_insertions_match(f: Seq<Block>, s: Seq<u8>, t: Seq<u8>, cs: Seq<Block>)
    requires
        all_match(f, s, t),
        forall|k: int| 0 <= k < cs.len() ==> is_match(s, t, #[trigger] cs[k]),
    ensures
        forall|k: int| 0 <= k < insertions(f, cs).len() ==> all_match(#[trigger] insertions(f, cs)[k], s, t),
    decreases cs.len(),
{
    if cs.len() > 0 {
        let d = cs.drop_last();
        assert forall|k: int| 0 <= k < d.len() implies is_match(s, t, #[trigger] d[k]) by {
            assert(d[k] == cs[k]);
        }
        lemma_insertions_match(f, s, t, d);
        assert(is_match(s, t, cs[cs.len() - 1]));
        let rest = insertions(f, d);
        let ins = insertions(f, cs);
        assert forall|k: int| 0 <= k < ins.len() implies all_match(#[trigger] ins[k], s, t) by {
            if k < rest.len() {
                assert(ins[k] == rest[k]);
            } else {
                let x = f.push(cs.last());
                assert(ins[k] == x);
                assert forall|q: int| 0 <= q < x.len() implies is_match(s, t, #[trigger] x[q]) by {
                    if q < f.len() {
                        assert(x[q] == f[q]);
                    }
                }
            }
        }
    }
}

/// A fast step from a family of exact matches of `s` and `t` gives a family of exact
/// matches.
pub proof fn lemma_fast_step_keeps_matches(f: Seq<Block>, s: Seq<u8>, t: Seq<u8>)
    requires
        all_match(f, s, t),
        s.len() <= usize::MAX,
        t.len() <= usize::MAX,
    ensures
        all_match(fast_step(f, s, t), s, t),
{
    let moves = fast_moves(f, s, t);
    let ins = insertions(f, candidates(s, t));
    let rem = removals(f);
    lemma_candidates_match(s, t);
    lemma_insertions_match(f, s, t, candidates(s, t));
    lemma_best_of_minimal(moves, f, s.len(), t.len());
    let b = fast_step(f, s, t);
    if b != f {
        let q = choose|q: int| 0 <= q < moves.len() && moves[q] == b;
        if q < ins.len() {
            assert(moves[q] == ins[q]);
        } else {
            let r = q - ins.len();
            assert(moves[q] == rem[r]);
            assert(b == f.remove(r));
            assert forall|p: int| 0 <= p < b.len() implies is_match(s, t, #[trigger] b[p]) by {
                if p < r {
                    assert(b[p] == f[p]);
                } else {
                    assert(b[p] == f[p + 1]);
                }
            }
        }
    }
}

/// Every family the fast descent reaches from a family of exact matches (the empty
/// family among them) consists of exact matches of `s` and `t`.
pub proof fn lemma_fast_descend_keeps_matches(f: Seq<Block>, s: Seq<u8>, t: Seq<u8>, k: nat)
    requires
        all_match(f, s, t),
        s.len() <= usize::MAX,
        t.len() <= usize::MAX,
    ensures
        all_match(fast_descend(f, s, t, k), s, t),
    decreases k,
{
    if k > 0 {
        lemma_fast_descend_keeps_matches(f, s, t, (k - 1) as nat);
        lemma_fast_step_keeps_matches(fast_descend(f, s, t, (k - 1) as nat), s, t);
    }
}

/// A move of the fast descent.
enum Move {
    Insert(Block),
    Remove(usize),
}

} // verus!
