//! The fast descent and the baseline descent agree: from an admissible family of exact
//! matches they consider the same neighbours, pick the same one, and so pass through
//! the same families and stop at the same one.
use vstd::prelude::*;
use crate::types::{Block, overlaps, lcp_spec, same_byte};
use crate::descent::{
    candidates, cands_upto, row_cands, cell_cands, is_match, admissible, all_match, without,
    better, best_of, lemma_best_of_minimal, lemma_better_transitive, lemma_better_total,
};
use crate::keys::{sort_blocks, insert_sorted, lemma_sort_len};
use crate::v1::{neighbor_of, neighbor_list, neighbors_spec, best_neighbor, step_spec, descend, is_fixed_point};
use crate::v2::{clashes, insertions, removals, fast_moves, fast_step, fast_descend, is_fast_fixed_point};

verus! {

/// A common prefix is at least as long as any stretch on which the bytes agree.
proof fn lemma_lcp_at_least(s: Seq<u8>, t: Seq<u8>, i: int, j: int, l: nat)
    requires
        0 <= i,
        0 <= j,
        i + l <= s.len(),
        j + l <= t.len(),
        forall|k: int| 0 <= k < l ==> #[trigger] same_byte(s, t, i + k, j + k),
    ensures
        lcp_spec(s, t, i, j) >= l,
    decreases l,
{
    if l > 0 {
        assert(same_byte(s, t, i + 0, j + 0));
        assert forall|k: int| 0 <= k < l - 1 implies #[trigger] same_byte(s, t, (i + 1) + k, (j + 1) + k) by {
            assert(same_byte(s, t, i + (k + 1), j + (k + 1)));
        }
        lemma_lcp_at_least(s, t, i + 1, j + 1, (l - 1) as nat);
    }
}

/// A match of source position `i` against a target position below `jn` is among the
/// candidates of that row.
proof fn lemma_row_cands_contain(s: Seq<u8>, t: Seq<u8>, i: int, jn: nat, c: Block)
    requires
        c.i == i,
        c.j < jn,
        1 <= c.len <= lcp_spec(s, t, i, c.j as int),
    ensures
        row_cands(s, t, i, jn).contains(c),
    decreases jn,
{
    let prev = row_cands(s, t, i, (jn - 1) as nat);
    let j = jn - 1;
    let cell = cell_cands(i, j, lcp_spec(s, t, i, j));
    assert(row_cands(s, t, i, jn) == prev + cell);
    if c.j == j {
        assert(cell[c.len - 1] == c);
        assert((prev + cell)[prev.len() + c.len - 1] == c);
    } else {
        lemma_row_cands_contain(s, t, i, (jn - 1) as nat, c);
        let k = choose|k: int| 0 <= k < prev.len() && prev[k] == c;
        assert((prev + cell)[k] == c);
    }
}

/// A match starting below source position `in_` is among the candidates up to `in_`.
proof fn lemma_cands_upto_contain(s: Seq<u8>, t: Seq<u8>, in_: nat, c: Block)
    requires
        c.i < in_,
        c.j < t.len(),
        1 <= c.len <= lcp_spec(s, t, c.i as int, c.j as int),
    ensures
        cands_upto(s, t, in_).contains(c),
    decreases in_,
{
    let prev = cands_upto(s, t, (in_ - 1) as nat);
    let row = row_cands(s, t, in_ - 1, t.len());
    assert(cands_upto(s, t, in_) == prev + row);
    if c.i == in_ - 1 {
        lemma_row_cands_contain(s, t, in_ - 1, t.len(), c);
        let k = choose|k: int| 0 <= k < row.len() && row[k] == c;
        assert((prev + row)[prev.len() + k] == c);
    } else {
        lemma_cands_upto_contain(s, t, (in_ - 1) as nat, c);
        let k = choose|k: int| 0 <= k < prev.len() && prev[k] == c;
        assert((prev + row)[k] == c);
    }
}

/// Every exact match inside both strings is a candidate.
pub proof fn lemma_match_is_candidate(s: Seq<u8>, t: Seq<u8>, c: Block)
    requires
        is_match(s, t, c),
    ensures
        candidates(s, t).contains(c),
{
    lemma_lcp_at_least(s, t, c.i as int, c.j as int, c.len as nat);
    lemma_cands_upto_contain(s, t, s.len(), c);
}

/// No block occurs twice in the family.
pub open spec fn distinct(f: Seq<Block>) -> bool {
    forall|p: int, q: int| 0 <= p < q < f.len() ==> #[trigger] f[p] != #[trigger] f[q]
}

/// An admissible family of non-empty blocks holds no block twice: a non-empty block
/// overlaps itself.
proof fn lemma_admissible_distinct(f: Seq<Block>, s: Seq<u8>, t: Seq<u8>)
    requires
        admissible(f),
        all_match(f, s, t),
    ensures
        distinct(f),
{
    assert forall|p: int, q: int| 0 <= p < q < f.len() implies #[trigger] f[p] != #[trigger] f[q] by {
        assert(!overlaps(f[p], f[q]));
        assert(is_match(s, t, f[q]));
    }
}

/// Inserting into sorted order adds exactly the inserted block.
proof fn lemma_insert_sorted_elems(s: Seq<Block>, x: Block)
    ensures
        forall|y: Block| #[trigger] insert_sorted(s, x).contains(y) <==> (y == x || s.contains(y)),
    decreases s.len(),
{
    let r = insert_sorted(s, x);
    if s.len() == 0 {
        assert(r == seq![x]);
        assert forall|y: Block| #[trigger] r.contains(y) <==> (y == x || s.contains(y)) by {
            if y == x {
                assert(r[0] == x);
            }
        }
    } else if crate::keys::block_lt(x, s[0]) {
        assert(r == seq![x] + s);
        assert forall|y: Block| #[trigger] r.contains(y) <==> (y == x || s.contains(y)) by {
            if r.contains(y) {
                let k = choose|k: int| 0 <= k < r.len() && r[k] == y;
                if k > 0 {
                    assert(s[k - 1] == y);
                }
            }
            if y == x {
                assert(r[0] == x);
            } else if s.contains(y) {
                let j = choose|j: int| 0 <= j < s.len() && s[j] == y;
                assert(r[j + 1] == y);
            }
        }
    } else {
        let d = s.drop_first();
        lemma_insert_sorted_elems(d, x);
        let rest = insert_sorted(d, x);
        assert(r == seq![s[0]] + rest);
        assert forall|y: Block| #[trigger] r.contains(y) <==> (y == x || s.contains(y)) by {
            if r.contains(y) {
                let k = choose|k: int| 0 <= k < r.len() && r[k] == y;
                if k > 0 {
                    assert(rest[k - 1] == y);
                    assert(rest.contains(y));
                    if y != x {
                        let j = choose|j: int| 0 <= j < d.len() && d[j] == y;
                        assert(s[j + 1] == y);
                    }
                }
            }
            if y == x {
                assert(rest.contains(x));
                let k = choose|k: int| 0 <= k < rest.len() && rest[k] == x;
                assert(r[k + 1] == x);
            } else if s.contains(y) {
                let j = choose|j: int| 0 <= j < s.len() && s[j] == y;
                if j == 0 {
                    assert(r[0] == y);
                } else {
                    assert(d[j - 1] == y);
                    assert(rest.contains(y));
                    let k = choose|k: int| 0 <= k < rest.len() && rest[k] == y;
                    assert(r[k + 1] == y);
                }
            }
        }
    }
}

/// Sorting keeps the blocks.
proof fn lemma_sort_elems(s: Seq<Block>)
    ensures
        forall|y: Block| #[trigger] sort_blocks(s).contains(y) <==> s.contains(y),
    decreases s.len(),
{
    if s.len() > 0 {
        let d = s.drop_last();
        lemma_sort_elems(d);
        lemma_insert_sorted_elems(sort_blocks(d), s.last());
        assert forall|y: Block| #[trigger] sort_blocks(s).contains(y) <==> s.contains(y) by {
            if s.contains(y) && y != s.last() {
                let j = choose|j: int| 0 <= j < s.len() && s[j] == y;
                assert(d[j] == y);
                assert(d.contains(y));
            }
            if d.contains(y) {
                let j = choose|j: int| 0 <= j < d.len() && d[j] == y;
                assert(s[j] == y);
            }
            if y == s.last() {
                assert(s[s.len() - 1] == y);
            }
        }
    }
}

/// In a family without repeats, taking out every copy of its `k`-th block is removing
/// index `k`.
proof fn lemma_without_is_remove(f: Seq<Block>, k: int)
    requires
        distinct(f),
        0 <= k < f.len(),
    ensures
        without(f, f[k]) == f.remove(k),
    decreases f.len(),
{
    let c = f[k];
    let d = f.drop_last();
    assert(distinct(d)) by {
        assert forall|p: int, q: int| 0 <= p < q < d.len() implies #[trigger] d[p] != #[trigger] d[q] by {
            assert(d[p] == f[p] && d[q] == f[q]);
        }
    }
    if k == f.len() - 1 {
        assert(!d.contains(c)) by {
            if d.contains(c) {
                let j = choose|j: int| 0 <= j < d.len() && d[j] == c;
                assert(f[j] == c);
            }
        }
        lemma_without_absent(d, c);
        assert(f.remove(k) =~= d);
    } else {
        assert(f.last() != c) by {
            assert(f[f.len() - 1] != f[k]);
        }
        assert(d[k] == c);
        lemma_without_is_remove(d, k);
        assert(f.remove(k) =~= d.remove(k).push(f.last()));
    }
}

/// Taking out a block the family does not hold changes nothing.
proof fn lemma_without_absent(f: Seq<Block>, c: Block)
    requires
        !f.contains(c),
    ensures
        without(f, c) == f,
    decreases f.len(),
{
    if f.len() > 0 {
        let d = f.drop_last();
        assert(f.last() != c) by {
            assert(f[f.len() - 1] == f.last());
        }
        assert(!d.contains(c)) by {
            if d.contains(c) {
                let j = choose|j: int| 0 <= j < d.len() && d[j] == c;
                assert(f[j] == c);
            }
        }
        lemma_without_absent(d, c);
        assert(d.push(f.last()) =~= f);
    }
}

/// The neighbours reached through `cs` are those that some candidate of `cs` reaches.
proof fn lemma_neighbor_list_contains(f: Seq<Block>, cs: Seq<Block>)
    ensures
        forall|x: Seq<Block>|
            #[trigger] neighbor_list(f, cs).contains(x) <==> exists|k: int| 0 <= k < cs.len() && #[trigger] neighbor_of(f, cs[k]) == Some(x),
    decreases cs.len(),
{
    if cs.len() > 0 {
        let d = cs.drop_last();
        lemma_neighbor_list_contains(f, d);
        let rest = neighbor_list(f, d);
        let nl = neighbor_list(f, cs);
        assert forall|x: Seq<Block>|
            #[trigger] nl.contains(x) <==> exists|k: int| 0 <= k < cs.len() && #[trigger] neighbor_of(f, cs[k]) == Some(x) by {
            if nl.contains(x) {
                let q = choose|q: int| 0 <= q < nl.len() && nl[q] == x;
                if q < rest.len() {
                    assert(nl[q] == rest[q]);
                    assert(rest.contains(x));
                    let k = choose|k: int| 0 <= k < d.len() && #[trigger] neighbor_of(f, d[k]) == Some(x);
                    assert(cs[k] == d[k]);
                } else {
                    assert(neighbor_of(f, cs[cs.len() - 1]) == Some(x));
                }
            }
            if exists|k: int| 0 <= k < cs.len() && #[trigger] neighbor_of(f, cs[k]) == Some(x) {
                let k = choose|k: int| 0 <= k < cs.len() && #[trigger] neighbor_of(f, cs[k]) == Some(x);
                if k < cs.len() - 1 {
                    assert(d[k] == cs[k]);
                    assert(neighbor_of(f, d[k]) == Some(x));
                    assert(rest.contains(x));
                    let q = choose|q: int| 0 <= q < rest.len() && rest[q] == x;
                    assert(nl[q] == x);
                } else {
                    assert(nl[nl.len() - 1] == x);
                }
            }
        }
    }
}

/// The insertions through `cs` are the families `f` with one candidate of `cs` that
/// clashes with no block of `f` appended.
proof fn lemma_insertions_contains(f: Seq<Block>, cs: Seq<Block>)
    ensures
        forall|x: Seq<Block>|
            #[trigger] insertions(f, cs).contains(x) <==> exists|k: int|
                0 <= k < cs.len() && !clashes(f, #[trigger] cs[k]) && x == f.push(cs[k]),
    decreases cs.len(),
{
    if cs.len() > 0 {
        let d = cs.drop_last();
        lemma_insertions_contains(f, d);
        let rest = insertions(f, d);
        let ins = insertions(f, cs);
        assert forall|x: Seq<Block>|
            #[trigger] ins.contains(x) <==> exists|k: int| 0 <= k < cs.len() && !clashes(f, #[trigger] cs[k]) && x == f.push(cs[k]) by {
            if ins.contains(x) {
                let q = choose|q: int| 0 <= q < ins.len() && ins[q] == x;
                if q < rest.len() {
                    assert(ins[q] == rest[q]);
                    assert(rest.contains(x));
                    let k = choose|k: int| 0 <= k < d.len() && !clashes(f, #[trigger] d[k]) && x == f.push(d[k]);
                    assert(cs[k] == d[k]);
                } else {
                    assert(!clashes(f, cs[cs.len() - 1]) && x == f.push(cs[cs.len() - 1]));
                }
            }
            if exists|k: int| 0 <= k < cs.len() && !clashes(f, #[trigger] cs[k]) && x == f.push(cs[k]) {
                let k = choose|k: int| 0 <= k < cs.len() && !clashes(f, #[trigger] cs[k]) && x == f.push(cs[k]);
                if k < cs.len() - 1 {
                    assert(d[k] == cs[k]);
                    assert(!clashes(f, d[k]) && x == f.push(d[k]));
                    assert(rest.contains(x));
                    let q = choose|q: int| 0 <= q < rest.len() && rest[q] == x;
                    assert(ins[q] == x);
                } else {
                    assert(ins[ins.len() - 1] == x);
                }
            }
        }
    }
}

/// Appending a block that clashes with none of an admissible family keeps it admissible,
/// and a non-empty such block is not yet in the family.
proof fn lemma_push_admissible(f: Seq<Block>, c: Block)
    requires
        admissible(f),
        c.len >= 1,
    ensures
        admissible(f.push(c)) <==> !clashes(f, c),
        !clashes(f, c) ==> !f.contains(c),
{
    let x = f.push(c);
    if !clashes(f, c) {
        assert forall|p: int, q: int| 0 <= p < q < x.len() implies !overlaps(#[trigger] x[p], #[trigger] x[q]) by {
            assert(x[p] == f[p]);
            if q < f.len() {
                assert(x[q] == f[q]);
            } else {
                assert(x[q] == c);
                assert(!overlaps(f[p], c));
            }
        }
        if f.contains(c) {
            let k = choose|k: int| 0 <= k < f.len() && f[k] == c;
            assert(overlaps(f[k], c));
        }
    } else {
        let k = choose|k: int| 0 <= k < f.len() && overlaps(#[trigger] f[k], c);
        assert(x[k] == f[k] && x[f.len() as int] == c);
    }
}

/// Removing one block of an admissible family keeps it admissible.
proof fn lemma_remove_admissible(f: Seq<Block>, k: int)
    requires
        admissible(f),
        0 <= k < f.len(),
    ensures
        admissible(f.remove(k)),
{
    let x = f.remove(k);
    assert forall|p: int, q: int| 0 <= p < q < x.len() implies !overlaps(#[trigger] x[p], #[trigger] x[q]) by {
        let pp = if p < k { p } else { p + 1 };
        let qq = if q < k { q } else { q + 1 };
        assert(x[p] == f[pp]);
        assert(x[q] == f[qq]);
    }
}

/// From an admissible family of exact matches, the baseline descent's neighbours and
/// the fast descent's moves are the same families.
proof fn lemma_same_moves(f: Seq<Block>, s: Seq<u8>, t: Seq<u8>)
    requires
        admissible(f),
        all_match(f, s, t),
        s.len() <= usize::MAX,
        t.len() <= usize::MAX,
    ensures
        forall|x: Seq<Block>| #[trigger] neighbors_spec(f, s, t).contains(x) <==> fast_moves(f, s, t).contains(x),
{
    let cs = candidates(s, t);
    let n1 = neighbors_spec(f, s, t);
    let ins = insertions(f, cs);
    let rem = removals(f);
    let n2 = fast_moves(f, s, t);
    assert(n2 == ins + rem);
    crate::descent::lemma_candidates_match(s, t);
    lemma_neighbor_list_contains(f, cs);
    lemma_insertions_contains(f, cs);
    lemma_admissible_distinct(f, s, t);
    assert forall|x: Seq<Block>| #[trigger] n1.contains(x) <==> n2.contains(x) by {
        if n1.contains(x) {
            let k = choose|k: int| 0 <= k < cs.len() && #[trigger] neighbor_of(f, cs[k]) == Some(x);
            let c = cs[k];
            assert(is_match(s, t, c));
            if f.contains(c) {
                let p = choose|p: int| 0 <= p < f.len() && f[p] == c;
                lemma_without_is_remove(f, p);
                assert(x == rem[p]);
                assert(n2[ins.len() + p] == x);
            } else {
                lemma_push_admissible(f, c);
                assert(ins.contains(x));
                let q = choose|q: int| 0 <= q < ins.len() && ins[q] == x;
                assert(n2[q] == x);
            }
        }
        if n2.contains(x) {
            let q = choose|q: int| 0 <= q < n2.len() && n2[q] == x;
            if q < ins.len() {
                assert(ins[q] == x);
                assert(ins.contains(x));
                let k = choose|k: int| 0 <= k < cs.len() && !clashes(f, #[trigger] cs[k]) && x == f.push(cs[k]);
                let c = cs[k];
                assert(is_match(s, t, c));
                lemma_push_admissible(f, c);
                assert(neighbor_of(f, cs[k]) == Some(x));
            } else {
                let p = q - ins.len();
                assert(rem[p] == x);
                let c = f[p];
                assert(is_match(s, t, c));
                lemma_match_is_candidate(s, t, c);
                let k = choose|k: int| 0 <= k < cs.len() && cs[k] == c;
                lemma_without_is_remove(f, p);
                assert(f.contains(c));
                assert(neighbor_of(f, cs[k]) == Some(x));
            }
        }
    }
}

/// The family itself or one of its fast moves.
pub open spec fn move_or_self(f: Seq<Block>, s: Seq<u8>, t: Seq<u8>, x: Seq<Block>) -> bool {
    x == f || fast_moves(f, s, t).contains(x)
}

/// Among a family and its moves, the canonical key tells the families apart.
proof fn lemma_key_identifies(f: Seq<Block>, s: Seq<u8>, t: Seq<u8>, x: Seq<Block>, y: Seq<Block>)
    requires
        admissible(f),
        all_match(f, s, t),
        s.len() <= usize::MAX,
        t.len() <= usize::MAX,
        move_or_self(f, s, t, x),
        move_or_self(f, s, t, y),
        sort_blocks(x) == sort_blocks(y),
    ensures
        x == y,
{
    let cs = candidates(s, t);
    let ins = insertions(f, cs);
    let rem = removals(f);
    assert(fast_moves(f, s, t) == ins + rem);
    crate::descent::lemma_candidates_match(s, t);
    lemma_insertions_contains(f, cs);
    lemma_admissible_distinct(f, s, t);
    lemma_sort_len(x);
    lemma_sort_len(y);
    lemma_sort_elems(x);
    lemma_sort_elems(y);
    assert forall|z: Seq<Block>| #[trigger] fast_moves(f, s, t).contains(z) implies
        (exists|k: int| 0 <= k < cs.len() && !clashes(f, #[trigger] cs[k]) && z == f.push(cs[k]))
        || (exists|p: int| 0 <= p < f.len() && z == #[trigger] f.remove(p)) by {
        let q = choose|q: int| 0 <= q < (ins + rem).len() && (ins + rem)[q] == z;
        if q < ins.len() {
            assert(ins[q] == z);
            assert(ins.contains(z));
        } else {
            assert(rem[q - ins.len()] == z);
            assert(z == f.remove(q - ins.len()));
        }
    }
    if x != y {
        if x == f || y == f {
            // The other is a move: one block more or fewer.
            let z = if x == f { y } else { x };
            assert(fast_moves(f, s, t).contains(z));
            if exists|k: int| 0 <= k < cs.len() && !clashes(f, #[trigger] cs[k]) && z == f.push(cs[k]) {
                let k = choose|k: int| 0 <= k < cs.len() && !clashes(f, #[trigger] cs[k]) && z == f.push(cs[k]);
                assert(z.len() == f.len() + 1);
            } else {
                let p = choose|p: int| 0 <= p < f.len() && z == #[trigger] f.remove(p);
                assert(z.len() == f.len() - 1);
            }
        } else if exists|k: int| 0 <= k < cs.len() && !clashes(f, #[trigger] cs[k]) && x == f.push(cs[k]) {
            let k1 = choose|k: int| 0 <= k < cs.len() && !clashes(f, #[trigger] cs[k]) && x == f.push(cs[k]);
            let c1 = cs[k1];
            if exists|k: int| 0 <= k < cs.len() && !clashes(f, #[trigger] cs[k]) && y == f.push(cs[k]) {
                let k2 = choose|k: int| 0 <= k < cs.len() && !clashes(f, #[trigger] cs[k]) && y == f.push(cs[k]);
                let c2 = cs[k2];
                assert(is_match(s, t, c1));
                lemma_push_admissible(f, c1);
                assert(x[f.len() as int] == c1);
                assert(x.contains(c1));
                assert(sort_blocks(x).contains(c1));
                assert(y.contains(c1));
                let j = choose|j: int| 0 <= j < y.len() && y[j] == c1;
                if j < f.len() {
                    assert(y[j] == f[j]);
                    assert(f.contains(c1));
                }
                assert(c1 == c2);
            } else {
                let p = choose|p: int| 0 <= p < f.len() && y == #[trigger] f.remove(p);
                assert(x.len() != y.len());
            }
        } else {
            let p1 = choose|p: int| 0 <= p < f.len() && x == #[trigger] f.remove(p);
            if exists|k: int| 0 <= k < cs.len() && !clashes(f, #[trigger] cs[k]) && y == f.push(cs[k]) {
                let k = choose|k: int| 0 <= k < cs.len() && !clashes(f, #[trigger] cs[k]) && y == f.push(cs[k]);
                assert(x.len() != y.len());
            } else {
                let p2 = choose|p: int| 0 <= p < f.len() && y == #[trigger] f.remove(p);
                assert(p1 != p2);
                let b = f[p1];
                let idx = if p1 < p2 { p1 } else { p1 - 1 };
                assert(y[idx] == b);
                assert(y.contains(b));
                assert(sort_blocks(y).contains(b));
                assert(x.contains(b));
                let j = choose|j: int| 0 <= j < x.len() && x[j] == b;
                let jj = if j < p1 { j } else { j + 1 };
                assert(x[j] == f[jj]);
                assert(jj != p1);
            }
        }
    }
}

/// From an admissible family of exact matches, a step of the fast descent and a step of
/// the baseline descent give the same family.
pub proof fn lemma_step_agrees(f: Seq<Block>, s: Seq<u8>, t: Seq<u8>)
    requires
        admissible(f),
        all_match(f, s, t),
        s.len() <= usize::MAX,
        t.len() <= usize::MAX,
    ensures
        step_spec(f, s, t) == fast_step(f, s, t),
{
    let n = s.len();
    let m = t.len();
    let n1 = neighbors_spec(f, s, t);
    let n2 = fast_moves(f, s, t);
    lemma_same_moves(f, s, t);
    lemma_best_of_minimal(n1, f, n, m);
    lemma_best_of_minimal(n2, f, n, m);
    let r1 = best_of(n1, f, n, m);
    let r2 = best_of(n2, f, n, m);
    assert(move_or_self(f, s, t, r1));
    assert(move_or_self(f, s, t, r2));
    if r1 != r2 {
        lemma_better_total(r1, r2, n, m);
        if sort_blocks(r1) == sort_blocks(r2) {
            lemma_key_identifies(f, s, t, r1, r2);
        }
        lemma_better_total(f, f, n, m);
        lemma_better_total(r1, r1, n, m);
        lemma_better_total(r2, r2, n, m);
        if better(r2, r1, n, m) {
            if r2 == f {
                lemma_better_transitive(r1, r2, r1, n, m);
            } else {
                assert(n1.contains(r2));
                let k = choose|k: int| 0 <= k < n1.len() && n1[k] == r2;
                assert(!better(n1[k], r1, n, m));
            }
        } else {
            assert(better(r1, r2, n, m));
            if r1 == f {
                lemma_better_transitive(r2, r1, r2, n, m);
            } else {
                assert(n2.contains(r1));
                let k = choose|k: int| 0 <= k < n2.len() && n2[k] == r1;
                assert(!better(n2[k], r2, n, m));
            }
        }
    }
    assert(best_neighbor(f, s, t) == r1);
    lemma_better_total(f, f, n, m);
}

/// A fast step from an admissible family gives an admissible family.
pub proof fn lemma_fast_step_admissible(f: Seq<Block>, s: Seq<u8>, t: Seq<u8>)
    requires
        admissible(f),
        s.len() <= usize::MAX,
        t.len() <= usize::MAX,
    ensures
        admissible(fast_step(f, s, t)),
{
    let cs = candidates(s, t);
    let ins = insertions(f, cs);
    let rem = removals(f);
    let moves = fast_moves(f, s, t);
    assert(moves == ins + rem);
    crate::descent::lemma_candidates_match(s, t);
    lemma_insertions_contains(f, cs);
    lemma_best_of_minimal(moves, f, s.len(), t.len());
    let r = fast_step(f, s, t);
    if r != f {
        let q = choose|q: int| 0 <= q < moves.len() && moves[q] == r;
        if q < ins.len() {
            assert(ins[q] == r);
            assert(ins.contains(r));
            let k = choose|k: int| 0 <= k < cs.len() && !clashes(f, #[trigger] cs[k]) && r == f.push(cs[k]);
            assert(is_match(s, t, cs[k]));
            lemma_push_admissible(f, cs[k]);
        } else {
            assert(rem[q - ins.len()] == r);
            lemma_remove_admissible(f, q - ins.len());
        }
    }
}

/// From an admissible family of exact matches, the fast descent and the baseline
/// descent pass through the same family after every number of steps, and that family
/// is again admissible and made of exact matches.
pub proof fn lemma_descents_agree(f: Seq<Block>, s: Seq<u8>, t: Seq<u8>, k: nat)
    requires
        admissible(f),
        all_match(f, s, t),
        s.len() <= usize::MAX,
        t.len() <= usize::MAX,
    ensures
        descend(f, s, t, k) == fast_descend(f, s, t, k),
        admissible(fast_descend(f, s, t, k)),
        all_match(fast_descend(f, s, t, k), s, t),
    decreases k,
{
    if k > 0 {
        let j = (k - 1) as nat;
        lemma_descents_agree(f, s, t, j);
        let g = fast_descend(f, s, t, j);
        lemma_step_agrees(g, s, t);
        lemma_fast_step_admissible(g, s, t);
        crate::v2::lemma_fast_step_keeps_matches(g, s, t);
    }
}

/// From an admissible family of exact matches, the baseline descent stops at a family
/// exactly when the fast descent does.
pub proof fn lemma_fixed_points_agree(f: Seq<Block>, s: Seq<u8>, t: Seq<u8>)
    requires
        admissible(f),
        all_match(f, s, t),
        s.len() <= usize::MAX,
        t.len() <= usize::MAX,
    ensures
        is_fixed_point(f, s, t) <==> is_fast_fixed_point(f, s, t),
{
    lemma_step_agrees(f, s, t);
    lemma_better_total(f, f, s.len(), t.len());
}

/// Both descents, started from the empty family, stop at the same family: wherever the
/// baseline descent stops and wherever the fast descent stops, after however many
/// steps each, the two families are equal.
///
/// Only the strings' lengths being machine words is needed here; the length bound of
/// [`crate::v2::sizes_fit`] is asked only by the fast family's constructor, for its
/// signed energy updates.
pub proof fn lemma_both_descents_stop_together(s: Seq<u8>, t: Seq<u8>, k1: nat, k2: nat)
    requires
        s.len() <= usize::MAX,
        t.len() <= usize::MAX,
        is_fixed_point(descend(Seq::<Block>::empty(), s, t, k1), s, t),
        is_fast_fixed_point(fast_descend(Seq::<Block>::empty(), s, t, k2), s, t),
    ensures
        descend(Seq::<Block>::empty(), s, t, k1) == fast_descend(Seq::<Block>::empty(), s, t, k2),
{
    let e = Seq::<Block>::empty();
    lemma_descents_agree(e, s, t, k1);
    lemma_descents_agree(e, s, t, k2);
    lemma_fixed_points_agree(fast_descend(e, s, t, k1), s, t);
    crate::v2::lemma_fast_descent_result_unique(e, s, t, k1, k2);
}

} // verus!
