//! Position-level mappings between source and target derived from a block family.
use vstd::prelude::*;
use std::collections::HashMap;
use crate::types::{Block, ends_fit, same_byte};
use crate::descent::is_match;
use crate::energy::{all_fit, block_fits};

verus! {

broadcast use vstd::std_specs::hash::group_hash_axioms;

/// Which source positions map to which target positions, and the positions left unmapped.
#[derive(Debug, Clone)]
pub struct MappingResult {
    /// Every mapped source position with its target positions, in increasing order.
    pub source_to_target: HashMap<usize, Vec<usize>>,
    /// Every mapped target position with its source positions, in increasing order.
    pub target_to_source: HashMap<usize, Vec<usize>>,
    /// Source positions below the source length that no block maps, in increasing order.
    pub unmapped_source: Vec<usize>,
    /// Target positions below the target length that no block maps, in increasing order.
    pub unmapped_target: Vec<usize>,
}

/// The position pairs `(i + k, j + k)`, `k < len`, of one block.
pub open spec fn block_pairs(b: Block) -> Seq<(usize, usize)> {
    Seq::new(b.len as nat, |k: int| ((b.i + k) as usize, (b.j + k) as usize))
}

/// The position pairs of all blocks, block by block.
pub open spec fn pairs_of(blocks: Seq<Block>) -> Seq<(usize, usize)>
    decreases blocks.len(),
{
    if blocks.len() == 0 {
        Seq::empty()
    } else {
        pairs_of(blocks.drop_last()) + block_pairs(blocks.last())
    }
}

/// The partners of `x` among the pairs, in pair order; `forward` reads pairs as
/// `(x, partner)`, otherwise as `(partner, x)`.
pub open spec fn partners(ps: Seq<(usize, usize)>, x: usize, forward: bool) -> Seq<usize>
    decreases ps.len(),
{
    if ps.len() == 0 {
        Seq::empty()
    } else {
        let rest = partners(ps.drop_last(), x, forward);
        let (a, b) = ps.last();
        if forward && a == x {
            rest.push(b)
        } else if !forward && b == x {
            rest.push(a)
        } else {
            rest
        }
    }
}

/// Whether `x` occurs in some pair (as first component if `forward`, else as second).
pub open spec fn occurs(ps: Seq<(usize, usize)>, x: usize, forward: bool) -> bool {
    exists|k: int| 0 <= k < ps.len() && #[trigger] side_of(ps[k], forward) == x
}

/// The first component of a pair if `forward`, else the second.
pub open spec fn side_of(p: (usize, usize), forward: bool) -> usize {
    if forward {
        p.0
    } else {
        p.1
    }
}

/// Insert `x` before the first element greater than it.
pub open spec fn insert_ascending(s: Seq<usize>, x: usize) -> Seq<usize>
    decreases s.len(),
{
    if s.len() == 0 {
        seq![x]
    } else if x < s[0] {
        seq![x] + s
    } else {
        seq![s[0]] + insert_ascending(s.drop_first(), x)
    }
}

/// Insertion sort into increasing order.
pub open spec fn sort_ascending(s: Seq<usize>) -> Seq<usize>
    decreases s.len(),
{
    if s.len() == 0 {
        s
    } else {
        insert_ascending(sort_ascending(s.drop_last()), s.last())
    }
}

/// The positions below `n` that do not occur in the pairs, in increasing order.
pub open spec fn unmapped_upto(ps: Seq<(usize, usize)>, n: nat, forward: bool) -> Seq<usize>
    decreases n,
{
    if n == 0 {
        Seq::empty()
    } else {
        let rest = unmapped_upto(ps, (n - 1) as nat, forward);
        if occurs(ps, (n - 1) as usize, forward) {
            rest
        } else {
            rest.push((n - 1) as usize)
        }
    }
}

/// The map from each occurring position to its sorted partners.
pub open spec fn partner_map_ok(m: Map<usize, Vec<usize>>, ps: Seq<(usize, usize)>, forward: bool) -> bool {
    &&& forall|x: usize| #[trigger] m.contains_key(x) <==> occurs(ps, x, forward)
    &&& forall|x: usize| #[trigger] m.contains_key(x) ==> m[x]@ == sort_ascending(partners(ps, x, forward))
}

pub(crate) fn insert_into_ascending(v: &mut Vec<usize>, x: usize)
    ensures
        final(v)@ == insert_ascending(old(v)@, x),
{
    let ghost s = v@;
    let mut p: usize = 0;
    assert(s.skip(0) =~= s);
    assert(s.take(0) + s =~= s);
    while p < v.len() && !(x < v[p])
        invariant
            p <= v.len(),
            v@ == s,
            insert_ascending(s, x) == s.take(p as int) + insert_ascending(s.skip(p as int), x),
        decreases v.len() - p,
    {
        proof {
            let t = s.skip(p as int);
            assert(t[0] == s[p as int]);
            assert(t.drop_first() =~= s.skip(p + 1));
            assert(s.take(p as int) + seq![s[p as int]] =~= s.take(p + 1));
        }
        p = p + 1;
    }
    proof {
        if p < s.len() {
            assert(s.skip(p as int)[0] == s[p as int]);
        } else {
            assert(s.skip(p as int) =~= Seq::<usize>::empty());
        }
        assert(s.take(p as int) + (seq![x] + s.skip(p as int)) =~= s.insert(p as int, x));
    }
    v.insert(p, x);
}

/// Add the pair `(key, val)` to a partner map.
fn add_partner(map: &mut HashMap<usize, Vec<usize>>, key: usize, val: usize, ps: Ghost<Seq<(usize, usize)>>, forward: bool)
    requires
        partner_map_ok(old(map)@, ps@, forward),
    ensures
        partner_map_ok(final(map)@, ps@.push(if forward { (key, val) } else { (val, key) }), forward),
{
    let ghost ps2 = ps@.push(if forward { (key, val) } else { (val, key) });
    let mut v = match map.remove(&key) {
        Some(v) => v,
        None => Vec::new(),
    };
    let ghost old_v = v@;
    insert_into_ascending(&mut v, val);
    map.insert(key, v);
    proof {
        assert(ps2.drop_last() =~= ps@);
        assert(side_of(ps2[ps2.len() - 1], forward) == key);
        assert forall|x: usize| #[trigger] map@.contains_key(x) <==> occurs(ps2, x, forward) by {
            if occurs(ps@, x, forward) {
                let k = choose|k: int| 0 <= k < ps@.len() && #[trigger] side_of(ps@[k], forward) == x;
                assert(ps2[k] == ps@[k]);
            }
            if occurs(ps2, x, forward) && x != key {
                let k = choose|k: int| 0 <= k < ps2.len() && #[trigger] side_of(ps2[k], forward) == x;
                assert(ps2[k] == ps@[k]);
            }
        }
        assert forall|x: usize| #[trigger] map@.contains_key(x) implies map@[x]@ == sort_ascending(partners(ps2, x, forward)) by {
            if x == key {
                assert(partners(ps2, key, forward) == partners(ps@, key, forward).push(val));
                assert(partners(ps@, key, forward).push(val).drop_last() =~= partners(ps@, key, forward));
                if !old(map)@.contains_key(key) {
                    assert(partners(ps@, key, forward) =~= Seq::<usize>::empty()) by {
                        lemma_partners_absent(ps@, key, forward);
                    }
                    assert(old_v =~= Seq::<usize>::empty());
                } else {
                    assert(old_v == old(map)@[key]@);
                }
                assert(map@[x]@ == insert_ascending(old_v, val));
                let pp = partners(ps@, key, forward).push(val);
                assert(pp.last() == val);
                assert(sort_ascending(pp) == insert_ascending(sort_ascending(pp.drop_last()), pp.last()));
            } else {
                assert(partners(ps2, x, forward) == partners(ps@, x, forward));
                assert(old(map)@.contains_key(x));
                assert(map@[x] == old(map)@[x]);
            }
        }
    }
}

/// A position that occurs in no pair has no partner.
proof fn lemma_partners_absent(ps: Seq<(usize, usize)>, x: usize, forward: bool)
    requires
        !occurs(ps, x, forward),
    ensures
        partners(ps, x, forward) == Seq::<usize>::empty(),
    decreases ps.len(),
{
    if ps.len() > 0 {
        assert(side_of(ps[ps.len() - 1], forward) != x);
        assert(!occurs(ps.drop_last(), x, forward)) by {
            if occurs(ps.drop_last(), x, forward) {
                let k = choose|k: int| 0 <= k < ps.drop_last().len() && #[trigger] side_of(ps.drop_last()[k], forward) == x;
                assert(ps[k] == ps.drop_last()[k]);
            }
        }
        lemma_partners_absent(ps.drop_last(), x, forward);
    }
}

/// The positions below `n` that the map does not hold, in increasing order.
fn unmapped_positions(map: &HashMap<usize, Vec<usize>>, n: usize, ps: Ghost<Seq<(usize, usize)>>, forward: bool) -> (r: Vec<usize>)
    requires
        partner_map_ok(map@, ps@, forward),
    ensures
        r@ == unmapped_upto(ps@, n as nat, forward),
{
    let mut r: Vec<usize> = Vec::new();
    let mut x: usize = 0;
    while x < n
        invariant
            x <= n,
            partner_map_ok(map@, ps@, forward),
            r@ == unmapped_upto(ps@, x as nat, forward),
        decreases n - x,
    {
        if !map.contains_key(&x) {
            r.push(x);
        }
        x = x + 1;
    }
    r
}

/// Convert a block family to a position-level mapping of a source of length
/// `source_len` and a target of length `target_len`.
pub fn convert_mdl_to_mapping(source_len: usize, target_len: usize, blocks: &[Block]) -> (r: MappingResult)
    requires
        forall|k: int| 0 <= k < blocks@.len() ==> ends_fit(#[trigger] blocks@[k]),
    ensures
        partner_map_ok(r.source_to_target@, pairs_of(blocks@), true),
        partner_map_ok(r.target_to_source@, pairs_of(blocks@), false),
        r.unmapped_source@ == unmapped_upto(pairs_of(blocks@), source_len as nat, true),
        r.unmapped_target@ == unmapped_upto(pairs_of(blocks@), target_len as nat, false),
{
    let mut s2t: HashMap<usize, Vec<usize>> = HashMap::new();
    let mut t2s: HashMap<usize, Vec<usize>> = HashMap::new();
    let ghost mut done: Seq<(usize, usize)> = Seq::empty();
    proof {
        assert(partner_map_ok(s2t@, done, true));
        assert(partner_map_ok(t2s@, done, false));
    }
    let mut q: usize = 0;
    while q < blocks.len()
        invariant
            q <= blocks@.len(),
            forall|k: int| 0 <= k < blocks@.len() ==> ends_fit(#[trigger] blocks@[k]),
            done == pairs_of(blocks@.take(q as int)),
            partner_map_ok(s2t@, done, true),
            partner_map_ok(t2s@, done, false),
        decreases blocks@.len() - q,
    {
        let b = blocks[q];
        proof {
            assert(ends_fit(blocks@[q as int]));
            assert(blocks@.take(q + 1).drop_last() =~= blocks@.take(q as int));
            assert(blocks@.take(q + 1).last() == b);
        }
        let ghost start = done;
        let mut k: usize = 0;
        while k < b.len
            invariant
                ends_fit(b),
                k <= b.len,
                done == start + block_pairs(b).take(k as int),
                partner_map_ok(s2t@, done, true),
                partner_map_ok(t2s@, done, false),
            decreases b.len - k,
        {
            let si = b.i + k;
            let tj = b.j + k;
            add_partner(&mut s2t, si, tj, Ghost(done), true);
            add_partner(&mut t2s, tj, si, Ghost(done), false);
            proof {
                assert(start + block_pairs(b).take(k + 1) =~= done.push((si, tj)));
                done = done.push((si, tj));
            }
            k = k + 1;
        }
        proof {
            assert(block_pairs(b).take(k as int) =~= block_pairs(b));
        }
        q = q + 1;
    }
    proof {
        assert(blocks@.take(q as int) =~= blocks@);
    }
    let unmapped_source = unmapped_positions(&s2t, source_len, Ghost(done), true);
    let unmapped_target = unmapped_positions(&t2s, target_len, Ghost(done), false);
    MappingResult {
        source_to_target: s2t,
        target_to_source: t2s,
        unmapped_source,
        unmapped_target,
    }
}

/// The position pair at offset `d` along block `b`.
pub open spec fn pair_at(b: Block, d: int) -> (usize, usize) {
    ((b.i + d) as usize, (b.j + d) as usize)
}

/// Whether `(x, y)` lies on one of the blocks: `x = i + d` and `y = j + d` with `d < len`.
pub open spec fn on_some_block(blocks: Seq<Block>, x: usize, y: usize) -> bool {
    exists|q: int, d: int| 0 <= q < blocks.len() && 0 <= d < blocks[q].len && #[trigger] pair_at(blocks[q], d) == (x, y)
}

/// Inserting into ascending order adds exactly the inserted element.
proof fn lemma_insert_ascending_elems(s: Seq<usize>, x: usize)
    ensures
        insert_ascending(s, x).len() == s.len() + 1,
        forall|y: usize| #[trigger] insert_ascending(s, x).contains(y) <==> (y == x || s.contains(y)),
    decreases s.len(),
{
    let r = insert_ascending(s, x);
    if s.len() > 0 && !(x < s[0]) {
        let rest = insert_ascending(s.drop_first(), x);
        lemma_insert_ascending_elems(s.drop_first(), x);
        assert(r == seq![s[0]] + rest);
        assert forall|y: usize| #[trigger] r.contains(y) <==> (y == x || s.contains(y)) by {
            if r.contains(y) {
                let k = choose|k: int| 0 <= k < r.len() && r[k] == y;
                if k > 0 {
                    assert(rest[k - 1] == y);
                    assert(rest.contains(y));
                    if y != x {
                        let j = choose|j: int| 0 <= j < s.drop_first().len() && s.drop_first()[j] == y;
                        assert(s[j + 1] == y);
                    }
                }
            }
            if y == x {
                assert(rest.contains(x));
                let k = choose|k: int| 0 <= k < rest.len() && rest[k] == x;
                assert(r[k + 1] == x);
            } else if s.contains(y) {
                let j = choose|j: int| 0 <= j < s.len() && s[j] == y;
                if j == 0 {
                    assert(r[0] == y);
                } else {
                    assert(s.drop_first()[j - 1] == y);
                    assert(rest.contains(y));
                    let k = choose|k: int| 0 <= k < rest.len() && rest[k] == y;
                    assert(r[k + 1] == y);
                }
            }
        }
    } else if s.len() > 0 {
        assert(r == seq![x] + s);
        assert forall|y: usize| #[trigger] r.contains(y) <==> (y == x || s.contains(y)) by {
            if r.contains(y) {
                let k = choose|k: int| 0 <= k < r.len() && r[k] == y;
                if k > 0 {
                    assert(s[k - 1] == y);
                }
            }
            if y == x {
                assert(r[0] == x);
            } else if s.contains(y) {
                let j = choose|j: int| 0 <= j < s.len() && s[j] == y;
                assert(r[j + 1] == y);
            }
        }
    } else {
        assert(r == seq![x]);
        assert forall|y: usize| #[trigger] r.contains(y) <==> (y == x || s.contains(y)) by {
            if y == x {
                assert(r[0] == x);
            }
        }
    }
}

/// Sorting into ascending order keeps the length and the elements.
pub proof fn lemma_sort_ascending_elems(s: Seq<usize>)
    ensures
        sort_ascending(s).len() == s.len(),
        forall|y: usize| #[trigger] sort_ascending(s).contains(y) <==> s.contains(y),
    decreases s.len(),
{
    if s.len() > 0 {
        let d = s.drop_last();
        lemma_sort_ascending_elems(d);
        lemma_insert_ascending_elems(sort_ascending(d), s.last());
        assert forall|y: usize| #[trigger] sort_ascending(s).contains(y) <==> s.contains(y) by {
            if s.contains(y) && y != s.last() {
                let j = choose|j: int| 0 <= j < s.len() && s[j] == y;
                assert(j < s.len() - 1);
                assert(d[j] == y);
                assert(d.contains(y));
            }
            if sort_ascending(d).contains(y) {
                assert(d.contains(y));
                let j = choose|j: int| 0 <= j < d.len() && d[j] == y;
                assert(s[j] == y);
            }
            if y == s.last() {
                assert(s[s.len() - 1] == y);
            }
        }
    }
}

/// Every partner comes from a pair, and a position that occurs has a partner.
proof fn lemma_partners_elems(ps: Seq<(usize, usize)>, x: usize, forward: bool)
    ensures
        forall|y: usize| #[trigger] partners(ps, x, forward).contains(y) ==> ps.contains(if forward { (x, y) } else { (y, x) }),
        occurs(ps, x, forward) ==> partners(ps, x, forward).len() > 0,
        forall|y: usize| ps.contains(if forward { (x, y) } else { (y, x) }) ==> #[trigger] partners(ps, x, forward).contains(y),
    decreases ps.len(),
{
    if ps.len() > 0 {
        let d = ps.drop_last();
        lemma_partners_elems(d, x, forward);
        let rest = partners(d, x, forward);
        let r = partners(ps, x, forward);
        let (a, b) = ps.last();
        assert forall|y: usize| #[trigger] r.contains(y) implies ps.contains(if forward { (x, y) } else { (y, x) }) by {
            let k = choose|k: int| 0 <= k < r.len() && r[k] == y;
            if k < rest.len() {
                assert(rest[k] == y);
                assert(rest.contains(y));
                let pq = if forward { (x, y) } else { (y, x) };
                let j = choose|j: int| 0 <= j < d.len() && d[j] == pq;
                assert(ps[j] == pq);
            } else {
                assert(ps[ps.len() - 1] == ps.last());
            }
        }
        if occurs(ps, x, forward) {
            let k = choose|k: int| 0 <= k < ps.len() && #[trigger] side_of(ps[k], forward) == x;
            if k == ps.len() - 1 {
                assert(r.len() == rest.len() + 1);
            } else {
                assert(d[k] == ps[k]);
                assert(occurs(d, x, forward));
            }
        }
        assert forall|y: usize| ps.contains(if forward { (x, y) } else { (y, x) }) implies #[trigger] r.contains(y) by {
            let pq = if forward { (x, y) } else { (y, x) };
            let j = choose|j: int| 0 <= j < ps.len() && ps[j] == pq;
            if j == ps.len() - 1 {
                assert(r[r.len() - 1] == y);
            } else {
                assert(d[j] == pq);
                assert(d.contains(pq));
                assert(rest.contains(y));
                let k = choose|k: int| 0 <= k < rest.len() && rest[k] == y;
                assert(r[k] == y);
            }
        }
    }
}

/// The pairs of a family are exactly the positions on its blocks.
proof fn lemma_pairs_of_elems(blocks: Seq<Block>)
    requires
        forall|k: int| 0 <= k < blocks.len() ==> ends_fit(#[trigger] blocks[k]),
    ensures
        forall|p: (usize, usize)| #[trigger] pairs_of(blocks).contains(p) ==> on_some_block(blocks, p.0, p.1),
        forall|q: int, d: int|
            0 <= q < blocks.len() && 0 <= d < blocks[q].len ==> pairs_of(blocks).contains(#[trigger] pair_at(blocks[q], d)),
    decreases blocks.len(),
{
    if blocks.len() > 0 {
        let bs = blocks.drop_last();
        assert forall|k: int| 0 <= k < bs.len() implies ends_fit(#[trigger] bs[k]) by {
            assert(bs[k] == blocks[k]);
        }
        lemma_pairs_of_elems(bs);
        let prev = pairs_of(bs);
        let b = blocks.last();
        let here = block_pairs(b);
        let all = pairs_of(blocks);
        assert(all == prev + here);
        assert forall|p: (usize, usize)| #[trigger] all.contains(p) implies on_some_block(blocks, p.0, p.1) by {
            let k = choose|k: int| 0 <= k < all.len() && all[k] == p;
            if k < prev.len() {
                assert(prev[k] == p);
                assert(prev.contains(p));
                let (q, d) = choose|q: int, d: int| 0 <= q < bs.len() && 0 <= d < bs[q].len && #[trigger] pair_at(bs[q], d) == p;
                assert(blocks[q] == bs[q]);
                assert(pair_at(blocks[q], d) == p);
            } else {
                let d = k - prev.len();
                assert(here[d] == p);
                assert(pair_at(blocks[blocks.len() - 1], d) == p);
            }
        }
        assert forall|q: int, d: int| 0 <= q < blocks.len() && 0 <= d < blocks[q].len implies all.contains(#[trigger] pair_at(blocks[q], d)) by {
            let p = pair_at(blocks[q], d);
            if q < bs.len() {
                assert(bs[q] == blocks[q]);
                assert(prev.contains(pair_at(bs[q], d)));
                let k = choose|k: int| 0 <= k < prev.len() && prev[k] == p;
                assert(all[k] == p);
            } else {
                assert(here[d] == p);
                assert(all[prev.len() + d] == p);
            }
        }
    }
}

/// A mapping built from a family holds exactly the position pairs on its blocks: each
/// mapped source position's targets, and each mapped target position's sources, are
/// the positions that some block pairs with it, and every block pairs each of its
/// positions.
pub proof fn lemma_mapping_is_block_pairs(
    blocks: Seq<Block>,
    s2t: Map<usize, Vec<usize>>,
    t2s: Map<usize, Vec<usize>>,
)
    requires
        forall|k: int| 0 <= k < blocks.len() ==> ends_fit(#[trigger] blocks[k]),
        partner_map_ok(s2t, pairs_of(blocks), true),
        partner_map_ok(t2s, pairs_of(blocks), false),
    ensures
        forall|x: usize, y: usize| s2t.contains_key(x) && #[trigger] s2t[x]@.contains(y) ==> on_some_block(blocks, x, y),
        forall|x: usize, y: usize| t2s.contains_key(y) && #[trigger] t2s[y]@.contains(x) ==> on_some_block(blocks, x, y),
        forall|q: int, d: int|
            0 <= q < blocks.len() && 0 <= d < blocks[q].len ==> {
                let p = #[trigger] pair_at(blocks[q], d);
                &&& s2t.contains_key(p.0) && s2t[p.0]@.contains(p.1)
                &&& t2s.contains_key(p.1) && t2s[p.1]@.contains(p.0)
            },
        forall|x: usize| #[trigger] s2t.contains_key(x) ==> s2t[x]@.len() > 0,
        forall|y: usize| #[trigger] t2s.contains_key(y) ==> t2s[y]@.len() > 0,
{
    let ps = pairs_of(blocks);
    lemma_pairs_of_elems(blocks);
    assert forall|x: usize, y: usize| s2t.contains_key(x) && #[trigger] s2t[x]@.contains(y) implies on_some_block(blocks, x, y) by {
        lemma_sort_ascending_elems(partners(ps, x, true));
        lemma_partners_elems(ps, x, true);
        assert(partners(ps, x, true).contains(y));
        assert(ps.contains((x, y)));
    }
    assert forall|x: usize, y: usize| t2s.contains_key(y) && #[trigger] t2s[y]@.contains(x) implies on_some_block(blocks, x, y) by {
        lemma_sort_ascending_elems(partners(ps, y, false));
        lemma_partners_elems(ps, y, false);
        assert(partners(ps, y, false).contains(x));
        assert(ps.contains((x, y)));
    }
    assert forall|q: int, d: int| 0 <= q < blocks.len() && 0 <= d < blocks[q].len implies {
        let p = #[trigger] pair_at(blocks[q], d);
        &&& s2t.contains_key(p.0) && s2t[p.0]@.contains(p.1)
        &&& t2s.contains_key(p.1) && t2s[p.1]@.contains(p.0)
    } by {
        let x = pair_at(blocks[q], d).0;
        let y = pair_at(blocks[q], d).1;
        assert(ps.contains((x, y)));
        let k = choose|k: int| 0 <= k < ps.len() && ps[k] == (x, y);
        assert(side_of(ps[k], true) == x);
        assert(side_of(ps[k], false) == y);
        assert(occurs(ps, x, true));
        assert(occurs(ps, y, false));
        lemma_sort_ascending_elems(partners(ps, x, true));
        lemma_partners_elems(ps, x, true);
        lemma_sort_ascending_elems(partners(ps, y, false));
        lemma_partners_elems(ps, y, false);
        assert(partners(ps, x, true).contains(y));
        assert(partners(ps, y, false).contains(x));
    }
    assert forall|x: usize| #[trigger] s2t.contains_key(x) implies s2t[x]@.len() > 0 by {
        lemma_sort_ascending_elems(partners(ps, x, true));
        lemma_partners_elems(ps, x, true);
    }
    assert forall|y: usize| #[trigger] t2s.contains_key(y) implies t2s[y]@.len() > 0 by {
        lemma_sort_ascending_elems(partners(ps, y, false));
        lemma_partners_elems(ps, y, false);
    }
}

/// The two maps of a mapping built from a family agree: a source position maps to a
/// target position exactly when that target position maps back to it.
pub proof fn lemma_mapping_symmetric(
    blocks: Seq<Block>,
    s2t: Map<usize, Vec<usize>>,
    t2s: Map<usize, Vec<usize>>,
)
    requires
        forall|k: int| 0 <= k < blocks.len() ==> ends_fit(#[trigger] blocks[k]),
        partner_map_ok(s2t, pairs_of(blocks), true),
        partner_map_ok(t2s, pairs_of(blocks), false),
    ensures
        forall|x: usize, y: usize|
            #![trigger s2t[x]@.contains(y)]
            #![trigger t2s[y]@.contains(x)]
            (s2t.contains_key(x) && s2t[x]@.contains(y)) <==> (t2s.contains_key(y) && t2s[y]@.contains(x)),
{
    lemma_mapping_is_block_pairs(blocks, s2t, t2s);
    assert forall|x: usize, y: usize| on_some_block(blocks, x, y) implies (s2t.contains_key(x) && s2t[x]@.contains(y)) && (
    t2s.contains_key(y) && t2s[y]@.contains(x)) by {
        let (q, d) = choose|q: int, d: int| 0 <= q < blocks.len() && 0 <= d < blocks[q].len && #[trigger] pair_at(blocks[q], d) == (x, y);
        assert(pair_at(blocks[q], d) == (x, y));
    }
}

/// When every block is an exact match of `s` and `t`, every pair that a mapping built
/// from the family holds joins two equal bytes of the strings.
pub proof fn lemma_mapped_bytes_agree(
    blocks: Seq<Block>,
    s: Seq<u8>,
    t: Seq<u8>,
    s2t: Map<usize, Vec<usize>>,
    t2s: Map<usize, Vec<usize>>,
)
    requires
        forall|k: int| 0 <= k < blocks.len() ==> ends_fit(#[trigger] blocks[k]),
        forall|k: int| 0 <= k < blocks.len() ==> is_match(s, t, #[trigger] blocks[k]),
        partner_map_ok(s2t, pairs_of(blocks), true),
        partner_map_ok(t2s, pairs_of(blocks), false),
    ensures
        forall|x: usize, y: usize|
            s2t.contains_key(x) && #[trigger] s2t[x]@.contains(y) ==> x < s.len() && y < t.len() && s[x as int] == t[y as int],
        forall|x: usize, y: usize|
            t2s.contains_key(y) && #[trigger] t2s[y]@.contains(x) ==> x < s.len() && y < t.len() && s[x as int] == t[y as int],
{
    lemma_mapping_is_block_pairs(blocks, s2t, t2s);
    assert forall|x: usize, y: usize| on_some_block(blocks, x, y) implies x < s.len() && y < t.len() && s[x as int] == t[y as int] by {
        let (q, d) = choose|q: int, d: int| 0 <= q < blocks.len() && 0 <= d < blocks[q].len && #[trigger] pair_at(blocks[q], d) == (x, y);
        assert(is_match(s, t, blocks[q]));
        assert(ends_fit(blocks[q]));
        assert(same_byte(s, t, blocks[q].i + d, blocks[q].j + d));
    }
}

/// The positions below `k` that occur in the pairs (as first components if `forward`).
pub open spec fn occurring_below(ps: Seq<(usize, usize)>, k: nat, forward: bool) -> Set<usize> {
    Set::new(|x: usize| x < k && occurs(ps, x, forward))
}

/// Below any bound, the occurring and the unmapped positions together are all positions.
proof fn lemma_occurring_plus_unmapped(ps: Seq<(usize, usize)>, k: nat, forward: bool)
    requires
        k <= usize::MAX,
    ensures
        occurring_below(ps, k, forward).finite(),
        occurring_below(ps, k, forward).len() + unmapped_upto(ps, k, forward).len() == k,
    decreases k,
{
    if k == 0 {
        assert(occurring_below(ps, 0, forward) =~= Set::<usize>::empty());
    } else {
        let j = (k - 1) as nat;
        lemma_occurring_plus_unmapped(ps, j, forward);
        let prev = occurring_below(ps, j, forward);
        let x = j as usize;
        if occurs(ps, x, forward) {
            assert(occurring_below(ps, k, forward) =~= prev.insert(x));
            assert(!prev.contains(x));
        } else {
            assert(occurring_below(ps, k, forward) =~= prev);
        }
    }
}

/// Every position that occurs in the pairs of a family inside strings of lengths `n`
/// and `m` lies inside its string.
proof fn lemma_occurs_inside(blocks: Seq<Block>, n: nat, m: nat, x: usize, forward: bool)
    requires
        forall|k: int| 0 <= k < blocks.len() ==> ends_fit(#[trigger] blocks[k]),
        all_fit(blocks, n, m),
        occurs(pairs_of(blocks), x, forward),
    ensures
        forward ==> x < n,
        !forward ==> x < m,
{
    let ps = pairs_of(blocks);
    lemma_pairs_of_elems(blocks);
    let k = choose|k: int| 0 <= k < ps.len() && #[trigger] side_of(ps[k], forward) == x;
    assert(ps.contains(ps[k]));
    let (q, d) = choose|q: int, d: int| 0 <= q < blocks.len() && 0 <= d < blocks[q].len && #[trigger] pair_at(blocks[q], d) == ps[k];
    assert(block_fits(blocks[q], n, m));
    assert(ends_fit(blocks[q]));
}

/// For a family inside strings of lengths `n` and `m`, the mapped positions of each
/// string and its unmapped positions together are all its positions, each once.
pub proof fn lemma_mapping_coverage(
    blocks: Seq<Block>,
    n: nat,
    m: nat,
    s2t: Map<usize, Vec<usize>>,
    t2s: Map<usize, Vec<usize>>,
)
    requires
        forall|k: int| 0 <= k < blocks.len() ==> ends_fit(#[trigger] blocks[k]),
        all_fit(blocks, n, m),
        n <= usize::MAX,
        m <= usize::MAX,
        partner_map_ok(s2t, pairs_of(blocks), true),
        partner_map_ok(t2s, pairs_of(blocks), false),
    ensures
        s2t.dom().finite(),
        t2s.dom().finite(),
        s2t.dom().len() + unmapped_upto(pairs_of(blocks), n, true).len() == n,
        t2s.dom().len() + unmapped_upto(pairs_of(blocks), m, false).len() == m,
{
    let ps = pairs_of(blocks);
    lemma_occurring_plus_unmapped(ps, n, true);
    lemma_occurring_plus_unmapped(ps, m, false);
    assert(s2t.dom() =~= occurring_below(ps, n, true)) by {
        assert forall|x: usize| s2t.dom().contains(x) implies x < n by {
            lemma_occurs_inside(blocks, n, m, x, true);
        }
    }
    assert(t2s.dom() =~= occurring_below(ps, m, false)) by {
        assert forall|x: usize| t2s.dom().contains(x) implies x < m by {
            lemma_occurs_inside(blocks, n, m, x, false);
        }
    }
}

} // verus!
