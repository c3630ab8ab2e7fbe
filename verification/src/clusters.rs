//! Clusters: maximal diagonal runs of mapped position pairs, read along the target.
use vstd::prelude::*;
use std::collections::HashMap;
use crate::mapping::MappingResult;
use crate::text::{lossy_string, utf8_lossy};

verus! {

broadcast use vstd::std_specs::hash::group_hash_axioms;

/// A run of mapped `(source, target)` pairs. Its density, the number of pairs over the
/// width of its source span, is `byte_len / (source_range.1 - source_range.0 + 1)`.
#[derive(Debug)]
pub struct ByteCluster {
    pub id: usize,
    pub source_indices: Vec<usize>,
    pub source_range: (usize, usize),
    pub target_range: (usize, usize),
    pub byte_len: usize,
    pub fragment_count: usize,
    pub content: String,
}

impl Clone for ByteCluster {
    fn clone(&self) -> (r: Self)
        ensures
            r@ == self@,
    {
        let source_indices = self.source_indices.clone();
        proof {
            assert(source_indices@ =~= self.source_indices@);
        }
        ByteCluster {
            id: self.id,
            source_indices,
            source_range: self.source_range,
            target_range: self.target_range,
            byte_len: self.byte_len,
            fragment_count: self.fragment_count,
            content: self.content.clone(),
        }
    }
}

/// A cluster with its sequences as mathematical sequences.
pub struct ByteClusterView {
    pub id: usize,
    pub source_indices: Seq<usize>,
    pub source_range: (usize, usize),
    pub target_range: (usize, usize),
    pub byte_len: usize,
    pub fragment_count: usize,
    pub content: Seq<char>,
}

impl View for ByteCluster {
    type V = ByteClusterView;

    open spec fn view(&self) -> ByteClusterView {
        ByteClusterView {
            id: self.id,
            source_indices: self.source_indices@,
            source_range: self.source_range,
            target_range: self.target_range,
            byte_len: self.byte_len,
            fragment_count: self.fragment_count,
            content: self.content@,
        }
    }
}

/// The views of a sequence of clusters.
pub open spec fn cluster_views(v: Seq<ByteCluster>) -> Seq<ByteClusterView> {
    v.map_values(|c: ByteCluster| c@)
}

/// The least element of a nonempty sequence.
pub open spec fn seq_min(s: Seq<usize>) -> usize
    decreases s.len(),
{
    if s.len() <= 1 {
        s[0]
    } else {
        let m = seq_min(s.drop_last());
        if s.last() < m { s.last() } else { m }
    }
}

/// The greatest element of a nonempty sequence.
pub open spec fn seq_max(s: Seq<usize>) -> usize
    decreases s.len(),
{
    if s.len() <= 1 {
        s[0]
    } else {
        let m = seq_max(s.drop_last());
        if s.last() > m { s.last() } else { m }
    }
}

/// How many elements of `s` do not directly follow the element before them.
pub open spec fn breaks(s: Seq<usize>) -> nat
    decreases s.len(),
{
    if s.len() <= 1 {
        0
    } else {
        breaks(s.drop_last()) + if s.last() != s[s.len() - 2] + 1 { 1nat } else { 0nat }
    }
}

/// The source positions of `(source, target)` pairs.
pub open spec fn sources_of(g: Seq<(usize, usize)>) -> Seq<usize> {
    g.map_values(|p: (usize, usize)| p.0)
}

/// The cluster numbered `id` of a nonempty group of `(source, target)` pairs: the span of
/// its sources, the targets of its first and last pair, its number of pairs, the number
/// of unbroken stretches of its sources, and the text of the source bytes it maps.
pub open spec fn cluster_of(source: Seq<u8>, g: Seq<(usize, usize)>, id: usize) -> ByteClusterView {
    let src = sources_of(g);
    ByteClusterView {
        id,
        source_indices: src,
        source_range: (seq_min(src), seq_max(src)),
        target_range: (g[0].1, g.last().1),
        byte_len: g.len() as usize,
        fragment_count: (1 + breaks(src)) as usize,
        content: utf8_lossy(src.map_values(|s: usize| source[s as int])),
    }
}

/// All `(source, target)` pairs of the sources below `n`, by source, each source's
/// targets in the order the map holds them.
pub open spec fn all_pairs(s2t: Map<usize, Vec<usize>>, n: nat) -> Seq<(usize, usize)>
    decreases n,
{
    if n == 0 {
        Seq::empty()
    } else {
        let x = (n - 1) as usize;
        let here = if s2t.contains_key(x) {
            s2t[x]@.map_values(|t: usize| (x, t))
        } else {
            Seq::empty()
        };
        all_pairs(s2t, (n - 1) as nat) + here
    }
}

/// Insert `p` after every pair whose target is no greater than its target.
pub open spec fn insert_by_target(s: Seq<(usize, usize)>, p: (usize, usize)) -> Seq<(usize, usize)>
    decreases s.len(),
{
    if s.len() == 0 {
        seq![p]
    } else if p.1 < s[0].1 {
        seq![p] + s
    } else {
        seq![s[0]] + insert_by_target(s.drop_first(), p)
    }
}

/// `s` ordered by target, pairs with equal targets in their order in `s`.
pub open spec fn sort_by_target(s: Seq<(usize, usize)>) -> Seq<(usize, usize)>
    decreases s.len(),
{
    if s.len() == 0 {
        s
    } else {
        insert_by_target(sort_by_target(s.drop_last()), s.last())
    }
}

/// Whether pair `q` goes on the diagonal of pair `p`: both positions one further.
pub open spec fn continues(p: (usize, usize), q: (usize, usize)) -> bool {
    q.1 == p.1 + 1 && q.0 == p.0 + 1
}

/// The groups of `ps[start..]`, cut before every pair at or after `i` that does not
/// continue the pair before it.
pub open spec fn cluster_groups(ps: Seq<(usize, usize)>, start: int, i: int) -> Seq<Seq<(usize, usize)>>
    decreases ps.len() - i,
{
    if i < ps.len() {
        if continues(ps[i - 1], ps[i]) {
            cluster_groups(ps, start, i + 1)
        } else {
            seq![ps.subrange(start, i)] + cluster_groups(ps, i, i + 1)
        }
    } else {
        seq![ps.subrange(start, ps.len() as int)]
    }
}

/// The clusters of groups, numbered in order.
pub open spec fn clusters_of(source: Seq<u8>, gs: Seq<Seq<(usize, usize)>>) -> Seq<ByteClusterView> {
    Seq::new(gs.len(), |k: int| cluster_of(source, gs[k], k as usize))
}

/// The clusters of a mapping: its pairs ordered by target (by source among equal targets),
/// cut into diagonal runs, one cluster per run.
pub open spec fn clusters_spec(source: Seq<u8>, s2t: Map<usize, Vec<usize>>) -> Seq<ByteClusterView> {
    let ps = sort_by_target(all_pairs(s2t, source.len()));
    if ps.len() == 0 {
        Seq::empty()
    } else {
        clusters_of(source, cluster_groups(ps, 0, 1))
    }
}

/// What clustering asks of a mapping: its source positions lie inside the source and
/// every target partner is below `usize::MAX`.
pub open spec fn clustering_fits(n: nat, s2t: Map<usize, Vec<usize>>) -> bool {
    &&& forall|x: usize| #[trigger] s2t.contains_key(x) ==> x < n
    &&& forall|x: usize, k: int| s2t.contains_key(x) && 0 <= k < s2t[x]@.len() ==> #[trigger] s2t[x]@[k] < usize::MAX
}

/// Every pair inserted by target is the inserted pair or one of `s`.
proof fn lemma_insert_by_target_members(s: Seq<(usize, usize)>, p: (usize, usize))
    ensures
        forall|x: (usize, usize)| #[trigger] insert_by_target(s, p).contains(x) ==> x == p || s.contains(x),
    decreases s.len(),
{
    if s.len() > 0 && !(p.1 < s[0].1) {
        lemma_insert_by_target_members(s.drop_first(), p);
        assert forall|x: (usize, usize)| #[trigger] insert_by_target(s, p).contains(x) implies x == p || s.contains(x) by {
            let r = insert_by_target(s, p);
            let k = choose|k: int| 0 <= k < r.len() && r[k] == x;
            if k == 0 {
                assert(s[0] == x);
            } else {
                let rest = insert_by_target(s.drop_first(), p);
                assert(rest[k - 1] == x);
                assert(rest.contains(x));
                if x != p {
                    let j = choose|j: int| 0 <= j < s.drop_first().len() && s.drop_first()[j] == x;
                    assert(s[j + 1] == x);
                }
            }
        }
    } else if s.len() > 0 {
        assert forall|x: (usize, usize)| #[trigger] insert_by_target(s, p).contains(x) implies x == p || s.contains(x) by {
            let r = insert_by_target(s, p);
            let k = choose|k: int| 0 <= k < r.len() && r[k] == x;
            if k > 0 {
                assert(s[k - 1] == x);
            }
        }
    }
}

/// Every pair of `s` ordered by target is a pair of `s`.
proof fn lemma_sort_by_target_members(s: Seq<(usize, usize)>)
    ensures
        forall|x: (usize, usize)| #[trigger] sort_by_target(s).contains(x) ==> s.contains(x),
    decreases s.len(),
{
    if s.len() > 0 {
        lemma_sort_by_target_members(s.drop_last());
        lemma_insert_by_target_members(sort_by_target(s.drop_last()), s.last());
        assert forall|x: (usize, usize)| #[trigger] sort_by_target(s).contains(x) implies s.contains(x) by {
            if x == s.last() {
                assert(s[s.len() - 1] == x);
            } else {
                assert(sort_by_target(s.drop_last()).contains(x));
                let j = choose|j: int| 0 <= j < s.drop_last().len() && s.drop_last()[j] == x;
                assert(s[j] == x);
            }
        }
    }
}

/// Every pair of a mapping that fits has its source below `n` and its target below `usize::MAX`.
proof fn lemma_all_pairs_bounds(s2t: Map<usize, Vec<usize>>, n: nat, bound: nat)
    requires
        n <= bound,
        clustering_fits(bound, s2t),
    ensures
        forall|x: (usize, usize)| #[trigger] all_pairs(s2t, n).contains(x) ==> x.0 < n && x.1 < usize::MAX,
    decreases n,
{
    if n > 0 {
        lemma_all_pairs_bounds(s2t, (n - 1) as nat, bound);
        let x = (n - 1) as usize;
        let prev = all_pairs(s2t, (n - 1) as nat);
        let here = if s2t.contains_key(x) {
            s2t[x]@.map_values(|t: usize| (x, t))
        } else {
            Seq::empty()
        };
        assert(all_pairs(s2t, n) == prev + here);
        assert forall|q: (usize, usize)| #[trigger] all_pairs(s2t, n).contains(q) implies q.0 < n && q.1 < usize::MAX by {
            let k = choose|k: int| 0 <= k < (prev + here).len() && (prev + here)[k] == q;
            if k < prev.len() {
                assert(prev[k] == q);
                assert(prev.contains(q));
            } else {
                assert(here[k - prev.len()] == q);
                assert(s2t[x]@[k - prev.len()] == q.1);
            }
        }
    }
}

/// The cluster numbered `id` of a nonempty group of `(source, target)` pairs.
fn make_cluster(source: &[u8], pairs: &[(usize, usize)], id: usize) -> (r: ByteCluster)
    requires
        pairs@.len() > 0,
        forall|k: int| 0 <= k < pairs@.len() ==> #[trigger] pairs@[k].0 < source@.len(),
    ensures
        r@ == cluster_of(source@, pairs@, id),
{
    let len = pairs.len();
    let sl = source.len();
    let mut s_min = pairs[0].0;
    let mut s_max = pairs[0].0;
    let mut frag: usize = 1;
    let mut src: Vec<usize> = Vec::new();
    let mut bytes: Vec<u8> = Vec::new();
    let mut k: usize = 0;
    while k < len
        invariant
            len == pairs@.len(),
            sl == source@.len(),
            k <= len,
            forall|j: int| 0 <= j < pairs@.len() ==> #[trigger] pairs@[j].0 < source@.len(),
            src@ == sources_of(pairs@.take(k as int)),
            bytes@ == src@.map_values(|s: usize| source@[s as int]),
            k == 0 ==> s_min == pairs@[0].0 && s_max == pairs@[0].0 && frag == 1,
            k > 0 ==> s_min == seq_min(src@) && s_max == seq_max(src@) && frag == 1 + breaks(src@) && frag <= k,
        decreases len - k,
    {
        let s = pairs[k].0;
        let ghost prev = src@;
        if k > 0 {
            proof {
                assert(src@[k - 1] == pairs@[k - 1].0);
            }
            if s < s_min {
                s_min = s;
            }
            if s > s_max {
                s_max = s;
            }
            if s != src[k - 1] + 1 {
                frag = frag + 1;
            }
        }
        src.push(s);
        bytes.push(source[s]);
        proof {
            assert(sources_of(pairs@.take(k + 1)) =~= prev.push(s));
            assert(src@.drop_last() =~= prev);
            assert(bytes@ =~= src@.map_values(|s: usize| source@[s as int]));
        }
        k = k + 1;
    }
    proof {
        assert(pairs@.take(len as int) =~= pairs@);
    }
    let content = lossy_string(bytes.as_slice());
    ByteCluster {
        id,
        source_indices: src,
        source_range: (s_min, s_max),
        target_range: (pairs[0].1, pairs[len - 1].1),
        byte_len: len,
        fragment_count: frag,
        content,
    }
}

/// All `(source, target)` pairs of the sources below `n`.
fn source_pairs(s2t: &HashMap<usize, Vec<usize>>, n: usize) -> (r: Vec<(usize, usize)>)
    ensures
        r@ == all_pairs(s2t@, n as nat),
{
    let mut r: Vec<(usize, usize)> = Vec::new();
    let mut x: usize = 0;
    while x < n
        invariant
            x <= n,
            r@ == all_pairs(s2t@, x as nat),
        decreases n - x,
    {
        let ghost prev = r@;
        match s2t.get(&x) {
            Some(v) => {
                let mut k: usize = 0;
                while k < v.len()
                    invariant
                        k <= v@.len(),
                        r@ == prev + v@.take(k as int).map_values(|t: usize| (x, t)),
                    decreases v@.len() - k,
                {
                    r.push((x, v[k]));
                    proof {
                        assert(v@.take(k + 1).map_values(|t: usize| (x, t)) =~= v@.take(k as int).map_values(|t: usize| (x, t)).push((x, v@[k as int])));
                    }
                    k = k + 1;
                }
                proof {
                    assert(v@.take(k as int) =~= v@);
                    assert(s2t@[x]@ == v@);
                }
            },
            None => {
                proof {
                    assert(r@ =~= prev + Seq::<(usize, usize)>::empty());
                }
            },
        }
        x = x + 1;
    }
    r
}

/// Insert `p` into `v` after every pair whose target is no greater.
fn insert_pair_by_target(v: &mut Vec<(usize, usize)>, p: (usize, usize))
    ensures
        final(v)@ == insert_by_target(old(v)@, p),
{
    let ghost s = v@;
    let mut q: usize = 0;
    assert(s.skip(0) =~= s);
    assert(s.take(0) + insert_by_target(s, p) =~= insert_by_target(s, p));
    while q < v.len() && !(p.1 < v[q].1)
        invariant
            q <= v.len(),
            v@ == s,
            insert_by_target(s, p) == s.take(q as int) + insert_by_target(s.skip(q as int), p),
        decreases v.len() - q,
    {
        proof {
            let t = s.skip(q as int);
            assert(t[0] == s[q as int]);
            assert(t.drop_first() =~= s.skip(q + 1));
            assert(s.take(q as int) + seq![s[q as int]] =~= s.take(q + 1));
        }
        q = q + 1;
    }
    proof {
        if q < s.len() {
            assert(s.skip(q as int)[0] == s[q as int]);
        } else {
            assert(s.skip(q as int) =~= Seq::<(usize, usize)>::empty());
        }
        assert(s.take(q as int) + (seq![p] + s.skip(q as int)) =~= s.insert(q as int, p));
    }
    v.insert(q, p);
}

/// The pairs ordered by target, pairs with equal targets kept in order.
fn order_by_target(v: &Vec<(usize, usize)>) -> (r: Vec<(usize, usize)>)
    ensures
        r@ == sort_by_target(v@),
{
    let mut r: Vec<(usize, usize)> = Vec::new();
    let mut i: usize = 0;
    proof {
        assert(v@.take(0) =~= Seq::<(usize, usize)>::empty());
    }
    while i < v.len()
        invariant
            i <= v@.len(),
            r@ == sort_by_target(v@.take(i as int)),
        decreases v@.len() - i,
    {
        insert_pair_by_target(&mut r, v[i]);
        proof {
            assert(v@.take(i + 1).drop_last() =~= v@.take(i as int));
            assert(v@.take(i + 1).last() == v@[i as int]);
        }
        i = i + 1;
    }
    proof {
        assert(v@.take(i as int) =~= v@);
    }
    r
}

/// The clusters of a mapping of `source`: its `(source, target)` pairs ordered by target
/// (by source among equal targets), cut into maximal runs in which each pair lies one
/// further along both sides than the one before it, one cluster per run, numbered from 0.
pub fn phase2_clustering(source: &[u8], mapping: &MappingResult) -> (r: Vec<ByteCluster>)
    requires
        clustering_fits(source@.len(), mapping.source_to_target@),
    ensures
        cluster_views(r@) == clusters_spec(source@, mapping.source_to_target@),
{
    let ghost s2t = mapping.source_to_target@;
    let sl = source.len();
    let all = source_pairs(&mapping.source_to_target, source.len());
    let pairs = order_by_target(&all);
    let ghost ps = pairs@;
    proof {
        lemma_all_pairs_bounds(s2t, source@.len(), source@.len());
        lemma_sort_by_target_members(all@);
        assert forall|k: int| 0 <= k < ps.len() implies #[trigger] ps[k].0 < source@.len() && ps[k].1 < usize::MAX by {
            assert(sort_by_target(all@).contains(ps[k]));
            assert(all@.contains(ps[k]));
        }
    }
    if pairs.len() == 0 {
        let r: Vec<ByteCluster> = Vec::new();
        proof {
            assert(cluster_views(r@) =~= Seq::<ByteClusterView>::empty());
        }
        return r;
    }
    let ghost goal = cluster_groups(ps, 0, 1);
    let ghost mut done: Seq<Seq<(usize, usize)>> = Seq::empty();
    let mut clusters: Vec<ByteCluster> = Vec::new();
    let mut gs: usize = 0;
    let mut i: usize = 1;
    proof {
        assert(done + goal =~= goal);
        assert(cluster_views(clusters@) =~= clusters_of(source@, done));
    }
    while i < pairs.len()
        invariant
            pairs@ == ps,
            sl == source@.len(),
            gs < i <= ps.len(),
            forall|k: int| 0 <= k < ps.len() ==> #[trigger] ps[k].0 < source@.len() && ps[k].1 < usize::MAX,
            done + cluster_groups(ps, gs as int, i as int) == goal,
            cluster_views(clusters@) == clusters_of(source@, done),
            clusters@.len() == done.len(),
        decreases ps.len() - i,
    {
        let (si, ti) = pairs[i];
        let (ps_, pt) = pairs[i - 1];
        proof {
            assert(ps[i - 1].0 < source@.len());
            assert(ps[i - 1].1 < usize::MAX);
        }
        if ti == pt + 1 && si == ps_ + 1 {
            proof {
                assert(continues(ps[i - 1], ps[i as int]));
            }
        } else {
            let group = vstd::slice::slice_subrange(pairs.as_slice(), gs, i);
            let id = clusters.len();
            let c = make_cluster(source, group, id);
            let ghost before = clusters@;
            clusters.push(c);
            proof {
                assert(!continues(ps[i - 1], ps[i as int]));
                assert(cluster_groups(ps, gs as int, i as int) == seq![ps.subrange(gs as int, i as int)] + cluster_groups(ps, i as int, i + 1));
                let nd = done.push(ps.subrange(gs as int, i as int));
                assert(nd + cluster_groups(ps, i as int, i + 1) =~= done + cluster_groups(ps, gs as int, i as int));
                assert(cluster_views(clusters@) =~= clusters_of(source@, nd)) by {
                    assert(cluster_views(clusters@) =~= cluster_views(before).push(c@));
                }
                done = nd;
            }
            gs = i;
        }
        i = i + 1;
    }
    let len = pairs.len();
    let group = vstd::slice::slice_subrange(pairs.as_slice(), gs, len);
    let id = clusters.len();
    let c = make_cluster(source, group, id);
    let ghost before = clusters@;
    clusters.push(c);
    proof {
        let nd = done.push(ps.subrange(gs as int, len as int));
        assert(cluster_groups(ps, gs as int, i as int) == seq![ps.subrange(gs as int, len as int)]);
        assert(nd =~= goal);
        assert(cluster_views(clusters@) =~= clusters_of(source@, nd)) by {
            assert(cluster_views(clusters@) =~= cluster_views(before).push(c@));
        }
    }
    clusters
}

/// A nonempty group in which every pair continues the one before it.
pub open spec fn diagonal_run(g: Seq<(usize, usize)>) -> bool {
    &&& g.len() > 0
    &&& forall|k: int| 1 <= k < g.len() ==> continues(g[k - 1], #[trigger] g[k])
}

/// A nonempty stretch of `ps` that continues along the diagonal is a diagonal run.
proof fn lemma_subrange_run(ps: Seq<(usize, usize)>, start: int, i: int)
    requires
        0 <= start < i <= ps.len(),
        forall|k: int| start < k < i ==> continues(ps[k - 1], #[trigger] ps[k]),
    ensures
        diagonal_run(ps.subrange(start, i)),
{
    let g0 = ps.subrange(start, i);
    assert forall|k: int| 1 <= k < g0.len() implies continues(g0[k - 1], #[trigger] g0[k]) by {
        assert(g0[k] == ps[start + k]);
        assert(g0[k - 1] == ps[start + k - 1]);
    }
}

/// Each group cut from a stretch that continues along the diagonal is a diagonal run.
proof fn lemma_cluster_groups_continue(ps: Seq<(usize, usize)>, start: int, i: int)
    requires
        0 <= start < i <= ps.len(),
        forall|k: int| start < k < i ==> continues(ps[k - 1], #[trigger] ps[k]),
    ensures
        forall|q: int| 0 <= q < cluster_groups(ps, start, i).len() ==> diagonal_run(#[trigger] cluster_groups(ps, start, i)[q]),
    decreases ps.len() - i,
{
    let gs = cluster_groups(ps, start, i);
    if i < ps.len() {
        if continues(ps[i - 1], ps[i]) {
            lemma_cluster_groups_continue(ps, start, i + 1);
            assert(gs == cluster_groups(ps, start, i + 1));
        } else {
            lemma_cluster_groups_continue(ps, i, i + 1);
            lemma_subrange_run(ps, start, i);
            let rest = cluster_groups(ps, i, i + 1);
            let g0 = ps.subrange(start, i);
            assert(gs == seq![g0] + rest);
            assert forall|q: int| 0 <= q < gs.len() implies diagonal_run(#[trigger] gs[q]) by {
                if q == 0 {
                    assert(gs[0] == g0);
                } else {
                    assert(gs[q] == rest[q - 1]);
                }
            }
        }
    } else {
        lemma_subrange_run(ps, start, ps.len() as int);
        let g0 = ps.subrange(start, ps.len() as int);
        assert(gs == seq![g0]);
        assert forall|q: int| 0 <= q < gs.len() implies diagonal_run(#[trigger] gs[q]) by {
            assert(gs[0] == g0);
        }
    }
}

/// The cluster of a diagonal run is one unbroken fragment whose sources rise by one.
proof fn lemma_cluster_of_unbroken(source: Seq<u8>, g: Seq<(usize, usize)>, id: usize)
    requires
        diagonal_run(g),
    ensures
        cluster_of(source, g, id).fragment_count == 1,
        forall|k: int|
            1 <= k < cluster_of(source, g, id).source_indices.len() ==> #[trigger] cluster_of(source, g, id).source_indices[k]
                == cluster_of(source, g, id).source_indices[k - 1] + 1,
{
    let src = sources_of(g);
    assert forall|k: int| 1 <= k < src.len() implies #[trigger] src[k] == src[k - 1] + 1 by {
        assert(continues(g[k - 1], g[k]));
    }
    lemma_no_breaks(src);
    let v = cluster_of(source, g, id);
    assert(v.source_indices == src);
    assert(v.fragment_count == (1 + breaks(src)) as usize);
}

/// A sequence that rises by one at every step has no breaks.
proof fn lemma_no_breaks(s: Seq<usize>)
    requires
        forall|k: int| 1 <= k < s.len() ==> #[trigger] s[k] == s[k - 1] + 1,
    ensures
        breaks(s) == 0,
    decreases s.len(),
{
    if s.len() > 1 {
        let d = s.drop_last();
        assert forall|k: int| 1 <= k < d.len() implies #[trigger] d[k] == d[k - 1] + 1 by {
            assert(d[k] == s[k]);
            assert(s[k] == s[k - 1] + 1);
        }
        lemma_no_breaks(d);
        assert(s[s.len() - 1] == s[s.len() - 2] + 1);
    }
}

/// Within every cluster each pair lies one further along both sides than the one
/// before it: its source positions rise by one at each step, and a cluster is one
/// unbroken fragment.
pub proof fn lemma_clusters_unbroken(source: Seq<u8>, s2t: Map<usize, Vec<usize>>)
    ensures
        forall|c: int| 0 <= c < clusters_spec(source, s2t).len() ==> {
            let v = #[trigger] clusters_spec(source, s2t)[c];
            &&& v.fragment_count == 1
            &&& forall|k: int| 1 <= k < v.source_indices.len() ==> #[trigger] v.source_indices[k] == v.source_indices[k - 1] + 1
        },
{
    let ps = sort_by_target(all_pairs(s2t, source.len()));
    if ps.len() > 0 {
        lemma_cluster_groups_continue(ps, 0, 1);
        let gs = cluster_groups(ps, 0, 1);
        let cs = clusters_spec(source, s2t);
        assert forall|c: int| 0 <= c < cs.len() implies {
            let v = #[trigger] cs[c];
            &&& v.fragment_count == 1
            &&& forall|k: int| 1 <= k < v.source_indices.len() ==> #[trigger] v.source_indices[k] == v.source_indices[k - 1] + 1
        } by {
            let g = gs[c];
            assert(cs[c] == cluster_of(source, g, c as usize));
            lemma_cluster_of_unbroken(source, g, c as usize);
        }
    }
}

/// Every pair of a mapping's pair list is a mapped pair of a source below `n`.
proof fn lemma_all_pairs_mapped(s2t: Map<usize, Vec<usize>>, n: nat)
    ensures
        forall|p: (usize, usize)| #[trigger] all_pairs(s2t, n).contains(p) ==> p.0 < n && s2t.contains_key(p.0) && s2t[p.0]@.contains(p.1),
    decreases n,
{
    if n > 0 {
        lemma_all_pairs_mapped(s2t, (n - 1) as nat);
        let x = (n - 1) as usize;
        let prev = all_pairs(s2t, (n - 1) as nat);
        let here = if s2t.contains_key(x) {
            s2t[x]@.map_values(|t: usize| (x, t))
        } else {
            Seq::empty()
        };
        assert(all_pairs(s2t, n) == prev + here);
        assert forall|p: (usize, usize)| #[trigger] all_pairs(s2t, n).contains(p) implies p.0 < n && s2t.contains_key(p.0) && s2t[p.0]@.contains(p.1) by {
            let k = choose|k: int| 0 <= k < (prev + here).len() && (prev + here)[k] == p;
            if k < prev.len() {
                assert(prev[k] == p);
                assert(prev.contains(p));
            } else {
                let j = k - prev.len();
                assert(here[j] == p);
                assert(s2t[x]@[j] == p.1);
            }
        }
    }
}

/// Every pair of every group cut from `ps` is a pair of `ps`.
proof fn lemma_cluster_groups_members(ps: Seq<(usize, usize)>, start: int, i: int)
    requires
        0 <= start < i <= ps.len(),
    ensures
        forall|q: int, k: int|
            0 <= q < cluster_groups(ps, start, i).len() && 0 <= k < cluster_groups(ps, start, i)[q].len() ==> ps.contains(
                #[trigger] cluster_groups(ps, start, i)[q][k],
            ),
    decreases ps.len() - i,
{
    let gs = cluster_groups(ps, start, i);
    if i < ps.len() {
        if continues(ps[i - 1], ps[i]) {
            lemma_cluster_groups_members(ps, start, i + 1);
            assert(gs == cluster_groups(ps, start, i + 1));
        } else {
            lemma_cluster_groups_members(ps, i, i + 1);
            let rest = cluster_groups(ps, i, i + 1);
            let g0 = ps.subrange(start, i);
            assert(gs == seq![g0] + rest);
            assert forall|q: int, k: int| 0 <= q < gs.len() && 0 <= k < gs[q].len() implies ps.contains(#[trigger] gs[q][k]) by {
                if q == 0 {
                    assert(gs[0] == g0);
                    assert(ps[start + k] == g0[k]);
                } else {
                    assert(gs[q] == rest[q - 1]);
                }
            }
        }
    } else {
        let g0 = ps.subrange(start, ps.len() as int);
        assert(gs == seq![g0]);
        assert forall|q: int, k: int| 0 <= q < gs.len() && 0 <= k < gs[q].len() implies ps.contains(#[trigger] gs[q][k]) by {
            assert(gs[0] == g0);
            assert(ps[start + k] == g0[k]);
        }
    }
}

/// Along a diagonal run, the `k`-th pair lies `k` further on both sides than the first.
proof fn lemma_diagonal_offsets(g: Seq<(usize, usize)>)
    requires
        diagonal_run(g),
    ensures
        forall|k: int| 0 <= k < g.len() ==> #[trigger] g[k].0 == g[0].0 + k && g[k].1 == g[0].1 + k,
{
    assert forall|k: int| 0 <= k < g.len() implies #[trigger] g[k].0 == g[0].0 + k && g[k].1 == g[0].1 + k by {
        lemma_diagonal_offset(g, k);
    }
}

proof fn lemma_diagonal_offset(g: Seq<(usize, usize)>, k: int)
    requires
        diagonal_run(g),
        0 <= k < g.len(),
    ensures
        g[k].0 == g[0].0 + k,
        g[k].1 == g[0].1 + k,
    decreases k,
{
    if k > 0 {
        lemma_diagonal_offset(g, k - 1);
        assert(continues(g[k - 1], g[k]));
    }
}

/// The least and greatest elements of a sequence that rises by one are its ends.
proof fn lemma_rising_min_max(s: Seq<usize>)
    requires
        s.len() > 0,
        forall|k: int| 0 <= k < s.len() ==> #[trigger] s[k] == s[0] + k,
    ensures
        seq_min(s) == s[0],
        seq_max(s) == s[s.len() - 1],
    decreases s.len(),
{
    if s.len() > 1 {
        let d = s.drop_last();
        assert forall|k: int| 0 <= k < d.len() implies #[trigger] d[k] == d[0] + k by {
            assert(d[k] == s[k]);
        }
        lemma_rising_min_max(d);
        assert(s[s.len() - 1] == s[0] + s.len() - 1);
        assert(d[d.len() - 1] == s[0] + d.len() - 1);
    }
}

/// Every cluster is a diagonal run of mapped pairs read along the target: its `k`-th
/// source position is `k` past the start of its source range and maps to the target
/// position `k` past the start of its target range, so both ranges are as wide as the
/// cluster has pairs; its id is its index.
pub proof fn lemma_clusters_are_diagonal_runs(source: Seq<u8>, s2t: Map<usize, Vec<usize>>)
    ensures
        forall|c: int| 0 <= c < clusters_spec(source, s2t).len() ==> {
            let v = #[trigger] clusters_spec(source, s2t)[c];
            let len = v.source_indices.len();
            &&& v.id == c as usize
            &&& len > 0
            &&& v.source_range.1 == v.source_range.0 + len - 1
            &&& v.target_range.1 == v.target_range.0 + len - 1
            &&& forall|k: int|
                0 <= k < len ==> {
                    &&& #[trigger] v.source_indices[k] == v.source_range.0 + k
                    &&& v.source_indices[k] < source.len()
                    &&& s2t.contains_key(v.source_indices[k])
                    &&& s2t[v.source_indices[k]]@.contains((v.target_range.0 + k) as usize)
                }
        },
{
    let all = all_pairs(s2t, source.len());
    let ps = sort_by_target(all);
    if ps.len() > 0 {
        lemma_all_pairs_mapped(s2t, source.len());
        lemma_sort_by_target_members(all);
        lemma_cluster_groups_continue(ps, 0, 1);
        lemma_cluster_groups_members(ps, 0, 1);
        let gs = cluster_groups(ps, 0, 1);
        let cs = clusters_spec(source, s2t);
        assert forall|c: int| 0 <= c < cs.len() implies {
            let v = #[trigger] cs[c];
            let len = v.source_indices.len();
            &&& v.id == c as usize
            &&& len > 0
            &&& v.source_range.1 == v.source_range.0 + len - 1
            &&& v.target_range.1 == v.target_range.0 + len - 1
            &&& forall|k: int|
                0 <= k < len ==> {
                    &&& #[trigger] v.source_indices[k] == v.source_range.0 + k
                    &&& v.source_indices[k] < source.len()
                    &&& s2t.contains_key(v.source_indices[k])
                    &&& s2t[v.source_indices[k]]@.contains((v.target_range.0 + k) as usize)
                }
        } by {
            let g = gs[c];
            let v = cs[c];
            assert(v == cluster_of(source, g, c as usize));
            assert(diagonal_run(g));
            lemma_diagonal_offsets(g);
            let src = sources_of(g);
            assert forall|k: int| 0 <= k < src.len() implies #[trigger] src[k] == src[0] + k by {
                assert(src[k] == g[k].0);
            }
            lemma_rising_min_max(src);
            assert(g[g.len() - 1].1 == g[0].1 + g.len() - 1);
            assert forall|k: int| 0 <= k < src.len() implies {
                &&& #[trigger] src[k] == src[0] + k
                &&& src[k] < source.len()
                &&& s2t.contains_key(src[k])
                &&& s2t[src[k]]@.contains((g[0].1 + k) as usize)
            } by {
                assert(ps.contains(gs[c][k]));
                assert(all.contains(g[k]));
                assert(src[k] == g[k].0);
            }
        }
    }
}

} // verus!
