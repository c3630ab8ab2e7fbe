//! Labelled segments of an alignment: stretches of the target that the source shares,
//! stretches only the source has, and stretches only the target has.
use vstd::prelude::*;
use std::collections::HashMap;
use crate::mapping::{
    MappingResult, lemma_mapping_is_block_pairs, lemma_mapping_symmetric, pairs_of, partner_map_ok,
};
use crate::text::{lossy_string, utf8_lossy};
use crate::energy::all_fit;
use crate::types::{Block, ends_fit};

verus! {

broadcast use vstd::std_specs::hash::group_hash_axioms;

/// What a segment is: shared by both sides, only in the source, or only in the target.
#[derive(Debug, Clone, Copy, PartialEq, Eq, Structural)]
pub enum SegmentType {
    Common,
    Missing,
    Added,
}

/// A labelled stretch of bytes with its inclusive position ranges and its text.
#[derive(Debug, Clone)]
pub struct Segment {
    pub id: usize,
    pub label: SegmentType,
    pub byte_len: usize,
    pub source_range: Option<(usize, usize)>,
    pub target_range: Option<(usize, usize)>,
    pub content: String,
}

/// A segment with its text as characters.
pub struct SegmentView {
    pub id: usize,
    pub label: SegmentType,
    pub byte_len: usize,
    pub source_range: Option<(usize, usize)>,
    pub target_range: Option<(usize, usize)>,
    pub content: Seq<char>,
}

impl View for Segment {
    type V = SegmentView;

    open spec fn view(&self) -> SegmentView {
        SegmentView {
            id: self.id,
            label: self.label,
            byte_len: self.byte_len,
            source_range: self.source_range,
            target_range: self.target_range,
            content: self.content@,
        }
    }
}

/// The views of a sequence of segments.
pub open spec fn views(v: Seq<Segment>) -> Seq<SegmentView> {
    v.map_values(|s: Segment| s@)
}

/// Whether some source position maps to target position `t`.
pub open spec fn target_is_mapped(s2t: Map<usize, Vec<usize>>, t: usize) -> bool {
    exists|x: usize| s2t.contains_key(x) && #[trigger] s2t[x]@.contains(t)
}

/// For each of the `n` source positions, whether it is mapped.
pub open spec fn source_flags(s2t: Map<usize, Vec<usize>>, n: nat) -> Seq<bool> {
    Seq::new(n, |i: int| s2t.contains_key(i as usize))
}

/// For each of the `m` target positions, whether some source position maps to it.
pub open spec fn target_flags(s2t: Map<usize, Vec<usize>>, m: nat) -> Seq<bool> {
    Seq::new(m, |t: int| target_is_mapped(s2t, t as usize))
}

/// The end of the run of `v` in `f` that starts at `i`: the first position at or after
/// `i` that does not hold `v`, or the length of `f`.
pub open spec fn run_end(f: Seq<bool>, i: int, v: bool) -> int
    decreases f.len() - i,
{
    if 0 <= i < f.len() && f[i] == v {
        run_end(f, i + 1, v)
    } else {
        i
    }
}

/// The run of `v` at `i` ends inside `f`, after `i` when `f[i] == v`, and holds `v` throughout.
pub proof fn lemma_run_end(f: Seq<bool>, i: int, v: bool)
    requires
        0 <= i <= f.len(),
    ensures
        i <= run_end(f, i, v) <= f.len(),
        i < f.len() && f[i] == v ==> i < run_end(f, i, v),
        forall|k: int| i <= k < run_end(f, i, v) ==> f[k] == v,
        run_end(f, i, v) == f.len() || f[run_end(f, i, v)] != v,
    decreases f.len() - i,
{
    if i < f.len() && f[i] == v {
        lemma_run_end(f, i + 1, v);
    }
}

/// The maximal runs of `v` in `f[i..]`, as half-open ranges in increasing order.
pub open spec fn runs_from(f: Seq<bool>, i: int, v: bool) -> Seq<(int, int)>
    decreases f.len() - i,
{
    if 0 <= i < f.len() {
        if f[i] == v {
            let e = run_end(f, i, v);
            proof {
                lemma_run_end(f, i, v);
            }
            seq![(i, e)] + runs_from(f, e, v)
        } else {
            runs_from(f, i + 1, v)
        }
    } else {
        Seq::empty()
    }
}

/// The segment of an unmapped run `r` of `bytes`: of the source when `missing`,
/// else of the target.
pub open spec fn gap_segment(bytes: Seq<u8>, r: (int, int), missing: bool) -> SegmentView {
    let range = Some((r.0 as usize, (r.1 - 1) as usize));
    SegmentView {
        id: 0,
        label: if missing { SegmentType::Missing } else { SegmentType::Added },
        byte_len: (r.1 - r.0) as usize,
        source_range: if missing { range } else { None },
        target_range: if missing { None } else { range },
        content: utf8_lossy(bytes.subrange(r.0, r.1)),
    }
}

/// The segments of the unmapped runs of `bytes` from position `i` on.
pub open spec fn gap_segments(bytes: Seq<u8>, f: Seq<bool>, i: int, missing: bool) -> Seq<SegmentView> {
    runs_from(f, i, false).map_values(|r: (int, int)| gap_segment(bytes, r, missing))
}

/// The pairs `(t, first source partner of t)` for the target positions `t` in `[a, e)`
/// that the target-to-source map holds, in increasing `t`.
pub open spec fn run_pairs(t2s: Map<usize, Vec<usize>>, a: int, e: int) -> Seq<(usize, usize)>
    decreases e - a,
{
    if e <= a {
        Seq::empty()
    } else {
        let rest = run_pairs(t2s, a, e - 1);
        let t = (e - 1) as usize;
        if t2s.contains_key(t) {
            rest.push((t, t2s[t]@[0]))
        } else {
            rest
        }
    }
}

/// The least source position among the pairs.
pub open spec fn min_source(g: Seq<(usize, usize)>) -> usize
    decreases g.len(),
{
    if g.len() <= 1 {
        g[0].1
    } else {
        let m = min_source(g.drop_last());
        if g.last().1 < m { g.last().1 } else { m }
    }
}

/// The greatest source position among the pairs.
pub open spec fn max_source(g: Seq<(usize, usize)>) -> usize
    decreases g.len(),
{
    if g.len() <= 1 {
        g[0].1
    } else {
        let m = max_source(g.drop_last());
        if g.last().1 > m { g.last().1 } else { m }
    }
}

/// The shared segment of a group of `(target, source)` pairs: the target stretch from
/// the first pair's target to the last one's, and the span of their sources.
pub open spec fn common_segment(target: Seq<u8>, g: Seq<(usize, usize)>) -> SegmentView {
    let ts = g[0].0;
    let te = g.last().0;
    SegmentView {
        id: 0,
        label: SegmentType::Common,
        byte_len: (te - ts + 1) as usize,
        source_range: Some((min_source(g), max_source(g))),
        target_range: Some((ts, te)),
        content: utf8_lossy(target.subrange(ts as int, te + 1)),
    }
}

/// The shared segments of `ps[start..]`, cut before every pair at or after `i` whose
/// source does not directly follow the source of the pair before it.
pub open spec fn split_groups(target: Seq<u8>, ps: Seq<(usize, usize)>, start: int, i: int) -> Seq<SegmentView>
    decreases ps.len() - i,
{
    if i < ps.len() {
        if ps[i].1 != ps[i - 1].1 + 1 {
            seq![common_segment(target, ps.subrange(start, i))] + split_groups(target, ps, i, i + 1)
        } else {
            split_groups(target, ps, start, i + 1)
        }
    } else {
        seq![common_segment(target, ps.subrange(start, ps.len() as int))]
    }
}

/// The shared segments of one mapped run `r` of the target.
pub open spec fn run_segments(target: Seq<u8>, t2s: Map<usize, Vec<usize>>, r: (int, int)) -> Seq<SegmentView> {
    let ps = run_pairs(t2s, r.0, r.1);
    if ps.len() == 0 {
        Seq::empty()
    } else {
        split_groups(target, ps, 0, 1)
    }
}

/// The shared segments of the mapped runs `rs` of the target, run by run.
pub open spec fn common_segments(target: Seq<u8>, t2s: Map<usize, Vec<usize>>, rs: Seq<(int, int)>) -> Seq<SegmentView>
    decreases rs.len(),
{
    if rs.len() == 0 {
        Seq::empty()
    } else {
        run_segments(target, t2s, rs[0]) + common_segments(target, t2s, rs.drop_first())
    }
}

/// Push the shared segment of a group of `(target, source)` pairs, if there is any pair.
fn push_seg(segs: &mut Vec<Segment>, target: &[u8], pairs: &[(usize, usize)])
    requires
        pairs@.len() > 0 ==> pairs@[0].0 <= pairs@.last().0 < target@.len(),
    ensures
        pairs@.len() == 0 ==> views(final(segs)@) == views(old(segs)@),
        pairs@.len() > 0 ==> views(final(segs)@) == views(old(segs)@).push(common_segment(target@, pairs@)),
{
    if pairs.len() == 0 {
        return;
    }
    let ts = pairs[0].0;
    let te = pairs[pairs.len() - 1].0;
    let mut lo = pairs[0].1;
    let mut hi = pairs[0].1;
    let mut k: usize = 1;
    proof {
        assert(pairs@.take(1).len() == 1);
    }
    while k < pairs.len()
        invariant
            1 <= k <= pairs@.len(),
            lo == min_source(pairs@.take(k as int)),
            hi == max_source(pairs@.take(k as int)),
        decreases pairs@.len() - k,
    {
        let x = pairs[k].1;
        proof {
            assert(pairs@.take(k + 1).drop_last() =~= pairs@.take(k as int));
            assert(pairs@.take(k + 1).last() == pairs@[k as int]);
        }
        if x < lo {
            lo = x;
        }
        if x > hi {
            hi = x;
        }
        k = k + 1;
    }
    proof {
        assert(pairs@.take(k as int) =~= pairs@);
    }
    let tl = target.len();
    assert(te < tl);
    let piece = vstd::slice::slice_subrange(target, ts, te + 1);
    let content = lossy_string(piece);
    let seg = Segment {
        id: 0,
        label: SegmentType::Common,
        byte_len: te - ts + 1,
        source_range: Some((lo, hi)),
        target_range: Some((ts, te)),
        content,
    };
    let ghost before = segs@;
    segs.push(seg);
    proof {
        assert(views(segs@) =~= views(before).push(seg@));
    }
}

/// The pairs `(t, first source partner of t)` for the held target positions in `[a, e)`.
fn target_pairs(t2s: &HashMap<usize, Vec<usize>>, a: usize, e: usize) -> (r: Vec<(usize, usize)>)
    requires
        a <= e,
        forall|t: usize| a <= t < e && #[trigger] t2s@.contains_key(t) ==> t2s@[t]@.len() > 0,
    ensures
        r@ == run_pairs(t2s@, a as int, e as int),
        forall|k: int| 0 <= k < r@.len() ==> a <= #[trigger] r@[k].0 < e,
        forall|k: int, l: int| 0 <= k < l < r@.len() ==> r@[k].0 < r@[l].0,
        forall|k: int| 0 <= k < r@.len() ==> t2s@.contains_key(#[trigger] r@[k].0) && r@[k].1 == t2s@[r@[k].0]@[0],
{
    let mut r: Vec<(usize, usize)> = Vec::new();
    let mut t: usize = a;
    while t < e
        invariant
            a <= t <= e,
            forall|u: usize| a <= u < e && #[trigger] t2s@.contains_key(u) ==> t2s@[u]@.len() > 0,
            r@ == run_pairs(t2s@, a as int, t as int),
            forall|k: int| 0 <= k < r@.len() ==> a <= #[trigger] r@[k].0 < t,
            forall|k: int, l: int| 0 <= k < l < r@.len() ==> r@[k].0 < r@[l].0,
            forall|k: int| 0 <= k < r@.len() ==> t2s@.contains_key(#[trigger] r@[k].0) && r@[k].1 == t2s@[r@[k].0]@[0],
        decreases e - t,
    {
        match t2s.get(&t) {
            Some(sis) => {
                assert(t2s@.contains_key(t));
                r.push((t, sis[0]));
            },
            None => {},
        }
        t = t + 1;
    }
    r
}

/// Push the shared segments of the mapped target run `[start, end)`.
fn push_run_segments(segs: &mut Vec<Segment>, target: &[u8], t2s: &HashMap<usize, Vec<usize>>, start: usize, end: usize)
    requires
        start <= end <= target@.len(),
        forall|t: usize| start <= t < end && #[trigger] t2s@.contains_key(t) ==> t2s@[t]@.len() > 0 && t2s@[t]@[0] < usize::MAX,
    ensures
        views(final(segs)@) == views(old(segs)@) + run_segments(target@, t2s@, (start as int, end as int)),
{
    let pairs = target_pairs(t2s, start, end);
    let ghost ps = pairs@;
    if pairs.len() == 0 {
        proof {
            assert(views(segs@) + run_segments(target@, t2s@, (start as int, end as int)) =~= views(segs@));
        }
        return;
    }
    let ghost goal = views(old(segs)@) + split_groups(target@, ps, 0, 1);
    proof {
        assert forall|k: int| 0 <= k < ps.len() implies #[trigger] ps[k].1 < usize::MAX by {
            assert(t2s@.contains_key(ps[k].0));
        }
    }
    let mut ss: usize = 0;
    let mut i: usize = 1;
    while i < pairs.len()
        invariant
            pairs@ == ps,
            ss < i <= ps.len(),
            end <= target@.len(),
            forall|k: int| 0 <= k < ps.len() ==> #[trigger] ps[k].0 < end,
            forall|k: int, l: int| 0 <= k < l < ps.len() ==> ps[k].0 < ps[l].0,
            forall|k: int| 0 <= k < ps.len() ==> #[trigger] ps[k].1 < usize::MAX,
            views(segs@) + split_groups(target@, ps, ss as int, i as int) == goal,
        decreases ps.len() - i,
    {
        if pairs[i].1 != pairs[i - 1].1 + 1 {
            let ghost before = views(segs@);
            let group = vstd::slice::slice_subrange(pairs.as_slice(), ss, i);
            proof {
                assert(group@.last() == ps[i - 1]);
                assert(group@[0] == ps[ss as int]);
                if ss < i - 1 {
                    assert(ps[ss as int].0 < ps[i - 1].0);
                }
            }
            push_seg(segs, target, group);
            proof {
                assert(views(segs@) + split_groups(target@, ps, i as int, i + 1) =~= before + split_groups(target@, ps, ss as int, i as int));
            }
            ss = i;
        }
        i = i + 1;
    }
    let len = pairs.len();
    let group = vstd::slice::slice_subrange(pairs.as_slice(), ss, len);
    proof {
        assert(group@.last() == ps[len - 1]);
        assert(group@[0] == ps[ss as int]);
        if ss < len - 1 {
            assert(ps[ss as int].0 < ps[len - 1].0);
        }
    }
    let ghost before = views(segs@);
    push_seg(segs, target, group);
    proof {
        assert(views(segs@) =~= before + split_groups(target@, ps, ss as int, i as int));
    }
}

/// Whether some source position below `x` maps to target position `t`.
pub open spec fn mapped_below(s2t: Map<usize, Vec<usize>>, x: usize, t: usize) -> bool {
    exists|y: usize| y < x && s2t.contains_key(y) && #[trigger] s2t[y]@.contains(t)
}

/// The mapped flags of the target positions.
fn target_marks(s2t: &HashMap<usize, Vec<usize>>, n: usize, m: usize) -> (r: Vec<bool>)
    requires
        forall|x: usize| #[trigger] s2t@.contains_key(x) ==> x < n,
        forall|x: usize, k: int| s2t@.contains_key(x) && 0 <= k < s2t@[x]@.len() ==> #[trigger] s2t@[x]@[k] < m,
    ensures
        r@ == target_flags(s2t@, m as nat),
{
    let mut r: Vec<bool> = Vec::new();
    let mut t: usize = 0;
    while t < m
        invariant
            t <= m,
            r@.len() == t,
            forall|u: int| 0 <= u < t ==> !r@[u],
        decreases m - t,
    {
        r.push(false);
        t = t + 1;
    }
    let mut x: usize = 0;
    while x < n
        invariant
            x <= n,
            r@.len() == m,
            forall|x: usize, k: int| s2t@.contains_key(x) && 0 <= k < s2t@[x]@.len() ==> #[trigger] s2t@[x]@[k] < m,
            forall|u: usize| u < m ==> (r@[u as int] <==> mapped_below(s2t@, x, u)),
        decreases n - x,
    {
        match s2t.get(&x) {
            Some(v) => {
                let ghost vv = v@;
                assert(s2t@.contains_key(x) && s2t@[x]@ == vv);
                let mut k: usize = 0;
                while k < v.len()
                    invariant
                        v@ == vv,
                        s2t@.contains_key(x) && s2t@[x]@ == vv,
                        k <= vv.len(),
                        r@.len() == m,
                        forall|j: int| 0 <= j < vv.len() ==> #[trigger] vv[j] < m,
                        forall|u: usize| u < m ==> (r@[u as int] <==> (mapped_below(s2t@, x, u) || exists|j: int| 0 <= j < k && vv[j] == u)),
                    decreases vv.len() - k,
                {
                    let w = v[k];
                    r.set(w, true);
                    proof {
                        assert forall|u: usize| u < m implies (r@[u as int] <==> (mapped_below(s2t@, x, u) || exists|j: int| 0 <= j < k + 1 && vv[j] == u)) by {
                            if u == w {
                                assert(vv[k as int] == u);
                            } else if exists|j: int| 0 <= j < k + 1 && vv[j] == u {
                                let j = choose|j: int| 0 <= j < k + 1 && vv[j] == u;
                                assert(j < k);
                            }
                        }
                    }
                    k = k + 1;
                }
                proof {
                    assert forall|u: usize| u < m implies (r@[u as int] <==> mapped_below(s2t@, (x + 1) as usize, u)) by {
                        if mapped_below(s2t@, (x + 1) as usize, u) {
                            let y = choose|y: usize| y < x + 1 && s2t@.contains_key(y) && #[trigger] s2t@[y]@.contains(u);
                            if y == x {
                                let j = choose|j: int| 0 <= j < vv.len() && vv[j] == u;
                            } else {
                                assert(mapped_below(s2t@, x, u));
                            }
                        }
                        if exists|j: int| 0 <= j < k && vv[j] == u {
                            let j = choose|j: int| 0 <= j < k && vv[j] == u;
                            assert(s2t@[x]@.contains(u));
                        }
                        if mapped_below(s2t@, x, u) {
                            let y = choose|y: usize| y < x && s2t@.contains_key(y) && #[trigger] s2t@[y]@.contains(u);
                            assert(y < x + 1);
                        }
                    }
                }
            },
            None => {
                proof {
                    assert forall|u: usize| u < m implies (r@[u as int] <==> mapped_below(s2t@, (x + 1) as usize, u)) by {
                        if mapped_below(s2t@, (x + 1) as usize, u) {
                            let y = choose|y: usize| y < x + 1 && s2t@.contains_key(y) && #[trigger] s2t@[y]@.contains(u);
                            assert(y != x);
                        }
                        if mapped_below(s2t@, x, u) {
                            let y = choose|y: usize| y < x && s2t@.contains_key(y) && #[trigger] s2t@[y]@.contains(u);
                            assert(y < x + 1);
                        }
                    }
                }
            },
        }
        x = x + 1;
    }
    proof {
        assert forall|u: int| 0 <= u < m implies r@[u] == target_flags(s2t@, m as nat)[u] by {
            let uu = u as usize;
            if target_is_mapped(s2t@, uu) {
                let y = choose|y: usize| s2t@.contains_key(y) && #[trigger] s2t@[y]@.contains(uu);
                assert(y < n);
            }
            if mapped_below(s2t@, x, uu) {
                let y = choose|y: usize| y < x && s2t@.contains_key(y) && #[trigger] s2t@[y]@.contains(uu);
                assert(s2t@.contains_key(y) && s2t@[y]@.contains(uu));
            }
        }
        assert(r@ =~= target_flags(s2t@, m as nat));
    }
    r
}

/// The position a segment is ordered by: where it starts in the source for a
/// source-only segment, where it starts in the target otherwise.
pub open spec fn segment_start(s: SegmentView) -> usize {
    if s.label == SegmentType::Missing {
        match s.source_range {
            Some(r) => r.0,
            None => 0,
        }
    } else {
        match s.target_range {
            Some(r) => r.0,
            None => 0,
        }
    }
}

/// An order on segments.
#[derive(Debug, Clone, Copy, PartialEq, Eq, Structural)]
pub enum SegmentOrder {
    /// By start position.
    Start,
    /// By length, longest first.
    Length,
    /// Shared, then source-only, then target-only segments, each kind longest first.
    Label,
}

/// The rank of a label in the label order.
pub open spec fn label_rank(l: SegmentType) -> int {
    match l {
        SegmentType::Common => 0,
        SegmentType::Missing => 1,
        SegmentType::Added => 2,
    }
}

/// Whether `x` comes strictly before `e` in the order.
pub open spec fn goes_before(order: SegmentOrder, x: SegmentView, e: SegmentView) -> bool {
    match order {
        SegmentOrder::Start => segment_start(x) < segment_start(e),
        SegmentOrder::Length => x.byte_len > e.byte_len,
        SegmentOrder::Label => label_rank(x.label) < label_rank(e.label)
            || (label_rank(x.label) == label_rank(e.label) && x.byte_len > e.byte_len),
    }
}

/// Insert `x` into `s` before the first segment that it comes strictly before.
pub open spec fn insert_ordered(order: SegmentOrder, s: Seq<SegmentView>, x: SegmentView) -> Seq<SegmentView>
    decreases s.len(),
{
    if s.len() == 0 {
        seq![x]
    } else if goes_before(order, x, s[0]) {
        seq![x] + s
    } else {
        seq![s[0]] + insert_ordered(order, s.drop_first(), x)
    }
}

/// `s` sorted in the order, segments that neither comes before the other kept in their
/// order in `s`.
pub open spec fn sort_ordered(order: SegmentOrder, s: Seq<SegmentView>) -> Seq<SegmentView>
    decreases s.len(),
{
    if s.len() == 0 {
        s
    } else {
        insert_ordered(order, sort_ordered(order, s.drop_last()), s.last())
    }
}

/// No segment of `s` comes strictly before a segment earlier in `s`.
pub open spec fn in_order(order: SegmentOrder, s: Seq<SegmentView>) -> bool {
    forall|p: int, q: int| 0 <= p < q < s.len() ==> !goes_before(order, #[trigger] s[q], #[trigger] s[p])
}

/// Each order is a strict weak order: irreflexive and transitive.
proof fn lemma_goes_before_order(order: SegmentOrder, a: SegmentView, b: SegmentView, c: SegmentView)
    ensures
        !goes_before(order, a, a),
        goes_before(order, a, b) && goes_before(order, b, c) ==> goes_before(order, a, c),
{
}

proof fn lemma_insert_ordered_props(order: SegmentOrder, s: Seq<SegmentView>, x: SegmentView)
    ensures
        insert_ordered(order, s, x).len() == s.len() + 1,
        insert_ordered(order, s, x).to_multiset() =~= s.to_multiset().insert(x),
        in_order(order, s) ==> in_order(order, insert_ordered(order, s, x)),
    decreases s.len(),
{
    broadcast use vstd::seq_lib::group_to_multiset_ensures;
    broadcast use vstd::seq_lib::lemma_multiset_commutative;
    broadcast use vstd::multiset::group_multiset_axioms;
    assert(seq![x] =~= Seq::<SegmentView>::empty().push(x));
    if s.len() > 0 {
        let r = insert_ordered(order, s, x);
        assert(seq![s[0]] =~= Seq::<SegmentView>::empty().push(s[0]));
        if goes_before(order, x, s[0]) {
            assert(r =~= seq![x] + s);
            assert((seq![x] + s).drop_first() =~= s);
            assert(s =~= seq![s[0]] + s.drop_first());
            if in_order(order, s) {
                assert forall|p: int, q: int| 0 <= p < q < r.len() implies !goes_before(order, #[trigger] r[q], #[trigger] r[p]) by {
                    assert(r[q] == s[q - 1]);
                    if p > 0 {
                        assert(r[p] == s[p - 1]);
                    } else {
                        lemma_goes_before_order(order, s[q - 1], x, s[0]);
                        lemma_goes_before_order(order, s[0], x, s[0]);
                    }
                }
            }
        } else {
            let t = s.drop_first();
            lemma_insert_ordered_props(order, t, x);
            let it = insert_ordered(order, t, x);
            assert(r =~= seq![s[0]] + it);
            assert((seq![s[0]] + it).drop_first() =~= it);
            assert(s =~= seq![s[0]] + t);
            assert((seq![s[0]] + t).drop_first() =~= t);
            if in_order(order, s) {
                assert(in_order(order, t)) by {
                    assert forall|p: int, q: int| 0 <= p < q < t.len() implies !goes_before(order, #[trigger] t[q], #[trigger] t[p]) by {
                        assert(t[p] == s[p + 1]);
                        assert(t[q] == s[q + 1]);
                    }
                }
                assert forall|p: int, q: int| 0 <= p < q < r.len() implies !goes_before(order, #[trigger] r[q], #[trigger] r[p]) by {
                    assert(r[q] == it[q - 1]);
                    if p > 0 {
                        assert(r[p] == it[p - 1]);
                    } else {
                        assert(r[p] == s[0]);
                        assert(it.to_multiset().count(it[q - 1]) > 0);
                        assert(t.to_multiset().insert(x).count(it[q - 1]) > 0);
                        if it[q - 1] != x {
                            assert(t.to_multiset().count(it[q - 1]) > 0);
                            assert(t.contains(it[q - 1]));
                            let z = choose|z: int| 0 <= z < t.len() && t[z] == it[q - 1];
                            assert(t[z] == s[z + 1]);
                        }
                    }
                }
            }
        }
    }
}

/// Sorting in an order puts the segments in that order and keeps every segment.
pub proof fn lemma_sort_ordered_props(order: SegmentOrder, s: Seq<SegmentView>)
    ensures
        sort_ordered(order, s).len() == s.len(),
        sort_ordered(order, s).to_multiset() =~= s.to_multiset(),
        in_order(order, sort_ordered(order, s)),
    decreases s.len(),
{
    broadcast use vstd::seq_lib::group_to_multiset_ensures;
    if s.len() > 0 {
        lemma_sort_ordered_props(order, s.drop_last());
        lemma_insert_ordered_props(order, sort_ordered(order, s.drop_last()), s.last());
        assert(s =~= s.drop_last().push(s.last()));
    }
}

/// `s` with each segment's id set to its index.
pub open spec fn numbered(s: Seq<SegmentView>) -> Seq<SegmentView> {
    Seq::new(
        s.len(),
        |k: int|
            SegmentView {
                id: k as usize,
                label: s[k].label,
                byte_len: s[k].byte_len,
                source_range: s[k].source_range,
                target_range: s[k].target_range,
                content: s[k].content,
            },
    )
}

/// Numbering keeps the order of the segments and gives each its index.
pub proof fn lemma_numbered_in_order(order: SegmentOrder, s: Seq<SegmentView>)
    requires
        in_order(order, s),
    ensures
        numbered(s).len() == s.len(),
        in_order(order, numbered(s)),
        forall|k: int| 0 <= k < s.len() ==> (#[trigger] numbered(s)[k]).id == k as usize,
{
    let r = numbered(s);
    assert forall|p: int, q: int| 0 <= p < q < r.len() implies !goes_before(order, #[trigger] r[q], #[trigger] r[p]) by {
        assert(!goes_before(order, s[q], s[p]));
    }
}

/// The segments of an alignment before ordering: the shared segments run by run along
/// the target, then the source-only runs, then the target-only runs.
pub open spec fn raw_segments(source: Seq<u8>, target: Seq<u8>, s2t: Map<usize, Vec<usize>>, t2s: Map<usize, Vec<usize>>) -> Seq<SegmentView> {
    let sf = source_flags(s2t, source.len());
    let tf = target_flags(s2t, target.len());
    common_segments(target, t2s, runs_from(tf, 0, true)) + gap_segments(source, sf, 0, true) + gap_segments(target, tf, 0, false)
}

/// The segments of an alignment: ordered by start, equal starts in raw order, and numbered.
pub open spec fn segments_spec(source: Seq<u8>, target: Seq<u8>, s2t: Map<usize, Vec<usize>>, t2s: Map<usize, Vec<usize>>) -> Seq<SegmentView> {
    numbered(sort_ordered(SegmentOrder::Start, raw_segments(source, target, s2t, t2s)))
}

/// What segmenting asks of a mapping: its source positions and their partners lie inside
/// the source and the target, and each mapped target position that the target-to-source
/// map holds has a first partner below `usize::MAX`.
pub open spec fn mapping_fits(n: nat, m: nat, s2t: Map<usize, Vec<usize>>, t2s: Map<usize, Vec<usize>>) -> bool {
    &&& forall|x: usize| #[trigger] s2t.contains_key(x) ==> x < n
    &&& forall|x: usize, k: int| s2t.contains_key(x) && 0 <= k < s2t[x]@.len() ==> #[trigger] s2t[x]@[k] < m
    &&& forall|t: usize|
        t < m && target_is_mapped(s2t, t) && #[trigger] t2s.contains_key(t) ==> t2s[t]@.len() > 0 && t2s[t]@[0] < usize::MAX
}

/// The mapped flags of the source positions.
fn source_marks(s2t: &HashMap<usize, Vec<usize>>, n: usize) -> (r: Vec<bool>)
    ensures
        r@ == source_flags(s2t@, n as nat),
{
    let mut r: Vec<bool> = Vec::new();
    let mut i: usize = 0;
    while i < n
        invariant
            i <= n,
            r@ == source_flags(s2t@, i as nat),
        decreases n - i,
    {
        r.push(s2t.contains_key(&i));
        proof {
            assert(r@ =~= source_flags(s2t@, (i + 1) as nat));
        }
        i = i + 1;
    }
    r
}

/// Push one segment for every unmapped run of `bytes`, in increasing position.
fn push_gaps(segs: &mut Vec<Segment>, bytes: &[u8], mapped: &Vec<bool>, missing: bool)
    requires
        mapped@.len() == bytes@.len(),
    ensures
        views(final(segs)@) == views(old(segs)@) + gap_segments(bytes@, mapped@, 0, missing),
{
    let ghost f = mapped@;
    let ghost goal = views(old(segs)@) + gap_segments(bytes@, f, 0, missing);
    let n = mapped.len();
    let mut i: usize = 0;
    proof {
        assert(views(segs@) + gap_segments(bytes@, f, 0, missing) == goal);
    }
    while i < n
        invariant
            n == f.len(),
            f == mapped@,
            f.len() == bytes@.len(),
            i <= n,
            views(segs@) + gap_segments(bytes@, f, i as int, missing) == goal,
        decreases n - i,
    {
        if !mapped[i] {
            let s = i;
            proof {
                lemma_run_end(f, s as int, false);
            }
            while i < n && !mapped[i]
                invariant
                    n == f.len(),
                    f == mapped@,
                    s <= i <= n,
                    run_end(f, s as int, false) == run_end(f, i as int, false),
                decreases n - i,
            {
                i = i + 1;
            }
            let ghost e = i as int;
            let ghost g = |r: (int, int)| gap_segment(bytes@, r, missing);
            proof {
                assert(run_end(f, i as int, false) == e);
                let rest = runs_from(f, e, false);
                assert(runs_from(f, s as int, false) == seq![(s as int, e)] + rest);
                assert((seq![(s as int, e)] + rest).map_values(g) =~= seq![g((s as int, e))] + rest.map_values(g));
            }
            let piece = vstd::slice::slice_subrange(bytes, s, i);
            let content = lossy_string(piece);
            let seg = Segment {
                id: 0,
                label: if missing { SegmentType::Missing } else { SegmentType::Added },
                byte_len: i - s,
                source_range: if missing { Some((s, i - 1)) } else { None },
                target_range: if missing { None } else { Some((s, i - 1)) },
                content,
            };
            let ghost before = segs@;
            segs.push(seg);
            proof {
                assert(seg@ == g((s as int, e)));
                assert(views(segs@) =~= views(before) + seq![seg@]);
                assert(views(segs@) + gap_segments(bytes@, f, i as int, missing) =~= views(before) + gap_segments(bytes@, f, s as int, missing));
            }
        } else {
            proof {
                assert(runs_from(f, i as int, false) == runs_from(f, i + 1, false));
            }
            i = i + 1;
        }
    }
    proof {
        assert(runs_from(f, i as int, false) =~= Seq::<(int, int)>::empty());
        assert(gap_segments(bytes@, f, i as int, missing) =~= Seq::<SegmentView>::empty());
        assert(views(segs@) + gap_segments(bytes@, f, i as int, missing) =~= views(segs@));
    }
}

/// The start of a segment, as `segment_start` gives it.
fn start_of(s: &Segment) -> (r: usize)
    ensures
        r == segment_start(s@),
{
    match s.label {
        SegmentType::Missing => match s.source_range {
            Some(r) => r.0,
            None => 0,
        },
        _ => match s.target_range {
            Some(r) => r.0,
            None => 0,
        },
    }
}

/// Whether `x` comes strictly before `e` in the order.
fn before(order: SegmentOrder, x: &Segment, e: &Segment) -> (r: bool)
    ensures
        r == goes_before(order, x@, e@),
{
    match order {
        SegmentOrder::Start => start_of(x) < start_of(e),
        SegmentOrder::Length => x.byte_len > e.byte_len,
        SegmentOrder::Label => {
            let rx = rank_of(x.label);
            let re = rank_of(e.label);
            rx < re || (rx == re && x.byte_len > e.byte_len)
        },
    }
}

/// The rank of a label in the label order.
fn rank_of(l: SegmentType) -> (r: u8)
    ensures
        r == label_rank(l),
{
    match l {
        SegmentType::Common => 0,
        SegmentType::Missing => 1,
        SegmentType::Added => 2,
    }
}

/// Sort segments in the order, keeping the order of segments that neither comes before
/// the other.
pub(crate) fn sort_segments(v: &mut Vec<Segment>, order: SegmentOrder)
    ensures
        views(final(v)@) == sort_ordered(order, views(old(v)@)),
{
    let ghost o = views(v@);
    let n = v.len();
    let mut i: usize = 0;
    proof {
        assert(o.take(0) =~= Seq::<SegmentView>::empty());
        assert(views(v@).take(0) =~= Seq::<SegmentView>::empty());
        assert(views(v@).skip(0) =~= o.skip(0));
    }
    while i < n
        invariant
            i <= n,
            v@.len() == n,
            o.len() == n,
            views(v@).take(i as int) == sort_ordered(order, o.take(i as int)),
            views(v@).skip(i as int) == o.skip(i as int),
        decreases n - i,
    {
        let ghost vb = views(v@);
        let ghost sorted = vb.take(i as int);
        let x = v.remove(i);
        proof {
            assert(o.skip(i as int)[0] == o[i as int]);
            assert(vb.skip(i as int)[0] == vb[i as int]);
            assert(x@ == o[i as int]);
            assert forall|k: int| 0 <= k < i implies #[trigger] views(v@)[k] == sorted[k] by {
                assert(views(v@)[k] == vb[k]);
            }
        }
        let mut p: usize = 0;
        proof {
            assert(sorted.skip(0) =~= sorted);
            assert(sorted.take(0) + insert_ordered(order, sorted, x@) =~= insert_ordered(order, sorted, x@));
        }
        while p < i && !before(order, &x, &v[p])
            invariant
                p <= i,
                i < n,
                v@.len() == n - 1,
                forall|k: int| 0 <= k < i ==> #[trigger] views(v@)[k] == sorted[k],
                sorted.len() == i,
                insert_ordered(order, sorted, x@) == sorted.take(p as int) + insert_ordered(order, sorted.skip(p as int), x@),
            decreases i - p,
        {
            proof {
                let t = sorted.skip(p as int);
                assert(views(v@)[p as int] == sorted[p as int]);
                assert(t[0] == sorted[p as int]);
                assert(t.drop_first() =~= sorted.skip(p + 1));
                assert(sorted.take(p as int) + seq![sorted[p as int]] =~= sorted.take(p + 1));
            }
            p = p + 1;
        }
        let ghost vr = views(v@);
        v.insert(p, x);
        proof {
            if p < i {
                assert(vr[p as int] == sorted[p as int]);
                assert(sorted.skip(p as int)[0] == sorted[p as int]);
            } else {
                assert(sorted.skip(p as int) =~= Seq::<SegmentView>::empty());
            }
            let ins = insert_ordered(order, sorted, x@);
            assert(ins =~= sorted.take(p as int) + seq![x@] + sorted.skip(p as int));
            assert(o.take(i + 1).drop_last() =~= o.take(i as int));
            assert(o.take(i + 1).last() == o[i as int]);
            assert(views(v@).take(i + 1) =~= ins) by {
                assert forall|k: int| 0 <= k < i + 1 implies #[trigger] views(v@).take(i + 1)[k] == ins[k] by {
                    if k < p {
                        assert(views(v@)[k] == vr[k]);
                    } else if k == p {
                    } else {
                        assert(views(v@)[k] == vr[k - 1]);
                    }
                }
            }
            assert(views(v@).skip(i + 1) =~= o.skip(i + 1)) by {
                assert forall|k: int| 0 <= k < n - i - 1 implies #[trigger] views(v@).skip(i + 1)[k] == o.skip(i + 1)[k] by {
                    assert(views(v@)[i + 1 + k] == vr[i + k]);
                    assert(vr[i + k] == vb[i + 1 + k]);
                    assert(vb.skip(i as int)[1 + k] == o.skip(i as int)[1 + k]);
                }
            }
        }
        i = i + 1;
    }
    proof {
        assert(views(v@).take(n as int) =~= views(v@));
        assert(o.take(n as int) =~= o);
    }
}

/// Set each segment's id to its index.
pub(crate) fn number_segments(v: &mut Vec<Segment>)
    ensures
        views(final(v)@) == numbered(views(old(v)@)),
{
    let ghost o = views(v@);
    let n = v.len();
    let mut k: usize = 0;
    while k < n
        invariant
            k <= n,
            v@.len() == n,
            o.len() == n,
            forall|j: int| 0 <= j < k ==> #[trigger] views(v@)[j] == numbered(o)[j],
            forall|j: int| k <= j < n ==> #[trigger] views(v@)[j] == o[j],
        decreases n - k,
    {
        let ghost vb = views(v@);
        let mut s = v.remove(k);
        s.id = k;
        let ghost sv = s@;
        proof {
            assert(vb[k as int] == o[k as int]);
        }
        v.insert(k, s);
        proof {
            assert forall|j: int| 0 <= j < k + 1 implies #[trigger] views(v@)[j] == numbered(o)[j] by {
                if j < k {
                    assert(views(v@)[j] == vb[j]);
                } else {
                    assert(views(v@)[j] == sv);
                }
            }
            assert forall|j: int| k + 1 <= j < n implies #[trigger] views(v@)[j] == o[j] by {
                assert(views(v@)[j] == vb[j]);
            }
        }
        k = k + 1;
    }
    proof {
        assert(views(v@) =~= numbered(o));
    }
}

/// The labelled segments of an alignment of `source` and `target` given by `mapping`.
///
/// Every maximal run of mapped target positions gives shared segments: the run's
/// positions that the target-to-source map holds, paired with their first source
/// partner, are cut wherever the source does not go on by one, and each piece becomes a
/// segment spanning its target positions. Every maximal run of unmapped source positions
/// gives a source-only segment, every maximal run of unmapped target positions a
/// target-only one. The segments are ordered by start (source start for source-only
/// segments, target start otherwise), ties kept in that order, and numbered from 0.
pub fn phase3_segments(source: &[u8], target: &[u8], mapping: &MappingResult) -> (r: Vec<Segment>)
    requires
        mapping_fits(source@.len(), target@.len(), mapping.source_to_target@, mapping.target_to_source@),
    ensures
        views(r@) == segments_spec(source@, target@, mapping.source_to_target@, mapping.target_to_source@),
{
    let ghost s2t = mapping.source_to_target@;
    let ghost t2s = mapping.target_to_source@;
    let n = source.len();
    let m = target.len();
    let mapped_src = source_marks(&mapping.source_to_target, n);
    let mapped_tgt = target_marks(&mapping.source_to_target, n, m);
    let ghost tf = mapped_tgt@;
    let ghost goal = common_segments(target@, t2s, runs_from(tf, 0, true));
    let mut segments: Vec<Segment> = Vec::new();
    let mut t: usize = 0;
    proof {
        assert(views(segments@) + goal =~= goal);
    }
    while t < m
        invariant
            m == target@.len(),
            tf == mapped_tgt@,
            tf == target_flags(s2t, m as nat),
            s2t == mapping.source_to_target@,
            t2s == mapping.target_to_source@,
            mapping_fits(n as nat, m as nat, s2t, t2s),
            t <= m,
            views(segments@) + common_segments(target@, t2s, runs_from(tf, t as int, true)) == goal,
        decreases m - t,
    {
        if mapped_tgt[t] {
            let start = t;
            proof {
                lemma_run_end(tf, start as int, true);
            }
            while t < m && mapped_tgt[t]
                invariant
                    tf == mapped_tgt@,
                    m == tf.len(),
                    start <= t <= m,
                    run_end(tf, start as int, true) == run_end(tf, t as int, true),
                    forall|u: int| start <= u < t ==> tf[u],
                decreases m - t,
            {
                t = t + 1;
            }
            proof {
                assert forall|u: usize| start <= u < t && #[trigger] t2s.contains_key(u) implies t2s[u]@.len() > 0 && t2s[u]@[0] < usize::MAX by {
                    assert(tf[u as int]);
                    assert(target_is_mapped(s2t, u));
                }
            }
            let ghost before = views(segments@);
            push_run_segments(&mut segments, target, &mapping.target_to_source, start, t);
            proof {
                let rest = runs_from(tf, t as int, true);
                assert(run_end(tf, t as int, true) == t);
                assert(runs_from(tf, start as int, true) == seq![(start as int, t as int)] + rest);
                let rs = seq![(start as int, t as int)] + rest;
                assert(rs[0] == (start as int, t as int));
                assert(rs.drop_first() =~= rest);
                assert(views(segments@) + common_segments(target@, t2s, rest) =~= before + common_segments(target@, t2s, rs));
            }
        } else {
            proof {
                assert(runs_from(tf, t as int, true) == runs_from(tf, t + 1, true));
            }
            t = t + 1;
        }
    }
    proof {
        assert(runs_from(tf, t as int, true) =~= Seq::<(int, int)>::empty());
        assert(views(segments@) =~= goal);
    }
    push_gaps(&mut segments, source, &mapped_src, true);
    push_gaps(&mut segments, target, &mapped_tgt, false);
    sort_segments(&mut segments, SegmentOrder::Start);
    number_segments(&mut segments);
    segments
}

/// The segments of an alignment run by start: no segment starts before one listed
/// earlier; each carries its index as id; and they are the raw segments, each once,
/// up to their ids.
pub proof fn lemma_segments_in_start_order(
    source: Seq<u8>,
    target: Seq<u8>,
    s2t: Map<usize, Vec<usize>>,
    t2s: Map<usize, Vec<usize>>,
)
    ensures
        forall|p: int, q: int|
            0 <= p < q < segments_spec(source, target, s2t, t2s).len() ==> segment_start(
                #[trigger] segments_spec(source, target, s2t, t2s)[p],
            ) <= segment_start(#[trigger] segments_spec(source, target, s2t, t2s)[q]),
        forall|k: int|
            0 <= k < segments_spec(source, target, s2t, t2s).len() ==> (#[trigger] segments_spec(source, target, s2t, t2s)[k]).id == k as usize,
        segments_spec(source, target, s2t, t2s).len() == raw_segments(source, target, s2t, t2s).len(),
        sort_ordered(SegmentOrder::Start, raw_segments(source, target, s2t, t2s)).to_multiset()
            =~= raw_segments(source, target, s2t, t2s).to_multiset(),
{
    let raw = raw_segments(source, target, s2t, t2s);
    lemma_sort_ordered_props(SegmentOrder::Start, raw);
    lemma_numbered_in_order(SegmentOrder::Start, sort_ordered(SegmentOrder::Start, raw));
    let r = segments_spec(source, target, s2t, t2s);
    assert forall|p: int, q: int| 0 <= p < q < r.len() implies segment_start(#[trigger] r[p]) <= segment_start(#[trigger] r[q]) by {
        assert(!goes_before(SegmentOrder::Start, r[q], r[p]));
    }
}

/// The position `k` past `x`.
pub open spec fn offset(x: usize, k: int) -> usize {
    (x + k) as usize
}

/// A shared segment is a diagonal stretch of the mapping: it spans as many source as
/// target positions, `byte_len` of each, and its `k`-th target position has the `k`-th
/// source position as first partner, while that source position maps to it.
pub open spec fn diagonal_common(v: SegmentView, s2t: Map<usize, Vec<usize>>, t2s: Map<usize, Vec<usize>>) -> bool {
    v.label == SegmentType::Common ==> match (v.source_range, v.target_range) {
        (Some(sr), Some(tr)) => {
            &&& v.byte_len >= 1
            &&& sr.1 == sr.0 + v.byte_len - 1
            &&& tr.1 == tr.0 + v.byte_len - 1
            &&& forall|k: int|
                0 <= k < v.byte_len ==> {
                    &&& t2s.contains_key(#[trigger] offset(tr.0, k))
                    &&& t2s[offset(tr.0, k)]@.len() > 0
                    &&& t2s[offset(tr.0, k)]@[0] == offset(sr.0, k)
                    &&& s2t.contains_key(offset(sr.0, k))
                    &&& s2t[offset(sr.0, k)]@.contains(offset(tr.0, k))
                }
        },
        _ => false,
    }
}

/// Each target position's sources map back to it.
pub open spec fn maps_back(s2t: Map<usize, Vec<usize>>, t2s: Map<usize, Vec<usize>>) -> bool {
    forall|x: usize, y: usize|
        t2s.contains_key(y) && #[trigger] t2s[y]@.contains(x) ==> s2t.contains_key(x) && s2t[x]@.contains(y)
}

/// A non-empty run inside a target of length `m` whose every position the
/// target-to-source map holds, with at least one partner.
pub open spec fn run_held(r: (int, int), m: nat, t2s: Map<usize, Vec<usize>>) -> bool {
    &&& 0 <= r.0 < r.1 <= m
    &&& forall|t: usize| r.0 <= t < r.1 ==> #[trigger] t2s.contains_key(t) && t2s[t]@.len() > 0
}

/// The maximal runs found from `i` lie in `[i, len)`, are non-empty, and hold `v` throughout.
proof fn lemma_runs_from_elems(f: Seq<bool>, i: int, v: bool)
    requires
        0 <= i,
    ensures
        forall|q: int|
            0 <= q < runs_from(f, i, v).len() ==> {
                let r = #[trigger] runs_from(f, i, v)[q];
                &&& i <= r.0 < r.1 <= f.len()
                &&& forall|t: int| r.0 <= t < r.1 ==> f[t] == v
            },
    decreases f.len() - i,
{
    if 0 <= i < f.len() {
        if f[i] == v {
            let e = run_end(f, i, v);
            lemma_run_end(f, i, v);
            lemma_runs_from_elems(f, e, v);
            let rest = runs_from(f, e, v);
            let rs = runs_from(f, i, v);
            assert(rs == seq![(i, e)] + rest);
            assert forall|q: int| 0 <= q < rs.len() implies {
                let r = #[trigger] rs[q];
                &&& i <= r.0 < r.1 <= f.len()
                &&& forall|t: int| r.0 <= t < r.1 ==> f[t] == v
            } by {
                if q > 0 {
                    assert(rs[q] == rest[q - 1]);
                }
            }
        } else {
            lemma_runs_from_elems(f, i + 1, v);
            assert(runs_from(f, i, v) == runs_from(f, i + 1, v));
        }
    }
}

/// Over a stretch whose every position the target-to-source map holds, the run's pairs
/// are the positions in order, each with its first partner.
proof fn lemma_run_pairs_full(t2s: Map<usize, Vec<usize>>, a: int, e: int)
    requires
        0 <= a <= e <= usize::MAX,
        forall|t: usize| a <= t < e ==> #[trigger] t2s.contains_key(t),
    ensures
        run_pairs(t2s, a, e).len() == e - a,
        forall|k: int| 0 <= k < e - a ==> #[trigger] run_pairs(t2s, a, e)[k] == ((a + k) as usize, t2s[(a + k) as usize]@[0]),
    decreases e - a,
{
    if e > a {
        lemma_run_pairs_full(t2s, a, e - 1);
        assert(t2s.contains_key((e - 1) as usize));
        assert(run_pairs(t2s, a, e) == run_pairs(t2s, a, e - 1).push(((e - 1) as usize, t2s[(e - 1) as usize]@[0])));
    }
}

/// The least and greatest sources of pairs whose sources rise by one are its ends.
proof fn lemma_rising_sources(g: Seq<(usize, usize)>)
    requires
        g.len() > 0,
        forall|k: int| 0 <= k < g.len() ==> #[trigger] g[k].1 == g[0].1 + k,
    ensures
        min_source(g) == g[0].1,
        max_source(g) == g[g.len() - 1].1,
    decreases g.len(),
{
    if g.len() > 1 {
        let d = g.drop_last();
        assert forall|k: int| 0 <= k < d.len() implies #[trigger] d[k].1 == d[0].1 + k by {
            assert(d[k] == g[k]);
        }
        lemma_rising_sources(d);
        assert(g[g.len() - 1].1 == g[0].1 + g.len() - 1);
        assert(d[d.len() - 1].1 == g[0].1 + d.len() - 1);
    }
}

/// The shared segment of a group that goes on by one on both sides, each target with
/// its first partner, is a diagonal stretch.
proof fn lemma_group_diagonal(target: Seq<u8>, g: Seq<(usize, usize)>, s2t: Map<usize, Vec<usize>>, t2s: Map<usize, Vec<usize>>)
    requires
        g.len() > 0,
        g[g.len() - 1].0 < usize::MAX,
        forall|k: int| #![trigger g[k]] 0 <= k < g.len() ==> g[k].0 == g[0].0 + k && g[k].1 == g[0].1 + k,
        forall|k: int|
            #![trigger g[k]]
            0 <= k < g.len() ==> t2s.contains_key(g[k].0) && t2s[g[k].0]@.len() > 0 && t2s[g[k].0]@[0] == g[k].1,
        maps_back(s2t, t2s),
    ensures
        diagonal_common(common_segment(target, g), s2t, t2s),
{
    assert forall|k: int| 0 <= k < g.len() implies #[trigger] g[k].1 == g[0].1 + k by {
        assert(g[k].1 == g[0].1 + k);
    }
    lemma_rising_sources(g);
    let v = common_segment(target, g);
    let len = g.len();
    assert(g[len - 1].0 == g[0].0 + len - 1);
    assert(g[len - 1].1 == g[0].1 + len - 1);
    assert(v.byte_len == len);
    assert(v.source_range == Some((g[0].1, g[len - 1].1)));
    assert(v.target_range == Some((g[0].0, g[len - 1].0)));
    assert forall|k: int| 0 <= k < v.byte_len implies {
        &&& t2s.contains_key(#[trigger] offset(g[0].0, k))
        &&& t2s[offset(g[0].0, k)]@.len() > 0
        &&& t2s[offset(g[0].0, k)]@[0] == offset(g[0].1, k)
        &&& s2t.contains_key(offset(g[0].1, k))
        &&& s2t[offset(g[0].1, k)]@.contains(offset(g[0].0, k))
    } by {
        assert(g[k].0 == g[0].0 + k && g[k].1 == g[0].1 + k);
        assert(offset(g[0].0, k) == g[k].0);
        assert(offset(g[0].1, k) == g[k].1);
        let y = g[k].0;
        assert(t2s[y]@.contains(t2s[y]@[0]));
    }
}

/// Sources that go on by one over `(start, i)` are `k` past the first at offset `k`.
proof fn lemma_consecutive_sources(ps: Seq<(usize, usize)>, start: int, i: int)
    requires
        0 <= start < i <= ps.len(),
        forall|k: int| start < k < i ==> #[trigger] ps[k].1 == ps[k - 1].1 + 1,
    ensures
        forall|k: int| start <= k < i ==> #[trigger] ps[k].1 == ps[start].1 + (k - start),
    decreases i - start,
{
    if i - 1 > start {
        lemma_consecutive_sources(ps, start, i - 1);
        assert(ps[i - 1].1 == ps[i - 2].1 + 1);
    }
}

/// Cutting a run's pairs where the source does not go on by one gives diagonal stretches.
proof fn lemma_split_groups_diagonal(
    target: Seq<u8>,
    ps: Seq<(usize, usize)>,
    start: int,
    i: int,
    s2t: Map<usize, Vec<usize>>,
    t2s: Map<usize, Vec<usize>>,
)
    requires
        0 <= start < i <= ps.len(),
        ps[ps.len() - 1].0 < usize::MAX,
        forall|k: int| 0 <= k < ps.len() ==> #[trigger] ps[k].0 == ps[0].0 + k,
        forall|k: int|
            0 <= k < ps.len() ==> t2s.contains_key(#[trigger] ps[k].0) && t2s[ps[k].0]@.len() > 0 && t2s[ps[k].0]@[0] == ps[k].1,
        forall|k: int| start < k < i ==> #[trigger] ps[k].1 == ps[k - 1].1 + 1,
        maps_back(s2t, t2s),
    ensures
        forall|q: int|
            0 <= q < split_groups(target, ps, start, i).len() ==> diagonal_common(
                #[trigger] split_groups(target, ps, start, i)[q],
                s2t,
                t2s,
            ),
    decreases ps.len() - i,
{
    let sg = split_groups(target, ps, start, i);
    if i < ps.len() && ps[i].1 == ps[i - 1].1 + 1 {
        lemma_split_groups_diagonal(target, ps, start, i + 1, s2t, t2s);
        assert(sg == split_groups(target, ps, start, i + 1));
    } else {
        let en = if i < ps.len() { i } else { ps.len() as int };
        let g = ps.subrange(start, en);
        lemma_consecutive_sources(ps, start, en);
        assert forall|k: int| #![trigger g[k]] 0 <= k < g.len() implies g[k].0 == g[0].0 + k && g[k].1 == g[0].1 + k by {
            assert(g[k] == ps[start + k]);
            assert(g[0] == ps[start]);
        }
        assert forall|k: int| #![trigger g[k]] 0 <= k < g.len() implies t2s.contains_key(g[k].0) && t2s[g[k].0]@.len() > 0 && t2s[g[k].0]@[0] == g[k].1 by {
            assert(g[k] == ps[start + k]);
        }
        assert(g[g.len() - 1] == ps[en - 1]);
        lemma_group_diagonal(target, g, s2t, t2s);
        if i < ps.len() {
            lemma_split_groups_diagonal(target, ps, i, i + 1, s2t, t2s);
            let rest = split_groups(target, ps, i, i + 1);
            assert(sg == seq![common_segment(target, g)] + rest);
            assert forall|q: int| 0 <= q < sg.len() implies diagonal_common(#[trigger] sg[q], s2t, t2s) by {
                if q > 0 {
                    assert(sg[q] == rest[q - 1]);
                }
            }
        } else {
            assert(sg == seq![common_segment(target, g)]);
            assert forall|q: int| 0 <= q < sg.len() implies diagonal_common(#[trigger] sg[q], s2t, t2s) by {
                assert(sg[q] == common_segment(target, g));
            }
        }
    }
}

/// The shared segments of mapped runs whose every position the target-to-source map
/// holds are diagonal stretches.
proof fn lemma_common_segments_diagonal(
    target: Seq<u8>,
    s2t: Map<usize, Vec<usize>>,
    t2s: Map<usize, Vec<usize>>,
    rs: Seq<(int, int)>,
)
    requires
        target.len() <= usize::MAX,
        maps_back(s2t, t2s),
        forall|q: int| 0 <= q < rs.len() ==> run_held(#[trigger] rs[q], target.len(), t2s),
    ensures
        forall|q: int|
            0 <= q < common_segments(target, t2s, rs).len() ==> diagonal_common(
                #[trigger] common_segments(target, t2s, rs)[q],
                s2t,
                t2s,
            ),
    decreases rs.len(),
{
    if rs.len() > 0 {
        let r = rs[0];
        let d = rs.drop_first();
        assert forall|q: int| 0 <= q < d.len() implies run_held(#[trigger] d[q], target.len(), t2s) by {
            assert(d[q] == rs[q + 1]);
        }
        lemma_common_segments_diagonal(target, s2t, t2s, d);
        let (a, e) = r;
        assert(run_held(rs[0], target.len(), t2s));
        lemma_run_pairs_full(t2s, a, e);
        let ps = run_pairs(t2s, a, e);
        assert forall|k: int| 0 <= k < ps.len() implies #[trigger] ps[k].0 == ps[0].0 + k by {
            assert(ps[k] == ((a + k) as usize, t2s[(a + k) as usize]@[0]));
            assert(ps[0] == ((a + 0) as usize, t2s[(a + 0) as usize]@[0]));
        }
        assert forall|k: int| 0 <= k < ps.len() implies t2s.contains_key(#[trigger] ps[k].0) && t2s[ps[k].0]@.len() > 0 && t2s[ps[k].0]@[0] == ps[k].1 by {
            assert(ps[k] == ((a + k) as usize, t2s[(a + k) as usize]@[0]));
            assert(a <= a + k < e);
            assert(t2s.contains_key((a + k) as usize));
        }
        assert(ps[ps.len() - 1] == ((a + (e - a - 1)) as usize, t2s[(a + (e - a - 1)) as usize]@[0]));
        lemma_split_groups_diagonal(target, ps, 0, 1, s2t, t2s);
        let here = run_segments(target, t2s, r);
        assert(here == split_groups(target, ps, 0, 1));
        let all = common_segments(target, t2s, rs);
        let rest = common_segments(target, t2s, d);
        assert(all == here + rest);
        assert forall|q: int| 0 <= q < all.len() implies diagonal_common(#[trigger] all[q], s2t, t2s) by {
            if q < here.len() {
                assert(all[q] == here[q]);
            } else {
                assert(all[q] == rest[q - here.len()]);
            }
        }
    }
}

/// Every shared segment of an alignment by a block family is a diagonal stretch of the
/// mapping: as many source as target positions, `byte_len` of each, the `k`-th target
/// position having the `k`-th source position as first partner and that source position
/// mapping back to it. So a shared segment never spans an unmapped source position, and
/// it is cut wherever the source does not go on by one.
pub proof fn lemma_common_segments_are_diagonal(
    blocks: Seq<Block>,
    source: Seq<u8>,
    target: Seq<u8>,
    s2t: Map<usize, Vec<usize>>,
    t2s: Map<usize, Vec<usize>>,
)
    requires
        forall|k: int| 0 <= k < blocks.len() ==> ends_fit(#[trigger] blocks[k]),
        all_fit(blocks, source.len(), target.len()),
        source.len() <= usize::MAX,
        target.len() <= usize::MAX,
        partner_map_ok(s2t, pairs_of(blocks), true),
        partner_map_ok(t2s, pairs_of(blocks), false),
    ensures
        forall|c: int|
            0 <= c < segments_spec(source, target, s2t, t2s).len() ==> diagonal_common(
                #[trigger] segments_spec(source, target, s2t, t2s)[c],
                s2t,
                t2s,
            ),
{
    broadcast use vstd::seq_lib::group_to_multiset_ensures;
    lemma_mapping_symmetric(blocks, s2t, t2s);
    lemma_mapping_is_block_pairs(blocks, s2t, t2s);
    let sf = source_flags(s2t, source.len());
    let tf = target_flags(s2t, target.len());
    let rs = runs_from(tf, 0, true);
    lemma_runs_from_elems(tf, 0, true);
    assert forall|q: int| 0 <= q < rs.len() implies run_held(#[trigger] rs[q], target.len(), t2s) by {
        let r = rs[q];
        assert(0 <= r.0 < r.1 <= tf.len());
        assert(tf.len() == target.len());
        assert forall|t: usize| r.0 <= t < r.1 implies #[trigger] t2s.contains_key(t) && t2s[t]@.len() > 0 by {
            assert(tf[t as int]);
            assert(target_is_mapped(s2t, t));
            let x = choose|x: usize| s2t.contains_key(x) && #[trigger] s2t[x]@.contains(t);
            assert(t2s.contains_key(t) && t2s[t]@.contains(x));
            assert(t2s[t]@.len() > 0);
        }
        assert(run_held(r, target.len(), t2s));
    }
    lemma_common_segments_diagonal(target, s2t, t2s, rs);
    let com = common_segments(target, t2s, rs);
    let gs = gap_segments(source, sf, 0, true);
    let gt = gap_segments(target, tf, 0, false);
    let raw = raw_segments(source, target, s2t, t2s);
    assert(raw == com + gs + gt);
    assert forall|e: SegmentView| #[trigger] raw.contains(e) implies diagonal_common(e, s2t, t2s) by {
        let q = choose|q: int| 0 <= q < raw.len() && raw[q] == e;
        if q < com.len() {
            assert(raw[q] == com[q]);
        } else if q < com.len() + gs.len() {
            assert(raw[q] == gs[q - com.len()]);
            assert(e.label == SegmentType::Missing);
        } else {
            assert(raw[q] == gt[q - com.len() - gs.len()]);
            assert(e.label == SegmentType::Added);
        }
    }
    lemma_sort_ordered_props(SegmentOrder::Start, raw);
    let sorted = sort_ordered(SegmentOrder::Start, raw);
    let r = segments_spec(source, target, s2t, t2s);
    assert forall|c: int| 0 <= c < r.len() implies diagonal_common(#[trigger] r[c], s2t, t2s) by {
        let e = sorted[c];
        assert(sorted.to_multiset().count(e) > 0);
        assert(raw.to_multiset().count(e) > 0);
        assert(raw.contains(e));
        assert(diagonal_common(e, s2t, t2s));
        assert(r[c].label == e.label && r[c].byte_len == e.byte_len && r[c].source_range == e.source_range
            && r[c].target_range == e.target_range);
    }
}

} // verus!
