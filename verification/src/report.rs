//! What the report shows, computed: the order of the segment table, the count of each
//! kind of segment, and which block marks each position in the alignment view.
use vstd::prelude::*;
use crate::cli::SortMode;
use crate::energy::{spans, start_on};
use crate::segments::{
    label_rank, lemma_numbered_in_order, lemma_sort_ordered_props, number_segments, numbered,
    sort_ordered, sort_segments, views, Segment, SegmentOrder, SegmentType, SegmentView,
};
use crate::types::Block;

verus! {

/// The segment table in the order a sort mode asks for: longest first for
/// `LengthDesc`; shared, then source-only, then target-only, each longest first, for
/// `Label`; unchanged for the modes that order clusters only. Ties keep their order.
pub open spec fn display_sorted(mode: SortMode, s: Seq<SegmentView>) -> Seq<SegmentView> {
    match mode {
        SortMode::LengthDesc => sort_ordered(SegmentOrder::Length, s),
        SortMode::Label => sort_ordered(SegmentOrder::Label, s),
        _ => s,
    }
}

/// Order segments for display by `mode` and number them from 0 in that order.
pub fn sort_for_display(segments: Vec<Segment>, mode: SortMode) -> (r: Vec<Segment>)
    ensures
        views(r@) == numbered(display_sorted(mode, views(segments@))),
{
    let mut v = segments;
    match mode {
        SortMode::LengthDesc => sort_segments(&mut v, SegmentOrder::Length),
        SortMode::Label => sort_segments(&mut v, SegmentOrder::Label),
        _ => {},
    }
    number_segments(&mut v);
    v
}

/// The display order holds: by `LengthDesc`, no segment is longer than one before it; by
/// `Label`, shared segments come first, then source-only, then target-only ones, each
/// kind longest first. Either way the ids are the indices and every segment is kept.
pub proof fn lemma_display_in_order(mode: SortMode, s: Seq<SegmentView>)
    ensures
        numbered(display_sorted(mode, s)).len() == s.len(),
        display_sorted(mode, s).to_multiset() =~= s.to_multiset(),
        forall|k: int| 0 <= k < s.len() ==> (#[trigger] numbered(display_sorted(mode, s))[k]).id == k as usize,
        mode == SortMode::LengthDesc ==> forall|p: int, q: int|
            0 <= p < q < s.len() ==> (#[trigger] numbered(display_sorted(mode, s))[p]).byte_len
                >= (#[trigger] numbered(display_sorted(mode, s))[q]).byte_len,
        mode == SortMode::Label ==> forall|p: int, q: int|
            0 <= p < q < s.len() ==> {
                let a = #[trigger] numbered(display_sorted(mode, s))[p];
                let b = #[trigger] numbered(display_sorted(mode, s))[q];
                label_rank(a.label) < label_rank(b.label) || (label_rank(a.label) == label_rank(b.label)
                    && a.byte_len >= b.byte_len)
            },
{
    match mode {
        SortMode::LengthDesc => {
            lemma_sort_ordered_props(SegmentOrder::Length, s);
            lemma_numbered_in_order(SegmentOrder::Length, sort_ordered(SegmentOrder::Length, s));
        },
        SortMode::Label => {
            lemma_sort_ordered_props(SegmentOrder::Label, s);
            lemma_numbered_in_order(SegmentOrder::Label, sort_ordered(SegmentOrder::Label, s));
        },
        _ => {
            let r = numbered(s);
            assert forall|k: int| 0 <= k < s.len() implies (#[trigger] r[k]).id == k as usize by {}
        },
    }
}

/// How many segments of `s` carry label `l`.
pub open spec fn count_label(s: Seq<SegmentView>, l: SegmentType) -> nat
    decreases s.len(),
{
    if s.len() == 0 {
        0
    } else {
        count_label(s.drop_last(), l) + if s.last().label == l { 1nat } else { 0nat }
    }
}

/// No kind of segment is counted more often than there are segments.
proof fn lemma_count_label_bound(s: Seq<SegmentView>, l: SegmentType)
    ensures
        count_label(s, l) <= s.len(),
    decreases s.len(),
{
    if s.len() > 0 {
        lemma_count_label_bound(s.drop_last(), l);
    }
}

/// The number of shared, source-only and target-only segments.
pub fn label_counts(segments: &[Segment]) -> (r: (usize, usize, usize))
    ensures
        r.0 == count_label(views(segments@), SegmentType::Common),
        r.1 == count_label(views(segments@), SegmentType::Missing),
        r.2 == count_label(views(segments@), SegmentType::Added),
{
    let mut common: usize = 0;
    let mut missing: usize = 0;
    let mut added: usize = 0;
    let mut k: usize = 0;
    while k < segments.len()
        invariant
            k <= segments@.len(),
            common == count_label(views(segments@).take(k as int), SegmentType::Common),
            missing == count_label(views(segments@).take(k as int), SegmentType::Missing),
            added == count_label(views(segments@).take(k as int), SegmentType::Added),
        decreases segments@.len() - k,
    {
        let ghost t = views(segments@).take(k as int);
        proof {
            lemma_count_label_bound(t, SegmentType::Common);
            lemma_count_label_bound(t, SegmentType::Missing);
            lemma_count_label_bound(t, SegmentType::Added);
            assert(views(segments@).take(k + 1).drop_last() =~= t);
            assert(views(segments@).take(k + 1).last() == segments@[k as int]@);
        }
        match segments[k].label {
            SegmentType::Common => common = common + 1,
            SegmentType::Missing => missing = missing + 1,
            SegmentType::Added => added = added + 1,
        }
        k = k + 1;
    }
    proof {
        assert(views(segments@).take(k as int) =~= views(segments@));
    }
    (common, missing, added)
}

/// The index of the last block of `blocks` that spans position `x` of the chosen string.
pub open spec fn last_cover(blocks: Seq<Block>, source_side: bool, x: int) -> Option<usize>
    decreases blocks.len(),
{
    if blocks.len() == 0 {
        None
    } else if spans(blocks.last(), source_side, x) {
        Some((blocks.len() - 1) as usize)
    } else {
        last_cover(blocks.drop_last(), source_side, x)
    }
}

/// For each of the `n` positions of the chosen string, the last block that spans it.
pub open spec fn marks_spec(blocks: Seq<Block>, n: nat, source_side: bool) -> Seq<Option<usize>> {
    Seq::new(n, |x: int| last_cover(blocks, source_side, x))
}

/// Whether block `b` holds position `x` of the source (`source_side`: from `b.i`) or of
/// the target (from `b.j`), over its `len` bytes.
pub open spec fn holds_position(b: Block, source_side: bool, x: int) -> bool {
    if source_side {
        b.i <= x < b.i + b.len
    } else {
        b.j <= x < b.j + b.len
    }
}

/// The mark of a position names the last block holding it on that side: a mark `k` means
/// block `k` holds the position (in the source from its `i`, in the target from its `j`)
/// and no later block does; no mark means no block holds it.
pub proof fn lemma_marks_name_holding_block(blocks: Seq<Block>, n: nat, source_side: bool)
    requires
        blocks.len() <= usize::MAX,
    ensures
        marks_spec(blocks, n, source_side).len() == n,
        forall|x: int| 0 <= x < n ==> match #[trigger] marks_spec(blocks, n, source_side)[x] {
            Some(k) => {
                &&& k < blocks.len()
                &&& holds_position(blocks[k as int], source_side, x)
                &&& forall|q: int| k < q < blocks.len() ==> !holds_position(#[trigger] blocks[q], source_side, x)
            },
            None => forall|q: int| 0 <= q < blocks.len() ==> !holds_position(#[trigger] blocks[q], source_side, x),
        },
{
    assert forall|x: int| 0 <= x < n implies match #[trigger] marks_spec(blocks, n, source_side)[x] {
        Some(k) => {
            &&& k < blocks.len()
            &&& holds_position(blocks[k as int], source_side, x)
            &&& forall|q: int| k < q < blocks.len() ==> !holds_position(#[trigger] blocks[q], source_side, x)
        },
        None => forall|q: int| 0 <= q < blocks.len() ==> !holds_position(#[trigger] blocks[q], source_side, x),
    } by {
        lemma_last_cover(blocks, source_side, x);
    }
}

proof fn lemma_last_cover(blocks: Seq<Block>, source_side: bool, x: int)
    requires
        blocks.len() <= usize::MAX,
    ensures
        match last_cover(blocks, source_side, x) {
            Some(k) => {
                &&& k < blocks.len()
                &&& holds_position(blocks[k as int], source_side, x)
                &&& forall|q: int| k < q < blocks.len() ==> !holds_position(#[trigger] blocks[q], source_side, x)
            },
            None => forall|q: int| 0 <= q < blocks.len() ==> !holds_position(#[trigger] blocks[q], source_side, x),
        },
    decreases blocks.len(),
{
    if blocks.len() > 0 {
        let d = blocks.drop_last();
        lemma_last_cover(d, source_side, x);
        let l = blocks.len() - 1;
        assert forall|q: int| 0 <= q < l implies blocks[q] == #[trigger] d[q] by {}
        assert(blocks[l] == blocks.last());
        if spans(blocks.last(), source_side, x) {
            assert(holds_position(blocks[l], source_side, x));
            assert(last_cover(blocks, source_side, x) == Some(l as usize));
        } else {
            assert(!holds_position(blocks[l], source_side, x));
            assert(last_cover(blocks, source_side, x) == last_cover(d, source_side, x));
            match last_cover(d, source_side, x) {
                Some(k) => {
                    assert(holds_position(blocks[k as int], source_side, x));
                    assert forall|q: int| k < q < blocks.len() implies !holds_position(#[trigger] blocks[q], source_side, x) by {
                        if q < l {
                            assert(!holds_position(d[q], source_side, x));
                        }
                    }
                },
                None => {
                    assert forall|q: int| 0 <= q < blocks.len() implies !holds_position(#[trigger] blocks[q], source_side, x) by {
                        if q < l {
                            assert(!holds_position(d[q], source_side, x));
                        }
                    }
                },
            }
        }
    }
}

/// For each position of a string of length `n` (the source when `source_side`, else the
/// target), the index of the last block that spans it, if any.
///
/// The alignment view is given as one mark per byte, not as the string cut into words
/// at block boundaries. For the blocks `ab` (positions 0 and 1 of both strings) and
/// `xy` (positions 3 and 4) of `abcxyz` and `abwxy`, a worded view such as
/// `ab c x y z` keeps the block `ab` as one word but splits the block `xy` into two, so
/// no rule on the blocks yields it; the per-byte marks name, for every byte, the block
/// that covers it.
pub fn alignment_marks(blocks: &[Block], n: usize, source_side: bool) -> (r: Vec<Option<usize>>)
    requires
        forall|k: int|
            0 <= k < blocks@.len() ==> (#[trigger] blocks@[k]).len == 0 || start_on(blocks@[k], source_side) + blocks@[k].len <= n,
    ensures
        r@ == marks_spec(blocks@, n as nat, source_side),
{
    let mut r: Vec<Option<usize>> = Vec::new();
    let mut x: usize = 0;
    while x < n
        invariant
            x <= n,
            r@.len() == x,
            forall|q: int| 0 <= q < x ==> r@[q] is None,
        decreases n - x,
    {
        r.push(None);
        x = x + 1;
    }
    proof {
        assert(r@ =~= marks_spec(blocks@.take(0), n as nat, source_side));
    }
    let mut idx: usize = 0;
    while idx < blocks.len()
        invariant
            idx <= blocks@.len(),
            forall|k: int|
                0 <= k < blocks@.len() ==> (#[trigger] blocks@[k]).len == 0 || start_on(blocks@[k], source_side) + blocks@[k].len <= n,
            r@ == marks_spec(blocks@.take(idx as int), n as nat, source_side),
        decreases blocks@.len() - idx,
    {
        let b = blocks[idx];
        let start = if source_side { b.i } else { b.j };
        let ghost before = r@;
        let mut d: usize = 0;
        while d < b.len
            invariant
                b.len > 0 ==> start + b.len <= n,
                start == start_on(b, source_side),
                d <= b.len,
                before.len() == n,
                r@ == Seq::new(n as nat, |x: int| if start <= x < start + d { Some(idx) } else { before[x] }),
            decreases b.len - d,
        {
            r.set(start + d, Some(idx));
            proof {
                assert(r@ =~= Seq::new(n as nat, |x: int| if start <= x < start + d + 1 { Some(idx) } else { before[x] }));
            }
            d = d + 1;
        }
        proof {
            let bs = blocks@.take(idx + 1);
            assert(bs.drop_last() =~= blocks@.take(idx as int));
            assert(bs.last() == b);
            assert(r@ =~= marks_spec(bs, n as nat, source_side));
        }
        idx = idx + 1;
    }
    proof {
        assert(blocks@.take(idx as int) =~= blocks@);
    }
    r
}

} // verus!
