//! From a block family to what the report shows: the position mapping, its clusters
//! and its segments.
use vstd::prelude::*;
use std::collections::HashMap;
use crate::cli::chars_of;
use crate::clusters::{
    clustering_fits, clusters_spec, cluster_views, phase2_clustering, ByteCluster, ByteClusterView,
};
use crate::energy::{all_fit, block_fits};
use crate::mapping::{
    convert_mdl_to_mapping, lemma_mapping_is_block_pairs, on_some_block, pair_at, pairs_of,
    partner_map_ok, unmapped_upto, MappingResult,
};
use crate::segments::{
    mapping_fits, phase3_segments, segments_spec, views, Segment, SegmentType, SegmentView,
};
use crate::text::{lossy_string, utf8_lossy};
use crate::types::{ends_fit, Block};

verus! {

/// A mapping built from a family inside strings of lengths `n` and `m` meets what
/// clustering and segmenting ask of a mapping.
pub proof fn lemma_converted_mapping_fits(
    blocks: Seq<Block>,
    n: nat,
    m: nat,
    s2t: Map<usize, Vec<usize>>,
    t2s: Map<usize, Vec<usize>>,
)
    requires
        forall|k: int| 0 <= k < blocks.len() ==> ends_fit(#[trigger] blocks[k]),
        all_fit(blocks, n, m),
        n <= usize::MAX,
        m <= usize::MAX,
        partner_map_ok(s2t, pairs_of(blocks), true),
        partner_map_ok(t2s, pairs_of(blocks), false),
    ensures
        mapping_fits(n, m, s2t, t2s),
        clustering_fits(n, s2t),
{
    lemma_mapping_is_block_pairs(blocks, s2t, t2s);
    assert forall|x: usize, y: usize| on_some_block(blocks, x, y) implies x < n && y < m by {
        let (q, d) = choose|q: int, d: int| 0 <= q < blocks.len() && 0 <= d < blocks[q].len && #[trigger] pair_at(blocks[q], d) == (x, y);
        assert(block_fits(blocks[q], n, m));
        assert(ends_fit(blocks[q]));
    }
    assert forall|x: usize| #[trigger] s2t.contains_key(x) implies x < n by {
        assert(s2t[x]@.contains(s2t[x]@[0]));
    }
    assert forall|x: usize, k: int| s2t.contains_key(x) && 0 <= k < s2t[x]@.len() implies #[trigger] s2t[x]@[k] < m by {
        assert(s2t[x]@.contains(s2t[x]@[k]));
    }
    assert forall|t: usize| #[trigger] t2s.contains_key(t) implies t2s[t]@.len() > 0 && t2s[t]@[0] < usize::MAX by {
        assert(t2s[t]@.contains(t2s[t]@[0]));
    }
}

/// Whether every block ends inside both strings, checked block by block.
fn blocks_fit(blocks: &[Block], n: usize, m: usize) -> (r: bool)
    ensures
        r == (forall|k: int| 0 <= k < blocks@.len() ==> ends_fit(#[trigger] blocks@[k]) && block_fits(blocks@[k], n as nat, m as nat)),
{
    let mut k: usize = 0;
    while k < blocks.len()
        invariant
            k <= blocks@.len(),
            forall|q: int| 0 <= q < k ==> ends_fit(#[trigger] blocks@[q]) && block_fits(blocks@[q], n as nat, m as nat),
        decreases blocks@.len() - k,
    {
        let b = blocks[k];
        let fits = b.i < usize::MAX && b.j < usize::MAX && (b.len == 0 || (b.len <= n && b.i <= n - b.len && b.len <= m && b.j <= m - b.len));
        if !fits {
            return false;
        }
        k = k + 1;
    }
    true
}

/// The position mapping of `source` and `target` given by `blocks`, its clusters and its
/// segments; `None` when some block does not end inside both strings.
pub fn mapping_phases(source: &[u8], target: &[u8], blocks: &[Block]) -> (r: Option<(MappingResult, Vec<ByteCluster>, Vec<Segment>)>)
    ensures
        r is None <==> !(forall|k: int| 0 <= k < blocks@.len() ==> ends_fit(#[trigger] blocks@[k]) && block_fits(blocks@[k], source@.len(), target@.len())),
        r matches Some((mapping, clusters, segments)) ==> {
            &&& partner_map_ok(mapping.source_to_target@, pairs_of(blocks@), true)
            &&& partner_map_ok(mapping.target_to_source@, pairs_of(blocks@), false)
            &&& mapping.unmapped_source@ == unmapped_upto(pairs_of(blocks@), source@.len(), true)
            &&& mapping.unmapped_target@ == unmapped_upto(pairs_of(blocks@), target@.len(), false)
            &&& cluster_views(clusters@) == clusters_spec(source@, mapping.source_to_target@)
            &&& views(segments@) == segments_spec(source@, target@, mapping.source_to_target@, mapping.target_to_source@)
        },
{
    if !blocks_fit(blocks, source.len(), target.len()) {
        return None;
    }
    let mapping = convert_mdl_to_mapping(source.len(), target.len(), blocks);
    proof {
        lemma_converted_mapping_fits(
            blocks@,
            source@.len(),
            target@.len(),
            mapping.source_to_target@,
            mapping.target_to_source@,
        );
    }
    let clusters = phase2_clustering(source, &mapping);
    let segments = phase3_segments(source, target, &mapping);
    Some((mapping, clusters, segments))
}

/// What a run does, given its inputs and the version asked for.
#[derive(Debug, Clone, Copy, PartialEq, Eq, Structural)]
pub enum RunKind {
    /// Both inputs are empty: there is nothing to align.
    BothEmpty,
    /// The inputs are equal: one shared segment covers them.
    Identical,
    /// The baseline descent (`v1` or `mdl`).
    Baseline,
    /// The fast descent (`v2` or `fast`).
    Fast,
    /// Any other version: the baseline descent, after a warning.
    UnknownVersion,
}

/// The kind of run for inputs `s` and `t` and version name `version`.
pub open spec fn run_kind_spec(s: Seq<u8>, t: Seq<u8>, version: Seq<char>) -> RunKind {
    if s.len() == 0 && t.len() == 0 {
        RunKind::BothEmpty
    } else if s == t {
        RunKind::Identical
    } else if version == "v1"@ || version == "mdl"@ {
        RunKind::Baseline
    } else if version == "v2"@ || version == "fast"@ {
        RunKind::Fast
    } else {
        RunKind::UnknownVersion
    }
}

/// Whether two byte strings are equal.
fn same_bytes(a: &[u8], b: &[u8]) -> (r: bool)
    ensures
        r == (a@ == b@),
{
    if a.len() != b.len() {
        return false;
    }
    let mut k: usize = 0;
    while k < a.len()
        invariant
            a@.len() == b@.len(),
            k <= a@.len(),
            forall|q: int| 0 <= q < k ==> a@[q] == b@[q],
        decreases a@.len() - k,
    {
        if a[k] != b[k] {
            return false;
        }
        k = k + 1;
    }
    proof {
        assert(a@ =~= b@);
    }
    true
}

/// Whether two texts are equal.
fn same_text(a: &str, b: &str) -> (r: bool)
    ensures
        r == (a@ == b@),
{
    let x = chars_of(a);
    let y = chars_of(b);
    if x.len() != y.len() {
        return false;
    }
    let mut k: usize = 0;
    while k < x.len()
        invariant
            x@ == a@,
            y@ == b@,
            x@.len() == y@.len(),
            k <= x@.len(),
            forall|q: int| 0 <= q < k ==> x@[q] == y@[q],
        decreases x@.len() - k,
    {
        if x[k] != y[k] {
            return false;
        }
        k = k + 1;
    }
    proof {
        assert(x@ =~= y@);
    }
    true
}

/// The kind of run: nothing for two empty inputs, one shared segment for equal inputs,
/// else the descent that `version` names (`v1` or `mdl`, `v2` or `fast`), the
/// baseline descent for any other name.
pub fn choose_run(source: &[u8], target: &[u8], version: &str) -> (r: RunKind)
    ensures
        r == run_kind_spec(source@, target@, version@),
{
    if source.len() == 0 && target.len() == 0 {
        RunKind::BothEmpty
    } else if same_bytes(source, target) {
        RunKind::Identical
    } else if same_text(version, "v1") || same_text(version, "mdl") {
        RunKind::Baseline
    } else if same_text(version, "v2") || same_text(version, "fast") {
        RunKind::Fast
    } else {
        RunKind::UnknownVersion
    }
}

/// The inclusive range of positions of a string of length `n`, `(0, 0)` when it is empty.
pub open spec fn whole_range(n: nat) -> (usize, usize) {
    (0, if n == 0 { 0 } else { (n - 1) as usize })
}

/// The report of two equal inputs `source`: an empty mapping, one cluster and one
/// shared segment spanning the whole input.
pub fn identical_alignment(source: &[u8]) -> (r: (MappingResult, ByteCluster, Segment))
    ensures
        r.0.source_to_target@ == Map::<usize, Vec<usize>>::empty(),
        r.0.target_to_source@ == Map::<usize, Vec<usize>>::empty(),
        r.0.unmapped_source@ == Seq::<usize>::empty(),
        r.0.unmapped_target@ == Seq::<usize>::empty(),
        r.1@ == (ByteClusterView {
            id: 0,
            source_indices: Seq::new(source@.len(), |k: int| k as usize),
            source_range: whole_range(source@.len()),
            target_range: whole_range(source@.len()),
            byte_len: source@.len() as usize,
            fragment_count: 1,
            content: utf8_lossy(source@),
        }),
        r.2@ == (SegmentView {
            id: 0,
            label: SegmentType::Common,
            byte_len: source@.len() as usize,
            source_range: Some(whole_range(source@.len())),
            target_range: Some(whole_range(source@.len())),
            content: utf8_lossy(source@),
        }),
{
    let n = source.len();
    let last = if n == 0 { 0 } else { n - 1 };
    let mut indices: Vec<usize> = Vec::new();
    let mut k: usize = 0;
    while k < n
        invariant
            k <= n,
            n == source@.len(),
            indices@ == Seq::new(k as nat, |q: int| q as usize),
        decreases n - k,
    {
        indices.push(k);
        proof {
            assert(indices@ =~= Seq::new((k + 1) as nat, |q: int| q as usize));
        }
        k = k + 1;
    }
    let mapping = MappingResult {
        source_to_target: HashMap::new(),
        target_to_source: HashMap::new(),
        unmapped_source: Vec::new(),
        unmapped_target: Vec::new(),
    };
    let cluster = ByteCluster {
        id: 0,
        source_indices: indices,
        source_range: (0, last),
        target_range: (0, last),
        byte_len: n,
        fragment_count: 1,
        content: lossy_string(source),
    };
    let segment = Segment {
        id: 0,
        label: SegmentType::Common,
        byte_len: n,
        source_range: Some((0, last)),
        target_range: Some((0, last)),
        content: lossy_string(source),
    };
    (mapping, cluster, segment)
}

} // verus!
