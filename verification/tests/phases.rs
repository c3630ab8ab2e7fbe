use std::collections::HashMap;
use tulya::clusters::phase2_clustering;
use tulya::mapping::{convert_mdl_to_mapping, MappingResult};
use tulya::pipeline::mapping_phases;
use tulya::report::{alignment_marks, label_counts, sort_for_display};
use tulya::cli::SortMode;
use tulya::segments::{phase3_segments, SegmentType};
use tulya::types::Block;

fn readme_blocks() -> Vec<Block> {
    vec![Block { i: 0, j: 0, len: 2 }, Block { i: 3, j: 3, len: 2 }]
}

fn empty_mapping() -> MappingResult {
    MappingResult {
        source_to_target: HashMap::new(),
        target_to_source: HashMap::new(),
        unmapped_source: Vec::new(),
        unmapped_target: Vec::new(),
    }
}

#[test]
fn mapping_of_readme_blocks() {
    let m = convert_mdl_to_mapping(6, 5, &readme_blocks());
    assert_eq!(m.source_to_target.len(), 4);
    assert_eq!(m.source_to_target[&0], vec![0]);
    assert_eq!(m.source_to_target[&1], vec![1]);
    assert_eq!(m.source_to_target[&3], vec![3]);
    assert_eq!(m.source_to_target[&4], vec![4]);
    assert_eq!(m.target_to_source[&4], vec![4]);
    assert_eq!(m.unmapped_source, vec![2, 5]);
    assert_eq!(m.unmapped_target, vec![2]);
}

#[test]
fn mapping_partners_sorted() {
    let blocks = vec![Block { i: 0, j: 3, len: 3 }, Block { i: 0, j: 0, len: 3 }];
    let m = convert_mdl_to_mapping(3, 6, &blocks);
    assert_eq!(m.source_to_target[&0], vec![0, 3]);
    assert_eq!(m.source_to_target[&2], vec![2, 5]);
    assert_eq!(m.target_to_source[&4], vec![1]);
    assert!(m.unmapped_source.is_empty());
    assert!(m.unmapped_target.is_empty());
}

#[test]
fn mapping_of_no_blocks() {
    let m = convert_mdl_to_mapping(2, 3, &[]);
    assert!(m.source_to_target.is_empty());
    assert_eq!(m.unmapped_source, vec![0, 1]);
    assert_eq!(m.unmapped_target, vec![0, 1, 2]);
}

#[test]
fn clusters_of_readme_mapping() {
    let s = b"abcxyz";
    let m = convert_mdl_to_mapping(6, 5, &readme_blocks());
    let cs = phase2_clustering(s, &m);
    assert_eq!(cs.len(), 2);
    assert_eq!(cs[0].id, 0);
    assert_eq!(cs[0].source_indices, vec![0, 1]);
    assert_eq!(cs[0].source_range, (0, 1));
    assert_eq!(cs[0].target_range, (0, 1));
    assert_eq!(cs[0].byte_len, 2);
    assert_eq!(cs[0].fragment_count, 1);
    assert_eq!(cs[0].content, "ab");
    assert_eq!(cs[1].id, 1);
    assert_eq!(cs[1].source_range, (3, 4));
    assert_eq!(cs[1].target_range, (3, 4));
    assert_eq!(cs[1].content, "xy");
}

#[test]
fn clusters_follow_the_target() {
    // Source "ab" maps to target positions 2 and 3, then "cd" to 0 and 1.
    let s = b"abcd";
    let blocks = vec![Block { i: 0, j: 2, len: 2 }, Block { i: 2, j: 0, len: 2 }];
    let m = convert_mdl_to_mapping(4, 4, &blocks);
    let cs = phase2_clustering(s, &m);
    assert_eq!(cs.len(), 2);
    assert_eq!(cs[0].content, "cd");
    assert_eq!(cs[0].target_range, (0, 1));
    assert_eq!(cs[1].content, "ab");
    assert_eq!(cs[1].source_range, (0, 1));
}

#[test]
fn clusters_of_empty_mapping() {
    assert!(phase2_clustering(b"abc", &empty_mapping()).is_empty());
}

#[test]
fn clusters_with_shared_target() {
    // Target position 0 has sources 0 and 1: the pairs (0,0), (1,0), (1,1), by target then
    // source, continue no diagonal.
    let mut s2t: HashMap<usize, Vec<usize>> = HashMap::new();
    s2t.insert(0, vec![0]);
    s2t.insert(1, vec![0, 1]);
    let m = MappingResult {
        source_to_target: s2t,
        target_to_source: HashMap::new(),
        unmapped_source: Vec::new(),
        unmapped_target: Vec::new(),
    };
    let cs = phase2_clustering(b"xy", &m);
    assert_eq!(cs.len(), 3);
    assert_eq!(cs[0].source_indices, vec![0]);
    assert_eq!(cs[0].target_range, (0, 0));
    assert_eq!(cs[1].source_indices, vec![1]);
    assert_eq!(cs[1].target_range, (0, 0));
    assert_eq!(cs[2].source_indices, vec![1]);
    assert_eq!(cs[2].target_range, (1, 1));
    assert_eq!(cs[2].content, "y");
    assert_eq!(cs[2].id, 2);
}

#[test]
fn segments_of_readme_mapping() {
    let s = b"abcxyz";
    let t = b"abwxy";
    let m = convert_mdl_to_mapping(6, 5, &readme_blocks());
    let segs = phase3_segments(s, t, &m);
    assert_eq!(segs.len(), 5);
    let labels: Vec<SegmentType> = segs.iter().map(|x| x.label).collect();
    assert_eq!(
        labels,
        vec![SegmentType::Common, SegmentType::Missing, SegmentType::Added, SegmentType::Common, SegmentType::Missing]
    );
    let contents: Vec<String> = segs.iter().map(|x| x.content.clone()).collect();
    assert_eq!(contents, vec!["ab", "c", "w", "xy", "z"]);
    for (k, x) in segs.iter().enumerate() {
        assert_eq!(x.id, k);
    }
    assert_eq!(segs[0].source_range, Some((0, 1)));
    assert_eq!(segs[0].target_range, Some((0, 1)));
    assert_eq!(segs[0].byte_len, 2);
    assert_eq!(segs[1].source_range, Some((2, 2)));
    assert_eq!(segs[1].target_range, None);
    assert_eq!(segs[2].source_range, None);
    assert_eq!(segs[2].target_range, Some((2, 2)));
    assert_eq!(segs[3].source_range, Some((3, 4)));
    assert_eq!(segs[4].source_range, Some((5, 5)));
}

#[test]
fn segments_without_mapping() {
    let segs = phase3_segments(b"ab", b"c", &empty_mapping());
    assert_eq!(segs.len(), 2);
    assert_eq!(segs[0].label, SegmentType::Missing);
    assert_eq!(segs[0].byte_len, 2);
    assert_eq!(segs[0].source_range, Some((0, 1)));
    assert_eq!(segs[0].content, "ab");
    assert_eq!(segs[1].label, SegmentType::Added);
    assert_eq!(segs[1].target_range, Some((0, 0)));
    assert_eq!(segs[1].content, "c");
    assert_eq!(segs[1].id, 1);
}

#[test]
fn segments_replace_invalid_utf8() {
    let segs = phase3_segments(&[0xff, b'a'], b"", &empty_mapping());
    assert_eq!(segs.len(), 1);
    assert_eq!(segs[0].content, "\u{FFFD}a");
}

#[test]
fn segments_cut_where_source_jumps() {
    // Target "abab" is mapped from source "ab" twice over: one run of the target,
    // cut where the source goes back to 0.
    let s = b"ab";
    let t = b"abab";
    let blocks = vec![Block { i: 0, j: 0, len: 2 }, Block { i: 0, j: 2, len: 2 }];
    let m = convert_mdl_to_mapping(2, 4, &blocks);
    let segs = phase3_segments(s, t, &m);
    assert_eq!(segs.len(), 2);
    assert_eq!(segs[0].label, SegmentType::Common);
    assert_eq!(segs[0].target_range, Some((0, 1)));
    assert_eq!(segs[1].target_range, Some((2, 3)));
    assert_eq!(segs[1].source_range, Some((0, 1)));
    assert_eq!(segs[1].content, "ab");
}

#[test]
fn phases_together() {
    let s = b"abcxyz";
    let t = b"abwxy";
    let (m, cs, segs) = mapping_phases(s, t, &readme_blocks()).expect("blocks fit");
    assert_eq!(m.unmapped_source, vec![2, 5]);
    assert_eq!(cs.len(), 2);
    assert_eq!(segs.len(), 5);
    assert!(mapping_phases(s, t, &[Block { i: 5, j: 0, len: 2 }]).is_none());
}

#[test]
fn display_order_by_label() {
    let s = b"abcxyz";
    let t = b"abwxy";
    let m = convert_mdl_to_mapping(6, 5, &readme_blocks());
    let segs = phase3_segments(s, t, &m);
    let by_label = sort_for_display(segs.clone(), SortMode::Label);
    let contents: Vec<String> = by_label.iter().map(|x| x.content.clone()).collect();
    assert_eq!(contents, vec!["ab", "xy", "c", "z", "w"]);
    for (k, x) in by_label.iter().enumerate() {
        assert_eq!(x.id, k);
    }
    let by_len = sort_for_display(segs.clone(), SortMode::LengthDesc);
    let contents: Vec<String> = by_len.iter().map(|x| x.content.clone()).collect();
    assert_eq!(contents, vec!["ab", "xy", "c", "w", "z"]);
    let same = sort_for_display(segs, SortMode::Density);
    let contents: Vec<String> = same.iter().map(|x| x.content.clone()).collect();
    assert_eq!(contents, vec!["ab", "c", "w", "xy", "z"]);
}

#[test]
fn counts_by_label() {
    let s = b"abcxyz";
    let t = b"abwxy";
    let m = convert_mdl_to_mapping(6, 5, &readme_blocks());
    let segs = phase3_segments(s, t, &m);
    assert_eq!(label_counts(&segs), (2, 2, 1));
    assert_eq!(label_counts(&[]), (0, 0, 0));
}

#[test]
fn marks_of_readme_blocks() {
    let blocks = readme_blocks();
    assert_eq!(alignment_marks(&blocks, 6, true), vec![Some(0), Some(0), None, Some(1), Some(1), None]);
    assert_eq!(alignment_marks(&blocks, 5, false), vec![Some(0), Some(0), None, Some(1), Some(1)]);
}

#[test]
fn marks_keep_the_last_block() {
    let blocks = vec![Block { i: 0, j: 0, len: 3 }, Block { i: 1, j: 5, len: 1 }];
    assert_eq!(alignment_marks(&blocks, 3, true), vec![Some(0), Some(1), Some(0)]);
}

#[test]
fn equal_mappings_give_equal_clusters() {
    let blocks = vec![Block { i: 0, j: 0, len: 1 }, Block { i: 1, j: 0, len: 1 }];
    let m1 = convert_mdl_to_mapping(2, 1, &blocks);
    let m2 = convert_mdl_to_mapping(2, 1, &blocks);
    let c1 = phase2_clustering(b"aa", &m1);
    let c2 = phase2_clustering(b"aa", &m2);
    assert_eq!(c1.len(), 2);
    assert_eq!(c1.len(), c2.len());
    for (a, b) in c1.iter().zip(c2.iter()) {
        assert_eq!(a.id, b.id);
        assert_eq!(a.source_indices, b.source_indices);
        assert_eq!(a.source_range, b.source_range);
        assert_eq!(a.target_range, b.target_range);
        assert_eq!(a.content, b.content);
    }
    // Target 0 has sources 0 and 1: ordered by source.
    assert_eq!(c1[0].source_range, (0, 0));
    assert_eq!(c1[1].source_range, (1, 1));
}
