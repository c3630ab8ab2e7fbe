use tulya::clusters::phase2_clustering;
use tulya::mapping::{convert_mdl_to_mapping, MappingResult};
use tulya::types::MatchTable;
use tulya::v1::BlockFamily;
use tulya::v2::FastBlockFamily;

fn run_v2(s: &[u8], t: &[u8]) -> FastBlockFamily {
    let mt = MatchTable::new(s, t);
    let mut family = FastBlockFamily::new(s.len(), t.len());
    family.run(s, t, &mt);
    family
}

fn run_baseline(s: &[u8], t: &[u8]) -> BlockFamily {
    let mt = MatchTable::new(s, t);
    let mut family = BlockFamily::default();
    family.run_to_fixed_point(s, t, &mt);
    family
}

fn phase1_mapping(s: &[u8], t: &[u8]) -> MappingResult {
    let fam = run_v2(s, t);
    convert_mdl_to_mapping(s.len(), t.len(), &fam.blocks)
}

fn assert_coverage(m: &MappingResult, sn: usize, tn: usize) {
    assert_eq!(m.source_to_target.len() + m.unmapped_source.len(), sn);
    assert_eq!(m.target_to_source.len() + m.unmapped_target.len(), tn);
}

fn assert_byte_eq(s: &[u8], t: &[u8], m: &MappingResult) {
    for (&si, tis) in &m.source_to_target {
        for &ti in tis {
            assert_eq!(s[si], t[ti], "s[{}]!=t[{}]", si, ti);
        }
    }
}

fn assert_deterministic(s: &[u8], t: &[u8]) {
    let a = phase1_mapping(s, t);
    let b = phase1_mapping(s, t);
    assert_eq!(a.source_to_target, b.source_to_target);
}

fn assert_all_mapped(m: &MappingResult) {
    assert!(m.unmapped_source.is_empty(), "unmapped src: {:?}", m.unmapped_source);
    assert!(m.unmapped_target.is_empty(), "unmapped tgt: {:?}", m.unmapped_target);
}

fn assert_clusters_ok(s: &[u8], m: &MappingResult) {
    for c in &phase2_clustering(s, m) {
        for i in 1..c.source_indices.len() {
            assert!(c.source_indices[i] > c.source_indices[i - 1]);
        }
        assert_eq!(c.fragment_count, 1, "cluster {} frag={}", c.id, c.fragment_count);
    }
}

fn check(s: &[u8], t: &[u8]) {
    let m = phase1_mapping(s, t);
    assert_coverage(&m, s.len(), t.len());
    assert_byte_eq(s, t, &m);
    assert_deterministic(s, t);
    assert_clusters_ok(s, &m);
}

#[test]
fn v2_test_identical() {
    let s = b"abc abc abc";
    let m = phase1_mapping(s, s);
    check(s, s);
    assert_all_mapped(&m);
    for i in 0..s.len() {
        assert!(m.source_to_target[&i].contains(&i));
    }
}

#[test]
fn v2_test_simple_reorder() {
    check(b"A B C D", b"C D A B");
    assert_all_mapped(&phase1_mapping(b"A B C D", b"C D A B"));
}

#[test]
fn v2_test_insertion() {
    let m = phase1_mapping(b"hello world", b"hello beautiful world");
    check(b"hello world", b"hello beautiful world");
    assert!(m.unmapped_source.is_empty());
    assert!(!m.unmapped_target.is_empty());
}

#[test]
fn v2_test_deletion() {
    let m = phase1_mapping(b"hello beautiful world", b"hello world");
    check(b"hello beautiful world", b"hello world");
    assert!(!m.unmapped_source.is_empty());
    assert!(m.unmapped_target.is_empty());
}

#[test]
fn v2_test_swap() {
    check(b"AB", b"BA");
    assert_all_mapped(&phase1_mapping(b"AB", b"BA"));
}

#[test]
fn v2_test_repetition() {
    let s = b"aaaaabaaaaa";
    let m = phase1_mapping(s, s);
    check(s, s);
    assert_all_mapped(&m);
    for i in 0..s.len() {
        assert!(m.source_to_target[&i].contains(&i));
    }
}

#[test]
fn v2_test_punct_move() {
    check(b"hello, world!", b"world! hello,");
    assert_all_mapped(&phase1_mapping(b"hello, world!", b"world! hello,"));
}

#[test]
fn v2_test_duplication() {
    let s = b"abc";
    let t = b"abcabc";
    let m = phase1_mapping(s, t);
    assert_coverage(&m, s.len(), t.len());
    assert_byte_eq(s, t, &m);
    let t0 = m.source_to_target.get(&0).expect("src[0] unmapped");
    let t1 = m.source_to_target.get(&1).expect("src[1] unmapped");
    let t2 = m.source_to_target.get(&2).expect("src[2] unmapped");
    assert!(t0.contains(&0) && t0.contains(&3), "src[0]->{:?}", t0);
    assert!(t1.contains(&1) && t1.contains(&4), "src[1]->{:?}", t1);
    assert!(t2.contains(&2) && t2.contains(&5), "src[2]->{:?}", t2);
    assert!(m.unmapped_source.is_empty());
    assert!(m.unmapped_target.is_empty());
}

#[test]
fn v2_test_contraction() {
    let s = b"do not";
    let t = b"don't";
    let m = phase1_mapping(s, t);
    assert_coverage(&m, s.len(), t.len());
    assert_byte_eq(s, t, &m);
    assert!(m.source_to_target.get(&0).map(|v: &Vec<usize>| v.contains(&0)).unwrap_or(false));
    assert!(m.source_to_target.get(&1).map(|v: &Vec<usize>| v.contains(&1)).unwrap_or(false));
    assert!(m.source_to_target.get(&3).map(|v: &Vec<usize>| v.contains(&2)).unwrap_or(false));
    assert!(m.source_to_target.get(&5).map(|v: &Vec<usize>| v.contains(&4)).unwrap_or(false));
    assert!(m.unmapped_target.contains(&3), "apostrophe should be Added");
    assert!(m.unmapped_source.contains(&2), "space should be Missing");
}

#[test]
fn v2_test_duplication_multi_mapping() {
    let mapping = phase1_mapping(b"abc", b"abcabc");
    for i in 0..3 {
        assert!(mapping.source_to_target.get(&i).unwrap().len() >= 2);
    }
}

#[test]
fn v2_test_contraction_many_to_one() {
    let mapping = phase1_mapping(b"do not", b"don't");
    assert!(mapping.target_to_source.values().any(|v: &Vec<usize>| v.len() > 1));
}

#[test]
fn v2_test_duplicate_block_swap() {
    let source = b"task A task B";
    let target = b"task B task A";
    let mapping = phase1_mapping(source, target);
    let clusters = phase2_clustering(source, &mapping);
    let contents: Vec<String> = clusters.iter().map(|c| c.content.clone()).collect();
    assert!(contents.iter().any(|c: &String| c.contains("task")), "Expected at least one 'task' block, got: {:?}", contents);
    assert!(contents.iter().any(|c: &String| c.len() >= 6), "Expected a reasonably large block (>=6 chars), got: {:?}", contents);
}

#[test]
fn v2_test_overlapping_patterns() {
    let mapping = phase1_mapping(b"abcabcX", b"abcXabc");
    assert!(mapping.unmapped_source.is_empty());
    assert!(mapping.unmapped_target.is_empty());
}

#[test]
fn v2_test_cross_block_reorder() {
    let mapping = phase1_mapping(b"A B C D", b"C D A B");
    let clusters = phase2_clustering(b"A B C D", &mapping);
    assert!(clusters.len() >= 2);
}

#[test]
fn v2_test_inversion_required_case() {
    let mapping = phase1_mapping(b"abc def ghi", b"ghi def abc");
    assert!(mapping.unmapped_source.is_empty());
}

#[test]
fn v2_test_duplicate_with_noise() {
    let mapping = phase1_mapping(b"foo bar foo baz", b"foo baz foo bar");
    let clusters = phase2_clustering(b"foo bar foo baz", &mapping);
    assert!(clusters.len() >= 2);
}

#[test]
fn v2_test_f1_coverage_maximization() {
    let s = b"aa";
    let t = b"a";
    let m = phase1_mapping(s, t);
    assert!(m.source_to_target.contains_key(&0));
    assert!(m.source_to_target.contains_key(&1));
    assert!(m.unmapped_source.is_empty());
}

#[test]
fn v2_test_hindi() {
    let s = "राम आम खाता है".as_bytes();
    let t = "आम राम खाता है".as_bytes();
    check(s, t);
    assert_all_mapped(&phase1_mapping(s, t));
}

#[test]
fn v2_test_cafe() {
    let m = phase1_mapping("café".as_bytes(), "café!".as_bytes());
    check("café".as_bytes(), "café!".as_bytes());
    assert!(m.unmapped_source.is_empty());
    assert!(!m.unmapped_target.is_empty());
}

#[test]
fn v2_test_unicode_stability_adv() {
    let mapping = phase1_mapping("café café".as_bytes(), "café café".as_bytes());
    assert!(mapping.unmapped_source.is_empty());
}

#[test]
fn v2_test_unicode_reorder_adv() {
    let mapping = phase1_mapping("café bar".as_bytes(), "bar café".as_bytes());
    assert!(!mapping.source_to_target.is_empty());
}

#[test]
fn v2_test_empty_src() {
    assert_eq!(phase1_mapping(b"", b"abc").unmapped_target.len(), 3);
}

#[test]
fn v2_test_empty_tgt() {
    assert_eq!(phase1_mapping(b"abc", b"").unmapped_source.len(), 3);
}

#[test]
fn v2_test_both_empty() {
    assert_coverage(&phase1_mapping(b"", b""), 0, 0);
}

#[test]
fn v2_test_disjoint() {
    let m = phase1_mapping(b"xyz", b"abc");
    check(b"xyz", b"abc");
    assert_eq!(m.unmapped_source.len(), 3);
    assert_eq!(m.unmapped_target.len(), 3);
}

#[test]
fn v2_test_empty_vs_nonempty_adv() {
    assert_eq!(phase1_mapping(b"", b"abc").unmapped_target.len(), 3);
}

#[test]
fn v2_test_nonempty_vs_empty_adv() {
    assert_eq!(phase1_mapping(b"abc", b"").unmapped_source.len(), 3);
}

#[test]
fn v2_aligner_identical() {
    let s = b"abcabc";
    let t = b"abcabc";
    let result = run_v2(s, t);
    assert!(result.energy(s, t) <= 8 * (s.len() + t.len()));
}

#[test]
fn v2_aligner_completely_different() {
    let s = b"abc";
    let t = b"xyz";
    let result = run_v2(s, t);
    assert!(result.energy(s, t) >= 8 * (s.len() + t.len()));
}

#[test]
fn v2_aligner_empty() {
    let s = b"";
    let t = b"";
    let result = run_v2(s, t);
    assert_eq!(result.blocks.len(), 0);
}

#[test]
fn v2_aligner_swap_blocks() {
    let s = b"abcXYZabc";
    let t = b"XYZabcabc";
    let fam = run_v2(s, t);
    assert!(!fam.blocks.is_empty());
    assert!(fam.energy(s, t) < 8 * (s.len() + t.len()));
}

#[test]
fn v2_aligner_natural_language() {
    let s = b"That mango was eaten by Ram";
    let t = b"Ram ate that mango";
    let fam = run_v2(s, t);
    assert!(!fam.blocks.is_empty());
    assert!(fam.energy(s, t) < 8 * (s.len() + t.len()));
}

#[test]
fn v2_aligner_noise_in_middle() {
    let s = b"AAAAxxxBBBB";
    let t = b"AAAAyyyyBBBB";
    let fam = run_v2(s, t);
    assert!(!fam.blocks.is_empty());
    assert!(fam.energy(s, t) < 8 * (s.len() + t.len()));
}

#[test]
fn v2_aligner_deterministic() {
    let s = b"abcabcabc";
    let t = b"abcXYZabc";
    let a = run_v2(s, t);
    let b = run_v2(s, t);
    assert_eq!(a.blocks, b.blocks);
    assert_eq!(a.energy(s, t), b.energy(s, t));
}

#[test]
fn v2_compare_identical() {
    let s = b"abcabc";
    let t = b"abcabc";
    let fast = run_v2(s, t);
    let baseline = run_baseline(s, t);
    assert_eq!(fast.energy(s, t), baseline.energy(s, t), "Energy mismatch for identical strings");
}

#[test]
fn v2_compare_completely_different() {
    let s = b"abc";
    let t = b"xyz";
    let fast = run_v2(s, t);
    assert!(fast.energy(s, t) >= 8 * (s.len() + t.len()));
}

#[test]
fn v2_compare_empty() {
    let s = b"";
    let t = b"";
    let fast = run_v2(s, t);
    assert_eq!(fast.blocks.len(), 0);
}

#[test]
fn v2_compare_swap() {
    let s = b"abcXYZabc";
    let t = b"XYZabcabc";
    let fast = run_v2(s, t);
    let baseline = run_baseline(s, t);
    assert_eq!(fast.energy(s, t), baseline.energy(s, t), "Energy mismatch for swap");
}

#[test]
fn v2_compare_partial_overlap() {
    let s = b"abcXXabc";
    let t = b"XXabcXXabc";
    let fast = run_v2(s, t);
    let baseline = run_baseline(s, t);
    assert_eq!(fast.energy(s, t), baseline.energy(s, t), "Energy mismatch for partial overlap");
}

#[test]
fn v2_compare_insertion() {
    let s = b"abc";
    let t = b"abcXYZ";
    let fast = run_v2(s, t);
    let baseline = run_baseline(s, t);
    assert_eq!(fast.energy(s, t), baseline.energy(s, t), "Energy mismatch for insertion");
}

#[test]
fn v2_compare_reorder() {
    let s = b"abc def";
    let t = b"def abc";
    let fast = run_v2(s, t);
    let baseline = run_baseline(s, t);
    assert_eq!(fast.energy(s, t), baseline.energy(s, t), "Energy mismatch for reorder");
}

#[test]
fn v2_compare_deterministic() {
    let s = b"abcabcabc";
    let t = b"abcXYZabc";
    let a = run_v2(s, t);
    let b = run_v2(s, t);
    assert_eq!(a.blocks, b.blocks);
    assert_eq!(a.energy(s, t), b.energy(s, t));
}
