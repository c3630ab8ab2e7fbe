use tulya::mapping::convert_mdl_to_mapping;
use tulya::pipeline::{choose_run, identical_alignment, mapping_phases, RunKind};
use tulya::segments::{phase3_segments, Segment, SegmentType};
use tulya::types::{Block, MatchTable};
use tulya::v1::BlockFamily;
use tulya::v2::FastBlockFamily;

fn both(s: &[u8], t: &[u8]) -> (BlockFamily, FastBlockFamily) {
    let mt = MatchTable::new(s, t);
    let mut a = BlockFamily::default();
    a.run_to_fixed_point(s, t, &mt);
    let mut b = FastBlockFamily::new(s.len(), t.len());
    b.run(s, t, &mt);
    (a, b)
}

fn start(seg: &Segment) -> usize {
    match seg.label {
        SegmentType::Missing => seg.source_range.map(|(v, _)| v).unwrap_or(0),
        _ => seg.target_range.map(|(v, _)| v).unwrap_or(0),
    }
}

#[test]
fn descents_reach_the_same_family() {
    let cases: [(&[u8], &[u8]); 8] = [
        (b"abcxyz", b"abwxy"),
        (b"abcXYZabc", b"XYZabcabc"),
        (b"abcXXabc", b"XXabcXXabc"),
        (b"abc def", b"def abc"),
        (b"hello world", b"hello beautiful world"),
        (b"do not", b"don't"),
        (b"aaaaab", b"baaaaa"),
        (b"That mango was eaten by Ram", b"Ram ate that mango"),
    ];
    for (s, t) in cases.iter() {
        let (a, b) = both(s, t);
        assert_eq!(a.blocks, b.blocks);
        assert_eq!(a.energy(s, t), b.energy(s, t));
    }
}

#[test]
fn fast_steps_follow_baseline_steps() {
    let s = b"abcabcX";
    let t = b"abcXabc";
    let mt = MatchTable::new(s, t);
    let mut a = BlockFamily::default();
    let mut b = FastBlockFamily::new(s.len(), t.len());
    loop {
        let ca = a.descent_step(s, t, &mt);
        let cb = b.descent_step(s, t, &mt);
        assert_eq!(ca, cb);
        assert_eq!(a.blocks, b.blocks);
        if !ca {
            break;
        }
    }
}

#[test]
fn mapping_maps_agree() {
    let s = b"abc";
    let t = b"abcabc";
    let (fam, _) = both(s, t);
    let m = convert_mdl_to_mapping(s.len(), t.len(), &fam.blocks);
    for (&si, tis) in &m.source_to_target {
        for &ti in tis {
            assert!(m.target_to_source[&ti].contains(&si));
        }
    }
    for (&ti, sis) in &m.target_to_source {
        for &si in sis {
            assert!(m.source_to_target[&si].contains(&ti));
        }
    }
}

#[test]
fn segments_run_by_start() {
    let s = b"Hey read this book, not that book.";
    let t = b"Hey not that book, read this book?";
    let (fam, _) = both(s, t);
    let (_, clusters, segs) = mapping_phases(s, t, &fam.blocks).expect("blocks fit");
    for k in 1..segs.len() {
        assert!(start(&segs[k - 1]) <= start(&segs[k]));
    }
    for (k, seg) in segs.iter().enumerate() {
        assert_eq!(seg.id, k);
    }
    for c in &clusters {
        assert_eq!(c.fragment_count, 1);
    }
    assert!(segs.iter().any(|x| x.content == "." && x.label == SegmentType::Missing));
    assert!(segs.iter().any(|x| x.content == "?" && x.label == SegmentType::Added));
}

#[test]
fn missing_segments_cover_unmapped_source() {
    let s = b"hello beautiful world";
    let t = b"hello world";
    let (fam, _) = both(s, t);
    let m = convert_mdl_to_mapping(s.len(), t.len(), &fam.blocks);
    let segs = phase3_segments(s, t, &m);
    let missing: usize = segs.iter().filter(|x| x.label == SegmentType::Missing).map(|x| x.byte_len).sum();
    assert_eq!(missing, m.unmapped_source.len());
    let added: usize = segs.iter().filter(|x| x.label == SegmentType::Added).map(|x| x.byte_len).sum();
    assert_eq!(added, m.unmapped_target.len());
}

#[test]
fn run_kinds() {
    assert_eq!(choose_run(b"", b"", "v1"), RunKind::BothEmpty);
    assert_eq!(choose_run(b"ab", b"ab", "v2"), RunKind::Identical);
    assert_eq!(choose_run(b"ab", b"ba", "v1"), RunKind::Baseline);
    assert_eq!(choose_run(b"ab", b"ba", "mdl"), RunKind::Baseline);
    assert_eq!(choose_run(b"ab", b"ba", "v2"), RunKind::Fast);
    assert_eq!(choose_run(b"", b"a", "fast"), RunKind::Fast);
    assert_eq!(choose_run(b"ab", b"ba", "V1"), RunKind::UnknownVersion);
    assert_eq!(choose_run(b"ab", b"ba", ""), RunKind::UnknownVersion);
}

#[test]
fn identical_inputs_report() {
    let (m, c, seg) = identical_alignment(b"abc");
    assert!(m.source_to_target.is_empty());
    assert!(m.target_to_source.is_empty());
    assert!(m.unmapped_source.is_empty());
    assert!(m.unmapped_target.is_empty());
    assert_eq!(c.id, 0);
    assert_eq!(c.source_indices, vec![0, 1, 2]);
    assert_eq!(c.source_range, (0, 2));
    assert_eq!(c.target_range, (0, 2));
    assert_eq!(c.byte_len, 3);
    assert_eq!(c.fragment_count, 1);
    assert_eq!(c.content, "abc");
    assert_eq!(seg.label, SegmentType::Common);
    assert_eq!(seg.byte_len, 3);
    assert_eq!(seg.source_range, Some((0, 2)));
    assert_eq!(seg.target_range, Some((0, 2)));
    assert_eq!(seg.content, "abc");
}

#[test]
fn identical_inputs_of_one_byte() {
    let (_, c, seg) = identical_alignment(&[0xff]);
    assert_eq!(c.source_range, (0, 0));
    assert_eq!(c.content, "\u{FFFD}");
    assert_eq!(seg.target_range, Some((0, 0)));
}

#[test]
fn descents_agree_on_given_examples() {
    let (a, b) = both(b"abc", b"abcXYZ");
    assert_eq!(a.blocks, vec![Block { i: 0, j: 0, len: 3 }]);
    assert_eq!(b.blocks, a.blocks);
    assert_eq!(a.energy(b"abc", b"abcXYZ"), 29);
    assert_eq!(b.energy(b"abc", b"abcXYZ"), 29);
    let (a, b) = both(b"abcabc", b"abcabc");
    assert_eq!(a.energy(b"abcabc", b"abcabc"), 6);
    assert_eq!(b.blocks, a.blocks);
    let (a, b) = both(b"abc", b"xyz");
    assert!(a.blocks.is_empty() && b.blocks.is_empty());
    assert_eq!(b.energy(b"abc", b"xyz"), 49);
    let (a, b) = both(b"", b"");
    assert!(a.blocks.is_empty() && b.blocks.is_empty());
}

#[test]
fn energy_ignores_order_and_bytes() {
    let f1 = BlockFamily { blocks: vec![Block { i: 0, j: 0, len: 2 }, Block { i: 3, j: 3, len: 2 }] };
    let f2 = BlockFamily { blocks: vec![Block { i: 3, j: 3, len: 2 }, Block { i: 0, j: 0, len: 2 }] };
    assert_eq!(f1.energy(b"abcxyz", b"abwxy"), 38);
    assert_eq!(f2.energy(b"abcxyz", b"abwxy"), 38);
    assert_eq!(f2.energy(b"qqqqqq", b"rrrrr"), 38);
    assert_eq!(BlockFamily::default().energy(b"abcd", b"ef"), 1 + 8 * 6);
}
