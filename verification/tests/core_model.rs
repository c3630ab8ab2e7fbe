use tulya::diagnostics::{BlockInsight, EnergyBreakdown};
use tulya::types::{block_overlaps, lambda, Block, MatchTable, KAPPA};
use tulya::v1::{BlockFamily, MoveKind};
use tulya::v2::FastBlockFamily;

#[test]
fn lambda_values() {
    assert_eq!(lambda(0), 1);
    assert_eq!(lambda(1), 1);
    assert_eq!(lambda(2), 2);
    assert_eq!(lambda(3), 2);
    assert_eq!(lambda(4), 3);
    assert_eq!(lambda(255), 8);
    assert_eq!(lambda(256), 9);
    assert_eq!(lambda(usize::MAX), 64);
}

#[test]
fn overlap_needs_both_sides() {
    let a = Block { i: 0, j: 0, len: 3 };
    assert!(block_overlaps(&a, &Block { i: 2, j: 2, len: 3 }));
    assert!(!block_overlaps(&a, &Block { i: 3, j: 0, len: 2 }));
    assert!(!block_overlaps(&a, &Block { i: 2, j: 5, len: 1 }));
    // The test compares span ends, so an empty block inside both spans counts as overlapping.
    assert!(block_overlaps(&a, &Block { i: 1, j: 1, len: 0 }));
}

#[test]
fn match_table_prefix_lengths() {
    let s = b"abcab";
    let t = b"cab";
    let mt = MatchTable::new(s, t);
    assert_eq!(mt.max_len(0, 1), 2);
    assert_eq!(mt.max_len(2, 0), 3);
    assert_eq!(mt.max_len(3, 1), 2);
    assert_eq!(mt.max_len(0, 0), 0);
    assert_eq!(mt.max_len(5, 3), 0);
}

#[test]
fn energy_of_one_block() {
    let s = b"abcxyz";
    let t = b"abcuv";
    let fam = BlockFamily { blocks: vec![Block { i: 0, j: 0, len: 3 }] };
    assert_eq!(fam.energy(s, t), 45);
    assert_eq!(KAPPA, 8);
}

#[test]
fn empty_family_energy() {
    let s = b"abcxyz";
    let t = b"abwxy";
    assert_eq!(BlockFamily::default().energy(s, t), 89);
    let fast = FastBlockFamily::new(s.len(), t.len());
    assert_eq!(fast.energy(s, t), 89);
}

#[test]
fn readme_descent_steps() {
    let s = b"abcxyz";
    let t = b"abwxy";
    let mt = MatchTable::new(s, t);
    let mut fam = BlockFamily::default();
    let logs = fam.run_with_diagnostics(s, t, &mt, true);
    assert_eq!(logs.len(), 2);
    assert_eq!(logs[0].step, 1);
    assert_eq!(logs[0].energy_before, 89);
    assert_eq!(logs[0].energy_after, 61);
    assert_eq!(logs[0].action, MoveKind::Add);
    assert_eq!(logs[0].block, Block { i: 0, j: 0, len: 2 });
    assert_eq!(logs[1].step, 2);
    assert_eq!(logs[1].energy_before, 61);
    assert_eq!(logs[1].energy_after, 38);
    assert_eq!(logs[1].block, Block { i: 3, j: 3, len: 2 });
    assert_eq!(fam.blocks, vec![Block { i: 0, j: 0, len: 2 }, Block { i: 3, j: 3, len: 2 }]);
    assert_eq!(fam.energy(s, t), 38);
}

#[test]
fn quiet_descent_records_nothing() {
    let s = b"abcxyz";
    let t = b"abwxy";
    let mt = MatchTable::new(s, t);
    let mut fam = BlockFamily::default();
    let logs = fam.run_with_diagnostics(s, t, &mt, false);
    assert!(logs.is_empty());
    assert_eq!(fam.energy(s, t), 38);
}

#[test]
fn descent_step_then_fixed_point() {
    let s = b"abcxyz";
    let t = b"abwxy";
    let mt = MatchTable::new(s, t);
    let mut fam = BlockFamily::default();
    assert!(fam.descent_step(s, t, &mt));
    assert_eq!(fam.energy(s, t), 61);
    assert!(fam.descent_step(s, t, &mt));
    assert_eq!(fam.energy(s, t), 38);
    assert!(!fam.descent_step(s, t, &mt));
    assert_eq!(fam.energy(s, t), 38);
}

#[test]
fn logged_step_reports_move() {
    let s = b"abcxyz";
    let t = b"abwxy";
    let mt = MatchTable::new(s, t);
    let mut fam = BlockFamily::default();
    let log = fam.descent_step_with_log(s, t, &mt, 7).expect("an improving step");
    assert_eq!(log.step, 7);
    assert_eq!(log.energy_before, 89);
    assert_eq!(log.energy_after, 61);
    assert_eq!(log.action, MoveKind::Add);
}

#[test]
fn neighbors_of_empty_family() {
    let s = b"ab";
    let t = b"ab";
    let mt = MatchTable::new(s, t);
    let fam = BlockFamily::default();
    let ns = fam.neighbors(s, t, &mt);
    // Candidates: (0,0,1), (0,0,2), (1,1,1); each can be added to the empty family.
    assert_eq!(ns.len(), 3);
    assert_eq!(ns[0].blocks, vec![Block { i: 0, j: 0, len: 1 }]);
    assert_eq!(ns[1].blocks, vec![Block { i: 0, j: 0, len: 2 }]);
    assert_eq!(ns[2].blocks, vec![Block { i: 1, j: 1, len: 1 }]);
}

#[test]
fn neighbors_remove_held_block() {
    let s = b"ab";
    let t = b"ab";
    let mt = MatchTable::new(s, t);
    let fam = BlockFamily { blocks: vec![Block { i: 0, j: 0, len: 2 }] };
    let ns = fam.neighbors(s, t, &mt);
    // (0,0,1) and (1,1,1) overlap the held block; (0,0,2) is removed.
    assert_eq!(ns.len(), 1);
    assert!(ns[0].blocks.is_empty());
}

#[test]
fn admissibility() {
    let ok = BlockFamily { blocks: vec![Block { i: 0, j: 0, len: 2 }, Block { i: 3, j: 3, len: 2 }] };
    assert!(ok.is_admissible());
    let bad = BlockFamily { blocks: vec![Block { i: 0, j: 0, len: 2 }, Block { i: 1, j: 1, len: 2 }] };
    assert!(!bad.is_admissible());
}

#[test]
fn breakdown_of_readme_family() {
    let s = b"abcxyz";
    let t = b"abwxy";
    let blocks = vec![Block { i: 0, j: 0, len: 2 }, Block { i: 3, j: 3, len: 2 }];
    let b = EnergyBreakdown::calculate(&blocks, s, t);
    assert_eq!(b.total_energy, 38);
    assert_eq!(b.desc_cost, 14);
    assert_eq!(b.residual_cost, 24);
    assert_eq!(b.uncovered_s, 2);
    assert_eq!(b.uncovered_t, 1);
    assert_eq!(b.covered_s, 4);
    assert_eq!(b.covered_t, 4);
    assert_eq!(b.num_blocks, 2);
    assert_eq!(b.total_block_len, 4);
    assert_eq!(b.empty_energy, 89);
    assert_eq!(b.bits_saved, 51);
    let fam = BlockFamily { blocks };
    assert_eq!(fam.analyze(s, t), b);
}

#[test]
fn breakdown_of_empty_family() {
    let b = EnergyBreakdown::calculate(&[], b"abc", b"de");
    assert_eq!(b.total_energy, 41);
    assert_eq!(b.empty_energy, 41);
    assert_eq!(b.bits_saved, 0);
    assert_eq!(b.covered_s, 0);
    assert_eq!(b.uncovered_t, 2);
}

#[test]
fn insights_by_gain() {
    let blocks = vec![Block { i: 3, j: 3, len: 2 }, Block { i: 0, j: 0, len: 2 }];
    let ins = BlockInsight::calculate_all(&blocks, b"abcxyz", b"abwxy");
    assert_eq!(ins.len(), 2);
    assert_eq!(ins[0].block, Block { i: 0, j: 0, len: 2 });
    assert_eq!(ins[0].desc_cost, 4);
    assert_eq!(ins[0].saved_bits, 32);
    assert_eq!(ins[0].net_gain, 28);
    assert_eq!(ins[1].block, Block { i: 3, j: 3, len: 2 });
    assert_eq!(ins[1].desc_cost, 8);
    assert_eq!(ins[1].net_gain, 24);
    let fam = BlockFamily { blocks };
    assert_eq!(fam.block_insights(b"abcxyz", b"abwxy"), ins);
}

#[test]
fn insights_keep_ties_in_order() {
    let blocks = vec![Block { i: 0, j: 1, len: 1 }, Block { i: 1, j: 0, len: 1 }];
    let ins = BlockInsight::calculate_all(&blocks, b"ab", b"ba");
    assert_eq!(ins[0].net_gain, ins[1].net_gain);
    assert_eq!(ins[0].block, Block { i: 0, j: 1, len: 1 });
    assert_eq!(ins[1].block, Block { i: 1, j: 0, len: 1 });
}

#[test]
fn fast_descent_matches_readme() {
    let s = b"abcxyz";
    let t = b"abwxy";
    let mt = MatchTable::new(s, t);
    let mut fam = FastBlockFamily::new(s.len(), t.len());
    assert!(fam.descent_step(s, t, &mt));
    assert_eq!(fam.energy(s, t), 61);
    fam.run(s, t, &mt);
    assert_eq!(fam.energy(s, t), 38);
    assert!(!fam.descent_step(s, t, &mt));
}
