//! Whole growths, run with a small host backend.
use lgbm_compute::bin_column::BinColumn;
use lgbm_compute::dataset::{BinType, MissingType};
use lgbm_compute::error::ComputeError;
use lgbm_compute::gain::SplitInfo;
use lgbm_compute::kernels::grow_driver::{
    check_grow_inputs, leaf_is_scannable, scan_leaf, takes_resident_arm, FeatureScan, GrowDriver,
    ShownNumber,
};
use lgbm_compute::kernels::grow_feature::{
    batched_features, cat_slab_width, categorical_feature_config, has_categorical, proving_slice_config, real_feat_of, real_feature_indices, slot_offsets,
    GrowFeature,
};
use lgbm_compute::kernels::grow_ledger::{
    book_phase, bump_f64_fused, bump_launch, bump_rootbuild_u64, bump_sync, count_step,
    launch_prof_enabled, on_device_f64_fused_count_take, on_device_grow_phase_take,
    on_device_launch_count_take, on_device_rootbuild_u64_count_take, on_device_sync_count_take,
    GrowCounters, GrowPhaseNs, LedgerPhase,
};
use lgbm_compute::kernels::grow_machine::{GrowAction, GrowEvent, GrowMachine};
use lgbm_compute::kernels::grow_resident::{
    choose_partition_arm, feature_position, plan_child_steps, DeviceStep, PartitionArm, PickExport,
    PickedLeaf, ResidentGrow,
};
use lgbm_compute::kernels::partition::DeviceLeafSplits;
use lgbm_compute::kernels::resident_machine::{
    fix_regions, frontier_record, uploads_bins, ResidentAction, ResidentEvent, ResidentMachine,
};
use lgbm_compute::kernels::split_order::best_leaf_argmax;
use lgbm_compute::number::Real64;

fn num(x: f64) -> Real64 {
    Real64 { bits: x.to_bits() }
}

fn seed(x: f64) -> ShownNumber {
    ShownNumber { value: num(x), decimal: format!("{x}") }
}

fn value(x: Real64) -> f64 {
    f64::from_bits(x.bits)
}

fn toy_feature(bins: Vec<u32>, num_bin: u32, real: i32) -> GrowFeature {
    GrowFeature {
        bins: BinColumn::new(bins, num_bin),
        num_bin,
        offset: 0,
        min_bin: 0,
        max_bin: num_bin - 1,
        default_bin: num_bin,
        most_freq_bin: num_bin,
        missing_type: MissingType::NoMissing,
        bin_upper_bound: (0..num_bin).map(|b| num(f64::from(b) + 0.5)).collect(),
        real_feature_index: real,
        bin_type: BinType::Numerical,
        bin_to_category: Vec::new(),
        cat_smooth: num(10.0),
        cat_l2: num(10.0),
        max_cat_threshold: 32,
        max_cat_to_onehot: 4,
        min_data_per_group: 100,
    }
}

fn toy_features() -> Vec<GrowFeature> {
    vec![
        toy_feature((0..16).map(|i| i / 2).collect(), 8, 3),
        toy_feature((0..16).map(|i| i % 4).collect(), 4, 1),
    ]
}

fn toy_gradients() -> Vec<f64> {
    (0..16).map(|i| if i < 8 { -1.0 - f64::from(i % 4) } else { 2.0 + f64::from(i % 3) }).collect()
}

fn best_of_feature(f: &GrowFeature, rows: &[u32], g: &[f64]) -> SplitInfo {
    let mut best = SplitInfo::none();
    let total: f64 = rows.iter().map(|&r| g[r as usize]).sum();
    let n = rows.len() as f64;
    for t in 0..f.num_bin - 1 {
        let left: Vec<u32> = rows.iter().copied().filter(|&r| f.bins.bin(r as usize) <= t).collect();
        let nl = left.len() as f64;
        if left.is_empty() || left.len() == rows.len() {
            continue;
        }
        let lg: f64 = left.iter().map(|&r| g[r as usize]).sum();
        let rg = total - lg;
        let gain = lg * lg / nl + rg * rg / (n - nl) - total * total / n;
        if num(gain).above(best.gain) {
            best = SplitInfo {
                gain: num(gain),
                threshold: t,
                default_left: false,
                left_sum_gradient: num(lg),
                left_sum_hessian: num(nl),
                left_output: num(-lg / nl),
                left_count: left.len() as i32,
                right_sum_gradient: num(rg),
                right_sum_hessian: num(n - nl),
                right_output: num(-rg / (n - nl)),
                right_count: (rows.len() - left.len()) as i32,
            };
        }
    }
    best
}

fn scan_rows(features: &[GrowFeature], rows: &[u32], g: &[f64], sum_h: Real64) -> (SplitInfo, i32, Vec<u32>) {
    let scans: Vec<FeatureScan> = features
        .iter()
        .map(|f| FeatureScan { split: best_of_feature(f, rows, g), cat_bins: Vec::new() })
        .collect();
    scan_leaf(features, &scans, sum_h, rows.len() as i32)
}

/// The rows of each leaf after a growth by the driver machine.
fn grow_on_host(num_leaves: i32, max_depth: i32, min_data: i32) -> Vec<Vec<u32>> {
    let features = toy_features();
    let g = toy_gradients();
    check_grow_inputs(num_leaves, features.len(), g.len(), g.len()).unwrap();
    let sum: f64 = g.iter().sum();
    let driver = GrowDriver::start(num_leaves, max_depth, min_data, 16, 2, &seed(sum), &seed(16.0)).unwrap();
    let (mut machine, mut action) = GrowMachine::start(driver);
    let mut tree_leaves = 1;
    loop {
        let event = match action {
            GrowAction::Build { .. } => GrowEvent::Built,
            GrowAction::Subtract { parent, smaller, larger } => {
                assert!(parent == smaller || parent == larger);
                GrowEvent::Subtracted
            }
            GrowAction::Scan { leaf } => {
                let l = machine.driver().leaf(leaf);
                let (best, best_fpos, best_cat) = scan_rows(&features, &l.rows, &g, l.sum_h);
                GrowEvent::Scanned { best, best_fpos, best_cat }
            }
            GrowAction::SplitTree { work } => {
                assert_eq!(work.scalars.left_count, work.left_rows.len() as i32);
                assert_eq!(work.scalars.right_count, work.right_rows.len() as i32);
                assert!(work.real_threshold.is_some());
                tree_leaves += 1;
                GrowEvent::TreeSplit { right_leaf_index: tree_leaves - 1 }
            }
            GrowAction::Finish => break,
        };
        action = machine.advance(&features, event).unwrap();
    }
    let layout = machine.driver().layout(tree_leaves as usize);
    assert_eq!(layout.num_data, 16);
    let mut sorted = layout.indices.clone();
    sorted.sort_unstable();
    assert_eq!(sorted, (0..16).collect::<Vec<u32>>(), "the leaves hold every row once");
    for (&b, &c) in layout.leaf_begin.iter().zip(&layout.leaf_count) {
        let rows = &layout.indices[b as usize..(b + c) as usize];
        assert!(rows.windows(2).all(|w| w[0] < w[1]), "the rows of a leaf ascend");
    }
    layout
        .leaf_begin
        .iter()
        .zip(&layout.leaf_count)
        .map(|(&b, &c)| layout.indices[b as usize..(b + c) as usize].to_vec())
        .collect()
}

/// The rows of each leaf after a growth by the resident machine.
fn grow_resident_leaves(num_leaves: i32, max_depth: i32, min_data: i32, arm: PartitionArm, copack: bool) -> Vec<Vec<u32>> {
    let features = toy_features();
    let g = toy_gradients();
    let reals = real_feature_indices(&features);
    let sum: f64 = g.iter().sum();
    let grow = ResidentGrow::start(num_leaves, max_depth, min_data, 16, &seed(sum), &seed(16.0)).unwrap();
    let splits = DeviceLeafSplits::new(num_leaves as usize).unwrap();
    let (mut machine, mut action) = ResidentMachine::start(grow, splits, copack, false);
    let mut bests = vec![SplitInfo::none(); num_leaves as usize];
    let mut feats = vec![-1i32; num_leaves as usize];
    let mut tree_leaves = 1usize;
    loop {
        let event = match action {
            ResidentAction::Root { steps } => {
                assert!(!steps.is_empty());
                let leaf = machine.grow().leaf(0);
                let (best, best_fpos, _) = scan_rows(&features, machine.grow().leaf_rows(0), &g, leaf.sum_h);
                ResidentEvent::RootScanned { best, best_fpos }
            }
            ResidentAction::Seed { leaf, record } => {
                let (best, fpos, _) = scan_rows(&features, machine.grow().leaf_rows(leaf), &g, machine.grow().leaf(leaf).sum_h);
                assert_eq!(record.gain, best.gain);
                assert_eq!(record.is_valid, best.gain.above(Real64::zero()) && real_feat_of(&features, fpos) >= 0);
                bests[leaf] = best;
                feats[leaf] = real_feat_of(&features, fpos);
                ResidentEvent::Finished
            }
            ResidentAction::Pick { leaves, .. } => {
                let best_leaf = best_leaf_argmax(&bests[..leaves], &feats[..leaves]);
                let l = best_leaf as usize;
                let found = feats[l] >= 0;
                ResidentEvent::Picked {
                    export: PickExport {
                        best_leaf: if found { best_leaf } else { -1 },
                        real_feature: feats[l],
                        best: bests[l],
                    },
                    recorded_gain: bests[l].gain,
                    arm,
                }
            }
            ResidentAction::Split { plan } => {
                tree_leaves += 1;
                for step in &plan.steps {
                    let mut store = |leaf: usize, split: (SplitInfo, i32)| {
                        bests[leaf] = split.0;
                        feats[leaf] = real_feat_of(&features, split.1);
                    };
                    let scan = |leaf: usize| {
                        let (best, fpos, _) =
                            scan_rows(&features, machine.grow().leaf_rows(leaf), &g, machine.grow().leaf(leaf).sum_h);
                        (best, fpos)
                    };
                    match *step {
                        DeviceStep::Scan { leaf, .. } => store(leaf, scan(leaf)),
                        DeviceStep::ScanSiblings { smaller, larger, .. } => {
                            store(smaller, scan(smaller));
                            store(larger, scan(larger));
                        }
                        DeviceStep::SeedNone { leaf } => store(leaf, (SplitInfo::none(), -1)),
                        DeviceStep::Build { .. } | DeviceStep::BuildAndScan { .. } | DeviceStep::Subtract { .. } => {}
                    }
                }
                ResidentEvent::Finished
            }
            ResidentAction::Finish => break,
        };
        action = machine.advance(&features, event).unwrap();
    }
    let layout = machine.grow().layout(tree_leaves);
    layout
        .leaf_begin
        .iter()
        .zip(&layout.leaf_count)
        .map(|(&b, &c)| layout.indices[b as usize..(b + c) as usize].to_vec())
        .collect()
}

#[test]
fn driver_grows_the_expected_leaves() {
    let leaves = grow_on_host(2, -1, 1);
    assert_eq!(leaves, vec![(0..8).collect::<Vec<u32>>(), (8..16).collect::<Vec<u32>>()]);
    assert_eq!(grow_on_host(1, -1, 1), vec![(0..16).collect::<Vec<u32>>()]);
    assert_eq!(grow_on_host(8, -1, 1).len(), 8);
    // A depth limit of one stops after the root.
    assert_eq!(grow_on_host(8, 1, 1).len(), 2);
    // Too few rows for two leaves of nine: only the root is split, whose search has no such bound.
    assert!(grow_on_host(8, -1, 9).len() <= 2);
}

#[test]
fn resident_growth_matches_the_driver() {
    for (num_leaves, max_depth, min_data) in [(2, -1, 1), (5, -1, 1), (8, -1, 2), (8, 2, 1), (16, -1, 1)] {
        let host = grow_on_host(num_leaves, max_depth, min_data);
        for arm in [PartitionArm::HostFused, PartitionArm::HostGather, PartitionArm::Device] {
            for copack in [false, true] {
                let resident = grow_resident_leaves(num_leaves, max_depth, min_data, arm, copack);
                assert_eq!(resident, host, "{num_leaves} leaves, depth {max_depth}, {arm:?}, copack {copack}");
            }
        }
    }
}

#[test]
fn growth_refuses_bad_input() {
    assert!(matches!(check_grow_inputs(0, 1, 4, 4), Err(ComputeError::Runtime { .. })));
    assert!(matches!(check_grow_inputs(2, 0, 4, 4), Err(ComputeError::Runtime { .. })));
    assert_eq!(check_grow_inputs(2, 1, 4, 3), Err(ComputeError::LengthMismatch { expected: 4, actual: 3 }));
    assert!(matches!(
        GrowDriver::start(2, -1, 1, 4, 1, &seed(f64::NAN), &seed(1.0)),
        Err(ComputeError::NonFinite { .. })
    ));
    assert!(matches!(
        ResidentGrow::start(2, -1, 1, 4, &seed(1.0), &seed(f64::INFINITY)),
        Err(ComputeError::NonFinite { .. })
    ));
}

#[test]
fn desynchronised_tree_is_refused() {
    let features = toy_features();
    let g = toy_gradients();
    let driver = GrowDriver::start(4, -1, 1, 16, 2, &seed(g.iter().sum()), &seed(16.0)).unwrap();
    let (mut machine, _) = GrowMachine::start(driver);
    machine.advance(&features, GrowEvent::Built).unwrap();
    let rows: Vec<u32> = (0..16).collect();
    let (best, best_fpos, best_cat) = scan_rows(&features, &rows, &g, num(16.0));
    let action = machine.advance(&features, GrowEvent::Scanned { best, best_fpos, best_cat }).unwrap();
    assert!(matches!(action, GrowAction::SplitTree { .. }));
    let err = machine.advance(&features, GrowEvent::TreeSplit { right_leaf_index: 3 }).err();
    match err {
        Some(ComputeError::Runtime { detail }) => assert!(detail.contains("desync"), "{detail}"),
        other => panic!("expected a desync error, got {other:?}"),
    }
}

#[test]
fn unknown_picked_feature_is_refused() {
    let features = toy_features();
    let grow = ResidentGrow::start(4, -1, 1, 16, &seed(1.0), &seed(16.0)).unwrap();
    let export = PickExport { best_leaf: 0, real_feature: 77, best: SplitInfo { gain: num(1.0), ..SplitInfo::none() } };
    assert!(matches!(grow.take_pick(&features, &export), Err(ComputeError::Runtime { .. })));
    let export = PickExport { best_leaf: 0, real_feature: 1, best: SplitInfo { gain: num(0.0), ..SplitInfo::none() } };
    assert!(grow.take_pick(&features, &export).unwrap().is_none());
    let export = PickExport { best_leaf: -1, real_feature: 1, best: SplitInfo { gain: num(1.0), ..SplitInfo::none() } };
    assert!(grow.take_pick(&features, &export).unwrap().is_none());
    let export = PickExport { best_leaf: 0, real_feature: 1, best: SplitInfo { gain: num(1.0), ..SplitInfo::none() } };
    assert_eq!(grow.take_pick(&features, &export).unwrap().unwrap().fpos, 1);
}

#[test]
fn a_failed_split_keeps_the_leaves() {
    let mut features = toy_features();
    let mut grow = ResidentGrow::start(4, -1, 1, 16, &seed(1.0), &seed(16.0)).unwrap();
    let mut table = DeviceLeafSplits::new(4).unwrap();
    let best = SplitInfo { gain: num(1.0), threshold: 1, ..SplitInfo::none() };
    let picked = PickedLeaf { leaf: 0, fpos: 1, best };
    // A threshold that no bin has is refused before a row moves.
    let beyond = PickedLeaf { leaf: 0, fpos: 1, best: SplitInfo { threshold: 4, ..best } };
    assert!(grow.split_leaf(&features, &beyond, num(1.0), PartitionArm::Device, &mut table, true, false).is_err());
    assert_eq!(grow.leaf_rows(0), (0..16).collect::<Vec<u32>>());
    assert_eq!(table.read_leaf(0).right_end, 0);
    // A threshold without an upper bound is found out after the rows were put in order.
    features[1].bin_upper_bound = vec![num(0.5)];
    assert!(grow.split_leaf(&features, &picked, num(1.0), PartitionArm::Device, &mut table, true, false).is_err());
    assert_eq!(grow.leaf_count(), 1);
    assert_eq!(grow.leaf_rows(0), [0, 1, 4, 5, 8, 9, 12, 13, 2, 3, 6, 7, 10, 11, 14, 15]);
    assert_eq!(table.read_leaf(0).left_count, 8);
    // The same split goes through on a fresh growth, and its ranges are stored.
    let features = toy_features();
    let mut grow = ResidentGrow::start(4, -1, 1, 16, &seed(1.0), &seed(16.0)).unwrap();
    let mut table = DeviceLeafSplits::new(4).unwrap();
    let plan =
        grow.split_leaf(&features, &picked, num(1.0), PartitionArm::Device, &mut table, true, false).unwrap();
    assert_eq!((plan.left, plan.right), (0, 1));
    let stored = table.read_leaf(0);
    assert_eq!((stored.left_start, stored.left_end), (0, 8));
    assert_eq!((stored.right_start, stored.right_end), (8, 16));
    assert_eq!(table.read_leaf(1).right_end, 0);
    assert_eq!(grow.leaf_rows(1), [2, 3, 6, 7, 10, 11, 14, 15]);
}

#[test]
fn categorical_root_split_routes_by_category() {
    let mut f = toy_feature(vec![1, 2, 3, 1, 2, 3, 3, 1], 4, 5);
    f.bin_type = BinType::Categorical;
    f.bin_to_category = vec![-1, 0, 1, 2];
    f.most_freq_bin = 0;
    f.offset = 1;
    let features = vec![f];
    assert!(has_categorical(&features));
    assert!(!takes_resident_arm(true, &features));
    assert!(takes_resident_arm(true, &toy_features()));
    assert!(!takes_resident_arm(false, &toy_features()));
    let driver = GrowDriver::start(2, -1, 1, 8, 1, &seed(1.0), &seed(8.0)).unwrap();
    let (mut machine, _) = GrowMachine::start(driver);
    machine.advance(&features, GrowEvent::Built).unwrap();
    let best = SplitInfo { gain: num(4.0), ..SplitInfo::none() };
    let action = machine
        .advance(&features, GrowEvent::Scanned { best, best_fpos: 0, best_cat: vec![3] })
        .unwrap();
    match action {
        GrowAction::SplitTree { work } => {
            assert_eq!(work.left_rows, vec![2, 5, 6]);
            assert_eq!(work.right_rows, vec![0, 1, 3, 4, 7]);
            assert_eq!(work.real_bitset, vec![1 << 2]);
            assert_eq!(work.scalars.num_cat_threshold, 1);
            assert_eq!(work.real_feature_index, 5);
        }
        _ => panic!("a positive gain splits the root"),
    }
}

#[test]
fn scan_needs_weight_and_rows() {
    assert!(leaf_is_scannable(num(1.0), 1));
    assert!(!leaf_is_scannable(num(0.0), 1));
    assert!(!leaf_is_scannable(num(1.0), 0));
    assert!(!leaf_is_scannable(num(f64::NAN), 1));
    let features = toy_features();
    let scans: Vec<FeatureScan> = (0..2)
        .map(|i| FeatureScan {
            split: SplitInfo { gain: num(2.0), threshold: i, ..SplitInfo::none() },
            cat_bins: Vec::new(),
        })
        .collect();
    // Equal gains: the lower real feature index wins.
    assert_eq!(scan_leaf(&features, &scans, num(4.0), 4).1, 1);
    assert_eq!(scan_leaf(&features, &scans, num(0.0), 4).1, -1);
}

#[test]
fn feature_tables() {
    let features = toy_features();
    assert_eq!(slot_offsets(&features), (vec![0, 16], 24));
    let batched = batched_features(&features, &[0, 16]);
    assert_eq!(batched[1].slot_off, 16);
    assert_eq!(batched[1].num_bin, 4);
    assert!(!batched[1].na_as_missing);
    assert_eq!(real_feature_indices(&features), vec![3, 1]);
    assert_eq!(real_feat_of(&features, 0), 3);
    assert_eq!(real_feat_of(&features, -1), -1);
    assert_eq!(feature_position(&features, 1), Some(1));
    assert_eq!(feature_position(&features, 2), None);
    assert_eq!(cat_slab_width(&features), None);
    let base = proving_slice_config();
    assert_eq!(base.min_data_in_leaf, 1);
    let mut own = features[0].clone();
    own.max_cat_threshold = 7;
    own.cat_l2 = num(2.5);
    let cfg = categorical_feature_config(&base, &own);
    assert_eq!((cfg.max_cat_threshold, cfg.cat_l2), (7, num(2.5)));
    assert_eq!(cfg.min_data_in_leaf, base.min_data_in_leaf);
    assert_eq!(fix_regions(&features, &[0, 16]), vec![(0, 8, 0, 8), (16, 4, 0, 4)]);
}

#[test]
fn child_steps_cover_both_children() {
    let steps = plan_child_steps(4, 2, 9, 1, true, true, true, false);
    assert!(steps.iter().any(|s| matches!(s, DeviceStep::ScanSiblings { smaller: 4, larger: 2, .. })));
    let steps = plan_child_steps(4, 2, 9, 1, true, false, true, false);
    assert!(steps.iter().any(|s| matches!(s, DeviceStep::Scan { leaf: 4, slot: 9 })));
    assert!(steps.iter().any(|s| matches!(s, DeviceStep::SeedNone { leaf: 2 })));
    let steps = plan_child_steps(4, 2, 9, 1, true, true, true, true);
    assert!(steps.iter().any(|s| matches!(s, DeviceStep::BuildAndScan { leaf: 4, slot: 9, scan: true })));
    assert!(steps.iter().any(|s| matches!(s, DeviceStep::Scan { leaf: 2, slot: 1 })));
}

#[test]
fn partition_arm_follows_the_switches() {
    assert_eq!(choose_partition_arm(false, true), PartitionArm::Device);
    assert_eq!(choose_partition_arm(true, true), PartitionArm::HostFused);
    assert_eq!(choose_partition_arm(true, false), PartitionArm::HostGather);
    assert!(uploads_bins(None, false));
    assert!(!uploads_bins(None, true));
    assert!(uploads_bins(Some("0"), true));
}

#[test]
fn a_leaf_without_split_is_never_valid() {
    let record = frontier_record(3, &SplitInfo::none(), -1);
    assert!(!record.is_valid);
    assert_eq!(record.leaf_index, 3);
    let record = frontier_record(2, &SplitInfo { gain: num(1.5), threshold: 7, ..SplitInfo::none() }, 4);
    assert!(record.is_valid);
    assert_eq!(record.threshold, 7);
    assert_eq!(record.inner_feature_index, 4);
}

#[test]
fn counters_count_only_while_profiling() {
    assert!(launch_prof_enabled(Some("1")));
    assert!(!launch_prof_enabled(Some("0")));
    assert!(!launch_prof_enabled(None));
    let mut c = GrowCounters { launches: 0, syncs: 0, rootbuild_u64: 0, f64_fused: 0 };
    for profiling in [false, true] {
        bump_launch(&mut c, profiling);
        bump_sync(&mut c, profiling);
        bump_sync(&mut c, profiling);
        bump_rootbuild_u64(&mut c, profiling);
        bump_f64_fused(&mut c, profiling);
    }
    assert_eq!(on_device_launch_count_take(&mut c), 1);
    assert_eq!(on_device_launch_count_take(&mut c), 0);
    assert_eq!(on_device_sync_count_take(&mut c), 2);
    assert_eq!(on_device_rootbuild_u64_count_take(&mut c), 1);
    assert_eq!(on_device_f64_fused_count_take(&mut c), 1);
    // A split with shared scans takes three launches, one without takes four.
    for (copack, launches) in [(true, 3), (false, 4)] {
        for step in plan_child_steps(4, 2, 9, 1, true, true, copack, false) {
            count_step(&mut c, &step, true);
        }
        assert_eq!(on_device_launch_count_take(&mut c), launches);
    }
    c.launches = u64::MAX;
    bump_launch(&mut c, true);
    assert_eq!(c.launches, 0);
}

#[test]
fn phases_are_booked_and_taken() {
    let mut p = GrowPhaseNs::default();
    book_phase(&mut p, LedgerPhase::Build, 40, true);
    book_phase(&mut p, LedgerPhase::Build, 2, true);
    book_phase(&mut p, LedgerPhase::Scan, 9, false);
    let taken = on_device_grow_phase_take(&mut p);
    assert_eq!(taken.build, 42);
    assert_eq!(taken.scan, 0);
    assert_eq!(p, GrowPhaseNs::default());
}

#[test]
fn numbers_compare_like_floats() {
    let samples = [0.0, -0.0, 1.0, -1.0, 5e-324, -5e-324, f64::MAX, f64::MIN, f64::INFINITY, f64::NEG_INFINITY, f64::NAN];
    for a in samples {
        assert_eq!(num(a).is_nan(), a.is_nan());
        assert_eq!(num(a).is_finite(), a.is_finite());
        for b in samples {
            assert_eq!(num(a).above(num(b)), a > b, "{a} > {b}");
            assert_eq!(num(a).same(num(b)), a == b, "{a} == {b}");
        }
    }
    assert_eq!(value(Real64::zero()), 0.0);
    assert_eq!(value(Real64::neg_infinity()), f64::NEG_INFINITY);
}
