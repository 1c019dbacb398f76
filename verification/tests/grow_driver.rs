//! Growing a tree: picks, partitions, the two state machines, scores.
use lgbm_compute::bin_column::BinColumn;
use lgbm_compute::dataset::{BinType, LeafPartitionLayout, MissingType};
use lgbm_compute::error::ComputeError;
use lgbm_compute::gain::SplitInfo;
use lgbm_compute::kernels::data_partition::partition_leaf_stable;
use lgbm_compute::kernels::grow_driver::{
    check_root_seed_finite, check_tree_leaves_finite, scan_leaf, FeatureScan, ShownNumber,
};
use lgbm_compute::kernels::grow_feature::{
    argmax_over_resident_splits, argmax_over_splits, BatchedSplitFeature, GrowFeature,
};
use lgbm_compute::kernels::grow_resident::{partition_resident_range, PartitionArm};
use lgbm_compute::kernels::partition::DeviceLeafSplits;
use lgbm_compute::kernels::score::{add_prediction_to_score_on_device_resident, root_grad_hess_fold};
use lgbm_compute::kernels::split_order::{best_leaf_argmax, split_gt};
use lgbm_compute::number::Real64;

fn grow_number(x: f64) -> Real64 {
    Real64 { bits: x.to_bits() }
}

fn seed_sum(x: f64) -> ShownNumber {
    ShownNumber { value: grow_number(x), decimal: format!("{x}") }
}

#[test]
fn check_root_seed_finite_fires_on_non_finite() {
    assert!(
        check_root_seed_finite(&seed_sum(1.0), &seed_sum(2.0)).is_ok(),
        "a finite seed must pass untouched"
    );
    for (g, h) in [
        (f64::NAN, 2.0),
        (1.0, f64::NAN),
        (f64::INFINITY, 2.0),
        (1.0, f64::NEG_INFINITY),
    ] {
        let err = check_root_seed_finite(&seed_sum(g), &seed_sum(h))
            .expect_err("non-finite seed must fail loudly");
        match err {
            ComputeError::NonFinite { detail } => {
                assert!(detail.contains("root"), "detail must name the root seed: {detail}");
                let sums = format!("(sum_gradient = {g}, sum_hessian = {h})");
                assert!(detail.contains(&sums), "detail must show both sums: {detail}");
            }
            other => panic!("expected NonFinite, got {other:?}"),
        }
    }
}

#[test]
fn non_finite_messages_are_written_out() {
    assert_eq!(
        check_root_seed_finite(&seed_sum(-0.125), &seed_sum(f64::NEG_INFINITY)),
        Err(ComputeError::NonFinite {
            detail: "seeded root grad/hess sum is non-finite (sum_gradient = -0.125, sum_hessian = -inf) — refusing to \
                     grow a corrupt tree that GBDT's no-split pop-loop would silently truncate (OCX-04, spike-072)"
                .to_string()
        })
    );
    assert_eq!(
        check_tree_leaves_finite(&[grow_number(1.0), grow_number(f64::NAN)]),
        Err(ComputeError::NonFinite {
            detail: "emitted on-device leaf 1 value is non-finite (NaN) — refusing to emit a corrupt tree \
                     (OCX-04, spike-072 tree-4→tree-12 leaf blow-up)"
                .to_string()
        })
    );
}

#[test]
fn check_tree_leaves_finite_fires_on_non_finite_leaf() {
    let mut leaf_value = vec![grow_number(0.1), grow_number(-0.2), grow_number(0.3)];
    assert!(check_tree_leaves_finite(&leaf_value).is_ok(), "an all-finite tree must pass");
    for bad in [f64::NAN, f64::INFINITY, f64::NEG_INFINITY] {
        leaf_value[1] = grow_number(bad);
        let err = check_tree_leaves_finite(&leaf_value).expect_err("a non-finite leaf must fail loudly");
        match err {
            ComputeError::NonFinite { detail } => {
                assert!(detail.contains("leaf 1"), "detail must name the leaf: {detail}");
            }
            other => panic!("expected NonFinite, got {other:?}"),
        }
    }
}

fn batched_feat(na_as_missing: bool) -> BatchedSplitFeature {
    BatchedSplitFeature {
        slot_off: 0,
        num_bin: 8,
        offset: 1,
        default_bin: 8,
        most_freq_bin: 0,
        skip_default_bin: false,
        na_as_missing,
        run_forward: false,
    }
}

fn split_with_gain(gain: f64) -> SplitInfo {
    SplitInfo { gain: grow_number(gain), threshold: 3, ..SplitInfo::none() }
}

#[test]
fn on_device_argmax_reduce_matches_host_argmax_bit_for_bit() {
    let feats = vec![batched_feat(false), batched_feat(false), batched_feat(false), batched_feat(false)];
    let real_feats = vec![7i32, 2, 5, 2];

    let splits_a = vec![
        split_with_gain(3.0),
        split_with_gain(5.0),
        split_with_gain(9.0),
        split_with_gain(1.0),
    ];
    let splits_b = vec![
        split_with_gain(8.0),
        split_with_gain(8.0),
        split_with_gain(4.0),
        split_with_gain(8.0),
    ];
    let feats_c = vec![batched_feat(false), batched_feat(true), batched_feat(false)];
    let real_feats_c = vec![0i32, 1, 2];
    let splits_c = vec![split_with_gain(2.0), split_with_gain(99.0), split_with_gain(3.0)];

    let grow = |reals: &[i32]| -> Vec<GrowFeature> {
        reals
            .iter()
            .map(|&r| GrowFeature {
                bins: BinColumn::new(vec![0u32], 8),
                num_bin: 8,
                offset: 1,
                min_bin: 0,
                max_bin: 7,
                default_bin: 8,
                most_freq_bin: 0,
                missing_type: MissingType::NoMissing,
                bin_upper_bound: vec![grow_number(0.0)],
                real_feature_index: r,
                bin_type: BinType::Numerical,
                bin_to_category: Vec::new(),
                cat_smooth: grow_number(10.0),
                cat_l2: grow_number(10.0),
                max_cat_threshold: 32,
                max_cat_to_onehot: 4,
                min_data_per_group: 100,
            })
            .collect()
    };

    for (splits, feats, real_feats) in [
        (&splits_a, &feats, &real_feats),
        (&splits_b, &feats, &real_feats),
        (&splits_c, &feats_c, &real_feats_c),
    ] {
        let features = grow(real_feats);
        let host = argmax_over_splits(splits, feats, &features);
        let device = argmax_over_resident_splits(splits, feats, real_feats);
        assert_eq!(
            host.1, device.1,
            "winning feature-position must be bit-identical (host {:?} vs device {:?})",
            host, device
        );
        assert_eq!(host.0.gain.bits, device.0.gain.bits, "winning gain must be bit-identical");
        assert_eq!(host.0.threshold, device.0.threshold, "winning threshold must be bit-identical");
        assert_eq!(
            host.0.default_left, device.0.default_left,
            "winning default_left must be bit-identical"
        );
    }
    assert_eq!(
        argmax_over_resident_splits(&splits_b, &feats, &real_feats).1,
        1,
        "tie must resolve to the lowest real feature index, first fpos among equals"
    );
    assert_eq!(argmax_over_resident_splits(&splits_a, &feats, &real_feats).1, 2);
    assert_eq!(argmax_over_resident_splits(&splits_c, &feats_c, &real_feats_c).1, 2);
}

#[test]
fn on_device_best_leaf_reduce_matches_host_loop() {
    let host_pick = |bests: &[SplitInfo], reals: &[i32]| -> i32 {
        let mut best_leaf = 0i32;
        for i in 1..bests.len() {
            if split_gt(&bests[i], reals[i], &bests[best_leaf as usize], reals[best_leaf as usize]) {
                best_leaf = i as i32;
            }
        }
        best_leaf
    };
    let cases: Vec<(Vec<SplitInfo>, Vec<i32>, i32)> = vec![
        (vec![split_with_gain(1.0), split_with_gain(2.0), split_with_gain(5.0)], vec![0, 1, 2], 2),
        (vec![split_with_gain(5.0), split_with_gain(1.0), split_with_gain(5.0)], vec![3, 0, 1], 2),
        (vec![SplitInfo::none(), split_with_gain(0.5), SplitInfo::none()], vec![-1, 4, -1], 1),
        (vec![SplitInfo::none(), SplitInfo::none()], vec![-1, -1], 0),
    ];
    for (bests, reals, want) in &cases {
        assert_eq!(
            best_leaf_argmax(bests, reals),
            host_pick(bests, reals),
            "on-device best-leaf reduce must match the host loop pick"
        );
        assert_eq!(best_leaf_argmax(bests, reals), *want);
    }
}

#[test]
fn root_grad_hess_reduce_matches_ordered_fold() {
    let gradients: Vec<f32> = (0..257).map(|r| (r as f32 - 128.0) * 0.1).collect();
    let hessians: Vec<f32> = vec![1.0f32; 257];
    let mut sg = 0.0f64;
    let mut sh = 0.0f64;
    for (g, h) in gradients.iter().zip(hessians.iter()) {
        sg += f64::from(*g);
        sh += f64::from(*h);
    }
    let (rg, rh) = root_grad_hess_fold(&|s: f64, v: f32| s + f64::from(v), 0.0, &gradients, &hessians);
    assert_eq!(rg.to_bits(), sg.to_bits(), "root sum_gradient must be bit-identical to the ordered f64 fold");
    assert_eq!(rh.to_bits(), sh.to_bits(), "root sum_hessian must be bit-identical to the ordered f64 fold");
}

#[test]
fn resident_add_prediction_to_score_matches_host_scatter_cpu_anchor() {
    let layout = LeafPartitionLayout {
        num_data: 6,
        indices: vec![4, 1, 0, 5, 3, 2],
        leaf_begin: vec![0, 2, 4],
        leaf_count: vec![2, 2, 2],
    };
    let leaf_values = vec![-0.5f64, 0.25, 1.75];

    let device =
        add_prediction_to_score_on_device_resident(&|a: f64, b: f64| a + b, 0.0, &layout, &leaf_values)
            .expect("on-device resident score scatter");

    let mut host = vec![0.0f64; layout.num_data as usize];
    for (leaf, (&begin, &count)) in layout.leaf_begin.iter().zip(layout.leaf_count.iter()).enumerate() {
        for &row in &layout.indices[begin as usize..(begin + count) as usize] {
            host[row as usize] += leaf_values[leaf];
        }
    }

    assert_eq!(device.len(), host.len(), "score length parity");
    for (i, (&d, &h)) in device.iter().zip(host.iter()).enumerate() {
        assert_eq!(
            d.to_bits(),
            h.to_bits(),
            "on-device resident score[{i}] = {d} != host scatter {h} (cpu-f64 anchor \
             must be BIT-EXACT — integer-indexed f64 scatter, no reduction)"
        );
    }
}

#[test]
fn nothing_admissible_wins_nothing() {
    let none = [SplitInfo::none(), SplitInfo::none()];
    let feats = [batched_feat(false), batched_feat(false)];
    let best = argmax_over_resident_splits(&none, &feats, &[7, 2]);
    assert_eq!(best, (SplitInfo::none(), -1));
    assert_eq!(best.0.gain, Real64::neg_infinity());
    let features: Vec<GrowFeature> = [7, 2].iter().map(|&r| routed_feature(vec![0], 8, r)).collect();
    assert_eq!(argmax_over_splits(&none, &feats, &features), (SplitInfo::none(), -1));
    let scan = |split: SplitInfo| FeatureScan { split, cat_bins: vec![4] };
    let scans = [scan(SplitInfo::none()), scan(SplitInfo::none())];
    assert_eq!(scan_leaf(&features, &scans, grow_number(2.0), 2), (SplitInfo::none(), -1, vec![]));
    // The only split among skipped features and features without a split.
    let skipped = [batched_feat(true), batched_feat(false), batched_feat(false)];
    let splits = [split_with_gain(9.0), SplitInfo::none(), split_with_gain(-2.0)];
    assert_eq!(argmax_over_resident_splits(&splits, &skipped, &[0, 1, 2]), (splits[2], 2));
    assert_eq!(argmax_over_resident_splits(&splits[..2], &skipped, &[0, 1]).1, -1);
    let scans = [scan(SplitInfo::none()), scan(split_with_gain(1.0))];
    assert_eq!(scan_leaf(&features, &scans, grow_number(2.0), 2), (split_with_gain(1.0), 1, vec![4]));
}

fn routed_feature(bins: Vec<u32>, num_bin: u32, real: i32) -> GrowFeature {
    GrowFeature {
        bins: BinColumn::new(bins, num_bin),
        num_bin,
        offset: 0,
        min_bin: 0,
        max_bin: num_bin - 1,
        default_bin: num_bin,
        most_freq_bin: num_bin,
        missing_type: MissingType::NoMissing,
        bin_upper_bound: (0..num_bin).map(|b| grow_number(f64::from(b) + 0.5)).collect(),
        real_feature_index: real,
        bin_type: BinType::Numerical,
        bin_to_category: Vec::new(),
        cat_smooth: grow_number(10.0),
        cat_l2: grow_number(10.0),
        max_cat_threshold: 32,
        max_cat_to_onehot: 4,
        min_data_per_group: 100,
    }
}

#[test]
fn host_arms_refuse_the_same_bins_and_move_no_row() {
    let best = SplitInfo { threshold: 1, ..SplitInfo::none() };
    // Bin 9 fits the column but not the feature.
    let f = routed_feature(vec![0, 3, 2, 9, 1], 4, 0);
    for arm in [PartitionArm::HostFused, PartitionArm::HostGather, PartitionArm::Device] {
        let mut perm: Vec<u32> = vec![4, 2, 1, 3, 0];
        let mut table = DeviceLeafSplits::new(2).unwrap();
        assert_eq!(
            partition_resident_range(arm, &mut perm, 1, 4, &f, &best, &mut table, 1),
            Err(ComputeError::BinIndexOutOfRange { row: 2, bin: 9, num_bin: 4 })
        );
        assert_eq!(perm, vec![4, 2, 1, 3, 0]);
        assert_eq!(table.read_leaf(1).right_end, 0);
        assert_eq!(partition_resident_range(arm, &mut perm, 0, 3, &f, &best, &mut table, 1), Ok(1));
        assert_eq!(perm, vec![4, 2, 1, 3, 0]);
        let mut perm: Vec<u32> = vec![3, 2, 4, 0, 1];
        assert_eq!(partition_resident_range(arm, &mut perm, 1, 3, &f, &best, &mut table, 0), Ok(2));
        assert_eq!(perm, vec![3, 4, 0, 2, 1]);
        let stored = table.read_leaf(0);
        let ranges = (stored.left_start, stored.left_end, stored.right_start, stored.right_end);
        assert_eq!(ranges, if arm == PartitionArm::Device { (1, 3, 3, 4) } else { (0, 0, 0, 0) });
    }
}

#[test]
fn resident_range_partition_matches_host_and_tiles_parent() {
    let col: Vec<u32> = vec![1, 5, 3, 7, 0, 4, 2, 6, 3, 5];
    let f = GrowFeature {
        bins: BinColumn::new(col.clone(), 8),
        num_bin: 8,
        offset: 0,
        min_bin: 0,
        max_bin: 7,
        default_bin: 8,
        most_freq_bin: 8,
        missing_type: MissingType::NoMissing,
        bin_upper_bound: [0.5, 1.5, 2.5, 3.5, 4.5, 5.5, 6.5, 7.5].map(grow_number).to_vec(),
        real_feature_index: 0,
        bin_type: BinType::Numerical,
        bin_to_category: Vec::new(),
        cat_smooth: grow_number(10.0),
        cat_l2: grow_number(10.0),
        max_cat_threshold: 32,
        max_cat_to_onehot: 4,
        min_data_per_group: 100,
    };
    let best = SplitInfo { threshold: 3, default_left: false, ..SplitInfo::none() };
    let partition_min_bin = f.min_bin + f.offset.max(0) as u32;
    assert_eq!(f.partition_min_bin(), partition_min_bin);

    let p_begin = 0usize;
    let p_count = col.len();
    for arm in [PartitionArm::HostGather, PartitionArm::HostFused, PartitionArm::Device] {
        let mut perm: Vec<u32> = (0..col.len() as u32).collect();

        let bins_sub = BinColumn::new(
            perm[p_begin..p_begin + p_count].iter().map(|&r| f.bins.bin(r as usize)).collect(),
            f.num_bin,
        );
        let (ref_reordered, ref_split) = partition_leaf_stable(
            &bins_sub, &perm[p_begin..p_begin + p_count], f.num_bin, partition_min_bin,
            f.max_bin, f.default_bin, f.most_freq_bin, 0, best.default_left, best.threshold,
        )
        .unwrap();

        let mut leaf_splits_dev = DeviceLeafSplits::new(2).unwrap();
        let split_point = partition_resident_range(
            arm, &mut perm, p_begin, p_count, &f, &best, &mut leaf_splits_dev, 0,
        )
        .unwrap();

        assert_eq!(split_point, ref_split, "in-place split_point must match partition_leaf_stable");
        assert_eq!(
            &perm[p_begin..p_begin + p_count],
            ref_reordered.as_slice(),
            "in-place reordered global row ids must match the host stable partition"
        );

        let left_begin = p_begin;
        let left_count = split_point;
        let right_begin = p_begin + split_point;
        let right_count = p_count - split_point;
        assert_eq!(left_begin + left_count, right_begin, "child ranges must be contiguous");
        assert_eq!(left_count + right_count, p_count, "child counts must sum to the parent count");
        let left: Vec<u32> = perm[left_begin..left_begin + left_count].to_vec();
        let right: Vec<u32> = perm[right_begin..right_begin + right_count].to_vec();
        assert!(left.iter().all(|&r| col[r as usize] <= 3), "left rows have bin <= threshold");
        assert!(right.iter().all(|&r| col[r as usize] > 3), "right rows have bin > threshold");
        assert_eq!(left, vec![0, 2, 4, 6, 8], "left rows in original relative order");
        assert_eq!(right, vec![1, 3, 5, 7, 9], "right rows in original relative order");

        let mut perm2: Vec<u32> = (0..col.len() as u32).collect();
        let best_all_left = SplitInfo { threshold: 7, default_left: false, ..SplitInfo::none() };
        let p2_count = perm2.len();
        let sp = partition_resident_range(
            arm, &mut perm2, 0, p2_count, &f, &best_all_left, &mut leaf_splits_dev, 0,
        )
        .unwrap();
        assert_eq!(sp, col.len(), "threshold 7 (max bin) routes all rows LEFT ⇒ empty right child");
        assert_eq!(col.len() - sp, 0, "the right child range has zero count");
    }
}
