//! Histogram accumulation, repair, compaction and the resident builds.
use lgbm_compute::bin_column::BinColumn;
use lgbm_compute::dataset::{BinType, MissingType};
use lgbm_compute::error::ComputeError;
use lgbm_compute::fold::{mapped, ordered_fold};
use lgbm_compute::gain::GainConfig;
use lgbm_compute::kernels::fix_compact::{
    dequant_leaf_hist, fix_compact_f64_on, fix_compact_kernel, fix_histogram_mfb_on, signed_bits,
};
use lgbm_compute::kernels::fixed_build::{
    bits_of, construct_leaf_hist_resident_lds_kernel_u64, feature_bins,
};
use lgbm_compute::kernels::fused_scan::{
    build_fix_scan_resident_f64_on, build_fix_scan_resident_reduce_f64_on, decode_splits, plan_scan,
    ScannedSplit,
};
use lgbm_compute::kernels::grouped_build::{
    construct_leaf_hist_resident_kernel, construct_leaf_hist_resident_lds_kernel,
};
use lgbm_compute::kernels::grow_feature::{
    argmax_over_resident_splits, proving_slice_config, BatchedSplitFeature, GrowFeature,
};
use lgbm_compute::kernels::hist_region::{check_region, compact_histogram, fix_histogram, paste};
use lgbm_compute::kernels::histogram::{
    accumulate_histogram_into, construct_hist_kernel, construct_histograms_cpu,
    construct_histograms_cpu_native, construct_histograms_f64_on, validate_histogram_inputs, zeroed,
};
use lgbm_compute::kernels::leaf_histogram::build_leaf_hist;
use lgbm_compute::kernels::resident_build::{
    build_fix_compact_resident_f64_on, fixed_sums_may_wrap, largest_magnitude, resident_float_build_into,
    resident_raw_build_into, spill_cells, upload_resident_columns,
};
use lgbm_compute::kernels::row_partition::{
    build_candidates, force_row_partition, plan_resident_build, resolve_target_cubes,
    row_partition_count, slot_off_sentinel, variant_name, BuildPlan, GroupChoice, CUBES_PER_CU,
    ROWPART_MIN_LEAF, ROWPART_P_MAX, ROWPART_TARGET_CUBES_FALLBACK,
};
use lgbm_compute::kernels::window_reduce::reduce_scanned_windows;
use lgbm_compute::number::Real64;

fn add(sum: f64, v: f32) -> f64 {
    sum + f64::from(v)
}

fn sub(sum: f64, v: f64) -> f64 {
    sum - v
}

fn hist_number(x: f64) -> Real64 {
    Real64 { bits: x.to_bits() }
}

fn assert_bits_eq(a: &[f64], b: &[f64]) {
    assert_eq!(a.len(), b.len(), "histogram lengths differ");
    for (i, (x, y)) in a.iter().zip(b.iter()).enumerate() {
        assert_eq!(
            x.to_bits(),
            y.to_bits(),
            "cell {i} differs: {x} ({:#018x}) vs {y} ({:#018x})",
            x.to_bits(),
            y.to_bits(),
        );
    }
}

#[test]
fn accumulate_into_is_bit_identical_to_native() {
    let binned_a: Vec<u32> = vec![0, 2, 1, 2, 0, 3, 1, 2, 3, 0];
    let grad_a: Vec<f32> = vec![0.5, -1.25, 3.0, 0.125, -2.5, 7.75, -0.0625, 1.5, -4.0, 0.25];
    let hess_a: Vec<f32> = vec![1.0, 0.5, 2.0, 0.25, 1.5, 0.75, 3.0, 0.125, 2.5, 1.0];
    let num_bin_a = 4u32;

    let want_a =
        construct_histograms_cpu_native(&add, 0.0, &binned_a, &grad_a, &hess_a, num_bin_a).unwrap();
    let mut got_a = vec![0.0f64; 2 * num_bin_a as usize];
    accumulate_histogram_into(&add, &binned_a, &grad_a, &hess_a, num_bin_a, &mut got_a).unwrap();
    assert_bits_eq(&want_a, &got_a);

    let n = 257usize;
    let num_bin_b = 16u32;
    let mut binned_b = Vec::with_capacity(n);
    let mut grad_b = Vec::with_capacity(n);
    let mut hess_b = Vec::with_capacity(n);
    for i in 0..n {
        binned_b.push((i as u32) % num_bin_b);
        let g = if i % 2 == 0 { 1e7_f32 + i as f32 } else { -(1e-3_f32) * i as f32 };
        grad_b.push(g);
        hess_b.push((i as f32).mul_add(0.001, 0.5));
    }

    let want_b =
        construct_histograms_cpu_native(&add, 0.0, &binned_b, &grad_b, &hess_b, num_bin_b).unwrap();
    let mut got_b = vec![0.0f64; 2 * num_bin_b as usize];
    accumulate_histogram_into(&add, &binned_b, &grad_b, &hess_b, num_bin_b, &mut got_b).unwrap();
    assert_bits_eq(&want_b, &got_b);

    // Every entry point is the same row-order fold.
    let mut by_hand = vec![0.0f64; 2 * num_bin_b as usize];
    for i in 0..n {
        by_hand[2 * binned_b[i] as usize] += f64::from(grad_b[i]);
        by_hand[2 * binned_b[i] as usize + 1] += f64::from(hess_b[i]);
    }
    assert_bits_eq(&want_b, &by_hand);
    let on = construct_histograms_f64_on(&add, 0.0, &binned_b, &grad_b, &hess_b, num_bin_b).unwrap();
    assert_bits_eq(&on, &by_hand);
    let cpu = construct_histograms_cpu(&add, 0.0, &binned_b, &grad_b, &hess_b, num_bin_b).unwrap();
    assert_bits_eq(&cpu, &by_hand);
    let mut kernel = zeroed(2 * num_bin_b as usize, 0.0f64);
    construct_hist_kernel(&add, &binned_b, &grad_b, &hess_b, num_bin_b, &mut kernel);
    assert_bits_eq(&kernel, &by_hand);
}

#[test]
fn accumulate_into_subslice_matches_native() {
    let binned: Vec<u32> = vec![0, 1, 1, 0, 2, 2, 1];
    let grad: Vec<f32> = vec![1.0, -2.0, 0.5, 4.0, -1.0, 0.25, 3.0];
    let hess: Vec<f32> = vec![0.5, 1.0, 2.0, 0.25, 1.5, 0.75, 0.125];
    let num_bin = 3u32;
    let cells = 2 * num_bin as usize;

    let want = construct_histograms_cpu_native(&add, 0.0, &binned, &grad, &hess, num_bin).unwrap();

    let off = cells;
    let mut buf = vec![0.0f64; 3 * cells];
    accumulate_histogram_into(&add, &binned, &grad, &hess, num_bin, &mut buf[off..off + cells]).unwrap();

    assert_bits_eq(&want, &buf[off..off + cells]);
    assert!(buf[..off].iter().all(|&v| v.to_bits() == 0.0f64.to_bits()));
    assert!(buf[off + cells..].iter().all(|&v| v.to_bits() == 0.0f64.to_bits()));
}

#[test]
fn accumulate_into_rejects_short_out() {
    let binned: Vec<u32> = vec![0, 1, 2];
    let grad: Vec<f32> = vec![1.0, 2.0, 3.0];
    let hess: Vec<f32> = vec![1.0, 1.0, 1.0];
    let num_bin = 4u32;
    let mut out = vec![0.0f64; 4];

    let err = accumulate_histogram_into(&add, &binned, &grad, &hess, num_bin, &mut out).unwrap_err();
    assert!(
        matches!(err, ComputeError::LengthMismatch { expected, actual }
            if expected == 8 && actual == 4),
        "expected LengthMismatch{{8,4}}, got {err:?}"
    );
}

#[test]
fn histogram_inputs_are_checked() {
    let g = [1.0f32, 2.0];
    assert_eq!(validate_histogram_inputs(&[0, 1], &g, &g, 2), Ok(4));
    assert_eq!(
        validate_histogram_inputs(&[0, 1], &g[..1], &g, 2),
        Err(ComputeError::LengthMismatch { expected: 2, actual: 1 })
    );
    assert_eq!(
        validate_histogram_inputs(&[0, 1], &g, &g[..1], 2),
        Err(ComputeError::LengthMismatch { expected: 2, actual: 1 })
    );
    assert_eq!(validate_histogram_inputs::<f32>(&[], &[], &[], 0), Ok(0));
    assert_eq!(
        validate_histogram_inputs(&[0, 5], &g, &g, 2),
        Err(ComputeError::BinIndexOutOfRange { row: 1, bin: 5, num_bin: 2 })
    );
}

#[test]
fn resolve_target_cubes_order() {
    assert_eq!(resolve_target_cubes(Some(768), Some(8)), 768);
    assert_eq!(resolve_target_cubes(Some(64), None), 64);
    assert_eq!(resolve_target_cubes(Some(0), Some(8)), 8 * CUBES_PER_CU);
    assert_eq!(resolve_target_cubes(None, Some(8)), 8 * CUBES_PER_CU);
    assert_eq!(resolve_target_cubes(None, Some(8)), 64);
    assert_eq!(resolve_target_cubes(None, Some(96)), 768);
    assert_eq!(resolve_target_cubes(None, None), ROWPART_TARGET_CUBES_FALLBACK);
    assert_eq!(resolve_target_cubes(None, Some(0)), ROWPART_TARGET_CUBES_FALLBACK);
    assert_eq!(ROWPART_TARGET_CUBES_FALLBACK, 64);
}

#[test]
fn row_partition_count_heuristic() {
    for target in [2u32, 64, 96, 768] {
        assert_eq!(row_partition_count(50, 8_000, None, target), 1);
        assert_eq!(row_partition_count(50, ROWPART_MIN_LEAF - 1, None, target), 1);
        assert_eq!(row_partition_count(0, 10_000_000, None, target), 1);
        assert_eq!(row_partition_count(target as usize, ROWPART_MIN_LEAF, None, target), 1);
        assert_eq!(row_partition_count(target as usize + 50, ROWPART_MIN_LEAF, None, target), 1);
        let nf = 50u32;
        let expected = if nf >= target { 1 } else { (target / nf).clamp(1, ROWPART_P_MAX) };
        assert_eq!(row_partition_count(nf as usize, ROWPART_MIN_LEAF, None, target), expected);
        if target >= 2 * ROWPART_P_MAX {
            assert_eq!(row_partition_count(1, ROWPART_MIN_LEAF, None, target), ROWPART_P_MAX);
            assert_eq!(row_partition_count(2, ROWPART_MIN_LEAF, None, target), ROWPART_P_MAX);
        }
    }
}

#[test]
fn row_partition_settings_are_read() {
    assert_eq!(row_partition_count(1, 1000, Some("1000"), 64), ROWPART_P_MAX);
    assert_eq!(row_partition_count(1, 999, Some("1000"), 64), 1);
    assert_eq!(row_partition_count(1, 1000, Some("junk"), 64), 1);
    assert_eq!(force_row_partition(None), None);
    assert_eq!(force_row_partition(Some("4")), Some(4));
    assert_eq!(force_row_partition(Some("junk")), None);
    // More features never ask for more groups.
    for nf in 1..70usize {
        assert!(
            row_partition_count(nf + 1, ROWPART_MIN_LEAF, None, 64)
                <= row_partition_count(nf, ROWPART_MIN_LEAF, None, 64)
        );
    }
}

#[test]
fn build_variants_are_named() {
    assert_eq!(build_candidates(), vec![1, 4, 8, 16]);
    assert_eq!(variant_name(8), "build_P8");
    assert_eq!(slot_off_sentinel(&[0, 6, 10], 20), (vec![0, 6, 10, 20], 10));
    assert_eq!(plan_resident_build(0, 3, 10, true, false, None, false, 1), BuildPlan::Nothing);
}

#[test]
fn build_tuner_u64_bit_identical_across_p() {
    let rows = 40_000usize;
    let feats = 8usize;
    let num_data = rows;
    let num_bin = 256u32;
    let slot_len = feats * num_bin as usize * 2;
    let mut s: u64 = 0xD1B5_4A32_D192_ED03;
    let mut next = || {
        s = s.wrapping_mul(6364136223846793005).wrapping_add(1442695040888963407);
        (s >> 33) as u32
    };
    let bins: Vec<u32> = (0..feats * num_data).map(|_| next() % num_bin).collect();
    let leaf_rows: Vec<u32> = (0..rows as u32).collect();
    let fixed = |x: f32| (f64::from(x) * 1_073_741_824.0) as i64;
    let ord_g: Vec<i64> = (0..rows).map(|i| fixed(((i % 7) as f32) - 3.0)).collect();
    let ord_h: Vec<i64> = vec![fixed(1.0f32); rows];
    let slot_off: Vec<u32> = (0..=feats as u32).map(|f| f * (num_bin * 2)).collect();
    let column = BinColumn::U32(bins.clone());
    let run_at = |p: u32| -> Vec<u64> {
        let mut out = vec![0u64; slot_len];
        construct_leaf_hist_resident_lds_kernel_u64(
            &column, num_data, &leaf_rows, &ord_g, &ord_h, &slot_off, p, false, &mut out,
        );
        out
    };
    let p1 = run_at(1);
    for &p in &[4u32, 8, 16] {
        let pp = run_at(p);
        assert_eq!(
            p1, pp,
            "u64 fixed-point build differs between P=1 and P={p} — must be parity-neutral"
        );
    }

    let mut by_hand = vec![0u64; slot_len];
    for f in 0..feats {
        for r in 0..rows {
            let cell = f * 512 + 2 * bins[f * num_data + r] as usize;
            by_hand[cell] = by_hand[cell].wrapping_add(ord_g[r] as u64);
            by_hand[cell + 1] = by_hand[cell + 1].wrapping_add(ord_h[r] as u64);
        }
    }
    assert_eq!(p1, by_hand);
}

#[test]
fn row_order_does_not_change_the_fixed_build() {
    let bins = BinColumn::new(vec![0, 1, 1, 2, 0], 3);
    let g = [5i64, -7, 11, -13, 17];
    let h = [1i64, 2, 3, 4, 5];
    let build = |rows: &[u32]| {
        let mut out = vec![0u64; 6];
        construct_leaf_hist_resident_lds_kernel_u64(&bins, 5, rows, &g, &h, &[0, 6], 2, true, &mut out);
        out
    };
    let out = build(&[0, 1, 2, 3, 4]);
    assert_eq!(out, build(&[4, 2, 0, 3, 1]));
    let signed: Vec<i64> = out.iter().map(|&b| signed_bits(b)).collect();
    assert_eq!(signed, vec![22, 6, 4, 5, -13, 4]);
    assert_eq!(feature_bins(&bins, 5, 0, 1, &[3, 1]), vec![2, 1]);
}

#[test]
fn sibling_is_the_parent_less_the_other_child() {
    let bins = BinColumn::new((0..50u32).map(|i| (i * 7) % 4).collect(), 4);
    let g: Vec<i64> = (0..50).map(|i| (i - 25) * 1_000_003).collect();
    let h: Vec<i64> = (0..50).map(|i| i + 1).collect();
    let build = |rows: &[u32]| {
        let mut out = vec![0u64; 8];
        construct_leaf_hist_resident_lds_kernel_u64(&bins, 50, rows, &g, &h, &[0, 8], 4, true, &mut out);
        out
    };
    let parent = build(&(0..50).collect::<Vec<u32>>());
    let left = build(&(0..50).filter(|r| r % 3 == 0).collect::<Vec<u32>>());
    let right = build(&(0..50).filter(|r| r % 3 != 0).collect::<Vec<u32>>());
    let rest: Vec<u64> = parent.iter().zip(&left).map(|(p, l)| p.wrapping_sub(*l)).collect();
    assert_eq!(rest, right);
}

#[test]
fn two_complement_bits_round_trip() {
    for v in [0i64, 1, -1, i64::MAX, i64::MIN, 1 << 40, -(1 << 40)] {
        assert_eq!(bits_of(v), v as u64);
        assert_eq!(signed_bits(bits_of(v)), v);
    }
}

#[test]
fn grouped_build_merges_groups_in_order() {
    let bins = BinColumn::new((0..600u32).map(|i| i % 3).collect(), 3);
    let rows: Vec<u32> = (0..600).collect();
    let g: Vec<f32> = (0..600).map(|i| (i as f32).sin()).collect();
    let h: Vec<f32> = vec![1.0; 600];
    let merge = |a: f64, b: f64| a + b;
    let mut direct = vec![0.0f64; 6];
    construct_leaf_hist_resident_kernel(&add, &bins, 600, &rows, &g, &h, &[0, 6], &mut direct);
    let native = construct_histograms_cpu_native(&add, 0.0, &bins.to_u32_vec(), &g, &h, 3).unwrap();
    assert_bits_eq(&direct, &native);
    // One group takes every row in order.
    let mut single = vec![0.0f64; 6];
    construct_leaf_hist_resident_lds_kernel(
        &add, &merge, 0.0, &bins, 600, &rows, &g, &h, &[0, 6], 1, &mut single,
    );
    for (a, b) in single.iter().zip(&native) {
        assert!((a - b).abs() < 1e-9);
    }
    let mut grouped = vec![0.0f64; 6];
    construct_leaf_hist_resident_lds_kernel(
        &add, &merge, 0.0, &bins, 600, &rows, &g, &h, &[0, 6], 2, &mut grouped,
    );
    assert_eq!(grouped[1], 200.0);
    assert_eq!(grouped[3], 200.0);
    assert_eq!(grouped[5], 200.0);
}

#[test]
fn repair_puts_the_rest_into_the_most_frequent_bin() {
    let mut hist = vec![1.5f64, 2.0, 0.0, 0.0, -0.5, 3.0];
    fix_histogram(&sub, &mut hist, 1, 4.0, 10.0);
    assert_eq!(hist, vec![1.5, 2.0, 3.0, 5.0, -0.5, 3.0]);
    // Bin 0 and a bin outside the feature are left alone.
    for bin in [0, 3] {
        let mut same = vec![9.0f64, 9.0, 1.0, 2.0, 5.0, 6.0];
        fix_histogram(&sub, &mut same, bin, 4.0, 10.0);
        assert_eq!(same, vec![9.0, 9.0, 1.0, 2.0, 5.0, 6.0]);
    }
    let repaired =
        fix_histogram_mfb_on(&sub, &[1.0, 2.0, 9.0, 9.0, 7.0, 7.0], &[(0, 2, 1), (4, 1, 0)], 3.0, 5.0)
            .unwrap();
    assert_eq!(repaired, vec![1.0, 2.0, 2.0, 3.0, 7.0, 7.0]);
    assert!(fix_histogram_mfb_on(&sub, &[1.0, 2.0], &[(0, 2, 0)], 3.0, 5.0).is_err());
}

#[test]
fn compaction_drops_the_leading_bins() {
    let mut hist = vec![1.0f64, 2.0, 3.0, 4.0, 5.0, 6.0];
    compact_histogram(&mut hist, 0, 0.0);
    assert_eq!(hist, vec![1.0, 2.0, 3.0, 4.0, 5.0, 6.0]);
    compact_histogram(&mut hist, 1, 0.0);
    assert_eq!(hist, vec![3.0, 4.0, 5.0, 6.0, 0.0, 0.0]);
}

#[test]
fn regions_must_lie_in_the_histogram() {
    assert_eq!(check_region("fix_compact", 2, 3, 8), Ok(()));
    assert_eq!(
        check_region("fix_compact", 2, 3, 7),
        Err(ComputeError::LengthMismatch { expected: 8, actual: 7 })
    );
    assert_eq!(
        check_region("fix_compact", usize::MAX, 3, 8),
        Err(ComputeError::Runtime { detail: "fix_compact: slot_off + region overflows".to_string() })
    );
    assert_eq!(
        check_region("fix_compact", 0, 0, 8),
        Err(ComputeError::Runtime { detail: "fix_compact: num_bin must be > 0".to_string() })
    );
    let mut cells = vec![0, 0, 0, 0];
    paste(&mut cells, 1, &[7, 8]);
    assert_eq!(cells, vec![0, 7, 8, 0]);
}

#[test]
fn dequantised_cells_are_compacted() {
    let scale = |v: i64| v as f64 / 2.0;
    let raw: Vec<u64> = [2i64, 4, -6, 8, 10, 12].iter().map(|&v| bits_of(v)).collect();
    assert_eq!(dequant_leaf_hist(&scale, &raw), vec![1.0, 2.0, -3.0, 4.0, 5.0, 6.0]);
    let out = fix_compact_kernel(&scale, 0.0, &raw, &[(0, 3, 1, 0)]);
    assert_eq!(out.len(), 6);
    assert_eq!(out[..2], [-3.0, 4.0]);
    let widen = |v: f32| f64::from(v);
    let quantise = |v: f32| bits_of((f64::from(v) * 2.0) as i64);
    let same = fix_compact_f64_on(&widen, &quantise, &scale, 0.0, &[1.5f32, 2.5], &[]).unwrap();
    assert_eq!(same, vec![1.5, 2.5]);
    assert!(fix_compact_f64_on(&widen, &quantise, &scale, 0.0, &[1.5f32, 2.5], &[(0, 2, 0, 0)]).is_err());
}

#[test]
fn resident_columns_lie_feature_major() {
    let cols = upload_resident_columns(&[&[1, 2, 3], &[4, 5, 6]]);
    assert_eq!(cols, vec![1, 2, 3, 4, 5, 6]);
    assert_eq!(spill_cells(2, 3), Ok(12));
    assert!(spill_cells(usize::MAX, 2).is_err());
    assert!(spill_cells(0, 2).is_err());
}

fn groups(forced: Option<u32>) -> GroupChoice<'static> {
    GroupChoice { forced, autotune_on: true, tuned: 4, min_setting: None, target: 64 }
}

#[test]
fn float_build_takes_the_planned_path() {
    let merge = |a: f64, b: f64| a + b;
    let rows: Vec<u32> = (0..600).collect();
    let g: Vec<f32> = (0..600).map(|i| (i as f32).cos()).collect();
    let h: Vec<f32> = vec![0.5; 600];
    let bins = BinColumn::new((0..600u32).map(|i| i % 3).collect(), 3);
    for (choice, n) in [(groups(Some(2)), 2), (groups(None), 4)] {
        let mut planned = vec![0.0f64; 6];
        resident_float_build_into(
            &add, &merge, 0.0, &bins, 600, &[0], 6, &rows, &g, &h, &choice, &mut planned,
        );
        let mut direct = vec![0.0f64; 6];
        construct_leaf_hist_resident_lds_kernel(
            &add, &merge, 0.0, &bins, 600, &rows, &g, &h, &[0, 6], n, &mut direct,
        );
        assert_bits_eq(&planned, &direct);
    }
    // A feature of 300 bins is built row by row.
    let wide = BinColumn::new((0..600u32).map(|i| i % 300).collect(), 300);
    let mut cells = vec![0.0f64; 600];
    resident_float_build_into(
        &add, &merge, 0.0, &wide, 600, &[0], 600, &rows, &g, &h, &groups(None), &mut cells,
    );
    let native = construct_histograms_cpu_native(&add, 0.0, &wide.to_u32_vec(), &g, &h, 300).unwrap();
    assert_bits_eq(&cells, &native);
    // Without rows nothing changes.
    let mut same = vec![7.0f64; 6];
    resident_float_build_into(
        &add, &merge, 0.0, &bins, 600, &[0], 6, &[], &g, &h, &groups(None), &mut same,
    );
    assert_eq!(same, vec![7.0; 6]);
}

#[test]
fn largest_magnitude_skips_what_is_no_number() {
    let g = [1.0, -3.5, f64::NAN, 100.0].map(hist_number);
    let h = [0.5, 2.0, 1.0, 1.0].map(hist_number);
    assert_eq!(largest_magnitude(&g, &h, &[0, 1, 2]), hist_number(3.5));
    assert_eq!(largest_magnitude(&g, &h, &[2]), hist_number(1.0));
    assert_eq!(largest_magnitude(&g, &h, &[]), hist_number(0.0));
    assert_eq!(largest_magnitude(&g, &h, &[3, 0]), hist_number(100.0));
    assert_eq!(hist_number(-0.25).abs(), hist_number(0.25));
}

#[test]
fn resident_build_matches_the_host_build() {
    let bins = BinColumn::U32(vec![0, 1, 1, 0, 2, 2, 1, 0]);
    let g = [3i64, -1, 4, -1];
    let h = [1i64, 1, 1, 1];
    let mut raw = vec![0u64; 10];
    resident_raw_build_into(&bins, 4, &[0, 4], 10, &[0, 1, 2, 3], &g, &h, &groups(Some(3)), true, &mut raw);
    let signed: Vec<i64> = raw.iter().map(|&b| signed_bits(b)).collect();
    assert_eq!(signed, vec![2, 2, 3, 2, -1, 1, 4, 1, 2, 2]);
    let scale = |v: i64| v as f64;
    let out = build_fix_compact_resident_f64_on(
        &scale, 0.0, &bins, 4, &[0, 4], 10, &[0, 1, 2, 3], &g, &h,
        &[(0, 2, 0, 0), (4, 3, 0, 0)], &groups(None), false, false,
    )
    .unwrap();
    assert_eq!(out, vec![2.0, 2.0, 3.0, 2.0, -1.0, 1.0, 4.0, 1.0, 2.0, 2.0]);
    assert!(build_fix_compact_resident_f64_on(
        &scale, 0.0, &bins, 4, &[0, 4], 10, &[0, 1, 2, 3], &g, &h, &[(0, 2, 0, 0)], &groups(None),
        false, true,
    )
    .is_err());
}

#[test]
fn sums_that_might_wrap_are_refused() {
    let bins = BinColumn::U32(vec![0, 0, 1]);
    let scale = |v: i64| v as f64;
    let h = [1i64, 1, 1];
    let build = |g: &[i64; 3]| {
        build_fix_compact_resident_f64_on(
            &scale, 0.0, &bins, 3, &[0], 4, &[0, 1, 2], g, &h, &[(0, 2, 0, 0)], &groups(None), false, false,
        )
    };
    let limit = i64::MAX / 3;
    assert!(!fixed_sums_may_wrap(&[limit - 1, 0, 0], &h, &[0, 1, 2]));
    assert!(fixed_sums_may_wrap(&[limit + 1, 0, 0], &h, &[0, 1, 2]));
    assert!(fixed_sums_may_wrap(&[i64::MIN, 0, 0], &h, &[0]));
    assert!(fixed_sums_may_wrap(&[i64::MAX, 0, 0], &h, &[0]));
    assert!(!fixed_sums_may_wrap(&[i64::MAX, 5, 0], &h, &[1, 2]));
    // A refused build and a leaf without rows read no column.
    let none = BinColumn::U32(vec![]);
    let far = [(0usize, 2u32, 0i32, 0u32)];
    assert!(build_fix_compact_resident_f64_on(
        &scale, 0.0, &none, 3, &[0], 4, &[0], &[i64::MAX], &[1], &far, &groups(None), false, false,
    )
    .is_err());
    assert_eq!(
        build_fix_compact_resident_f64_on(
            &scale, 0.0, &none, 3, &[0], 4, &[], &[], &[], &far, &groups(None), false, false,
        ),
        Ok(vec![0.0; 4])
    );
    let big = limit - 1;
    assert_eq!(build(&[big, big, -big]).unwrap(), vec![(2 * big) as f64, 2.0, -big as f64, 1.0]);
    assert_eq!(
        build(&[limit + 1, 0, 0]),
        Err(ComputeError::Runtime {
            detail: "fixed-point histogram accumulation may overflow i64 at S=2^30 (rows x |value| x 2^30 exceeds i64::MAX)"
                .to_string()
        })
    );
}

fn hist_feature(bins: Vec<u32>, num_bin: u32, offset: i32) -> GrowFeature {
    GrowFeature {
        bins: BinColumn::new(bins, num_bin),
        num_bin,
        offset,
        min_bin: 0,
        max_bin: num_bin - 1,
        default_bin: num_bin,
        most_freq_bin: 0,
        missing_type: MissingType::NoMissing,
        bin_upper_bound: vec![hist_number(0.0); num_bin as usize],
        real_feature_index: 0,
        bin_type: BinType::Numerical,
        bin_to_category: Vec::new(),
        cat_smooth: hist_number(10.0),
        cat_l2: hist_number(10.0),
        max_cat_threshold: 32,
        max_cat_to_onehot: 4,
        min_data_per_group: 100,
    }
}

#[test]
fn leaf_histogram_holds_each_feature_in_its_own_region() {
    let features = [hist_feature(vec![0, 1, 1, 2], 3, 0), hist_feature(vec![1, 0, 1, 0], 2, 0)];
    let g = [1.0f32, 2.0, 4.0, 8.0];
    let h = [1.0f32; 4];
    let out = build_leaf_hist(&add, &sub, 0.0, &features, &g, &h, &[1, 2, 3], 14.0, 3.0, &[0, 6], 10).unwrap();
    assert_eq!(out, vec![0.0, 0.0, 6.0, 2.0, 8.0, 1.0, 10.0, 2.0, 4.0, 1.0]);
    let bad = [hist_feature(vec![0, 1], 2, 0)];
    let mut broken = bad[0].clone();
    broken.bins = BinColumn::U32(vec![0, 9]);
    let err = build_leaf_hist(&add, &sub, 0.0, &[broken], &g, &h, &[0, 1], 3.0, 2.0, &[0], 4).unwrap_err();
    assert_eq!(err, ComputeError::BinIndexOutOfRange { row: 1, bin: 9, num_bin: 2 });
}

fn scan_inputs() -> (BinColumn, Vec<BatchedSplitFeature>, GainConfig) {
    let f0: Vec<u32> = vec![0, 1, 2, 3, 0, 1, 2, 3];
    let f1: Vec<u32> = vec![0, 0, 0, 0, 1, 1, 1, 1];
    let f2: Vec<u32> = vec![0, 1, 2, 0, 1, 2, 0, 1];
    let bins = BinColumn::U32(upload_resident_columns(&[&f0, &f1, &f2]));
    let num_bins = [4u32, 2, 3];
    let slot_off = [0usize, 8, 12];
    let feats = (0..3)
        .map(|f| BatchedSplitFeature {
            slot_off: slot_off[f],
            num_bin: num_bins[f],
            offset: 0,
            default_bin: num_bins[f],
            most_freq_bin: 0,
            skip_default_bin: false,
            na_as_missing: false,
            run_forward: true,
        })
        .collect();
    let mut cfg = proving_slice_config();
    cfg.min_data_in_leaf = 1;
    (bins, feats, cfg)
}

#[test]
fn fused_scan_builds_the_host_histogram() {
    let (bins, feats, cfg) = scan_inputs();
    let rows: Vec<u32> = (0..8).collect();
    let g: Vec<f32> = vec![-4.0, -3.0, -2.0, -1.0, 1.0, 2.0, 3.0, 4.0];
    let h: Vec<f32> = vec![1.0; 8];
    let sum_h = hist_number(8.0);
    for active in [vec![true, true, true], vec![true, false, true]] {
        let (host, host_plan) = build_fix_scan_resident_f64_on(
            &add, 0.0, &bins, 3, 8, 18, &rows, &g, &h, &feats, &active, &cfg, sum_h,
        )
        .unwrap();
        let (dev, dev_plan) = build_fix_scan_resident_reduce_f64_on(
            &add, 0.0, &bins, 3, 8, 18, &rows, &g, &h, &feats, &active, &[5, 1, 9], &cfg, sum_h, 1, 0,
        )
        .unwrap();
        assert_bits_eq(&host, &dev);
        assert_eq!(host[8..12], [-10.0, 4.0, 10.0, 4.0]);
        let (host_plan, dev_plan) = (host_plan.unwrap(), dev_plan.unwrap());
        assert_eq!(host_plan.scan_active, active.iter().map(|&a| u32::from(a)).collect::<Vec<_>>());
        assert_eq!(host_plan.scan_active, dev_plan.scan_active);
        assert_eq!(host_plan.num_bin, vec![4, 2, 3]);
        assert_eq!(host_plan.slot_off, vec![0, 8, 12]);
    }
    // Nothing to scan: an empty histogram and no plan.
    let (empty, plan) = build_fix_scan_resident_f64_on(
        &add, 0.0, &bins, 3, 8, 18, &[], &g, &h, &feats, &[true; 3], &cfg, sum_h,
    )
    .unwrap();
    assert_eq!(empty, vec![0.0; 18]);
    assert!(plan.is_none());
}

/// The window that a scan of one feature's cells writes: the best threshold, bins up to it left.
fn scan_window(cells: &[f64], sum_g: f64, sum_h: f64, num_data: i32) -> ScannedSplit {
    let gain = |g: f64, h: f64| g * g / h;
    let shift = gain(sum_g, sum_h);
    let cnt_factor = f64::from(num_data) / sum_h;
    let mut best = dead_window();
    let mut best_gain = f64::NEG_INFINITY;
    let (mut left_g, mut left_h) = (0.0, 0.0);
    for t in 0..cells.len() / 2 - 1 {
        left_g += cells[2 * t];
        left_h += cells[2 * t + 1];
        let count = (cnt_factor * left_h + 0.5).floor() as i32;
        if count < 1 || num_data - count < 1 {
            continue;
        }
        let (right_g, right_h) = (sum_g - left_g, sum_h - left_h);
        let raw = gain(left_g, left_h) + gain(right_g, right_h);
        if raw > shift && raw > best_gain {
            best_gain = raw;
            best = ScannedSplit {
                is_splittable: true,
                threshold: t as u32,
                raw_gain: hist_number(raw),
                shifted_gain: hist_number(raw - shift),
                left_count: count,
                right_count: num_data - count,
                left_sum_gradient: hist_number(left_g),
                left_sum_hessian: hist_number(left_h),
                right_sum_gradient: hist_number(right_g),
                right_sum_hessian: hist_number(right_h),
                default_left: true,
                left_output: hist_number(-left_g / left_h),
                right_output: hist_number(-right_g / right_h),
            };
        }
    }
    best
}

/// The window of a feature that is not scanned: zeros.
fn dead_window() -> ScannedSplit {
    let zero = Real64::zero();
    ScannedSplit {
        is_splittable: false,
        threshold: 0,
        raw_gain: zero,
        shifted_gain: zero,
        left_count: 0,
        right_count: 0,
        left_sum_gradient: zero,
        left_sum_hessian: zero,
        right_sum_gradient: zero,
        right_sum_hessian: zero,
        default_left: false,
        left_output: zero,
        right_output: zero,
    }
}

#[test]
fn build_fix_scan_resident_reduce_matches_host_readback() {
    let (bins, feats, mut cfg) = scan_inputs();
    cfg.min_sum_hessian_in_leaf = hist_number(0.0);
    let leaf_rows: Vec<u32> = (0..8).collect();
    let gradients: Vec<f32> = vec![-4.0, -3.0, -2.0, -1.0, 1.0, 2.0, 3.0, 4.0];
    let hessians: Vec<f32> = vec![1.0f32; 8];
    let sum_g: f64 = leaf_rows.iter().map(|&r| f64::from(gradients[r as usize])).sum();
    let sum_h: f64 = leaf_rows.iter().map(|&r| f64::from(hessians[r as usize])).sum();
    let num_data_in_leaf = leaf_rows.len() as i32;
    let real_feats = vec![5i32, 1, 9];
    for scan_active in [vec![true, true, true], vec![true, false, true]] {
        let (host_hist, _plan) = build_fix_scan_resident_f64_on(
            &add, 0.0, &bins, 3, 8, 18, &leaf_rows, &gradients, &hessians, &feats, &scan_active, &cfg,
            hist_number(sum_h),
        )
        .expect("host build_fix_scan_resident");
        let windows = |hist: &[f64]| -> Vec<ScannedSplit> {
            feats
                .iter()
                .zip(&scan_active)
                .map(|(f, &active)| {
                    let cells = &hist[f.slot_off..f.slot_off + 2 * f.num_bin as usize];
                    if active { scan_window(cells, sum_g, sum_h, num_data_in_leaf) } else { dead_window() }
                })
                .collect()
        };
        let host_splits = decode_splits(&windows(&host_hist), &scan_active);
        let keep = |i: &usize| scan_active[*i];
        let active_feats: Vec<BatchedSplitFeature> = (0..3).filter(keep).map(|i| feats[i]).collect();
        let active_reals: Vec<i32> = (0..3).filter(keep).map(|i| real_feats[i]).collect();
        assert_eq!(host_splits.len(), active_feats.len(), "active split count");
        let (host_best, host_fpos_active) =
            argmax_over_resident_splits(&host_splits, &active_feats, &active_reals);
        assert!(host_best.gain.is_finite(), "a valid winner must exist");
        let want_feat = active_reals[host_fpos_active as usize];

        let (dev_hist, _plan) = build_fix_scan_resident_reduce_f64_on(
            &add, 0.0, &bins, 3, 8, 18, &leaf_rows, &gradients, &hessians, &feats, &scan_active,
            &real_feats, &cfg, hist_number(sum_h), 1, 0,
        )
        .expect("device build_fix_scan_resident_reduce");
        assert_eq!(dev_hist.len(), host_hist.len(), "resident histogram length must match");
        let got = reduce_scanned_windows(&windows(&dev_hist), &scan_active, &real_feats, 0);
        assert!(got.is_valid, "device slot must be a valid split");
        assert_eq!(got.gain.bits, host_best.gain.bits, "gain bit-exact");
        assert_eq!(got.inner_feature_index, want_feat, "winning real feature index");
        assert_eq!(got.threshold, host_best.threshold, "threshold");
        assert_eq!(got.default_left, host_best.default_left, "default_left");
        assert_eq!(got.left_sum_gradients, host_best.left_sum_gradient, "left_sum_gradients bit-exact");
        assert_eq!(got.left_sum_hessians, host_best.left_sum_hessian, "left_sum_hessians bit-exact");
        assert_eq!(got.right_sum_gradients, host_best.right_sum_gradient, "right_sum_gradients bit-exact");
        assert_eq!(got.right_sum_hessians, host_best.right_sum_hessian, "right_sum_hessians bit-exact");
        if scan_active[1] {
            assert_eq!(got.inner_feature_index, 1, "the clean separation wins where it is scanned");
            assert_eq!(got.gain, hist_number(50.0));
        } else {
            assert_ne!(
                got.inner_feature_index, 1,
                "a scan-inactive feature must never win the device reduce"
            );
        }
    }
    let none = reduce_scanned_windows(&[dead_window(), dead_window()], &[true, true], &[7, 2], 4);
    assert!(!none.is_valid);
    assert_eq!((none.leaf_index, none.inner_feature_index), (4, -1));
    assert_eq!(none.gain, Real64::neg_infinity());
}

#[test]
fn masks_change_no_histogram_and_no_candidate() {
    let (bins, feats, cfg) = scan_inputs();
    let rows: Vec<u32> = vec![0, 2, 3, 5, 7];
    let g: Vec<f32> = vec![-4.0, -3.0, -2.0, -1.0, 1.0, 2.0, 3.0, 4.0];
    let h = vec![1.0f32; 8];
    let build = |active: &[bool]| {
        build_fix_scan_resident_f64_on(
            &add, 0.0, &bins, 3, 8, 18, &rows, &g, &h, &feats, active, &cfg, hist_number(5.0),
        )
        .unwrap()
        .0
    };
    let (a, b) = ([true, false, true], [false, true, true]);
    assert_bits_eq(&build(&a), &build(&b));
    assert_eq!(build(&a).len(), 18);
    let hist = build(&a);
    let windows: Vec<ScannedSplit> = feats
        .iter()
        .map(|f| scan_window(&hist[f.slot_off..f.slot_off + 2 * f.num_bin as usize], 4.0, 5.0, 5))
        .collect();
    let (under_a, under_b) = (decode_splits(&windows, &a), decode_splits(&windows, &b));
    assert_eq!((under_a.len(), under_b.len()), (2, 2));
    assert_eq!(under_a[0], windows[0].to_candidate());
    assert_eq!(under_b[0], windows[1].to_candidate());
    assert_eq!(under_a[1], under_b[1]);
}

#[test]
fn fused_scan_rejects_bad_input() {
    let (bins, feats, cfg) = scan_inputs();
    let rows: Vec<u32> = (0..8).collect();
    let g = vec![1.0f32; 8];
    let sum_h = hist_number(8.0);
    assert_eq!(
        plan_scan(&feats, &[true, true], 18, &cfg, sum_h).err(),
        Some(ComputeError::LengthMismatch { expected: 3, actual: 2 })
    );
    assert!(plan_scan(&feats, &[true; 3], 18, &cfg, hist_number(0.0)).is_err());
    assert!(plan_scan(&feats, &[true; 3], 17, &cfg, sum_h).is_err());
    let mut smooth = cfg;
    smooth.path_smooth = hist_number(0.5);
    assert_eq!(
        plan_scan(&feats, &[true; 3], 18, &smooth, sum_h).err(),
        Some(ComputeError::Runtime {
            detail: "build_fix_scan_resident: max_delta_step / path_smooth are Phase-7+ scope (only the default 0.0 path is transcribed)"
                .to_string()
        })
    );
    let run = |reals: &[i32], slots: usize, leaf: usize| {
        build_fix_scan_resident_reduce_f64_on(
            &add, 0.0, &bins, 3, 8, 18, &rows, &g, &g, &feats, &[true; 3], reals, &cfg, sum_h, slots, leaf,
        )
        .map(|_| ())
    };
    assert_eq!(run(&[0, 1], 1, 0), Err(ComputeError::LengthMismatch { expected: 3, actual: 2 }));
    assert_eq!(run(&[0, 1, 2], 1, 1), Err(ComputeError::LengthMismatch { expected: 1, actual: 1 }));
    assert_eq!(run(&[0, 1, 2], 1, 0), Ok(()));
    // Nothing is read where there is nothing to build, or where the pass is refused.
    let (none, plan) = build_fix_scan_resident_f64_on(
        &add, 0.0, &BinColumn::U32(vec![]), 3, 8, 4, &[], &[], &[], &feats, &[], &cfg, hist_number(0.0),
    )
    .unwrap();
    assert_eq!((none, plan), (vec![0.0; 4], None));
    assert_eq!(
        build_fix_scan_resident_f64_on(
            &add, 0.0, &BinColumn::U32(vec![]), 3, 8, 17, &rows, &[], &[], &feats, &[true; 3], &cfg, sum_h,
        ),
        Err(ComputeError::LengthMismatch { expected: 18, actual: 17 })
    );
    let mut steep = feats.clone();
    steep[1].offset = i32::MIN;
    steep[1].run_forward = false;
    let plan = plan_scan(&steep, &[true; 3], 18, &cfg, sum_h).unwrap();
    assert_eq!((plan.rev_count, plan.fwd_count), (vec![3, 1, 2], vec![3, 0, 2]));
}

#[test]
fn unscanned_features_never_win() {
    let scanned = |gain: f64| ScannedSplit {
        is_splittable: true,
        threshold: 1,
        raw_gain: hist_number(gain + 1.0),
        shifted_gain: hist_number(gain),
        left_count: 4,
        right_count: 4,
        left_sum_gradient: hist_number(-10.0),
        left_sum_hessian: hist_number(4.0),
        right_sum_gradient: hist_number(10.0),
        right_sum_hessian: hist_number(4.0),
        default_left: true,
        left_output: hist_number(2.5),
        right_output: hist_number(-2.5),
    };
    let windows = [scanned(3.0), scanned(50.0), scanned(7.0)];
    let (_, feats, _) = scan_inputs();
    for (active, want) in [([true, true, true], 1), ([true, false, true], 9)] {
        let splits = decode_splits(&windows, &active);
        let keep = |i: &usize| active[*i];
        let active_feats: Vec<BatchedSplitFeature> = (0..3).filter(keep).map(|i| feats[i]).collect();
        let active_reals: Vec<i32> = (0..3).filter(keep).map(|i| [5, 1, 9][i]).collect();
        assert_eq!(splits.len(), active_feats.len());
        let (_, pos) = argmax_over_resident_splits(&splits, &active_feats, &active_reals);
        assert_eq!(active_reals[pos as usize], want);
    }
    let mut dead = scanned(9.0);
    dead.is_splittable = false;
    assert_eq!(dead.to_candidate().gain, Real64::neg_infinity());
}

#[test]
fn folds_run_from_left_to_right() {
    let values = [1e16f32, 1.0, -1e16];
    assert_eq!(ordered_fold(&add, 0.0, &values), (f64::from(1e16f32) + 1.0) + f64::from(-1e16f32));
    assert_eq!(mapped(&|v: f32| v * 2.0, &[1.0, 2.5]), vec![2.0, 5.0]);
}
