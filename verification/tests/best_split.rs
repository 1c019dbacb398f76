//! Split-search tasks and the rounding of recovered counts.
use lgbm_compute::dataset::MissingType;
use lgbm_compute::kernels::best_split::{
    build_split_find_tasks, find_best_from_all_splits_on, find_best_splits_stage1_on, round_ties_even,
    round_ties_even_branchfree, sync_best_split_for_leaf_on, FeatureMeta, Stage1Scalars,
};
use lgbm_compute::kernels::split_info::SplitScalars;
use lgbm_compute::number::Real64;

fn number(x: f64) -> Real64 {
    Real64 { bits: x.to_bits() }
}

#[test]
fn count_recovery_ties_even() {
    assert_eq!(round_ties_even(number(0.5)), 0, "0.5 → 0 (even)");
    assert_eq!(round_ties_even(number(1.5)), 2, "1.5 → 2 (even)");
    assert_eq!(round_ties_even(number(2.5)), 2, "2.5 → 2 (even, NOT 3)");
    assert_eq!(round_ties_even(number(3.5)), 4, "3.5 → 4 (even)");
    assert_eq!(round_ties_even(number(2.4)), 2, "2.4 → 2");
    assert_eq!(round_ties_even(number(2.6)), 3, "2.6 → 3");

    let round_half_up = |x: f64| (x + 0.5_f32 as f64) as i32;
    assert_eq!(round_half_up(2.5), 3, "round-half-up gives 3 for 2.5");
    assert_ne!(
        round_ties_even(number(2.5)),
        round_half_up(2.5),
        "ties-to-even MUST diverge from round-half-up at 2.5"
    );

    for &x in &[0.5, 1.5, 2.5, 3.5, 2.4, 2.6, 0.0, 10.5, 11.5] {
        assert_eq!(
            round_ties_even(number(x)),
            round_ties_even_branchfree(number(x)),
            "branch-free fallback must match the intrinsic at {x}"
        );
    }
}

#[test]
fn rounding_matches_the_intrinsic_everywhere() {
    let mut samples: Vec<f64> = vec![
        0.0,
        -0.0,
        f64::MIN_POSITIVE,
        5e-324,
        0.499_999_999_999_999_94,
        0.500_000_000_000_000_1,
        -0.5,
        -1.5,
        -2.5,
        -2.6,
        2_147_483_646.5,
        2_147_483_647.5,
        2_147_483_648.0,
        -2_147_483_648.5,
        -2_147_483_649.0,
        1e300,
        -1e300,
        f64::INFINITY,
        f64::NEG_INFINITY,
        f64::NAN,
        4_503_599_627_370_496.0,
        4_503_599_627_370_495.5,
    ];
    let mut s: u64 = 0x9E37_79B9_7F4A_7C15;
    for _ in 0..20_000 {
        s = s.wrapping_mul(6364136223846793005).wrapping_add(1442695040888963407);
        samples.push(f64::from_bits(s));
        samples.push(((s >> 40) as f64) / 8.0 - 1_000_000.0);
    }
    for x in samples {
        let want = x.round_ties_even() as i32;
        assert_eq!(round_ties_even(number(x)), want, "at {x:e}");
        assert_eq!(round_ties_even_branchfree(number(x)), want, "branch-free at {x:e}");
    }
}

fn feat(idx: i32, num_bin: u32, missing: MissingType) -> FeatureMeta {
    FeatureMeta {
        inner_feature_index: idx,
        num_bin,
        missing_type: missing,
        is_categorical: false,
        max_cat_to_onehot: 4,
        hist_offset: 0,
        mfb_offset: 0,
        default_bin: 0,
        rand_threshold: -1,
    }
}

#[test]
fn assume_out_default_left_table() {
    let zero = build_split_find_tasks(&[feat(0, 5, MissingType::Zero)]);
    assert_eq!(zero.len(), 2, "Zero num_bin>2 emits a forward+reverse PAIR");
    assert!(!zero[0].reverse, "task[0] is forward");
    assert!(zero[1].reverse, "task[1] is reverse");
    assert!(!zero[0].assume_out_default_left, "forward assume=false");
    assert!(zero[1].assume_out_default_left, "reverse assume=true");
    assert!(zero[0].skip_default_bin && zero[1].skip_default_bin, "Zero → skip_default_bin");
    assert!(!zero[0].na_as_missing && !zero[1].na_as_missing, "Zero → !na_as_missing");
    assert!(
        zero[1].reverse && zero[1].assume_out_default_left,
        "Zero num_bin>2 reverse: reverse==true AND assume_out_default_left==true"
    );

    let nan = build_split_find_tasks(&[feat(0, 5, MissingType::NaN)]);
    assert_eq!(nan.len(), 2, "NaN num_bin>2 emits a forward+reverse PAIR");
    assert!(!nan[0].reverse && nan[1].reverse);
    assert!(!nan[0].assume_out_default_left && nan[1].assume_out_default_left);
    assert!(nan[0].na_as_missing && nan[1].na_as_missing, "NaN → na_as_missing");
    assert!(!nan[0].skip_default_bin && !nan[1].skip_default_bin, "NaN → !skip_default_bin");

    let none = build_split_find_tasks(&[feat(0, 5, MissingType::NoMissing)]);
    assert_eq!(none.len(), 1, "None emits a single reverse task");
    assert!(none[0].reverse, "None single task is reverse");
    assert!(
        none[0].assume_out_default_left,
        "MissingType::None non-cat: assume == (missing != NaN) == true"
    );

    let small = build_split_find_tasks(&[feat(0, 2, MissingType::Zero)]);
    assert_eq!(small.len(), 1, "num_bin<=2 emits a single reverse task");
    assert!(small[0].reverse);
    assert!(
        small[0].reverse && small[0].assume_out_default_left,
        "num_bin<=2 Zero-missing reverse: reverse==true AND assume_out_default_left==true"
    );

    let small_nan = build_split_find_tasks(&[feat(0, 2, MissingType::NaN)]);
    assert_eq!(small_nan.len(), 1, "num_bin<=2 NaN emits a single reverse task");
    assert!(small_nan[0].reverse && !small_nan[0].assume_out_default_left);

    let mut cat = feat(0, 3, MissingType::NoMissing);
    cat.is_categorical = true;
    let cat_tasks = build_split_find_tasks(&[cat]);
    assert_eq!(cat_tasks.len(), 1, "categorical emits a single forward task");
    assert!(!cat_tasks[0].reverse, "categorical task is forward");
    assert!(cat_tasks[0].is_categorical, "is_categorical=true");
    assert!(cat_tasks[0].is_one_hot, "num_bin(3) <= max_cat_to_onehot(4) → one-hot");
    assert!(!cat_tasks[0].assume_out_default_left, "categorical assume=false");
    let mut cat_many = feat(0, 10, MissingType::NoMissing);
    cat_many.is_categorical = true;
    let cat_many_tasks = build_split_find_tasks(&[cat_many]);
    assert!(
        cat_many_tasks[0].is_categorical && !cat_many_tasks[0].is_one_hot,
        "num_bin(10) > max_cat_to_onehot(4) → categorical, NOT one-hot"
    );
}

#[test]
fn tasks_follow_the_order_of_the_features() {
    let mut second = feat(9, 4, MissingType::NaN);
    second.hist_offset = 20;
    second.mfb_offset = 1;
    second.default_bin = 3;
    second.rand_threshold = 2;
    let tasks = build_split_find_tasks(&[feat(4, 6, MissingType::NoMissing), second]);
    assert_eq!(tasks.iter().map(|t| t.inner_feature_index).collect::<Vec<_>>(), vec![4, 9, 9]);
    assert_eq!(tasks[2].hist_offset, 20);
    assert_eq!(tasks[2].mfb_offset, 1);
    assert_eq!(tasks[2].num_bin, 4);
    assert_eq!(tasks[2].default_bin, 3);
    assert_eq!(tasks[2].rand_threshold, 2);
    assert!(build_split_find_tasks(&[]).is_empty());
}

#[test]
fn stages_report_no_split() {
    let task = build_split_find_tasks(&[feat(0, 5, MissingType::NoMissing)])[0];
    let scalars = Stage1Scalars {
        use_l1: false,
        use_smoothing: false,
        use_rand: false,
        is_larger: false,
        min_data_in_leaf: 1,
        min_sum_hessian_in_leaf: number(1e-3),
        lambda_l1: number(0.0),
        lambda_l2: number(0.0),
        min_gain_to_split: number(0.0),
        path_smooth: number(0.0),
        parent_output: number(0.0),
        sum_gradient: number(1.0),
        sum_hessian: number(2.0),
        num_data: 10,
        parent_gain: number(0.0),
        rng_seed: 0,
    };
    let hist = vec![number(1.0); 10];
    assert_eq!(find_best_splits_stage1_on(&hist, &task, &scalars), Ok(SplitScalars::default()));
    assert_eq!(sync_best_split_for_leaf_on(&[SplitScalars::default()], 1, true), Ok(SplitScalars::default()));
    assert_eq!(
        find_best_from_all_splits_on(&[SplitScalars::default()], 1),
        Ok([0, 0, 0, 0, 0, 0, -1, 0])
    );
    assert!(!SplitScalars::default().is_valid);
}
