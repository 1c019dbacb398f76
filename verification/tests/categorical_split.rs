//! Category bitsets and the routing by them.
use lgbm_compute::bin_column::BinColumn;
use lgbm_compute::gain::SplitInfo;
use lgbm_compute::kernels::categorical_split::{
    construct_bitset, construct_inner_bitset, find_best_threshold_categorical, set_real_threshold,
    CategoricalSplit, CategoryCandidate,
};
use lgbm_compute::kernels::data_partition::{partition_categorical_on_device, partition_categorical_stable};
use lgbm_compute::number::Real64;

#[test]
fn construct_bitset_empty_is_empty() {
    assert_eq!(construct_bitset(&[]), Vec::<u32>::new());
}

#[test]
fn construct_bitset_single_bit() {
    assert_eq!(construct_bitset(&[0]), vec![0b1]);
    assert_eq!(construct_bitset(&[5]), vec![1u32 << 5]);
}

#[test]
fn construct_bitset_spanning_two_blocks() {
    let b = construct_bitset(&[0, 31, 32]);
    assert_eq!(b.len(), 2);
    assert_eq!(b[0], (1u32 << 0) | (1u32 << 31));
    assert_eq!(b[1], 1u32 << 0);
}

#[test]
fn construct_bitset_matches_host_doc_example() {
    let b = construct_bitset(&[0, 1, 33]);
    assert_eq!(b.len(), 2);
    assert_eq!(b[0], 0b11);
    assert_eq!(b[1], 1 << 1);
}

#[test]
fn set_real_threshold_onehot_matches_golden_bitset() {
    let bin_2_categorical = [-1, 0, 1, 2, 3];
    let (real, inner) = set_real_threshold(&[4], &bin_2_categorical, 0);
    assert_eq!(real, vec![8u32], "cat_onehot real bitset != golden (8)");
    assert_eq!(inner, vec![16u32]);
}

#[test]
fn set_real_threshold_manyvsmany_root_matches_golden_bitset() {
    let bin_2_categorical = [-1, 0, 1, 2, 3, 4, 5];
    let (real, _inner) = set_real_threshold(&[6, 5, 4], &bin_2_categorical, 0);
    assert_eq!(real, vec![56u32], "cat_manyvsmany real bitset != golden (56)");
}

#[test]
fn set_real_threshold_out_of_range_bin_does_not_panic() {
    let bin_2_categorical = [-1, 0, 1];
    let (real, _inner) = set_real_threshold(&[9], &bin_2_categorical, 0);
    assert_eq!(real, construct_bitset(&[9]));
}

#[test]
fn no_categorical_split_is_not_splittable() {
    let none = CategoricalSplit::none();
    assert!(!none.is_splittable());
    assert!(!none.split.default_left);
    assert!(none.cat_threshold.is_empty());
    let mut found = CategoricalSplit::none();
    found.split.gain.bits = 1.5f64.to_bits();
    assert!(found.is_splittable());
}

/// The smallest positive number that is added to a hessian sum.
const K_EPSILON: f32 = 1e-15;

/// The one-hot candidates of a compacted histogram: one for each place from `1 - offset` on, with
/// the gain of sending that place left, above the gain of the leaf. `least` holds the fewest rows
/// and the smallest hessian sum of a side.
fn one_hot_candidates(
    hist: &[f64],
    num_bin: i32,
    offset: i32,
    sum_g: f64,
    sum_h: f64,
    num_data: i32,
    least: (i32, f64),
) -> Vec<CategoryCandidate> {
    let gain = |g: f64, h: f64| g * g / h;
    let cnt_factor = f64::from(num_data) / sum_h;
    (1 - offset..num_bin - offset)
        .map(|t| {
            let (g, h) = (hist[2 * t as usize], hist[2 * t as usize + 1]);
            let cnt = (cnt_factor * h + 0.5).floor() as i32;
            let mut split = SplitInfo::none();
            let rest = sum_h - h - f64::from(K_EPSILON);
            if cnt >= least.0 && h >= least.1 && num_data - cnt >= least.0 && rest >= least.1 {
                let value = gain(sum_g - g, rest) + gain(g, h + f64::from(K_EPSILON)) - gain(sum_g, sum_h);
                split.gain = Real64 { bits: value.to_bits() };
                split.left_sum_gradient = Real64 { bits: g.to_bits() };
                split.left_count = cnt;
                split.right_count = num_data - cnt;
            }
            CategoryCandidate { positions: vec![t as u32], split }
        })
        .collect()
}

#[test]
fn categorical_offset1_full_chain_routes_by_membership() {
    let num_bin = 4i32;
    let offset = 1i32;
    let min_bin = 0i32;
    let hist: Vec<f64> = vec![0.0, 0.0, 5.0, 5.0, -40.0, 5.0, 5.0, 5.0];
    let sum_g = 0.0 + 5.0 - 40.0 + 5.0;
    let sum_h = 15.0 + 2.0 * f64::from(K_EPSILON);
    let num_data = 15;
    let candidates = one_hot_candidates(&hist, num_bin, offset, sum_g, sum_h, num_data, (1, 1e-3));
    assert_eq!(candidates.len(), 3);
    let r = find_best_threshold_categorical(&candidates, num_bin, offset).unwrap();
    assert!(r.is_splittable(), "offset==1 one-hot must find a split");
    let winning_bins: Vec<i32> = r.cat_threshold.iter().map(|&b| b as i32).collect();
    assert_eq!(winning_bins, vec![3], "unique one-hot winner is raw bin 3");
    assert!(!r.split.default_left);

    let bin_to_category = [-1, 0, 1, 2];
    let (_real, _raw) = set_real_threshold(&winning_bins, &bin_to_category, offset);
    // The most frequent bin is bin 0, so the router looks bins up one position higher.
    let inner_bitset = construct_inner_bitset(&winning_bins, min_bin, offset);
    assert_eq!(inner_bitset, vec![1u32 << 4]);

    let mut bins_vec: Vec<u32> = Vec::with_capacity(15);
    for raw_bin in 1..=3u32 {
        for _ in 0..5 {
            bins_vec.push(raw_bin);
        }
    }
    let bins = BinColumn::new(bins_vec.clone(), num_bin as u32);
    let di: Vec<u32> = (0..15).collect();
    let (order, split_point) =
        partition_categorical_on_device(&bins, &di, num_bin as u32, min_bin as u32, 3, 0, &inner_bitset).unwrap();
    let winning_set: std::collections::HashSet<u32> = winning_bins.iter().map(|&b| b as u32).collect();
    let expected_left: std::collections::HashSet<u32> =
        di.iter().copied().filter(|&row| winning_set.contains(&bins_vec[row as usize])).collect();
    let got_left: std::collections::HashSet<u32> = order[..split_point].iter().copied().collect();
    assert_eq!(got_left, expected_left, "offset==1 one-hot must route exactly the winning-category rows LEFT");
    assert_eq!(split_point, 5, "winning category (bin 3) has 5 rows -> left");
    assert_eq!(order.len() - split_point, 10, "non-winners route right");
}

#[test]
fn the_first_set_of_the_greatest_gain_wins() {
    let set = |positions: Vec<u32>, gain: f64| {
        let mut split = SplitInfo::none();
        split.gain = Real64 { bits: gain.to_bits() };
        split.default_left = true;
        CategoryCandidate { positions, split }
    };
    let none = f64::NEG_INFINITY;
    let sets = [set(vec![1], none), set(vec![3, 2], 2.5), set(vec![1, 2], 2.5), set(vec![2], f64::NAN)];
    let best = find_best_threshold_categorical(&sets, 6, 0).unwrap();
    assert_eq!(best.cat_threshold, vec![3, 2]);
    assert_eq!(best.split.gain, Real64 { bits: 2.5f64.to_bits() });
    assert!(!best.split.default_left);
    let negative = find_best_threshold_categorical(&[set(vec![1], -4.0)], 6, 1).unwrap();
    assert_eq!(negative.cat_threshold, vec![2]);
    for empty in [vec![], vec![set(vec![1], none)], vec![set(vec![1], f64::NAN), set(vec![2], none)]] {
        assert_eq!(find_best_threshold_categorical(&empty, 6, 0), Ok(CategoricalSplit::none()));
    }
}

#[test]
fn categorical_partition_counts_match_host_stable() {
    let mut bins_vec: Vec<u32> = Vec::with_capacity(60);
    for cat_bin in 1..=6u32 {
        for _ in 0..10 {
            bins_vec.push(cat_bin);
        }
    }
    let bins = BinColumn::new(bins_vec, 7);
    let di: Vec<u32> = (0..60).collect();

    let cases = [
        ("cat_onehot", construct_bitset(&[4])),
        ("cat_manyvsmany", construct_bitset(&[4, 5, 6])),
    ];
    for (name, inner_bitset) in cases {
        let (dev_order, dev_split) =
            partition_categorical_on_device(&bins, &di, 7, 0, 6, 1, &inner_bitset)
                .unwrap_or_else(|e| panic!("{name}: device partition errored: {e:?}"));
        let (host_order, host_split) =
            partition_categorical_stable(&bins, &di, 7, 0, 6, 1, &inner_bitset)
                .unwrap_or_else(|e| panic!("{name}: host stable partition errored: {e:?}"));
        assert_eq!(dev_split, host_split, "{name}: left count (split_point) device vs host");
        assert_eq!(
            dev_order.len() - dev_split,
            host_order.len() - host_split,
            "{name}: right count device vs host"
        );
        assert_eq!(dev_order, host_order, "{name}: full stable partition order device vs host");
    }
}
