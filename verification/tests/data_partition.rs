//! Stable partitions of a leaf's rows.
use lgbm_compute::bin_column::BinColumn;
use lgbm_compute::error::ComputeError;
use lgbm_compute::kernels::data_partition::{
    partition_categorical_on_device, partition_categorical_stable, partition_leaf_stable,
    find_in_bitset, partition_leaf_stable_fused, partition_on_device, prefix_sum_exclusive,
    route_left_categorical_host, route_left_host, route_to_left, route_to_left_categorical,
    scan_block_size, split_tree_structure_packet, update_data_index_to_leaf_on, RouteFlags,
};
use lgbm_compute::kernels::split_info::SplitScalars;
use lgbm_compute::number::Real64;

fn packed(x: f64) -> Real64 {
    Real64 { bits: x.to_bits() }
}

#[test]
fn anchor_basic_matches_golden() {
    let bins = BinColumn::new(vec![1, 5, 3, 7, 0, 4, 2, 6], 8);
    let di: Vec<u32> = (0..8).collect();
    let (order, split) = partition_leaf_stable(&bins, &di, 8, 0, 7, 0, 8, 0, false, 3).unwrap();
    assert_eq!(split, 4);
    assert_eq!(order, vec![0, 2, 4, 6, 1, 3, 5, 7]);
}

#[test]
fn device_matches_anchor_basic() {
    let bins = BinColumn::new(vec![1, 5, 3, 7, 0, 4, 2, 6], 8);
    let di: Vec<u32> = (0..8).collect();
    let anchor = partition_leaf_stable(&bins, &di, 8, 0, 7, 0, 8, 0, false, 3).unwrap();
    let device = partition_on_device(&bins, &di, 8, 0, 7, 0, 8, 0, false, 3).unwrap();
    assert_eq!(device, anchor);
}

#[test]
fn anchor_missing_zero_fanout() {
    let bins = BinColumn::new(vec![1, 3, 2, 5, 3, 6, 4, 3], 8);
    let di: Vec<u32> = (0..8).collect();
    let (order, split) = partition_leaf_stable(&bins, &di, 8, 1, 6, 2, 5, 1, false, 3).unwrap();
    assert_eq!(split, 3);
    assert_eq!(order, vec![0, 2, 6, 1, 3, 4, 5, 7]);
}

#[test]
fn categorical_anchor_and_device_agree() {
    let bins = BinColumn::new(vec![1, 2, 3, 1, 4, 1, 5, 2], 6);
    let di: Vec<u32> = (0..8).collect();
    let anchor = partition_categorical_stable(&bins, &di, 6, 1, 5, 0, &[2]).unwrap();
    assert_eq!(anchor.1, 3);
    assert_eq!(anchor.0, vec![0, 3, 5, 1, 2, 4, 6, 7]);
    let device = partition_categorical_on_device(&bins, &di, 6, 1, 5, 0, &[2]).unwrap();
    assert_eq!(device, anchor);
}

#[test]
fn packet_smaller_larger_branch() {
    let mut s = SplitScalars::default();
    s.left_sum_hessians = packed(3.0);
    s.right_sum_hessians = packed(5.0);
    s.left_sum_gradients = packed(-1.0);
    s.right_sum_gradients = packed(2.0);
    let pk = split_tree_structure_packet(0, 7, 0, 1, 13, 7, &s);
    assert_eq!(pk.ints, [0, 7, 0, 1, 13, 7, 0, 1]);
    assert_eq!(pk.sums, [packed(3.0), packed(5.0), packed(-1.0), packed(2.0)]);
    let pk2 = split_tree_structure_packet(2, 20, 5, 3, 8, 25, &s);
    assert_eq!(pk2.ints[6], 3);
    assert_eq!(pk2.ints[7], 2);
}

#[test]
fn rejects_bad_bin_and_threshold() {
    let bins = BinColumn::new(vec![0, 1, 2], 3);
    let di: Vec<u32> = (0..3).collect();
    assert!(matches!(
        partition_leaf_stable(&bins, &di, 3, 0, 2, 0, 3, 0, false, 3),
        Err(ComputeError::Runtime { .. })
    ));
    let bad = BinColumn::U32(vec![0, 9, 1]);
    assert!(matches!(
        partition_leaf_stable(&bad, &di, 3, 0, 2, 0, 1, 0, false, 1),
        Err(ComputeError::BinIndexOutOfRange { .. })
    ));
}

fn gather_bins_sub(bins: &BinColumn, di: &[u32], num_bin: u32) -> BinColumn {
    BinColumn::new(di.iter().map(|&r| bins.bin(r as usize)).collect(), num_bin)
}

#[allow(clippy::too_many_arguments)]
fn assert_fused_matches_anchor(
    bins: &BinColumn,
    di: &[u32],
    num_bin: u32,
    min_bin: u32,
    max_bin: u32,
    default_bin: u32,
    most_freq_bin: u32,
    missing_type: u8,
    default_left: bool,
    threshold: u32,
) {
    let bins_sub = gather_bins_sub(bins, di, num_bin);
    let anchor = partition_leaf_stable(
        &bins_sub, di, num_bin, min_bin, max_bin, default_bin, most_freq_bin,
        missing_type, default_left, threshold,
    );
    let fused = partition_leaf_stable_fused(
        bins, di, num_bin, min_bin, max_bin, default_bin, most_freq_bin,
        missing_type, default_left, threshold,
    );
    assert_eq!(fused, anchor, "fused must byte-equal the gathered anchor");
}

#[test]
fn partition_leaf_stable_fused_matches_anchor() {
    let bins1 = BinColumn::new(vec![1, 5, 3, 7, 0, 4, 2, 6], 8);
    let di_id: Vec<u32> = (0..8).collect();
    assert_fused_matches_anchor(&bins1, &di_id, 8, 0, 7, 0, 8, 0, false, 3);

    let di_sub: Vec<u32> = vec![7, 0, 5, 2, 6, 1];
    assert_fused_matches_anchor(&bins1, &di_sub, 8, 0, 7, 0, 8, 0, false, 3);

    let bins2 = BinColumn::new(vec![1, 3, 2, 5, 3, 6, 4, 3], 8);
    assert_fused_matches_anchor(&bins2, &di_id, 8, 1, 6, 2, 5, 1, false, 3);
    let di_sub2: Vec<u32> = vec![5, 1, 7, 0, 4, 6, 2, 3];
    assert_fused_matches_anchor(&bins2, &di_sub2, 8, 1, 6, 2, 5, 1, false, 3);
}

#[test]
fn partition_leaf_stable_fused_all_left_and_all_right() {
    let bins = BinColumn::new(vec![1, 5, 3, 7, 0, 4, 2, 6], 8);
    let di: Vec<u32> = vec![3, 1, 6, 0, 5];
    let (order, split) =
        partition_leaf_stable_fused(&bins, &di, 8, 0, 7, 0, 8, 0, false, 7).unwrap();
    assert_eq!(split, di.len(), "threshold==max routes all rows LEFT");
    assert_eq!(order, di, "all-left preserves ascending index order");

    let bins_hi = BinColumn::new(vec![5, 6, 7, 5, 6], 8);
    let di_hi: Vec<u32> = (0..5).collect();
    let (order_r, split_r) =
        partition_leaf_stable_fused(&bins_hi, &di_hi, 8, 0, 7, 0, 8, 0, false, 3).unwrap();
    assert_eq!(split_r, 0, "all rows bin>threshold ⇒ empty left child");
    assert_eq!(order_r, di_hi, "all-right preserves ascending index order");
}

#[test]
fn partition_leaf_stable_fused_rejects_bad_bin_and_threshold() {
    let bins = BinColumn::new(vec![0, 1, 2], 3);
    let di: Vec<u32> = (0..3).collect();
    assert!(matches!(
        partition_leaf_stable_fused(&bins, &di, 0, 0, 2, 0, 3, 0, false, 0),
        Err(ComputeError::Runtime { .. })
    ));
    assert!(matches!(
        partition_leaf_stable_fused(&bins, &di, 3, 0, 2, 0, 3, 0, false, 3),
        Err(ComputeError::Runtime { .. })
    ));
    let bad = BinColumn::U32(vec![0, 9, 1]);
    let di_bad: Vec<u32> = vec![2, 1, 0];
    assert!(matches!(
        partition_leaf_stable_fused(&bad, &di_bad, 3, 0, 2, 0, 1, 0, false, 1),
        Err(ComputeError::BinIndexOutOfRange { row: 1, bin: 9, num_bin: 3 })
    ));
}

#[test]
fn update_leaf_map_writes_right_leaf() {
    let di = vec![0u32, 1, 2, 3];
    let to_left = vec![1u32, 0, 1, 0];
    let map = update_data_index_to_leaf_on(&di, &to_left, 4, 5, 9).unwrap();
    assert_eq!(map, vec![5, 9, 5, 9]);
}

#[test]
fn partition_messages_name_the_operation() {
    let bins = BinColumn::new(vec![0, 1, 2], 3);
    let di: Vec<u32> = (0..3).collect();
    assert_eq!(
        partition_leaf_stable(&bins, &di, 0, 0, 2, 0, 3, 0, false, 0),
        Err(ComputeError::Runtime { detail: "data_partition: num_bin must be > 0".to_string() })
    );
    assert_eq!(
        partition_leaf_stable(&bins, &di, 3, 0, 2, 0, 3, 0, false, 7),
        Err(ComputeError::Runtime { detail: "data_partition: threshold 7 >= num_bin 3".to_string() })
    );
    assert_eq!(
        partition_leaf_stable(&bins, &di[..2], 3, 0, 2, 0, 3, 0, false, 1),
        Err(ComputeError::LengthMismatch { expected: 3, actual: 2 })
    );
    assert_eq!(
        partition_categorical_stable(&bins, &di, 0, 0, 2, 0, &[1]),
        Err(ComputeError::Runtime { detail: "data_partition(cat): num_bin must be > 0".to_string() })
    );
}

#[test]
fn partitions_of_many_rows_agree_and_keep_every_row() {
    let n = 3000usize;
    let bins_vec: Vec<u32> = (0..n as u32).map(|i| (i * 7919) % 61).collect();
    let bins = BinColumn::new(bins_vec.clone(), 61);
    let di: Vec<u32> = (0..n as u32).map(|i| (i * 17) % n as u32).collect();
    let gathered = gather_bins_sub(&bins, &di, 61);
    let anchor = partition_leaf_stable(&gathered, &di, 61, 0, 60, 61, 61, 0, false, 29).unwrap();
    let device = partition_on_device(&gathered, &di, 61, 0, 60, 61, 61, 0, false, 29).unwrap();
    let fused = partition_leaf_stable_fused(&bins, &di, 61, 0, 60, 61, 61, 0, false, 29).unwrap();
    assert_eq!(device, anchor);
    assert_eq!(fused, anchor);
    let mut sorted = anchor.0.clone();
    sorted.sort_unstable();
    assert_eq!(sorted, (0..n as u32).collect::<Vec<_>>());
    assert!(anchor.0[..anchor.1].iter().all(|&r| bins_vec[r as usize] <= 29));
    assert!(anchor.0[anchor.1..].iter().all(|&r| bins_vec[r as usize] > 29));
}

#[test]
fn prefix_sums_are_exclusive() {
    assert_eq!(prefix_sum_exclusive(&[1, 0, 1, 1, 0]), vec![0, 1, 1, 2, 3]);
    assert_eq!(prefix_sum_exclusive(&[]), Vec::<u32>::new());
    assert!(scan_block_size(1) >= 1);
}

#[test]
fn both_route_forms_agree() {
    for missing in 0..3u8 {
        for (min, max) in [(0u32, 4u32), (1, 4), (3, 3)] {
            for default_bin in 0..3u32 {
                for mfb in 0..6u32 {
                    for default_left in [false, true] {
                        let f = RouteFlags::derive(min, max, default_bin, mfb, missing, default_left);
                        for threshold in 0..5i32 {
                            for bin in 0..7i32 {
                                let host = route_left_host(
                                    bin, min as i32, max as i32, default_bin as i32, mfb as i32, threshold, f,
                                );
                                let mark = route_to_left(
                                    bin, min as i32, max as i32, default_bin as i32, mfb as i32, threshold, f,
                                );
                                assert_eq!(mark == 1, host, "bin {bin} threshold {threshold} {f:?}");
                            }
                        }
                    }
                }
            }
        }
    }
}

#[test]
fn missing_values_take_the_default_side() {
    // Bin 5 holds the missing values.
    let bins = BinColumn::new(vec![0, 5, 2, 5, 4], 6);
    let di: Vec<u32> = (0..5).collect();
    let left = partition_leaf_stable(&bins, &di, 6, 0, 5, 0, 1, 2, true, 2).unwrap();
    assert_eq!(left, (vec![0, 1, 2, 3, 4], 4));
    let right = partition_leaf_stable(&bins, &di, 6, 0, 5, 0, 1, 2, false, 2).unwrap();
    assert_eq!(right, (vec![0, 2, 1, 3, 4], 2));
}

#[test]
fn categories_route_by_their_bit() {
    let bits = [0b1010u32, 1];
    assert_eq!(find_in_bitset(&bits, 2, 1), 1);
    assert_eq!(find_in_bitset(&bits, 2, 2), 0);
    assert_eq!(find_in_bitset(&bits, 2, 32), 1);
    assert_eq!(find_in_bitset(&bits, 2, 64), 0);
    for bin in 0..40 {
        for mfb in 0..5 {
            let host = route_left_categorical_host(bin, 1, 35, mfb, &bits);
            assert_eq!(route_to_left_categorical(bin, 1, 35, mfb, &bits, 2) == 1, host, "bin {bin} mfb {mfb}");
        }
    }
}
