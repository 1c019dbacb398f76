//! Whole-column partitions, child ranges and the resident permutation.
use lgbm_compute::bin_column::BinColumn;
use lgbm_compute::error::ComputeError;
use lgbm_compute::kernels::partition::{
    data_partition_cpu_native, data_partition_native_on, iota_u32, partition_child_ranges_device,
    DeviceLeafSplits, ResidentPermPartition,
};

#[test]
fn partition_basic_threshold() {
    let bins = vec![1u32, 5, 3, 7, 0, 4, 2, 6];
    let (reordered, split_point) = data_partition_cpu_native(&bins, 8, 0, 7, 3, 8).unwrap();
    assert_eq!(split_point, 4);
    assert_eq!(reordered, vec![0, 2, 4, 6, 1, 3, 5, 7]);
}

#[test]
fn partition_rejects_threshold_out_of_range() {
    let err = data_partition_cpu_native(&[0, 1, 2], 3, 0, 2, 3, 3).unwrap_err();
    assert!(matches!(err, ComputeError::Runtime { .. }));
}

#[test]
fn partition_rejects_bad_bin() {
    let err = data_partition_cpu_native(&[0, 9, 1], 3, 0, 2, 1, 3).unwrap_err();
    assert!(matches!(err, ComputeError::BinIndexOutOfRange { .. }));
}

#[test]
fn partition_native_u8_matches_widened() {
    let bins = vec![1u32, 5, 3, 7, 0, 4, 2, 6];
    let expected = data_partition_cpu_native(&bins, 8, 0, 7, 3, 8).unwrap();
    let col = BinColumn::new(bins.clone(), 8);
    assert!(matches!(col, BinColumn::U8(_)));
    let got = data_partition_native_on(&col, 8, 0, 7, 3, 8).unwrap();
    assert_eq!(got, expected);
    assert_eq!(got.1, 4);
    assert_eq!(got.0, vec![0, 2, 4, 6, 1, 3, 5, 7]);
}

#[test]
fn partition_native_u16_matches_widened() {
    let bins = vec![0u32, 300, 64, 511, 7];
    let expected = data_partition_cpu_native(&bins, 512, 0, 511, 63, 0).unwrap();
    let col = BinColumn::new(bins.clone(), 512);
    assert!(matches!(col, BinColumn::U16(_)));
    let got = data_partition_native_on(&col, 512, 0, 511, 63, 0).unwrap();
    assert_eq!(got, expected);
}

#[test]
fn partition_native_u32_matches_widened() {
    let bins = vec![0u32, 70_000, 100, 65_540, 9];
    let expected = data_partition_cpu_native(&bins, 70_001, 0, 70_000, 50, 0).unwrap();
    let col = BinColumn::new(bins.clone(), 70_001);
    assert!(matches!(col, BinColumn::U32(_)));
    let got = data_partition_native_on(&col, 70_001, 0, 70_000, 50, 0).unwrap();
    assert_eq!(got, expected);
}

#[test]
fn partition_native_rejects_threshold_out_of_range() {
    let col = BinColumn::new(vec![0, 1, 2], 3);
    let err = data_partition_native_on(&col, 3, 0, 2, 3, 3).unwrap_err();
    assert!(matches!(err, ComputeError::Runtime { .. }));
}

#[test]
fn partition_native_rejects_bad_bin() {
    let col = BinColumn::U32(vec![0, 9, 1]);
    let err = data_partition_native_on(&col, 3, 0, 2, 1, 3).unwrap_err();
    assert!(matches!(err, ComputeError::BinIndexOutOfRange { .. }));
}

#[test]
fn row_numbers_count_up() {
    assert_eq!(iota_u32(4), vec![0, 1, 2, 3]);
    assert_eq!(iota_u32(0), Vec::<u32>::new());
}

#[test]
fn leaf_splits_need_a_leaf() {
    assert!(matches!(DeviceLeafSplits::new(0), Err(ComputeError::Runtime { .. })));
    let splits = DeviceLeafSplits::new(3).unwrap();
    assert_eq!(splits.num_leaves(), 3);
    assert_eq!(splits.ranges_handle().len(), 18);
}

#[test]
fn child_ranges_tile_the_parent() {
    let mut splits = DeviceLeafSplits::new(2).unwrap();
    splits.write_child_ranges(1, 3, 10, 7);
    let r = splits.read_leaf(1);
    assert_eq!((r.left_start, r.left_end, r.left_count), (10, 13, 3));
    assert_eq!((r.right_start, r.right_end, r.right_count), (13, 17, 4));
    assert_eq!(splits.read_leaf(0).left_count, 0);
}

#[test]
fn child_ranges_follow_the_partition() {
    let bins = BinColumn::new(vec![1, 5, 3, 7, 0, 4, 2, 6], 8);
    let rows: Vec<u32> = (100..108).collect();
    let mut splits = DeviceLeafSplits::new(1).unwrap();
    let order = partition_child_ranges_device(
        &bins, &rows, 8, 0, 7, 0, 8, 0, false, 3, &mut splits, 0, 20, 8,
    )
    .unwrap();
    assert_eq!(order, vec![100, 102, 104, 106, 101, 103, 105, 107]);
    let r = splits.read_leaf(0);
    assert_eq!((r.left_start, r.left_end, r.right_start, r.right_end), (20, 24, 24, 28));
}

#[test]
fn resident_permutation_stays_a_permutation() {
    let n = 3000usize;
    let bins: Vec<u32> = (0..n as u32).map(|i| (i * 31) % 16).collect();
    let col = BinColumn::new(bins.clone(), 16);
    for fuse in [false, true] {
        let mut perm = ResidentPermPartition::new(n).unwrap();
        let mut splits = DeviceLeafSplits::new(4).unwrap();
        perm.partition_leaf(&col, 0, 16, 0, 15, 16, 16, 0, false, 7, &mut splits, 0, 0, n as i32, fuse)
            .unwrap();
        let expected: Vec<u32> = (0..n as u32)
            .filter(|&r| bins[r as usize] <= 7)
            .chain((0..n as u32).filter(|&r| bins[r as usize] > 7))
            .collect();
        assert_eq!(perm.read_perm(), expected);
        let left = bins.iter().filter(|&&b| b <= 7).count() as i32;
        assert_eq!(splits.read_leaf(0).left_count, left);
        assert_eq!(splits.read_leaf(0).right_count, n as i32 - left);

        // Splitting the right child leaves the left child's rows where they are.
        perm.partition_leaf(
            &col, 0, 16, 0, 15, 16, 16, 0, false, 11, &mut splits, 1, left, n as i32 - left, fuse,
        )
        .unwrap();
        let after = perm.read_perm();
        assert_eq!(after[..left as usize], expected[..left as usize]);
        assert_eq!(perm.rows_view(left as usize), &after[left as usize..]);
        let mut sorted = after.clone();
        sorted.sort_unstable();
        assert_eq!(sorted, (0..n as u32).collect::<Vec<_>>());
    }
}

#[test]
fn resident_permutation_rejects_bad_input() {
    assert!(ResidentPermPartition::new(0).is_err());
    let col = BinColumn::new(vec![0, 1, 2, 3], 4);
    let mut perm = ResidentPermPartition::new(4).unwrap();
    let mut splits = DeviceLeafSplits::new(1).unwrap();
    let before = perm.read_perm();
    let cases: [(u32, u32, usize, i32, i32, usize); 6] = [
        (0, 0, 0, 0, 4, 0),
        (4, 4, 0, 0, 4, 0),
        (4, 1, 1, 0, 4, 0),
        (4, 1, 0, -1, 4, 0),
        (4, 1, 0, 0, 5, 0),
        (4, 1, 0, 0, 4, 1),
    ];
    for (num_bin, threshold, leaf, begin, count, col_off) in cases {
        let r = perm.partition_leaf(
            &col, col_off, num_bin, 0, 3, 4, 4, 0, false, threshold, &mut splits, leaf, begin, count, true,
        );
        assert!(matches!(r, Err(ComputeError::Runtime { .. } | ComputeError::LengthMismatch { .. })), "{r:?}");
        assert_eq!(perm.read_perm(), before);
    }
}
