//! Columns, bags, leaf maps, scores and objective values.
use lgbm_compute::bin_column::BinColumn;
use lgbm_compute::dataset::LeafPartitionLayout;
use lgbm_compute::error::ComputeError;
use lgbm_compute::kernels::column_data::{
    column_bit_width, upload_column_buffer, ColumnFeatureMeta, CudaColumnData,
};
use lgbm_compute::kernels::copy_subrow::{bagging_draw_on, bagging_seeds, copy_subrow_on};
use lgbm_compute::kernels::leaf_map::{build_leaf_map_on, LeafMapBufferStrategy, LeafMapStep};
use lgbm_compute::kernels::objective_binary::{
    boost_from_score_on, get_gradients_on, reset_ova_label_on, sigmoid_convert_output_on, validate_gh,
};
use lgbm_compute::kernels::score::ResidentScore;
use lgbm_compute::number::Real64;
use lgbm_compute::text::{push_decimal, push_signed_decimal};

fn label(x: f64) -> Real64 {
    Real64 { bits: x.to_bits() }
}

#[test]
fn columns_take_the_narrowest_width() {
    assert_eq!(column_bit_width(&BinColumn::new(vec![255], 256)), 8);
    assert_eq!(column_bit_width(&BinColumn::new(vec![256], 257)), 16);
    assert_eq!(column_bit_width(&BinColumn::new(vec![65_536], 65_537)), 32);
    let c = BinColumn::new(vec![3, 1, 2], 4);
    assert_eq!(c.len(), 3);
    assert_eq!(c.bin(1), 1);
    assert_eq!(c.to_u32_vec(), vec![3, 1, 2]);
}

#[test]
fn column_buffers_round_trip() {
    for width in [8, 16, 32] {
        let c = upload_column_buffer(&[0, 7, 255], width).unwrap();
        assert_eq!(column_bit_width(&c), width);
        assert_eq!(c.to_u32_vec(), vec![0, 7, 255]);
    }
    assert_eq!(
        upload_column_buffer(&[1], 12).err(),
        Some(ComputeError::Runtime { detail: "unsupported column bit_type 12 (expected 8/16/32)".to_string() })
    );
    let store = CudaColumnData::new(
        &[BinColumn::new(vec![1, 2], 4), BinColumn::new(vec![300, 2], 512)],
        vec![ColumnFeatureMeta::default(), ColumnFeatureMeta::default()],
    )
    .unwrap();
    assert_eq!(store.read_column(1), Ok(vec![300, 2]));
    assert_eq!(
        store.read_column(2),
        Err(ComputeError::Runtime { detail: "read_column: column 2 out of range (num_columns=2)".to_string() })
    );
    assert!(matches!(
        CudaColumnData::new(&[BinColumn::new(vec![1], 2)], vec![]),
        Err(ComputeError::LengthMismatch { expected: 1, actual: 0 })
    ));
}

#[test]
fn subsets_gather_rows() {
    let c = BinColumn::new(vec![10, 20, 30, 40], 64);
    assert_eq!(copy_subrow_on(&c, &[3, 0, 0], 4).unwrap().to_u32_vec(), vec![40, 10, 10]);
    assert_eq!(
        copy_subrow_on(&c, &[0], 3).err(),
        Some(ComputeError::LengthMismatch { expected: 3, actual: 4 })
    );
    assert_eq!(
        copy_subrow_on(&c, &[0, -1], 4).err(),
        Some(ComputeError::Runtime { detail: "copy_subrow: used_indices[1] = -1 is negative".to_string() })
    );
    assert_eq!(
        copy_subrow_on(&c, &[0, 4], 4).err(),
        Some(ComputeError::BinIndexOutOfRange { row: 1, bin: 4, num_bin: 4 })
    );
}

#[test]
fn bag_comes_first_and_the_rest_backwards() {
    let draws: Vec<Real64> = [0.1, 0.9, 0.4, 0.5, 0.0].map(label).to_vec();
    assert_eq!(bagging_draw_on(5, &draws, label(0.5)), vec![0, 2, 4, 3, 1]);
    assert_eq!(bagging_draw_on(5, &draws, label(1.0)), vec![0, 1, 2, 3, 4]);
    assert_eq!(bagging_draw_on(5, &draws, label(0.0)), vec![4, 3, 2, 1, 0]);
    assert_eq!(bagging_draw_on(0, &draws, label(0.5)), Vec::<i32>::new());
    assert_eq!(bagging_seeds(2049, 7), vec![7, 8, 9]);
    assert_eq!(bagging_seeds(1024, 7), vec![7]);
    assert_eq!(bagging_seeds(0, 7), Vec::<u32>::new());
}

#[test]
fn leaf_map_follows_the_splits() {
    let steps = [
        LeafMapStep { data_indices: &[0, 1, 2, 3], to_left: &[1, 0, 1, 0], left_leaf: 0, right_leaf: 1 },
        LeafMapStep { data_indices: &[1, 3], to_left: &[0, 1], left_leaf: 1, right_leaf: 2 },
    ];
    for strategy in [LeafMapBufferStrategy::Alias, LeafMapBufferStrategy::DoubleBuffer] {
        assert_eq!(build_leaf_map_on(4, 0, &steps, strategy), Ok(vec![0, 2, 0, 1]));
        assert_eq!(build_leaf_map_on(3, 5, &[], strategy), Ok(vec![5, 5, 5]));
        assert!(build_leaf_map_on(2, 0, &steps, strategy).is_err());
    }
}

#[test]
fn scores_accumulate_over_trees() {
    let plus = |a: f64, b: f64| a + b;
    let mut score = ResidentScore::new(4, 0.0f64);
    assert_eq!(score.num_data(), 4);
    assert_eq!(score.check_labels(4), Ok(()));
    assert_eq!(score.check_labels(3), Err(ComputeError::LengthMismatch { expected: 4, actual: 3 }));
    let layout = LeafPartitionLayout {
        num_data: 4,
        indices: vec![2, 0, 3],
        leaf_begin: vec![0, 2],
        leaf_count: vec![2, 1],
    };
    score.add_tree_on_device(&plus, &layout, &[1.5, -2.0]).unwrap();
    score.add_tree_on_device(&plus, &layout, &[1.0, 1.0]).unwrap();
    assert_eq!(score.read_resident_score(), vec![2.5, 0.0, 2.5, -1.0]);
    assert!(score.add_tree_on_device(&plus, &layout, &[1.0]).is_err());
    let mut broken = layout.clone();
    broken.leaf_count[1] = 9;
    assert!(score.add_tree_on_device(&plus, &broken, &[1.0, 1.0]).is_err());
    broken.leaf_count[1] = -1;
    assert!(score.add_tree_on_device(&plus, &broken, &[1.0, 1.0]).is_err());
    broken.num_data = 5;
    assert_eq!(
        score.add_tree_on_device(&plus, &broken, &[1.0, 1.0]),
        Err(ComputeError::LengthMismatch { expected: 4, actual: 5 })
    );
    assert_eq!(score.read_resident_score(), vec![2.5, 0.0, 2.5, -1.0], "a refused tree changes nothing");
    assert_eq!(ResidentScore::from_host_scores(&[1.0, 2.0]).read_resident_score(), vec![1.0, 2.0]);
}

#[test]
fn a_tree_is_added_leaf_by_leaf() {
    // Leaf 0 has rows 4 and 1, leaf 1 none, leaf 2 row 0; rows 2 and 3 are in no range.
    let layout = LeafPartitionLayout {
        num_data: 5,
        indices: vec![3, 0, 4, 1, 2],
        leaf_begin: vec![2, 3, 1],
        leaf_count: vec![2, 0, 1],
    };
    let plus = |a: f64, b: f64| a + b;
    let old = [1.0, 2.0, 3.0, 4.0, 5.0];
    let mut score = ResidentScore::from_host_scores(&old);
    assert_eq!(score.add_tree_on_device(&plus, &layout, &[10.0, 20.0, 40.0]), Ok(()));
    assert_eq!(score.read_resident_score(), vec![41.0, 12.0, 3.0, 4.0, 15.0]);
    let mut short = ResidentScore::from_host_scores(&old[..4]);
    let rows_fit = LeafPartitionLayout { num_data: 5, indices: vec![3, 0], leaf_begin: vec![0], leaf_count: vec![2] };
    assert_eq!(
        short.add_tree_on_device(&plus, &rows_fit, &[1.0]),
        Err(ComputeError::LengthMismatch { expected: 4, actual: 5 })
    );
    let mut score = ResidentScore::from_host_scores(&old);
    assert_eq!(
        score.add_tree_on_device(&plus, &layout, &[1.0, 2.0]),
        Err(ComputeError::LengthMismatch { expected: 3, actual: 2 })
    );
    assert_eq!(score.read_resident_score(), old);
}

#[test]
fn gradients_follow_the_formula() {
    let sigmoid = 1.0f64;
    let respond = |score: f64, positive: bool| {
        let y = if positive { 1.0 } else { -1.0 };
        -y * sigmoid / (1.0 + (y * sigmoid * score).exp())
    };
    let curve = |r: f64| r.abs() * (sigmoid - r.abs());
    let times = |a: f64, b: f64| a * b;
    let labels = [label(1.0), label(0.0), label(-1.0)];
    let (g, h) = get_gradients_on(&respond, &curve, &times, &[0.0, 0.0, 0.0], &labels, None, None).unwrap();
    assert_eq!(g, vec![-0.5, 0.5, 0.5]);
    assert_eq!(h, vec![0.25, 0.25, 0.25]);
    let (g, h) = get_gradients_on(
        &respond, &curve, &times, &[0.0, 0.0, 0.0], &labels, Some(&[1.0, 2.0, 4.0]), Some((3.0, 5.0)),
    )
    .unwrap();
    assert_eq!(g, vec![-2.5, 3.0, 6.0]);
    assert_eq!(h, vec![1.25, 1.5, 3.0]);
    assert_eq!(validate_gh(3, 3, Some(3)), Ok(()));
    assert_eq!(validate_gh(3, 2, None), Err(ComputeError::LengthMismatch { expected: 3, actual: 2 }));
    assert_eq!(validate_gh(3, 3, Some(1)), Err(ComputeError::LengthMismatch { expected: 3, actual: 1 }));
    assert_eq!(
        get_gradients_on(&respond, &curve, &times, &[0.0], &labels, None, None),
        Err(ComputeError::LengthMismatch { expected: 1, actual: 3 })
    );
}

#[test]
fn prior_counts_positive_weight() {
    let labels = [label(1.0), label(0.0), label(2.0)];
    let plus = |a: f64, b: f64| a + b;
    let odds = |positive: f64, total: f64| (positive / total / (1.0 - positive / total)).ln();
    let start = |weights: Option<&[f64]>| boost_from_score_on(&plus, &odds, 1.0, 0.0, 3.0, &labels, weights);
    assert_eq!(start(None), Ok((2.0f64 / 3.0 / (1.0 - 2.0 / 3.0)).ln()));
    assert_eq!(start(Some(&[2.0, 3.0, 4.0])), Ok((6.0f64 / 9.0 / (1.0 - 6.0 / 9.0)).ln()));
    let pair = |positive: f64, total: f64| 100.0 * positive + total;
    assert_eq!(boost_from_score_on(&plus, &pair, 1.0, 0.0, 3.0, &labels, None), Ok(203.0));
    assert_eq!(boost_from_score_on(&plus, &pair, 1.0, 0.0, 3.0, &labels, Some(&[2.0, 3.0, 4.0])), Ok(609.0));
    assert_eq!(boost_from_score_on(&plus, &pair, 1.0, 0.0, 0.0, &[], Some(&[2.0])), Ok(0.0));
    assert_eq!(start(Some(&[2.0])), Err(ComputeError::LengthMismatch { expected: 3, actual: 1 }));
    let ova: Vec<f64> = reset_ova_label_on(&[label(0.0), label(2.0), label(1.0), label(2.0)], label(2.0))
        .iter()
        .map(|l| f64::from_bits(l.bits))
        .collect();
    assert_eq!(ova, vec![-1.0, 1.0, -1.0, 1.0]);
    assert_eq!(sigmoid_convert_output_on(&|x: f64| 1.0 / (1.0 + (-x).exp()), &[0.0]), vec![0.5]);
}

#[test]
fn decimals_are_written_out() {
    for n in [0u64, 7, 10, 90_210, u64::MAX] {
        let mut s = String::from("n=");
        push_decimal(&mut s, n);
        assert_eq!(s, format!("n={n}"));
    }
    for n in [0i64, -1, 42, i64::MIN, i64::MAX] {
        let mut s = String::new();
        push_signed_decimal(&mut s, n);
        assert_eq!(s, format!("{n}"));
    }
}
