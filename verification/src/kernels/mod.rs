//! The compute kernels: per-row work as functions on slices, and the bookkeeping around it.
pub mod autotune;
pub mod best_split;
pub mod categorical_split;
pub mod column_data;
pub mod copy_subrow;
pub mod data_partition;
pub mod fix_compact;
pub mod fixed_build;
pub mod fused_scan;
pub mod grouped_build;
pub mod grow_driver;
pub mod grow_feature;
pub mod grow_ledger;
pub mod grow_machine;
pub mod grow_resident;
pub mod hist_region;
pub mod histogram;
pub mod histogram_arena;
pub mod knobs;
pub mod leaf_histogram;
pub mod leaf_map;
pub mod objective_binary;
pub mod partition;
pub mod resident_build;
pub mod resident_machine;
pub mod row_partition;
pub mod scan_mask;
pub mod score;
pub mod sibling_sum;
pub mod split_info;
pub mod split_order;
pub mod window_reduce;
