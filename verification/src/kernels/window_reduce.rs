//! The reduction of a leaf's scanned windows to its record in the frontier.
use crate::gain::SplitInfo;
use crate::kernels::fused_scan;
use crate::kernels::fused_scan::ScannedSplit;
use crate::kernels::resident_machine;
use crate::kernels::split_info::SplitScalars;
use crate::kernels::split_order;
use crate::stable;
use vstd::prelude::*;

verus! {

/// The position of the window that wins among the features that were scanned, -1 where none holds
/// a split.
pub open spec fn winning_window(
    scanned: Seq<ScannedSplit>,
    scan_active: Seq<bool>,
    real_feats: Seq<i32>,
) -> int {
    split_order::winner(
        fused_scan::candidates(scanned),
        fused_scan::unmarked(scan_active),
        real_feats,
        scanned.len() as int,
    )
}

/// The record that goes to a leaf's place in the frontier.
pub open spec fn reduced_record(
    scanned: Seq<ScannedSplit>,
    scan_active: Seq<bool>,
    real_feats: Seq<i32>,
    leaf: usize,
) -> SplitScalars {
    let w = winning_window(scanned, scan_active, real_feats);
    resident_machine::spec_frontier_record(
        leaf,
        split_order::held(fused_scan::candidates(scanned), w),
        split_order::held_feature(real_feats, w),
    )
}

/// Reduce the windows of a leaf's features to the leaf's record. The windows stand in the order of
/// the features, with their real indices beside them, and a window that was not scanned is left
/// out. Where no window holds a split, the record is not valid.
pub fn reduce_scanned_windows(
    scanned: &[ScannedSplit],
    scan_active: &[bool],
    real_feats: &[i32],
    leaf: usize,
) -> (record: SplitScalars)
    requires
        scan_active@.len() == scanned@.len(),
        real_feats@.len() == scanned@.len(),
    ensures
        record == reduced_record(scanned@, scan_active@, real_feats@, leaf),
        record.is_valid <==> exists|k: int|
            0 <= k < scanned@.len() && scan_active@[k] && split_order::spec_admissible(
                (#[trigger] scanned@[k]).candidate(),
            ),
        record.leaf_index == leaf as i32,
        record.is_valid ==> exists|k: int|
            {
                &&& 0 <= k < scanned@.len()
                &&& scan_active@[k]
                &&& (#[trigger] scanned@[k]).is_splittable
                &&& record.inner_feature_index == real_feats@[k]
                &&& record.gain == scanned@[k].shifted_gain
                &&& record.threshold == scanned@[k].threshold
                &&& record.default_left == scanned@[k].default_left
                &&& record.left_sum_gradients == scanned@[k].left_sum_gradient
                &&& record.left_sum_hessians == scanned@[k].left_sum_hessian
                &&& record.left_value == scanned@[k].left_output
                &&& record.right_sum_gradients == scanned@[k].right_sum_gradient
                &&& record.right_sum_hessians == scanned@[k].right_sum_hessian
                &&& record.right_value == scanned@[k].right_output
            },
{
    let ghost all = fused_scan::candidates(scanned@);
    let ghost skips = fused_scan::unmarked(scan_active@);
    let ghost mut position: int = -1;
    let mut best: SplitInfo = SplitInfo::none();
    let mut best_real: i32 = -1;
    let mut i: usize = 0;
    while i < scanned.len()
        invariant
            i <= scanned@.len(),
            scan_active@.len() == scanned@.len(),
            real_feats@.len() == scanned@.len(),
            all == fused_scan::candidates(scanned@),
            skips == fused_scan::unmarked(scan_active@),
            position == split_order::winner(all, skips, real_feats@, i as int),
            best == split_order::held(all, position),
            best_real == split_order::held_feature(real_feats@, position),
        decreases scanned@.len() - i,
    {
        if scan_active[i] {
            let candidate: SplitInfo = scanned[i].to_candidate();
            let feat: i32 = real_feats[i];
            if split_order::admissible(&candidate) && split_order::split_gt(
                &candidate,
                feat,
                &best,
                best_real,
            ) {
                best = candidate;
                best_real = feat;
                proof {
                    position = i as int;
                }
            }
        }
        i += 1;
    }
    proof {
        let n = scanned@.len() as int;
        split_order::nobody_wins_iff_none_is_admissible(all, skips, real_feats@, n);
        split_order::winner_takes_part(all, skips, real_feats@, n);
        if position >= 0 {
            assert(scan_active@[position] && split_order::spec_admissible(scanned@[position].candidate()));
        } else {
            assert forall|k: int| 0 <= k < n && scan_active@[k] implies !split_order::spec_admissible(
                (#[trigger] scanned@[k]).candidate(),
            ) by {
                assert(!split_order::spec_admissible(all[k]));
            }
        }
    }
    resident_machine::frontier_record(leaf, &best, best_real)
}

/// The record that the reduction stores is the record of the winner over the decoded candidates of
/// the scanned features alone: the same split, of the same feature. A window that was not scanned
/// never wins.
pub proof fn reduction_matches_the_decoded_winner(
    scanned: Seq<ScannedSplit>,
    scan_active: Seq<bool>,
    real_feats: Seq<i32>,
    leaf: usize,
)
    requires
        scan_active.len() == scanned.len(),
        real_feats.len() == scanned.len(),
    ensures
        ({
            let kept = stable::chosen(fused_scan::candidates(scanned), scan_active, true);
            let kept_feats = stable::chosen(real_feats, scan_active, true);
            let v = split_order::winner(
                kept,
                fused_scan::none_skipped(kept.len() as int),
                kept_feats,
                kept.len() as int,
            );
            &&& reduced_record(scanned, scan_active, real_feats, leaf)
                == resident_machine::spec_frontier_record(
                leaf,
                split_order::held(kept, v),
                split_order::held_feature(kept_feats, v),
            )
            &&& winning_window(scanned, scan_active, real_feats) >= 0
                ==> scan_active[winning_window(scanned, scan_active, real_feats)]
        }),
{
    let all = fused_scan::candidates(scanned);
    let n = scanned.len() as int;
    fused_scan::unscanned_features_never_win(all, scan_active, real_feats, n);
    assert(all.take(n) =~= all);
    assert(scan_active.take(n) =~= scan_active);
    assert(real_feats.take(n) =~= real_feats);
}

} // verus!
