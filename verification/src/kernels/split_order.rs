//! The order in which split candidates win, over the features of a leaf and over the leaves
//! of a tree.
use crate::gain::SplitInfo;
use crate::number::Real64;
use vstd::prelude::*;

verus! {

/// The key of a feature on a tie of gains: its real index, with no feature last.
pub open spec fn feature_key(feature: i32) -> int {
    if feature == -1 {
        i32::MAX as int
    } else {
        feature as int
    }
}

/// Whether candidate `a` of feature `a_feat` beats `b` of `b_feat`: by a greater gain, or on
/// equal gains by a lower feature.
pub open spec fn spec_split_gt(a: SplitInfo, a_feat: i32, b: SplitInfo, b_feat: i32) -> bool {
    if a.gain.spec_same(b.gain) {
        feature_key(a_feat) < feature_key(b_feat)
    } else {
        a.gain.spec_above(b.gain)
    }
}

/// Whether candidate `a` of feature `a_feat` beats `b` of `b_feat`.
pub fn split_gt(a: &SplitInfo, a_feat: i32, b: &SplitInfo, b_feat: i32) -> (r: bool)
    ensures
        r == spec_split_gt(*a, a_feat, *b, b_feat),
{
    if !a.gain.same(b.gain) {
        return a.gain.above(b.gain);
    }
    let af: i32 = if a_feat == -1 {
        i32::MAX
    } else {
        a_feat
    };
    let bf: i32 = if b_feat == -1 {
        i32::MAX
    } else {
        b_feat
    };
    af < bf
}

/// Winning is irreflexive and, among candidates whose gains are numbers, transitive.
pub proof fn split_gt_is_strict(
    a: SplitInfo,
    a_feat: i32,
    b: SplitInfo,
    b_feat: i32,
    c: SplitInfo,
    c_feat: i32,
)
    ensures
        !spec_split_gt(a, a_feat, a, a_feat),
        spec_split_gt(a, a_feat, b, b_feat) ==> !spec_split_gt(b, b_feat, a, a_feat),
        !a.gain.spec_is_nan() && !b.gain.spec_is_nan() && !c.gain.spec_is_nan() && spec_split_gt(
            a,
            a_feat,
            b,
            b_feat,
        ) && spec_split_gt(b, b_feat, c, c_feat) ==> spec_split_gt(a, a_feat, c, c_feat),
{
}

/// The candidate at a position, no split where there is none.
pub open spec fn held(splits: Seq<SplitInfo>, position: int) -> SplitInfo {
    if position < 0 {
        SplitInfo::spec_none()
    } else {
        splits[position]
    }
}

/// The feature at a position, -1 where there is none.
pub open spec fn held_feature(features: Seq<i32>, position: int) -> i32 {
    if position < 0 {
        -1i32
    } else {
        features[position]
    }
}

/// Whether a candidate is a split at all: its gain lies above minus infinity.
pub open spec fn spec_admissible(split: SplitInfo) -> bool {
    split.gain.spec_above(Real64::spec_neg_infinity())
}

/// Whether a candidate is a split at all.
pub fn admissible(split: &SplitInfo) -> (r: bool)
    ensures
        r == spec_admissible(*split),
{
    split.gain.above(Real64::neg_infinity())
}

/// The position that wins among the first `n` candidates, -1 where none is admissible. A
/// skipped position does not take part, and a later candidate has to beat the winner so far.
pub open spec fn winner(splits: Seq<SplitInfo>, skip: Seq<bool>, features: Seq<i32>, n: int) -> int
    decreases n,
{
    if n <= 0 {
        -1
    } else {
        let w = winner(splits, skip, features, n - 1);
        if !skip[n - 1] && spec_admissible(splits[n - 1]) && spec_split_gt(
            splits[n - 1],
            features[n - 1],
            held(splits, w),
            held_feature(features, w),
        ) {
            n - 1
        } else {
            w
        }
    }
}

/// The winner stands among the candidates that take part.
pub proof fn winner_takes_part(splits: Seq<SplitInfo>, skip: Seq<bool>, features: Seq<i32>, n: int)
    requires
        0 <= n <= splits.len(),
    ensures
        -1 <= winner(splits, skip, features, n) < n,
        winner(splits, skip, features, n) >= 0 ==> !skip[winner(splits, skip, features, n)]
            && spec_admissible(splits[winner(splits, skip, features, n)]),
    decreases n,
{
    if n > 0 {
        winner_takes_part(splits, skip, features, n - 1);
    }
}

/// Nobody wins exactly where every position is skipped or holds no split: a gain of minus
/// infinity never wins, whatever its feature.
pub proof fn nobody_wins_iff_none_is_admissible(
    splits: Seq<SplitInfo>,
    skip: Seq<bool>,
    features: Seq<i32>,
    n: int,
)
    requires
        0 <= n <= splits.len(),
    ensures
        winner(splits, skip, features, n) == -1 <==> forall|k: int|
            0 <= k < n ==> skip[k] || !spec_admissible(#[trigger] splits[k]),
        winner(splits, skip, features, n) == -1 ==> held(splits, winner(splits, skip, features, n))
            == SplitInfo::spec_none(),
    decreases n,
{
    if n > 0 {
        nobody_wins_iff_none_is_admissible(splits, skip, features, n - 1);
        winner_takes_part(splits, skip, features, n - 1);
        let w = winner(splits, skip, features, n - 1);
        if !skip[n - 1] && spec_admissible(splits[n - 1]) {
            if w < 0 {
                assert(winner(splits, skip, features, n) == n - 1);
            }
            assert(!(forall|k: int| 0 <= k < n ==> skip[k] || !spec_admissible(#[trigger] splits[k])));
        } else {
            assert(winner(splits, skip, features, n) == w);
            if w >= 0 {
                assert(!skip[w] && spec_admissible(splits[w]));
            }
        }
    }
}

/// Where every gain is a number, no admissible candidate that takes part beats the winner, and
/// every earlier one loses to it.
pub proof fn winner_is_unbeaten(splits: Seq<SplitInfo>, skip: Seq<bool>, features: Seq<i32>, n: int)
    requires
        0 <= n <= splits.len(),
        forall|k: int| 0 <= k < n && !skip[k] ==> !(#[trigger] splits[k]).gain.spec_is_nan(),
    ensures
        ({
            let w = winner(splits, skip, features, n);
            &&& forall|k: int|
                0 <= k < n && !skip[k] && spec_admissible(splits[k]) ==> !spec_split_gt(
                    #[trigger] splits[k],
                    features[k],
                    held(splits, w),
                    held_feature(features, w),
                )
            &&& forall|k: int|
                0 <= k < w && !skip[k] ==> spec_split_gt(
                    splits[w],
                    features[w],
                    #[trigger] splits[k],
                    features[k],
                )
        }),
    decreases n,
{
    if n > 0 {
        winner_is_unbeaten(splits, skip, features, n - 1);
        winner_takes_part(splits, skip, features, n - 1);
        let v = winner(splits, skip, features, n - 1);
        let w = winner(splits, skip, features, n);
        let none = SplitInfo::spec_none();
        assert(!none.gain.spec_is_nan());
        assert forall|k: int| 0 <= k < n && !skip[k] && spec_admissible(splits[k]) implies !spec_split_gt(
            #[trigger] splits[k],
            features[k],
            held(splits, w),
            held_feature(features, w),
        ) by {
            if w == n - 1 && k < n - 1 {
                split_gt_is_strict(
                    splits[k],
                    features[k],
                    splits[w],
                    features[w],
                    held(splits, v),
                    held_feature(features, v),
                );
            }
        }
        if w == n - 1 {
            assert forall|k: int| 0 <= k < w && !skip[k] implies spec_split_gt(
                splits[w],
                features[w],
                #[trigger] splits[k],
                features[k],
            ) by {
                if spec_admissible(splits[k]) {
                    unbeaten_loses(
                        splits[k],
                        features[k],
                        held(splits, v),
                        held_feature(features, v),
                        splits[w],
                        features[w],
                    );
                }
            }
        }
    }
}

/// What beats a candidate also beats whatever does not beat that candidate.
proof fn unbeaten_loses(
    k: SplitInfo,
    k_feat: i32,
    v: SplitInfo,
    v_feat: i32,
    w: SplitInfo,
    w_feat: i32,
)
    requires
        !k.gain.spec_is_nan(),
        !v.gain.spec_is_nan(),
        !w.gain.spec_is_nan(),
        !spec_split_gt(k, k_feat, v, v_feat),
        spec_split_gt(w, w_feat, v, v_feat),
    ensures
        spec_split_gt(w, w_feat, k, k_feat),
{
}

/// The leaf that wins among the first `n` leaves; the first leaf where there is no other.
pub open spec fn best_leaf(leaf_best: Seq<SplitInfo>, features: Seq<i32>, n: int) -> int
    decreases n,
{
    if n <= 1 {
        0
    } else {
        let w = best_leaf(leaf_best, features, n - 1);
        if spec_split_gt(leaf_best[n - 1], features[n - 1], leaf_best[w], features[w]) {
            n - 1
        } else {
            w
        }
    }
}

/// The best leaf is one of the leaves.
pub proof fn best_leaf_in_range(leaf_best: Seq<SplitInfo>, features: Seq<i32>, n: int)
    ensures
        0 <= best_leaf(leaf_best, features, n),
        n > 0 ==> best_leaf(leaf_best, features, n) < n,
    decreases n,
{
    if n > 1 {
        best_leaf_in_range(leaf_best, features, n - 1);
    }
}

/// Where every gain is a number, no leaf beats the best leaf, and every earlier one loses to
/// it.
pub proof fn best_leaf_is_unbeaten(leaf_best: Seq<SplitInfo>, features: Seq<i32>, n: int)
    requires
        0 < n <= leaf_best.len(),
        forall|k: int| 0 <= k < n ==> !(#[trigger] leaf_best[k]).gain.spec_is_nan(),
    ensures
        ({
            let w = best_leaf(leaf_best, features, n);
            &&& forall|k: int|
                0 <= k < n ==> !spec_split_gt(
                    #[trigger] leaf_best[k],
                    features[k],
                    leaf_best[w],
                    features[w],
                )
            &&& forall|k: int|
                0 <= k < w ==> spec_split_gt(
                    leaf_best[w],
                    features[w],
                    #[trigger] leaf_best[k],
                    features[k],
                )
        }),
    decreases n,
{
    if n > 1 {
        best_leaf_is_unbeaten(leaf_best, features, n - 1);
        best_leaf_in_range(leaf_best, features, n - 1);
        let v = best_leaf(leaf_best, features, n - 1);
        let w = best_leaf(leaf_best, features, n);
        if w == n - 1 {
            assert forall|k: int| 0 <= k < n implies !spec_split_gt(
                #[trigger] leaf_best[k],
                features[k],
                leaf_best[w],
                features[w],
            ) by {
                split_gt_is_strict(
                    leaf_best[k],
                    features[k],
                    leaf_best[w],
                    features[w],
                    leaf_best[v],
                    features[v],
                );
            }
            assert forall|k: int| 0 <= k < w implies spec_split_gt(
                leaf_best[w],
                features[w],
                #[trigger] leaf_best[k],
                features[k],
            ) by {
                unbeaten_loses(leaf_best[k], features[k], leaf_best[v], features[v], leaf_best[w], features[w]);
            }
        }
    }
}

/// The leaf to split next: the winner over the leaves' best candidates, leaf 0 first.
pub fn best_leaf_argmax(leaf_best: &[SplitInfo], leaf_real_feat: &[i32]) -> (leaf: i32)
    requires
        leaf_best@.len() <= i32::MAX,
        leaf_real_feat@.len() >= leaf_best@.len(),
    ensures
        leaf == best_leaf(leaf_best@, leaf_real_feat@, leaf_best@.len() as int),
{
    let mut best: usize = 0;
    let mut i: usize = 1;
    while i < leaf_best.len()
        invariant
            1 <= i,
            i <= leaf_best@.len() || (i == 1 && leaf_best@.len() == 0),
            leaf_best@.len() <= i32::MAX,
            leaf_real_feat@.len() >= leaf_best@.len(),
            best == best_leaf(leaf_best@, leaf_real_feat@, i as int),
            best < i,
        decreases leaf_best@.len() - i,
    {
        if split_gt(&leaf_best[i], leaf_real_feat[i], &leaf_best[best], leaf_real_feat[best]) {
            best = i;
        }
        i += 1;
    }
    best as i32
}

} // verus!
