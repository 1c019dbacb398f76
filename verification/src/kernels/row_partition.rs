//! How the build of a leaf's histogram is launched: the number of row groups per feature, and
//! the choice between the tuned, the direct and the cell-by-cell build.
use crate::kernels::autotune;
use crate::kernels::autotune::LaunchKey;
use crate::kernels::fixed_build;
use crate::kernels::knobs;
use crate::text;
use vstd::prelude::*;

verus! {

/// The fewest rows of a leaf whose build is divided, unless a setting says otherwise.
pub const ROWPART_MIN_LEAF: usize = 256_000;

/// How many cubes a compute unit should get.
pub const CUBES_PER_CU: u32 = 8;

/// How many cubes to aim for where the device does not say how many units it has.
pub const ROWPART_TARGET_CUBES_FALLBACK: u32 = 64;

/// The most row groups of a build.
pub const ROWPART_P_MAX: u32 = 16;

/// The numbers of row groups that the tuner knows.
pub const BUILD_PSET: [u32; 5] = [1, 4, 8, 16, 32];

/// How many cubes to aim for: the setting, if it is positive; else eight for each compute unit
/// that the device has; else the fallback.
pub fn resolve_target_cubes(env_override: Option<u32>, queried_cu: Option<u32>) -> (target: u32)
    ensures
        target == (if env_override matches Some(t) && t > 0 {
            env_override->0 as int
        } else if queried_cu matches Some(n) && n > 0 {
            if queried_cu->0 * CUBES_PER_CU <= u32::MAX {
                queried_cu->0 * CUBES_PER_CU
            } else {
                u32::MAX as int
            }
        } else {
            ROWPART_TARGET_CUBES_FALLBACK as int
        }),
        target > 0,
{
    if let Some(t) = env_override {
        if t > 0 {
            return t;
        }
    }
    if let Some(n) = queried_cu {
        if n > 0 {
            return match n.checked_mul(CUBES_PER_CU) {
                Some(target) => target,
                None => u32::MAX,
            };
        }
    }
    ROWPART_TARGET_CUBES_FALLBACK
}

/// The fewest rows of a leaf whose build is divided, by the setting's text.
pub open spec fn min_leaf_rows(setting: Option<Seq<char>>) -> int {
    match setting {
        Some(s) => match knobs::number_up_to(s, usize::MAX as int) {
            Some(v) => v,
            None => ROWPART_MIN_LEAF as int,
        },
        None => ROWPART_MIN_LEAF as int,
    }
}

/// The number of row groups that brings the cubes of a build to the target: one where the leaf is
/// small or the features alone reach the target, else as many as the target has room for.
pub open spec fn group_count(num_features: int, leaf_rows: int, min_rows: int, target: int) -> int {
    if num_features == 0 || leaf_rows < min_rows || num_features >= target {
        1
    } else if target / num_features > ROWPART_P_MAX {
        ROWPART_P_MAX as int
    } else {
        target / num_features
    }
}

/// The number of row groups for a build. `min_setting` is the text of the setting for the fewest
/// rows, and `target` is the number of cubes to aim for.
pub fn row_partition_count(
    num_features: usize,
    leaf_rows: usize,
    min_setting: Option<&str>,
    target: u32,
) -> (groups: u32)
    requires
        num_features <= u32::MAX,
    ensures
        groups == group_count(
            num_features as int,
            leaf_rows as int,
            min_leaf_rows(
                match min_setting {
                    Some(s) => Some(s@),
                    None => None,
                },
            ),
            target as int,
        ),
        1 <= groups <= ROWPART_P_MAX,
{
    let min_leaf: usize = match min_setting {
        Some(s) => match knobs::parse_number(s, usize::MAX as u64) {
            Some(v) => v as usize,
            None => ROWPART_MIN_LEAF,
        },
        None => ROWPART_MIN_LEAF,
    };
    if num_features == 0 || leaf_rows < min_leaf {
        return 1;
    }
    let nf: u32 = num_features as u32;
    if nf >= target {
        return 1;
    }
    let share: u32 = target / nf;
    proof {
        assert(share as int == target as int / nf as int);
        assert(share >= 1) by (nonlinear_arith)
            requires
                share as int == target as int / nf as int,
                0 < nf < target,
        ;
    }
    if share > ROWPART_P_MAX {
        ROWPART_P_MAX
    } else {
        share
    }
}

/// More features never get more row groups.
pub proof fn more_features_need_fewer_groups(a: int, b: int, leaf_rows: int, min_rows: int, target: int)
    requires
        0 < a <= b,
        0 < target,
    ensures
        group_count(b, leaf_rows, min_rows, target) <= group_count(a, leaf_rows, min_rows, target),
        group_count(a, leaf_rows, min_rows, target) <= 1 || a * group_count(a, leaf_rows, min_rows, target)
            <= target,
{
    if a < target {
        let q = target / a;
        assert(q >= 1 && a * q <= target) by (nonlinear_arith)
            requires
                0 < a < target,
                q == target / a,
        ;
        assert(a * ROWPART_P_MAX <= a * q || q <= ROWPART_P_MAX) by (nonlinear_arith)
            requires
                0 < a,
        ;
        if b < target {
            assert(target / b <= target / a) by (nonlinear_arith)
                requires
                    0 < a <= b,
                    0 < target,
            ;
        }
    }
}

/// The number of row groups that a setting forces: a positive number, at most the largest
/// number of groups.
pub fn force_row_partition(setting: Option<&str>) -> (forced: Option<u32>)
    ensures
        forced == (match setting {
            Some(s) => match knobs::positive_u32(s@) {
                Some(k) => Some(
                    if k > ROWPART_P_MAX {
                        ROWPART_P_MAX
                    } else {
                        k
                    },
                ),
                None => None,
            },
            None => None,
        }),
        forced matches Some(k) ==> 1 <= k <= ROWPART_P_MAX,
{
    match knobs::parse_positive_u32_env(setting) {
        Some(k) => if k > ROWPART_P_MAX {
            Some(ROWPART_P_MAX)
        } else {
            Some(k)
        },
        None => None,
    }
}

/// The first cell of each feature, with the number of all cells behind the last one.
pub open spec fn with_sentinel(slot_off: Seq<usize>, slot_len: usize) -> Seq<u32> {
    Seq::new(slot_off.len() + 1, |i: int| if i < slot_off.len() {
        slot_off[i] as u32
    } else {
        slot_len as u32
    })
}

/// The most cells that lie between two neighbours among the first `n + 1` bounds.
pub open spec fn widest(bounds: Seq<u32>, n: int) -> int
    decreases n,
{
    if n <= 0 {
        0
    } else {
        let w = bounds[n] - bounds[n - 1];
        let rest = widest(bounds, n - 1);
        if w > rest {
            w
        } else {
            rest
        }
    }
}

/// The widest region is at least as wide as every region.
pub proof fn widest_bounds_regions(bounds: Seq<u32>, n: int)
    requires
        0 <= n < bounds.len(),
    ensures
        forall|f: int| 0 <= f < n ==> (#[trigger] bounds[f + 1]) - bounds[f] <= widest(bounds, n),
        widest(bounds, n) >= 0,
    decreases n,
{
    if n > 0 {
        widest_bounds_regions(bounds, n - 1);
    }
}

/// The first cells of the features with the number of all cells behind them, and the width of the
/// widest feature.
pub fn slot_off_sentinel(slot_off: &[usize], slot_len: usize) -> (r: (Vec<u32>, u32))
    requires
        slot_len <= u32::MAX,
        forall|i: int, j: int|
            0 <= i <= j < slot_off@.len() ==> #[trigger] slot_off@[i] <= #[trigger] slot_off@[j],
        slot_off@.len() > 0 ==> slot_off@.last() <= slot_len,
    ensures
        r.0@ == with_sentinel(slot_off@, slot_len),
        r.1 == widest(r.0@, slot_off@.len() as int),
        fixed_build::slots_in_order(r.0@, slot_len as int),
{
    let n: usize = slot_off.len();
    let mut s: Vec<u32> = Vec::with_capacity(n);
    let ghost bounds = with_sentinel(slot_off@, slot_len);
    let mut i: usize = 0;
    while i < n
        invariant
            i <= n,
            n == slot_off@.len(),
            slot_len <= u32::MAX,
            forall|k: int, j: int|
                0 <= k <= j < slot_off@.len() ==> #[trigger] slot_off@[k] <= #[trigger] slot_off@[j],
            slot_off@.len() > 0 ==> slot_off@.last() <= slot_len,
            bounds == with_sentinel(slot_off@, slot_len),
            s@ == bounds.take(i as int),
        decreases n - i,
    {
        assert(slot_off@[i as int] <= slot_off@[n - 1]);
        s.push(slot_off[i] as u32);
        i += 1;
        assert(s@ =~= bounds.take(i as int));
    }
    s.push(slot_len as u32);
    assert(s@ =~= bounds);
    proof {
        assert forall|k: int, j: int| 0 <= k <= j < bounds.len() implies #[trigger] bounds[k] <= #[trigger] bounds[j] by {
            if j < n {
                assert(slot_off@[k] <= slot_off@[j]);
                assert(slot_off@[j] <= slot_off@[n - 1]);
            } else if k < n {
                assert(slot_off@[k] <= slot_off@[n - 1]);
            }
        }
    }
    let mut max_w: u32 = 0;
    let mut f: usize = 0;
    while f < n
        invariant
            f <= n,
            s@.len() == n + 1,
            forall|k: int, j: int| 0 <= k <= j < s@.len() ==> #[trigger] s@[k] <= #[trigger] s@[j],
            max_w == widest(s@, f as int),
        decreases n - f,
    {
        assert(s@[f as int] <= s@[f + 1]);
        let w: u32 = s[f + 1] - s[f];
        if w > max_w {
            max_w = w;
        }
        f += 1;
    }
    (s, max_w)
}

/// How a leaf's histogram is built.
#[derive(Clone, Debug, PartialEq, Eq)]
pub enum BuildPlan {
    /// There are no rows or no features: the cells stay as they are.
    Nothing,
    /// One launch with this many row groups per feature.
    Direct { groups: u32 },
    /// The tuner picks the number of row groups of launches with this key.
    Tuned { key: LaunchKey },
    /// A feature is too wide for a sub-histogram: each row adds to the cells directly.
    CellByCell,
}

/// Plan the build of `rows` rows and `num_features` features, the widest of which has `max_w`
/// cells. Values that are gathered on the device are built directly, with the forced number of
/// groups or the computed one; others are forced, tuned or computed, in this order.
pub fn plan_resident_build(
    rows: usize,
    num_features: usize,
    max_w: u32,
    fixed_point: bool,
    resident_gh: bool,
    forced: Option<u32>,
    autotune_on: bool,
    computed: u32,
) -> (plan: BuildPlan)
    requires
        num_features <= u32::MAX,
        rows > 0 && num_features > 0 && resident_gh ==> fixed_point && max_w <= fixed_build::HIST_LDS_MAX,
        rows > 0 && num_features > 0 && fixed_point ==> max_w <= fixed_build::HIST_LDS_MAX,
    ensures
        plan == (if rows == 0 || num_features == 0 {
            BuildPlan::Nothing
        } else if max_w > fixed_build::HIST_LDS_MAX {
            BuildPlan::CellByCell
        } else if forced is Some {
            BuildPlan::Direct { groups: forced->0 }
        } else if !resident_gh && autotune_on {
            BuildPlan::Tuned {
                key: LaunchKey {
                    bucket: autotune::floor_log2(rows as nat) as u32,
                    feats: num_features as u32,
                    bins: max_w / 2,
                },
            }
        } else {
            BuildPlan::Direct { groups: computed }
        }),
{
    if rows == 0 || num_features == 0 {
        return BuildPlan::Nothing;
    }
    if max_w as usize > fixed_build::HIST_LDS_MAX {
        return BuildPlan::CellByCell;
    }
    if let Some(groups) = forced {
        return BuildPlan::Direct { groups };
    }
    if !resident_gh && autotune_on {
        return BuildPlan::Tuned {
            key: LaunchKey { bucket: autotune::size_band(rows), feats: num_features as u32, bins: max_w / 2 },
        };
    }
    BuildPlan::Direct { groups: computed }
}

/// What decides the number of row groups of a build.
#[derive(Clone, Copy, Debug, PartialEq, Eq)]
pub struct GroupChoice<'a> {
    /// The number that a setting forces.
    pub forced: Option<u32>,
    /// Whether the tuner decides where nothing is forced.
    pub autotune_on: bool,
    /// The number that the tuner found fastest.
    pub tuned: u32,
    /// The text of the setting for the fewest rows of a divided build.
    pub min_setting: Option<&'a str>,
    /// How many cubes to aim for.
    pub target: u32,
}

impl<'a> GroupChoice<'a> {
    /// No choice leads to a build without groups.
    pub open spec fn wf(&self) -> bool {
        &&& self.forced matches Some(k) ==> k >= 1
        &&& self.tuned >= 1
    }

    /// The number of row groups for a build of `rows` rows and `num_features` features: the forced
    /// one, else the tuned one where the values are gathered before the build, else the computed
    /// one.
    pub open spec fn groups(&self, rows: int, num_features: int, resident_gh: bool) -> int {
        match self.forced {
            Some(k) => k as int,
            None => if !resident_gh && self.autotune_on {
                self.tuned as int
            } else {
                group_count(
                    num_features,
                    rows,
                    min_leaf_rows(
                        match self.min_setting {
                            Some(s) => Some(s@),
                            None => None,
                        },
                    ),
                    self.target as int,
                )
            },
        }
    }
}

/// The number of row groups that a build takes, `None` where it takes no groups.
pub fn planned_groups(
    choice: &GroupChoice<'_>,
    rows: usize,
    num_features: usize,
    max_w: u32,
    fixed_point: bool,
    resident_gh: bool,
) -> (groups: Option<u32>)
    requires
        choice.wf(),
        0 < rows,
        0 < num_features <= u32::MAX,
        resident_gh ==> fixed_point,
        fixed_point ==> max_w <= fixed_build::HIST_LDS_MAX,
    ensures
        groups is None <==> max_w > fixed_build::HIST_LDS_MAX,
        groups matches Some(g) ==> g >= 1 && g == choice.groups(rows as int, num_features as int, resident_gh),
{
    let computed: u32 = row_partition_count(num_features, rows, choice.min_setting, choice.target);
    let plan = plan_resident_build(
        rows,
        num_features,
        max_w,
        fixed_point,
        resident_gh,
        choice.forced,
        choice.autotune_on,
        computed,
    );
    match plan {
        BuildPlan::Direct { groups } => Some(groups),
        BuildPlan::Tuned { .. } => Some(choice.tuned),
        BuildPlan::CellByCell => None,
        BuildPlan::Nothing => None,
    }
}

/// The numbers of row groups that are tried out, in the tuner's order: those of the known numbers
/// that are not too large.
pub fn build_candidates() -> (candidates: Vec<u32>)
    ensures
        candidates@ == BUILD_PSET@.filter(|p: u32| p <= ROWPART_P_MAX),
        candidates@ == seq![1u32, 4u32, 8u32, 16u32],
{
    let mut candidates: Vec<u32> = Vec::new();
    let mut i: usize = 0;
    let ghost keep = |p: u32| p <= ROWPART_P_MAX;
    while i < 5
        invariant
            i <= 5,
            keep == (|p: u32| p <= ROWPART_P_MAX),
            candidates@ == BUILD_PSET@.take(i as int).filter(keep),
        decreases 5 - i,
    {
        let p: u32 = BUILD_PSET[i];
        proof {
            reveal(Seq::filter);
            assert(BUILD_PSET@.take(i + 1).drop_last() =~= BUILD_PSET@.take(i as int));
        }
        if p <= ROWPART_P_MAX {
            candidates.push(p);
        }
        i += 1;
    }
    proof {
        reveal(Seq::filter);
        let all = BUILD_PSET@;
        assert(all.take(5) =~= all);
        assert(all.take(1).drop_last() =~= all.take(0));
        assert(all.take(2).drop_last() =~= all.take(1));
        assert(all.take(3).drop_last() =~= all.take(2));
        assert(all.take(4).drop_last() =~= all.take(3));
        assert(all.take(5).drop_last() =~= all.take(4));
        assert(all.take(0).filter(keep) =~= Seq::<u32>::empty());
        assert(all.take(1).filter(keep) =~= seq![1u32]);
        assert(all.take(2).filter(keep) =~= seq![1u32, 4u32]);
        assert(all.take(3).filter(keep) =~= seq![1u32, 4u32, 8u32]);
        assert(all.take(4).filter(keep) =~= seq![1u32, 4u32, 8u32, 16u32]);
    }
    candidates
}

/// The name of the variant with the given number of row groups.
pub fn variant_name(groups: u32) -> (name: String)
    ensures
        name@ == "build_P"@ + text::decimal(groups as nat),
{
    let mut name: String = "build_P".to_owned();
    text::push_decimal(&mut name, groups as u64);
    name
}

} // verus!
