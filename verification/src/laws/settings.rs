//! What the settings switch on and off, and which plan they lead to.
use crate::kernels::autotune;
use crate::kernels::grow_driver;
use crate::kernels::grow_feature::GrowFeature;
use crate::kernels::grow_ledger;
use crate::kernels::grow_resident;
use crate::kernels::grow_resident::PartitionArm;
use crate::kernels::knobs;
use crate::kernels::resident_machine;
use crate::kernels::row_partition;
use crate::kernels::row_partition::BuildPlan;
use crate::laws::numbers;
use crate::text;
use vstd::arithmetic::power2;
use vstd::prelude::*;

verus! {

/// A switch that is on by default is off exactly where its setting is "0".
pub proof fn default_switches_go_off_at_zero(
    switch: Option<&str>,
    residency: bool,
    scatter: bool,
    copack: bool,
    hoist: bool,
    tuning: bool,
)
    requires
        call_ensures(knobs::grad_residency_enabled, (switch,), residency),
        call_ensures(knobs::score_fused_scatter_enabled, (switch,), scatter),
        call_ensures(knobs::sibling_copack_enabled, (switch,), copack),
        call_ensures(knobs::ondevice_bin_hoist_enabled, (switch,), hoist),
        call_ensures(autotune::autotune_enabled, (switch,), tuning),
    ensures
        switch is None ==> residency && scatter && copack && hoist && tuning,
        switch is Some && switch->0@ == "0"@ ==> !residency && !scatter && !copack && !hoist && !tuning,
        switch is Some && switch->0@ != "0"@ ==> residency && scatter && copack && hoist && tuning,
{
}

/// A switch that is off by default is on exactly where its setting is "1".
pub proof fn other_switches_go_on_at_one(switch: Option<&str>, fused: bool, drain: bool, profiling: bool)
    requires
        call_ensures(knobs::on_device_f64_fused_build, (switch,), fused),
        call_ensures(knobs::grow_drain_enabled, (switch,), drain),
        call_ensures(grow_ledger::launch_prof_enabled, (switch,), profiling),
    ensures
        switch is None ==> !fused && !drain && !profiling,
        switch is Some && switch->0@ == "1"@ ==> fused && drain && profiling,
        switch is Some && switch->0@ != "1"@ ==> !fused && !drain && !profiling,
{
}

/// An override decides whatever the setting is; once it is taken back, the setting decides again.
pub proof fn overrides_beat_the_settings(
    code: u8,
    v: Option<bool>,
    switch: Option<&str>,
    fused: bool,
    fuse_bc: bool,
)
    requires
        code == knobs::override_code(v),
        call_ensures(knobs::ondevice_fused_partition_enabled, (code, switch), fused),
        call_ensures(knobs::partition_fuse_bc_enabled, (code, switch), fuse_bc),
    ensures
        v matches Some(b) ==> fused == b && fuse_bc == b,
        v is None ==> (fused <==> !(switch is Some && switch->0@ == "0"@)),
        v is None ==> (fuse_bc <==> switch is Some && switch->0@ == "1"@),
{
}

/// Setting an override stores what is read back as the override.
pub proof fn overrides_are_stored(fused: &mut u8, fuse_bc: &mut u8, v: Option<bool>)
    requires
        call_ensures(knobs::set_fused_partition_override, (fused, v), ()),
        call_ensures(knobs::set_partition_fuse_bc_override, (fuse_bc, v), ()),
    ensures
        v is None ==> *final(fused) == 0 && *final(fuse_bc) == 0,
        v == Some(true) ==> *final(fused) == 1 && *final(fuse_bc) == 1,
        v == Some(false) ==> *final(fused) == 2 && *final(fuse_bc) == 2,
{
}

/// The target of launches is the setting where there is one, else eight for each compute unit that was
/// counted, else 64.
pub proof fn target_comes_from_the_setting(setting: Option<u32>, units: Option<u32>, target: u32)
    requires
        call_ensures(row_partition::resolve_target_cubes, (setting, units), target),
    ensures
        setting is Some && setting->0 > 0 ==> target == setting->0,
        !(setting is Some && setting->0 > 0) && units is Some && 0 < units->0 && 8 * units->0 <= u32::MAX ==> target
            == 8 * units->0,
        !(setting is Some && setting->0 > 0) && units is Some && 8 * units->0 > u32::MAX ==> target == u32::MAX,
        !(setting is Some && setting->0 > 0) && !(units is Some && units->0 > 0) ==> target == 64,
{
}

/// A forced number of groups is the positive number of its setting, sixteen at most.
pub proof fn forced_groups_are_the_setting(setting: &str, n: nat, forced: Option<u32>)
    requires
        call_ensures(row_partition::force_row_partition, (Some(setting),), forced),
        setting@ == text::decimal(n),
    ensures
        n == 0 || n > u32::MAX ==> forced is None,
        0 < n <= 16 ==> forced == Some(n as u32),
        16 < n <= u32::MAX ==> forced == Some(16u32),
{
    numbers::settings_read_decimals(n, u32::MAX as int);
}

/// Without a setting no number of groups is forced.
pub proof fn groups_are_not_forced_by_default(forced: Option<u32>)
    requires
        call_ensures(row_partition::force_row_partition, (None::<&str>,), forced),
    ensures
        forced is None,
{
}

/// The rows from which a leaf is dealt to groups are 256000, unless a setting says otherwise.
pub proof fn small_leaves_stay_whole(
    num_features: usize,
    leaf_rows: usize,
    target: u32,
    groups: u32,
)
    requires
        call_ensures(row_partition::row_partition_count, (num_features, leaf_rows, None::<&str>, target), groups),
    ensures
        leaf_rows < 256_000 ==> groups == 1,
        1 <= groups <= 16,
        leaf_rows >= 256_000 && groups > 1 ==> groups * num_features <= target,
        leaf_rows >= 256_000 && 0 < num_features && groups < 16 ==> (groups + 1) * num_features > target,
{
    numbers::groups_fill_the_target(num_features as int, leaf_rows as int, 256_000, target as int);
}

/// The same with a setting that is a number.
pub proof fn small_leaves_follow_the_setting(
    num_features: usize,
    leaf_rows: usize,
    setting: &str,
    n: nat,
    target: u32,
    groups: u32,
)
    requires
        call_ensures(row_partition::row_partition_count, (num_features, leaf_rows, Some(setting), target), groups),
        setting@ == text::decimal(n),
        n <= usize::MAX,
    ensures
        leaf_rows < n ==> groups == 1,
        1 <= groups <= 16,
        leaf_rows >= n && groups > 1 ==> groups * num_features <= target,
        leaf_rows >= n && 0 < num_features && groups < 16 ==> (groups + 1) * num_features > target,
{
    numbers::settings_read_decimals(n, usize::MAX as int);
    numbers::groups_fill_the_target(num_features as int, leaf_rows as int, n as int, target as int);
}

/// Nothing is built without rows or features. A feature of more than 256 bins is built cell by cell.
/// Else a forced number of groups is taken, then a tuned one where tuning is on and the gradients are not
/// resident, and else the computed one.
pub proof fn build_is_planned_by_size(
    rows: usize,
    num_features: usize,
    max_w: u32,
    fixed_point: bool,
    resident_gh: bool,
    forced: Option<u32>,
    autotune_on: bool,
    computed: u32,
    plan: BuildPlan,
)
    requires
        call_ensures(
            row_partition::plan_resident_build,
            (rows, num_features, max_w, fixed_point, resident_gh, forced, autotune_on, computed),
            plan,
        ),
        rows <= u32::MAX,
        num_features <= u32::MAX,
    ensures
        rows == 0 || num_features == 0 <==> plan is Nothing,
        rows > 0 && num_features > 0 && max_w > 512 <==> plan is CellByCell,
        rows > 0 && num_features > 0 && max_w <= 512 && forced is Some ==> plan == (BuildPlan::Direct {
            groups: forced->0,
        }),
        rows > 0 && num_features > 0 && max_w <= 512 && forced is None && (resident_gh || !autotune_on) ==> plan == (
        BuildPlan::Direct { groups: computed }),
        rows > 0 && num_features > 0 && max_w <= 512 && forced is None && !resident_gh && autotune_on ==> (
        plan matches BuildPlan::Tuned { key } && {
            &&& power2::pow2(key.bucket as nat) <= rows < power2::pow2((key.bucket + 1) as nat)
            &&& key.feats == num_features
            &&& key.bins == max_w / 2
        }),
{
    if rows > 0 {
        autotune::band_is_a_power_of_two_range(rows as nat);
        band_below(rows as nat);
    }
}

proof fn band_below(n: nat)
    requires
        1 <= n <= u32::MAX,
    ensures
        autotune::floor_log2(n) < 32,
{
    autotune::band_is_a_power_of_two_range(n);
    let b = autotune::floor_log2(n);
    power2::lemma2_to64();
    if b >= 32 {
        if b > 32 {
            power2::lemma_pow2_strictly_increases(32, b);
        }
    }
}

/// The bins are uploaded unless they are there and kept.
pub proof fn kept_bins_are_not_uploaded(switch: Option<&str>, already_there: bool, r: bool)
    requires
        call_ensures(resident_machine::uploads_bins, (switch, already_there), r),
    ensures
        !already_there ==> r,
        already_there ==> (r <==> switch is Some && switch->0@ == "0"@),
{
}

/// The partition runs on the host where the backend prefers that, fused unless it is switched off, and by
/// the kernels else.
pub proof fn preferred_host_partitions(prefers_host: bool, fused: bool, arm: PartitionArm)
    requires
        call_ensures(grow_resident::choose_partition_arm, (prefers_host, fused), arm),
    ensures
        arm is Device <==> !prefers_host,
        arm is HostFused <==> prefers_host && fused,
        arm is HostGather <==> prefers_host && !fused,
{
}

/// A growth is resident exactly where the pool supports it and no feature is categorical.
pub proof fn categorical_features_grow_on_the_host(
    supported: bool,
    features: &[GrowFeature],
    r: bool,
    i: int,
)
    requires
        call_ensures(grow_driver::takes_resident_arm, (supported, features), r),
        0 <= i < features@.len(),
    ensures
        r ==> supported && !features@[i].is_categorical(),
        supported && (forall|k: int|
            0 <= k < features@.len() ==> !(#[trigger] features@[k]).is_categorical()) ==> r,
{
}

} // verus!
