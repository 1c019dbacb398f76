//! Launch keys, size bands and switches.
use lgbm_compute::kernels::autotune::{autotune_enabled, cache_namespace_id, size_band, LaunchKey};
use lgbm_compute::kernels::knobs::{
    grad_residency_enabled, grow_drain_enabled, on_device_f64_fused_build, ondevice_bin_hoist_enabled,
    ondevice_fused_partition_enabled, parse_number, parse_positive_u32_env, partition_fuse_bc_enabled,
    score_fused_scatter_enabled, set_fused_partition_override, set_partition_fuse_bc_override,
    sibling_copack_enabled,
};

#[test]
fn size_band_never_panics_on_zero() {
    assert_eq!(size_band(0), 0);
    assert_eq!(size_band(1), 0);
}

#[test]
fn size_band_is_monotonic_non_decreasing() {
    let mut prev = size_band(1);
    for rows in (2..100_000).step_by(37) {
        let b = size_band(rows);
        assert!(b >= prev, "band regressed at rows={rows}: {b} < {prev}");
        prev = b;
    }
}

#[test]
fn size_band_buckets_same_decade_together() {
    assert_eq!(size_band(1024), size_band(1500));
    assert_eq!(size_band(1024), size_band(2047));
    assert!(size_band(2048) > size_band(2047));
    assert_eq!(size_band(50_000), size_band(50_000));
}

#[test]
fn autotune_enabled_flips_with_env() {
    assert!(!autotune_enabled(Some("0")), "LGBM_AUTOTUNE=0 must disable");
    assert!(autotune_enabled(Some("1")), "LGBM_AUTOTUNE=1 must enable");
    assert!(autotune_enabled(None), "unset must default-on");
}

#[test]
fn launch_key_display_and_namespace() {
    let k = LaunchKey { bucket: 10, feats: 50, bins: 256 };
    assert_eq!(k.to_string(), "LaunchKey(bucket=10,feats=50,bins=256)");
    assert_eq!(cache_namespace_id(), "rocm:0");
}

#[test]
fn size_band_is_the_binary_logarithm() {
    assert_eq!(size_band(2), 1);
    assert_eq!(size_band(3), 1);
    assert_eq!(size_band(4), 2);
    assert_eq!(size_band(1023), 9);
    assert_eq!(size_band(1024), 10);
    assert_eq!(size_band(1 << 40), 40);
}

#[test]
fn switches_are_on_unless_zero() {
    for on in [
        grad_residency_enabled,
        score_fused_scatter_enabled,
        sibling_copack_enabled,
        ondevice_bin_hoist_enabled,
    ] {
        assert!(on(None));
        assert!(on(Some("1")));
        assert!(on(Some("")));
        assert!(on(Some("00")));
        assert!(!on(Some("0")));
    }
}

#[test]
fn switches_are_off_unless_one() {
    for off in [on_device_f64_fused_build, grow_drain_enabled] {
        assert!(!off(None));
        assert!(!off(Some("0")));
        assert!(!off(Some("true")));
        assert!(off(Some("1")));
    }
}

#[test]
fn override_wins_over_the_switch() {
    let mut code = 0u8;
    assert!(ondevice_fused_partition_enabled(code, None));
    assert!(!ondevice_fused_partition_enabled(code, Some("0")));
    set_fused_partition_override(&mut code, Some(true));
    assert!(ondevice_fused_partition_enabled(code, Some("0")));
    set_fused_partition_override(&mut code, Some(false));
    assert!(!ondevice_fused_partition_enabled(code, None));
    set_fused_partition_override(&mut code, None);
    assert!(ondevice_fused_partition_enabled(code, None));

    let mut bc = 0u8;
    let default = partition_fuse_bc_enabled(bc, None);
    set_partition_fuse_bc_override(&mut bc, Some(!default));
    assert_eq!(partition_fuse_bc_enabled(bc, None), !default);
    set_partition_fuse_bc_override(&mut bc, None);
    assert_eq!(partition_fuse_bc_enabled(bc, None), default);
}

#[test]
fn numbers_parse_like_the_standard_library() {
    for text in ["", "+", "0", "7", "+7", "007", "-1", " 7", "7 ", "4294967295", "4294967296", "abc", "1e3"] {
        let wide = text.parse::<u32>().ok();
        assert_eq!(parse_number(text, u64::from(u32::MAX)), wide.map(u64::from), "text {text:?}");
        assert_eq!(parse_positive_u32_env(Some(text)), wide.filter(|&v| v > 0), "text {text:?}");
    }
    assert_eq!(parse_positive_u32_env(None), None);
    assert_eq!(parse_number("18446744073709551615", u64::MAX), Some(u64::MAX));
    assert_eq!(parse_number("18446744073709551616", u64::MAX), None);
}
