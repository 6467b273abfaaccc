use trackjoy::classify::DeviceType;
use trackjoy::config::{
    assign_mappings, compute_pad_params, resolve_shaping, AxisInfo, Config, ConfigError,
    GeometryError, Shaping,
};
use trackjoy::fixed::SCALE;

fn base_config() -> Config {
    Config {
        pad_mappings: Vec::new(),
        keys_mappings: Vec::new(),
        multitouch: false,
        width: None,
        height: None,
        dead_inner: None,
        dead_outer: None,
        curve: None,
        y_smash: None,
    }
}

fn shaping() -> Shaping {
    resolve_shaping(&base_config()).unwrap()
}

#[test]
fn shaping_defaults() {
    let s = shaping();
    assert_eq!(s.active_low, 100_000);
    assert_eq!(s.active_high, 600_000);
    assert_eq!((s.curve_n, s.curve_d), (1, 1));
    assert_eq!((s.smash_n, s.smash_d), (3, 1));
}

#[test]
fn shaping_rejects_out_of_range_dead_zone() {
    let mut c = base_config();
    c.dead_inner = Some(-1);
    assert_eq!(resolve_shaping(&c).unwrap_err(), ConfigError::DeadZoneRange);
    let mut c = base_config();
    c.dead_outer = Some(SCALE + 1);
    assert_eq!(resolve_shaping(&c).unwrap_err(), ConfigError::DeadZoneRange);
}

#[test]
fn shaping_rejects_overlapping_dead_zones() {
    // 1 - dead_outer must strictly exceed dead_inner
    let mut c = base_config();
    c.dead_inner = Some(600_000);
    c.dead_outer = Some(400_000);
    assert_eq!(resolve_shaping(&c).unwrap_err(), ConfigError::DeadZoneOverlap);
}

#[test]
fn shaping_accepts_boundary_dead_zones() {
    let mut c = base_config();
    c.dead_inner = Some(599_999);
    c.dead_outer = Some(400_000);
    let s = resolve_shaping(&c).unwrap();
    assert_eq!(s.active_low, 599_999);
    assert_eq!(s.active_high, 600_000);
}

#[test]
fn shaping_rejects_bad_exponents() {
    let mut c = base_config();
    c.curve = Some((0, 1));
    assert_eq!(resolve_shaping(&c).unwrap_err(), ConfigError::BadCurve);
    let mut c = base_config();
    c.curve = Some((7, 1));
    assert_eq!(resolve_shaping(&c).unwrap_err(), ConfigError::BadCurve);
    let mut c = base_config();
    c.y_smash = Some((1, 2));
    assert_eq!(resolve_shaping(&c).unwrap_err(), ConfigError::BadSmash);
}

#[test]
fn mapping_assignment_in_device_order() {
    let devs = vec![
        DeviceType::Keys,
        DeviceType::Pad,
        DeviceType::Keys,
        DeviceType::Pad,
    ];
    let idxs = assign_mappings(&devs, 2, 2).unwrap();
    assert_eq!(idxs, vec![0, 0, 1, 1]);
}

#[test]
fn mapping_assignment_fails_on_exhausted_kind() {
    let devs = vec![DeviceType::Pad, DeviceType::Pad];
    let err = assign_mappings(&devs, 0, 1).unwrap_err();
    assert!(matches!(err, DeviceType::Pad));
    let devs = vec![DeviceType::Keys];
    let err = assign_mappings(&devs, 0, 5).unwrap_err();
    assert!(matches!(err, DeviceType::Keys));
}

fn axis(min: i32, max: i32, resolution: i32) -> AxisInfo {
    AxisInfo { min, max, resolution }
}

#[test]
fn geometry_without_resolution_uses_shorter_half_range() {
    let p = compute_pad_params(
        axis(0, 2000, 0),
        axis(0, 3000, 0),
        None,
        None,
        shaping(),
        false,
        0,
        1,
        (10, 11, 12, 13),
    )
    .unwrap();
    assert_eq!(p.mid_x, 1000);
    assert_eq!(p.mid_y, 1500);
    assert_eq!(p.div_x, 1000 * SCALE);
    assert_eq!(p.div_y, 1000 * SCALE);
}

#[test]
fn geometry_ratio_corrects_for_resolution() {
    // x spans 100 mm, y spans 200 mm: y is the longer physical axis, so x's
    // half-range defines the unit circle and y is resolution-corrected
    let p = compute_pad_params(
        axis(0, 2000, 20),
        axis(0, 2000, 10),
        None,
        None,
        shaping(),
        false,
        0,
        1,
        (10, 11, 12, 13),
    )
    .unwrap();
    assert_eq!(p.div_x, 1000 * SCALE);
    assert_eq!(p.div_y, 500 * SCALE);
}

#[test]
fn geometry_width_override() {
    // 2 cm radius at 20 units/mm: 2 * 10 * 20 = 400 device units
    let p = compute_pad_params(
        axis(0, 2000, 20),
        axis(0, 2000, 20),
        Some(2 * SCALE),
        None,
        shaping(),
        false,
        0,
        1,
        (10, 11, 12, 13),
    )
    .unwrap();
    assert_eq!(p.div_x, 400 * SCALE);
    assert_eq!(p.div_y, 1000 * SCALE);
}

#[test]
fn geometry_rejects_degenerate_axis() {
    let err = compute_pad_params(
        axis(0, 1, 0),
        axis(0, 2000, 0),
        None,
        None,
        shaping(),
        false,
        0,
        1,
        (10, 11, 12, 13),
    )
    .unwrap_err();
    assert_eq!(err, GeometryError::DegenerateAxis);
}

#[test]
fn geometry_rejects_unusable_divisor() {
    let err = compute_pad_params(
        axis(0, 2000, 0),
        axis(0, 2000, 0),
        Some(0),
        None,
        shaping(),
        false,
        0,
        1,
        (10, 11, 12, 13),
    )
    .unwrap_err();
    assert_eq!(err, GeometryError::DivisorRange);
}
