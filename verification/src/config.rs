//! Configuration: per-group mapping quotas, shaping parameters, and the
//! derivation of per-device pad parameters from device geometry.
//!
//! The configuration document itself is deserialized outside the crate and
//! handed in as plain values; everything here validates it and computes the
//! exact fixed-point parameters the engines run on.

use vstd::prelude::*;
use crate::classify::DeviceType;
use crate::fixed::SCALE;
use crate::pad::PadParams;

verus! {

/// Axis and button codes one pad instance emits on.
#[derive(Clone, Copy, Debug, PartialEq, Eq)]
pub struct PadButtonConfig {
    /// The two destination axis codes (x, y).
    pub axes: (u16, u16),
    /// The four quadrant button codes.
    pub buttons: (u16, u16, u16, u16),
}

/// The loaded configuration, in plain fixed-point values.  Fractional
/// fields use [`SCALE`] as 1.0; exponents are small rationals.
#[derive(Debug)]
pub struct Config {
    /// Pad mappings; the n-th pad device gets the n-th entry.
    pub pad_mappings: Vec<PadButtonConfig>,
    /// Key mappings (source code to destination code); the n-th keyboard
    /// device gets the n-th entry.
    pub keys_mappings: Vec<Vec<(u16, u16)>>,
    /// Whether touches beyond the lowest enabled slot participate.
    pub multitouch: bool,
    /// Optional pad horizontal radius override, in fixed-point centimeters.
    pub width: Option<i64>,
    /// Optional pad vertical radius override, in fixed-point centimeters.
    pub height: Option<i64>,
    /// Inner radial dead zone, 0 to 1; `None` takes the default 0.1.
    pub dead_inner: Option<i64>,
    /// Outer radial dead zone, 0 to 1; `None` takes the default 0.4.
    pub dead_outer: Option<i64>,
    /// Response-curve exponent as a rational; `None` is linear.
    pub curve: Option<(u32, u32)>,
    /// Vertical-compression exponent as a rational; `None` is 3.
    pub y_smash: Option<(u32, u32)>,
}

/// Why a configuration was rejected at startup.
#[derive(Clone, Copy, Debug, PartialEq, Eq, Structural)]
pub enum ConfigError {
    /// A dead-zone fraction lies outside the unit interval.
    DeadZoneRange,
    /// The dead zones overlap: `1 - dead_outer` must exceed `dead_inner`.
    DeadZoneOverlap,
    /// The curve exponent is outside the supported rational range.
    BadCurve,
    /// The compression exponent is outside the supported range or below one.
    BadSmash,
}

/// Validated shaping parameters shared by every pad instance.
#[derive(Clone, Copy, Debug, PartialEq, Eq, Structural)]
pub struct Shaping {
    pub active_low: i64,
    pub active_high: i64,
    pub curve_n: u32,
    pub curve_d: u32,
    pub smash_n: u32,
    pub smash_d: u32,
}

pub open spec fn spec_dead_inner(c: Config) -> int {
    match c.dead_inner {
        Some(v) => v as int,
        None => 100_000,
    }
}

pub open spec fn spec_dead_outer(c: Config) -> int {
    match c.dead_outer {
        Some(v) => v as int,
        None => 400_000,
    }
}

pub open spec fn spec_curve(c: Config) -> (int, int) {
    match c.curve {
        Some(v) => (v.0 as int, v.1 as int),
        None => (1, 1),
    }
}

pub open spec fn spec_smash(c: Config) -> (int, int) {
    match c.y_smash {
        Some(v) => (v.0 as int, v.1 as int),
        None => (3, 1),
    }
}

pub open spec fn dead_range_ok(c: Config) -> bool {
    &&& 0 <= spec_dead_inner(c) <= SCALE
    &&& 0 <= spec_dead_outer(c) <= SCALE
}

/// The startup constraint `1 - dead_outer > dead_inner`.
pub open spec fn dead_overlap_ok(c: Config) -> bool {
    SCALE - spec_dead_outer(c) > spec_dead_inner(c)
}

pub open spec fn curve_ok(c: Config) -> bool {
    &&& 1 <= spec_curve(c).0 <= 6
    &&& 1 <= spec_curve(c).1 <= 3
}

pub open spec fn smash_ok(c: Config) -> bool {
    &&& 1 <= spec_smash(c).0 <= 6
    &&& 1 <= spec_smash(c).1 <= 3
    &&& spec_smash(c).0 >= spec_smash(c).1
}

impl Shaping {
    /// The ranges the pad engine's parameters demand.
    pub open spec fn wf(self) -> bool {
        &&& 0 <= self.active_low < self.active_high <= SCALE
        &&& 1 <= self.curve_n <= 6
        &&& 1 <= self.curve_d <= 3
        &&& 1 <= self.smash_n <= 6
        &&& 1 <= self.smash_d <= 3
        &&& self.smash_n >= self.smash_d
    }
}

/// Validates the shaping part of a configuration.  Fails exactly when a
/// dead zone leaves the unit interval, the dead zones overlap, or an
/// exponent is unsupported — each a fatal startup error.
pub fn resolve_shaping(c: &Config) -> (r: Result<Shaping, ConfigError>)
    ensures
        match r {
            Ok(s) => {
                &&& dead_range_ok(*c)
                &&& dead_overlap_ok(*c)
                &&& curve_ok(*c)
                &&& smash_ok(*c)
                &&& s.active_low as int == spec_dead_inner(*c)
                &&& s.active_high as int == SCALE - spec_dead_outer(*c)
                &&& (s.curve_n as int, s.curve_d as int) == spec_curve(*c)
                &&& (s.smash_n as int, s.smash_d as int) == spec_smash(*c)
                &&& s.wf()
            },
            Err(e) => match e {
                ConfigError::DeadZoneRange => !dead_range_ok(*c),
                ConfigError::DeadZoneOverlap => dead_range_ok(*c) && !dead_overlap_ok(*c),
                ConfigError::BadCurve => dead_range_ok(*c) && dead_overlap_ok(*c) && !curve_ok(
                    *c,
                ),
                ConfigError::BadSmash => dead_range_ok(*c) && dead_overlap_ok(*c) && curve_ok(*c)
                    && !smash_ok(*c),
            },
        },
{
    let di: i64 = match c.dead_inner {
        Some(v) => v,
        None => 100_000,
    };
    let dout: i64 = match c.dead_outer {
        Some(v) => v,
        None => 400_000,
    };
    if !(0 <= di && di <= SCALE && 0 <= dout && dout <= SCALE) {
        return Err(ConfigError::DeadZoneRange);
    }
    if SCALE - dout <= di {
        return Err(ConfigError::DeadZoneOverlap);
    }
    let (cn, cd): (u32, u32) = match c.curve {
        Some(v) => v,
        None => (1, 1),
    };
    if !(1 <= cn && cn <= 6 && 1 <= cd && cd <= 3) {
        return Err(ConfigError::BadCurve);
    }
    let (sn, sd): (u32, u32) = match c.y_smash {
        Some(v) => v,
        None => (3, 1),
    };
    if !(1 <= sn && sn <= 6 && 1 <= sd && sd <= 3 && sn >= sd) {
        return Err(ConfigError::BadSmash);
    }
    Ok(Shaping {
        active_low: di,
        active_high: SCALE - dout,
        curve_n: cn,
        curve_d: cd,
        smash_n: sn,
        smash_d: sd,
    })
}

/// Assigns the next configured mapping of its kind to each device, in
/// device order: result is `Ok(indexes)` with `indexes[i]` the position of
/// device `i`'s mapping in its kind's list, or the kind of the first device
/// for which the configured mappings are exhausted.
pub open spec fn spec_assign(
    devs: Seq<DeviceType>,
    i: int,
    used_k: int,
    used_p: int,
    nk: int,
    np: int,
) -> Result<Seq<int>, DeviceType>
    decreases devs.len() - i when 0 <= i <= devs.len()
{
    if i >= devs.len() {
        Ok(Seq::empty())
    } else {
        match devs[i] {
            DeviceType::Keys => {
                if used_k >= nk {
                    Err(DeviceType::Keys)
                } else {
                    match spec_assign(devs, i + 1, used_k + 1, used_p, nk, np) {
                        Ok(rest) => Ok(seq![used_k] + rest),
                        Err(e) => Err(e),
                    }
                }
            },
            DeviceType::Pad => {
                if used_p >= np {
                    Err(DeviceType::Pad)
                } else {
                    match spec_assign(devs, i + 1, used_k, used_p + 1, nk, np) {
                        Ok(rest) => Ok(seq![used_p] + rest),
                        Err(e) => Err(e),
                    }
                }
            },
        }
    }
}

/// Walks the selected devices in order, handing keyboard devices the next
/// keys mapping and pads the next pad mapping; fails with the offending
/// kind when a device has no mapping left ("insufficient configured
/// mappings", a fatal startup error).
#[verifier::loop_isolation(false)]
pub fn assign_mappings(devs: &Vec<DeviceType>, n_keys: usize, n_pads: usize) -> (r: Result<
    Vec<usize>,
    DeviceType,
>)
    ensures
        match r {
            Ok(idxs) => spec_assign(devs@, 0, 0, 0, n_keys as int, n_pads as int) == Ok::<
                _,
                DeviceType,
            >(idxs@.map_values(|v: usize| v as int)),
            Err(e) => spec_assign(devs@, 0, 0, 0, n_keys as int, n_pads as int) == Err::<
                Seq<int>,
                _,
            >(e),
        },
{
    let mut out: Vec<usize> = Vec::new();
    let mut used_k: usize = 0;
    let mut used_p: usize = 0;
    let mut i: usize = 0;
    while i < devs.len()
        invariant
            i <= devs@.len(),
            out@.len() == i,
            used_k <= i,
            used_p <= i,
            used_k <= n_keys,
            used_p <= n_pads,
            spec_assign(devs@, 0, 0, 0, n_keys as int, n_pads as int) == (match spec_assign(
                devs@,
                i as int,
                used_k as int,
                used_p as int,
                n_keys as int,
                n_pads as int,
            ) {
                Ok(rest) => Ok::<_, DeviceType>(out@.map_values(|v: usize| v as int) + rest),
                Err(e) => Err::<Seq<int>, _>(e),
            }),
        decreases devs.len() - i,
    {
        let ghost pre_out = out@;
        match devs[i] {
            DeviceType::Keys => {
                if used_k >= n_keys {
                    return Err(DeviceType::Keys);
                }
                out.push(used_k);
                used_k = used_k + 1;
            },
            DeviceType::Pad => {
                if used_p >= n_pads {
                    return Err(DeviceType::Pad);
                }
                out.push(used_p);
                used_p = used_p + 1;
            },
        }
        i = i + 1;
        proof {
            let m = |v: usize| v as int;
            assert(out@.map_values(m) =~= pre_out.map_values(m).push(
                out@[out@.len() - 1] as int,
            ));
            assert forall|rest: Seq<int>|
                pre_out.map_values(m) + (seq![out@[out@.len() - 1] as int] + rest) =~= out@
                    .map_values(m) + rest by {}
        }
    }
    proof {
        assert(out@.map_values(|v: usize| v as int) + Seq::<int>::empty() =~= out@.map_values(
            |v: usize| v as int,
        ));
    }
    Ok(out)
}

/// Device-reported absolute-axis geometry.
#[derive(Clone, Copy, Debug, PartialEq, Eq, Structural)]
pub struct AxisInfo {
    pub min: i32,
    pub max: i32,
    pub resolution: i32,
}

/// Why pad geometry could not produce usable parameters.
#[derive(Clone, Copy, Debug, PartialEq, Eq, Structural)]
pub enum GeometryError {
    /// An axis spans fewer than two device units.
    DegenerateAxis,
    /// A unit divisor fell outside the usable range (below one device unit
    /// or implausibly large).
    DivisorRange,
}

/// Largest accepted fixed-point unit divisor.
pub const DIV_MAX: i64 = 1_000_000_000_000_000;

pub open spec fn spec_half(a: AxisInfo) -> int {
    (a.max - a.min) / 2
}

pub open spec fn spec_mid(a: AxisInfo) -> int {
    a.min + spec_half(a)
}

/// The ratio-corrected base divisors: the shorter physical axis defines the
/// unit circle, the other axis is scaled by the sampling-resolution ratio.
/// Without usable resolution information both axes fall back to the shorter
/// half-range.
pub open spec fn spec_base_divisors(x: AxisInfo, y: AxisInfo) -> (int, int) {
    let hx = spec_half(x);
    let hy = spec_half(y);
    let rx = x.resolution as int;
    let ry = y.resolution as int;
    if rx >= 1 && ry >= 1 {
        if (x.max - x.min) * ry > (y.max - y.min) * rx {
            (hy * rx * (SCALE as int) / ry, hy * (SCALE as int))
        } else {
            (hx * (SCALE as int), hx * ry * (SCALE as int) / rx)
        }
    } else {
        let m = if hx <= hy {
            hx
        } else {
            hy
        };
        (m * (SCALE as int), m * (SCALE as int))
    }
}

/// A configured physical radius (fixed-point centimeters) converted to a
/// divisor in device units, using the horizontal sampling resolution as the
/// remapper always has.
pub open spec fn spec_override_divisor(radius_cm: int, x: AxisInfo) -> int {
    radius_cm * 10 * (x.resolution as int)
}

pub open spec fn spec_div_x(x: AxisInfo, y: AxisInfo, width: Option<i64>) -> int {
    match width {
        Some(w) => spec_override_divisor(w as int, x),
        None => spec_base_divisors(x, y).0,
    }
}

pub open spec fn spec_div_y(x: AxisInfo, y: AxisInfo, height: Option<i64>) -> int {
    match height {
        Some(h) => spec_override_divisor(h as int, x),
        None => spec_base_divisors(x, y).1,
    }
}

/// Derives a pad engine's parameters from device geometry, shaping values
/// and destination codes.  Fails exactly on a degenerate axis span, or when
/// a computed unit divisor leaves `[SCALE, DIV_MAX]`.
pub fn compute_pad_params(
    x: AxisInfo,
    y: AxisInfo,
    width: Option<i64>,
    height: Option<i64>,
    shaping: Shaping,
    multitouch: bool,
    axis_x_code: u16,
    axis_y_code: u16,
    button_codes: (u16, u16, u16, u16),
) -> (r: Result<PadParams, GeometryError>)
    requires
        shaping.wf(),
    ensures
        match r {
            Ok(p) => {
                &&& x.max - x.min >= 2
                &&& y.max - y.min >= 2
                &&& p.wf()
                &&& p.mid_x as int == spec_mid(x)
                &&& p.mid_y as int == spec_mid(y)
                &&& p.div_x as int == spec_div_x(x, y, width)
                &&& p.div_y as int == spec_div_y(x, y, height)
                &&& p.active_low == shaping.active_low
                &&& p.active_high == shaping.active_high
                &&& p.curve_n == shaping.curve_n
                &&& p.curve_d == shaping.curve_d
                &&& p.smash_n == shaping.smash_n
                &&& p.smash_d == shaping.smash_d
                &&& p.multitouch == multitouch
                &&& p.axis_x_code == axis_x_code
                &&& p.axis_y_code == axis_y_code
                &&& p.button_codes == button_codes
            },
            Err(e) => match e {
                GeometryError::DegenerateAxis => x.max - x.min < 2 || y.max - y.min < 2,
                GeometryError::DivisorRange => {
                    &&& x.max - x.min >= 2
                    &&& y.max - y.min >= 2
                    &&& (spec_div_x(x, y, width) < SCALE || spec_div_x(x, y, width) > DIV_MAX
                        || spec_div_y(x, y, height) < SCALE || spec_div_y(x, y, height)
                        > DIV_MAX)
                },
            },
        },
{
    let range_x: i64 = (x.max as i64) - (x.min as i64);
    let range_y: i64 = (y.max as i64) - (y.min as i64);
    if range_x < 2 || range_y < 2 {
        return Err(GeometryError::DegenerateAxis);
    }
    let half_x: i64 = range_x / 2;
    let half_y: i64 = range_y / 2;
    let mid_x: i32 = (x.min as i64 + half_x) as i32;
    let mid_y: i32 = (y.min as i64 + half_y) as i32;
    let rx: i64 = x.resolution as i64;
    let ry: i64 = y.resolution as i64;
    // base divisors in i128; every operand is below 2^32 or SCALE
    let base_x: i128;
    let base_y: i128;
    if rx >= 1 && ry >= 1 {
        proof {
            assert((range_x as int) * (ry as int) <= 0x1_0000_0000 * 0x8000_0000
                && (range_y as int) * (rx as int) <= 0x1_0000_0000 * 0x8000_0000
                && (range_x as int) * (ry as int) >= 0
                && (range_y as int) * (rx as int) >= 0) by (nonlinear_arith)
                requires
                    2 <= range_x as int <= 0x1_0000_0000,
                    2 <= range_y as int <= 0x1_0000_0000,
                    1 <= rx as int <= 0x8000_0000,
                    1 <= ry as int <= 0x8000_0000,
            ;
        }
        proof {
            lemma_geo_product_bounds(half_y as int, rx as int);
            lemma_geo_product_bounds(half_x as int, ry as int);
        }
        if (range_x as i128) * (ry as i128) > (range_y as i128) * (rx as i128) {
            let num: i128 = (half_y as i128) * (rx as i128) * (SCALE as i128);
            base_x = num / (ry as i128);
            base_y = (half_y as i128) * (SCALE as i128);
        } else {
            let num: i128 = (half_x as i128) * (ry as i128) * (SCALE as i128);
            base_x = (half_x as i128) * (SCALE as i128);
            base_y = num / (rx as i128);
        }
    } else {
        let m: i64 = if half_x <= half_y {
            half_x
        } else {
            half_y
        };
        proof {
            assert(1 <= (m as int) * (SCALE as int) <= 0x8000_0000 * 1_000_000)
                by (nonlinear_arith)
                requires
                    1 <= m as int <= 0x8000_0000,
                    SCALE as int == 1_000_000,
            ;
        }
        base_x = (m as i128) * (SCALE as i128);
        base_y = base_x;
    }
    proof {
        lemma_override_bounds(rx as int);
    }
    let div_x_wide: i128 = match width {
        Some(w) => (w as i128) * 10 * (rx as i128),
        None => base_x,
    };
    let div_y_wide: i128 = match height {
        Some(h) => (h as i128) * 10 * (rx as i128),
        None => base_y,
    };
    if div_x_wide < SCALE as i128 || div_x_wide > DIV_MAX as i128 || div_y_wide
        < SCALE as i128 || div_y_wide > DIV_MAX as i128 {
        return Err(GeometryError::DivisorRange);
    }
    let div_x: i64 = div_x_wide as i64;
    let div_y: i64 = div_y_wide as i64;
    Ok(PadParams {
        mid_x,
        mid_y,
        div_x,
        div_y,
        active_low: shaping.active_low,
        active_high: shaping.active_high,
        curve_n: shaping.curve_n,
        curve_d: shaping.curve_d,
        smash_n: shaping.smash_n,
        smash_d: shaping.smash_d,
        multitouch,
        axis_x_code,
        axis_y_code,
        button_codes,
    })
}

/// The override products fit comfortably in `i128`.
proof fn lemma_override_bounds(rx: int)
    requires
        -0x8000_0000 <= rx <= 0x8000_0000,
    ensures
        forall|w: int|
            -0x8000_0000_0000_0000 <= w < 0x8000_0000_0000_0000
                ==> -0x2800_0000_0000_0000_0000_0000_0000 <= #[trigger] (w * 10 * rx)
                <= 0x2800_0000_0000_0000_0000_0000_0000,
{
    assert forall|w: int|
        -0x8000_0000_0000_0000 <= w < 0x8000_0000_0000_0000
            implies -0x2800_0000_0000_0000_0000_0000_0000 <= #[trigger] (w * 10 * rx)
            <= 0x2800_0000_0000_0000_0000_0000_0000 by {
        assert(-0x2800_0000_0000_0000_0000_0000_0000 <= w * 10 * rx
            <= 0x2800_0000_0000_0000_0000_0000_0000) by (nonlinear_arith)
            requires
                -0x8000_0000_0000_0000 <= w < 0x8000_0000_0000_0000,
                -0x8000_0000 <= rx <= 0x8000_0000,
        ;
    }
}

/// The ratio-corrected divisor products fit comfortably in `i128`.
proof fn lemma_geo_product_bounds(half: int, res: int)
    requires
        1 <= half <= 0x8000_0000,
        1 <= res <= 0x8000_0000,
    ensures
        1 <= half * res <= 0x4000_0000_0000_0000,
        (SCALE as int) <= half * res * (SCALE as int)
            <= 0x4000_0000_0000_0000 * 1_000_000,
{
    assert(1 <= half * res <= 0x4000_0000_0000_0000) by (nonlinear_arith)
        requires
            1 <= half <= 0x8000_0000,
            1 <= res <= 0x8000_0000,
    ;
    assert((SCALE as int) <= half * res * (SCALE as int) <= 0x4000_0000_0000_0000 * 1_000_000)
        by (nonlinear_arith)
        requires
            1 <= half * res <= 0x4000_0000_0000_0000,
            SCALE as int == 1_000_000,
    ;
}

} // verus!
