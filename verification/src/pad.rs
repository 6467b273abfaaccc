//! The pad remapping engine: one instance per touch surface, producing one
//! two-axis analog control plus four quadrant buttons.
//!
//! Every touch slot is classified ("baked") on its first processed frame:
//! inside the unit circle it becomes an axis contributor for its whole
//! contact, outside it becomes the button of its sign quadrant.  Axis
//! contributors are averaged, passed through radial dead zones and a response
//! curve, and mapped onto the destination integer axis range; emission is
//! change-suppressed per synchronization frame.
//!
//! All coordinates are exact fixed-point integers ([`crate::fixed`]); the
//! device's raw units are normalized against a per-axis unit divisor derived
//! from the device geometry.

use vstd::prelude::*;
use crate::events::OutEvent;
use crate::fixed::{
    div_i64, fixed_pow, is_isqrt, isqrt_u128, isqrt_v, lemma_isqrt_unique,
    lemma_pow_frac_le_scale, lemma_tdiv_bound, lemma_tdiv_scale_bound, mul_div_i64, pow_frac_v,
    tdiv, SCALE,
};

verus! {

/// Midpoint of the destination axis range: the neutral output.
pub const DEST_HALF: i32 = 16384;

/// Top of the destination axis range (the bottom is zero).
pub const DEST_MAX: i32 = 32768;

/// Largest normalized coordinate the pipeline can see: a full `i32` span of
/// raw units against the smallest accepted unit divisor.
pub const COORD_LIMIT: i64 = 4_300_000_000_000_000;

/// How a touch slot has been committed for the remainder of its contact.
#[derive(Clone, Copy, Debug, PartialEq, Eq, Structural)]
pub enum TouchBake {
    /// Not yet processed in any frame since the contact began.
    Indeterminate,
    /// Contributes to axis averaging.
    Axis,
    /// Holds down the button of this quadrant (0 to 3).
    Button(u8),
}

/// One multi-touch slot: contact state, raw position, classification.
#[derive(Clone, Copy, Debug, PartialEq, Eq, Structural)]
pub struct TouchSlot {
    pub enabled: bool,
    pub x: i32,
    pub y: i32,
    pub baked: TouchBake,
}

/// Immutable per-device shaping parameters.
#[derive(Clone, Copy, Debug)]
pub struct PadParams {
    /// Device-unit center of each source axis.
    pub mid_x: i32,
    pub mid_y: i32,
    /// Fixed-point unit divisors: raw offsets are divided by these to land
    /// in normalized space, where 1.0 is the unit-circle radius.
    pub div_x: i64,
    pub div_y: i64,
    /// Radial dead zones, in normalized fixed point.
    pub active_low: i64,
    pub active_high: i64,
    /// Response-curve exponent, as the rational `curve_n / curve_d`.
    pub curve_n: u32,
    pub curve_d: u32,
    /// Vertical-compression exponent (at least one), as `smash_n / smash_d`.
    pub smash_n: u32,
    pub smash_d: u32,
    /// Whether more than the lowest enabled slot participates in a frame.
    pub multitouch: bool,
    /// Destination codes.
    pub axis_x_code: u16,
    pub axis_y_code: u16,
    pub button_codes: (u16, u16, u16, u16),
}

impl PadParams {
    /// Parameter sanity: divisors of at least one device unit, ordered dead
    /// zones within the unit interval, exponents in the supported range,
    /// compression at least one.
    pub open spec fn wf(self) -> bool {
        &&& self.div_x >= SCALE
        &&& self.div_y >= SCALE
        &&& 0 <= self.active_low < self.active_high <= SCALE
        &&& 1 <= self.curve_n <= 6
        &&& 1 <= self.curve_d <= 3
        &&& 1 <= self.smash_n <= 6
        &&& 1 <= self.smash_d <= 3
        &&& self.smash_n >= self.smash_d
    }

    /// The button code of a quadrant.
    pub open spec fn spec_button_code(self, q: int) -> u16 {
        if q == 0 {
            self.button_codes.0
        } else if q == 1 {
            self.button_codes.1
        } else if q == 2 {
            self.button_codes.2
        } else {
            self.button_codes.3
        }
    }
}

/// A raw position normalized against center and unit divisor.
pub open spec fn spec_norm(pos: int, mid: int, div: int) -> int {
    tdiv((pos - mid) * (SCALE as int) * (SCALE as int), div)
}

/// Vertical compression `((y/2 + c).clamp(0, 1.1)^smash - c) * 2` with
/// `c = 0.52`; the identity when the exponent is one.
pub open spec fn spec_compress_y(y: int, n: nat, d: nat) -> int {
    if n == d {
        y
    } else {
        let shifted = y + 1_040_000;
        let base = if shifted <= 0 {
            0
        } else if shifted / 2 >= 1_100_000 {
            1_100_000
        } else {
            shifted / 2
        };
        2 * pow_frac_v(base, n, d) - 1_040_000
    }
}

/// The normalized, compression-shaped vector of a slot.
pub open spec fn spec_slot_vec(s: TouchSlot, p: PadParams) -> (int, int) {
    (
        spec_norm(s.x as int, p.mid_x as int, p.div_x as int),
        spec_compress_y(
            spec_norm(s.y as int, p.mid_y as int, p.div_y as int),
            p.smash_n as nat,
            p.smash_d as nat,
        ),
    )
}

/// Sign quadrant of a vector: (+,+)=0, (-,+)=1, (+,-)=2, (-,-)=3.
pub open spec fn spec_quadrant(x: int, y: int) -> int {
    if x >= 0 && y >= 0 {
        0
    } else if x < 0 && y >= 0 {
        1
    } else if x >= 0 && y < 0 {
        2
    } else {
        3
    }
}

/// Whether a vector lies within the unit circle.
pub open spec fn spec_inside_unit(x: int, y: int) -> bool {
    x * x + y * y <= (SCALE as int) * (SCALE as int)
}

/// Whether the slot at `i` takes part in a frame: it must be enabled, and
/// with multi-touch off only the lowest-index enabled slot participates.
pub open spec fn spec_participates(slots: Seq<TouchSlot>, p: PadParams, i: int) -> bool {
    &&& 0 <= i < slots.len()
    &&& slots[i].enabled
    &&& (p.multitouch || forall|j: int| 0 <= j < i ==> !slots[j].enabled)
}

/// What one frame does to one slot: an indeterminate participating slot
/// bakes by its shaped position; everything else is untouched.
pub open spec fn spec_slot_after(slots: Seq<TouchSlot>, p: PadParams, i: int) -> TouchSlot {
    let s = slots[i];
    if spec_participates(slots, p, i) && s.baked is Indeterminate {
        let v = spec_slot_vec(s, p);
        if spec_inside_unit(v.0, v.1) {
            TouchSlot { baked: TouchBake::Axis, ..s }
        } else {
            TouchSlot { baked: TouchBake::Button(spec_quadrant(v.0, v.1) as u8), ..s }
        }
    } else {
        s
    }
}

/// Accumulated result of processing the first `i` slots of a frame.
pub struct FrameAcc {
    pub slots: Seq<TouchSlot>,
    pub sum_x: int,
    pub sum_y: int,
    pub count: nat,
    pub buttons: Seq<bool>,
}

/// Folds one frame over the first `i` slots: bakes indeterminate
/// participating slots, accumulates axis contributors, ORs quadrant buttons.
pub open spec fn spec_frame_fold(slots: Seq<TouchSlot>, p: PadParams, i: nat) -> FrameAcc
    decreases i,
{
    if i == 0 {
        FrameAcc {
            slots,
            sum_x: 0,
            sum_y: 0,
            count: 0,
            buttons: seq![false, false, false, false],
        }
    } else {
        let acc = spec_frame_fold(slots, p, (i - 1) as nat);
        let k = i - 1;
        if k < slots.len() && spec_participates(slots, p, k) {
            let s = slots[k];
            let v = spec_slot_vec(s, p);
            let newslots = acc.slots.update(k, spec_slot_after(slots, p, k));
            match s.baked {
                TouchBake::Indeterminate => {
                    if spec_inside_unit(v.0, v.1) {
                        FrameAcc {
                            slots: newslots,
                            sum_x: acc.sum_x + v.0,
                            sum_y: acc.sum_y + v.1,
                            count: acc.count + 1,
                            buttons: acc.buttons,
                        }
                    } else {
                        FrameAcc {
                            slots: newslots,
                            sum_x: acc.sum_x,
                            sum_y: acc.sum_y,
                            count: acc.count,
                            buttons: acc.buttons.update(spec_quadrant(v.0, v.1), true),
                        }
                    }
                },
                TouchBake::Axis => FrameAcc {
                    slots: acc.slots,
                    sum_x: acc.sum_x + v.0,
                    sum_y: acc.sum_y + v.1,
                    count: acc.count + 1,
                    buttons: acc.buttons,
                },
                TouchBake::Button(q) => FrameAcc {
                    slots: acc.slots,
                    sum_x: acc.sum_x,
                    sum_y: acc.sum_y,
                    count: acc.count,
                    buttons: if q < 4 {
                        acc.buttons.update(q as int, true)
                    } else {
                        acc.buttons
                    },
                },
            }
        } else {
            acc
        }
    }
}

/// Radial dead zones and response curve: zero up to (and at) `active_low`,
/// clamped to the unit vector at and beyond `active_high`, linearly rescaled
/// and curved in between; direction is preserved throughout.
pub open spec fn spec_shape(x: int, y: int, p: PadParams) -> (int, int) {
    let q = x * x + y * y;
    let al = p.active_low as int;
    let ah = p.active_high as int;
    if q <= al * al {
        (0, 0)
    } else {
        let mag = isqrt_v(q);
        if q >= ah * ah {
            (tdiv(x * (SCALE as int), mag), tdiv(y * (SCALE as int), mag))
        } else {
            let a = (mag - al) * (SCALE as int) / (ah - al);
            if a == 0 {
                (0, 0)
            } else {
                let x1 = tdiv(x * a, mag);
                let y1 = tdiv(y * a, mag);
                if p.curve_n == p.curve_d {
                    (x1, y1)
                } else {
                    let pc = pow_frac_v(a, p.curve_n as nat, p.curve_d as nat);
                    (tdiv(x1 * pc, a), tdiv(y1 * pc, a))
                }
            }
        }
    }
}

/// A shaped normalized coordinate mapped onto the destination axis range,
/// rounding toward zero and clamping to the bounds.
pub open spec fn spec_axis_value(v: int) -> int {
    let raw = tdiv(v * (DEST_HALF as int), SCALE as int) + DEST_HALF as int;
    if raw < 0 {
        0
    } else if raw > DEST_MAX as int {
        DEST_MAX as int
    } else {
        raw
    }
}

/// The axis pair a frame reports: the shaped average of the axis
/// contributors, or the neutral midpoint when there are none.
pub open spec fn spec_frame_axis(acc: FrameAcc, p: PadParams) -> (int, int) {
    if acc.count > 0 {
        let ax = tdiv(acc.sum_x, acc.count as int);
        let ay = tdiv(acc.sum_y, acc.count as int);
        let s = spec_shape(ax, ay, p);
        (spec_axis_value(s.0), spec_axis_value(s.1))
    } else {
        (DEST_HALF as int, DEST_HALF as int)
    }
}

/// The events one frame emits: both axis codes when the pair changed,
/// then one press/release per changed quadrant button, in quadrant order.
pub open spec fn spec_frame_events(
    p: PadParams,
    last_x: int,
    last_y: int,
    last_buttons: Seq<bool>,
    ax: int,
    ay: int,
    buttons: Seq<bool>,
) -> Seq<OutEvent> {
    let axis_part: Seq<OutEvent> = if ax != last_x || ay != last_y {
        seq![
            OutEvent::Axis { code: p.axis_x_code, value: ax as i32 },
            OutEvent::Axis { code: p.axis_y_code, value: ay as i32 },
        ]
    } else {
        Seq::empty()
    };
    let b0: Seq<OutEvent> = if buttons[0] != last_buttons[0] {
        seq![OutEvent::Key { code: p.spec_button_code(0), pressed: buttons[0] }]
    } else {
        Seq::empty()
    };
    let b1: Seq<OutEvent> = if buttons[1] != last_buttons[1] {
        seq![OutEvent::Key { code: p.spec_button_code(1), pressed: buttons[1] }]
    } else {
        Seq::empty()
    };
    let b2: Seq<OutEvent> = if buttons[2] != last_buttons[2] {
        seq![OutEvent::Key { code: p.spec_button_code(2), pressed: buttons[2] }]
    } else {
        Seq::empty()
    };
    let b3: Seq<OutEvent> = if buttons[3] != last_buttons[3] {
        seq![OutEvent::Key { code: p.spec_button_code(3), pressed: buttons[3] }]
    } else {
        Seq::empty()
    };
    axis_part + b0 + b1 + b2 + b3
}

/// Normalizes one raw coordinate; exact and bounded.
fn norm_coord(pos: i32, mid: i32, div: i64) -> (r: i64)
    requires
        div >= SCALE,
    ensures
        r == spec_norm(pos as int, mid as int, div as int),
        -COORD_LIMIT <= r <= COORD_LIMIT,
{
    let diff: i64 = (pos as i64) - (mid as i64);
    proof {
        let t = (diff as int) * (SCALE as int) * (SCALE as int);
        assert(-4_300_000_000 <= diff as int <= 4_300_000_000);
        assert(-4_300_000_000_000_000_000_000_000_000
            <= t <= 4_300_000_000_000_000_000_000_000_000) by (nonlinear_arith)
            requires
                -4_300_000_000 <= diff as int <= 4_300_000_000,
                t == (diff as int) * (SCALE as int) * (SCALE as int),
                SCALE as int == 1_000_000,
        ;
        lemma_tdiv_bound(
            t,
            div as int,
            4_300_000_000_000_000_000_000_000_000,
        );
        // tighter: dividing by at least SCALE leaves at most diff * SCALE
        assert(tdiv(t, div as int) <= COORD_LIMIT as int
            && tdiv(t, div as int) >= -(COORD_LIMIT as int)) by {
            lemma_norm_bound(diff as int, div as int);
        }
    }
    let p: i128 = (diff as i128) * (SCALE as i128) * (SCALE as i128);
    let q: i128 = p.checked_div(div as i128).unwrap();
    proof {
        crate::fixed::lemma_tdiv_abs(p as int, div as int);
    }
    q as i64
}

/// Dividing `diff * SCALE^2` by at least `SCALE` lands within
/// `diff * SCALE`, hence within [`COORD_LIMIT`].
proof fn lemma_norm_bound(diff: int, div: int)
    requires
        -4_300_000_000 <= diff <= 4_300_000_000,
        div >= SCALE,
    ensures
        -(COORD_LIMIT as int) <= tdiv(diff * (SCALE as int) * (SCALE as int), div)
            <= COORD_LIMIT as int,
{
    let s = SCALE as int;
    let t = diff * s * s;
    assert(-4_300_000_000 * s * s <= t <= 4_300_000_000 * s * s) by (nonlinear_arith)
        requires
            -4_300_000_000 <= diff <= 4_300_000_000,
            s == 1_000_000,
            t == diff * s * s,
    ;
    crate::fixed::lemma_tdiv_abs(t, div);
    if t >= 0 {
        vstd::arithmetic::div_mod::lemma_div_is_ordered_by_denominator(t, s, div);
        vstd::arithmetic::div_mod::lemma_div_is_ordered(t, 4_300_000_000 * s * s, s);
        assert((4_300_000_000 * s * s) / s == 4_300_000_000 * s) by (nonlinear_arith)
            requires s == 1_000_000,
        ;
    } else {
        vstd::arithmetic::div_mod::lemma_div_is_ordered_by_denominator(-t, s, div);
        vstd::arithmetic::div_mod::lemma_div_is_ordered(-t, 4_300_000_000 * s * s, s);
        assert((4_300_000_000 * s * s) / s == 4_300_000_000 * s) by (nonlinear_arith)
            requires s == 1_000_000,
        ;
    }
}

/// Applies vertical compression; exact and bounded.
fn compress_y(y: i64, n: u32, d: u32) -> (r: i64)
    requires
        1 <= n <= 6,
        1 <= d <= 3,
        n >= d,
        -COORD_LIMIT <= y <= COORD_LIMIT,
    ensures
        r == spec_compress_y(y as int, n as nat, d as nat),
        -COORD_LIMIT <= r <= COORD_LIMIT,
{
    if n == d {
        return y;
    }
    let shifted: i64 = y + 1_040_000;
    let base: i64 = if shifted <= 0 {
        0
    } else {
        let h = div_i64(shifted, 2);
        proof {
            crate::fixed::lemma_tdiv_abs(shifted as int, 2);
        }
        if h >= 1_100_000 {
            1_100_000
        } else {
            h
        }
    };
    proof {
        assert(0 <= base <= 1_100_000);
    }
    let pw = fixed_pow(base as u64, n, d);
    proof {
        assert(pw as int <= 64 * SCALE as int);
    }
    2 * (pw as i64) - 1_040_000
}

/// Shapes the averaged vector through the dead zones and curve; exact, and
/// bounded by the unit magnitude per component.
fn shape(x: i64, y: i64, p: &PadParams) -> (r: (i64, i64))
    requires
        p.wf(),
        -COORD_LIMIT <= x <= COORD_LIMIT,
        -COORD_LIMIT <= y <= COORD_LIMIT,
    ensures
        (r.0 as int, r.1 as int) == spec_shape(x as int, y as int, *p),
        -SCALE <= r.0 <= SCALE,
        -SCALE <= r.1 <= SCALE,
{
    proof {
        assert((x as int) * (x as int) + (y as int) * (y as int)
            <= 2 * (COORD_LIMIT as int) * (COORD_LIMIT as int)
            && (x as int) * (x as int) >= 0
            && (y as int) * (y as int) >= 0) by (nonlinear_arith)
            requires
                -COORD_LIMIT <= x <= COORD_LIMIT,
                -COORD_LIMIT <= y <= COORD_LIMIT,
        ;
    }
    let xq: i128 = (x as i128) * (x as i128);
    let yq: i128 = (y as i128) * (y as i128);
    let q: u128 = (xq + yq) as u128;
    let al: i64 = p.active_low;
    let ah: i64 = p.active_high;
    proof {
        assert(0 <= (al as int) * (al as int) <= 1_000_000_000_000
            && 0 <= (ah as int) * (ah as int) <= 1_000_000_000_000) by (nonlinear_arith)
            requires
                0 <= al as int <= 1_000_000,
                0 <= ah as int <= 1_000_000,
        ;
    }
    let alq: u128 = ((al as i128) * (al as i128)) as u128;
    let ahq: u128 = ((ah as i128) * (ah as i128)) as u128;
    if q <= alq {
        return (0, 0);
    }
    let mag64: u64 = isqrt_u128(q);
    proof {
        // |x| <= mag and |y| <= mag, since x^2 <= q < (mag+1)^2
        lemma_component_le_mag(x as int, q as int, mag64 as int);
        lemma_component_le_mag(y as int, q as int, mag64 as int);
        assert(mag64 >= 1) by {
            if mag64 == 0 {
                assert((q as int) < 1);
            }
        }
    }
    proof {
        assert(is_isqrt(q as int, mag64 as int));
        assert((mag64 as int) * (mag64 as int) <= q as int);
        assert(q as int <= 2 * (COORD_LIMIT as int) * (COORD_LIMIT as int));
        assert(mag64 as int <= 0x7fff_ffff_ffff_ffff) by (nonlinear_arith)
            requires
                (mag64 as int) * (mag64 as int) <= 2 * (COORD_LIMIT as int) * (COORD_LIMIT as int),
                mag64 as int >= 0,
                COORD_LIMIT as int == 4_300_000_000_000_000,
        ;
    }
    let mag: i64 = mag64 as i64;
    if q >= ahq {
        let rx = mul_div_i64_with_bound(x, SCALE, mag);
        let ry = mul_div_i64_with_bound(y, SCALE, mag);
        return (rx, ry);
    }
    proof {
        // mag < ah because q < ah^2
        assert((mag as int) < (ah as int)) by (nonlinear_arith)
            requires
                (mag as int) * (mag as int) <= q as int,
                (q as int) < (ah as int) * (ah as int),
                mag as int >= 0,
                ah as int >= 0,
        ;
        assert(mag as int >= al as int) by (nonlinear_arith)
            requires
                (q as int) <= ((mag as int) + 1) * ((mag as int) + 1) - 1,
                (al as int) * (al as int) < q as int,
                mag as int >= 0,
                al as int >= 0,
        ;
    }
    let a: i64 = {
        let num: i64 = (mag - al) * SCALE;
        proof {
            assert((mag as int - al as int) * (SCALE as int) <= (SCALE as int) * (SCALE as int))
                by (nonlinear_arith)
                requires
                    0 <= mag as int - al as int <= SCALE as int,
            ;
        }
        div_i64(num, ah - al)
    };
    proof {
        crate::fixed::lemma_tdiv_abs((mag as int - al as int) * (SCALE as int), ah as int - al as int);
        assert(a as int == (mag as int - al as int) * (SCALE as int) / (ah as int - al as int));
        // a < SCALE: the numerator is strictly below (ah - al) * SCALE
        assert((mag as int - al as int) * (SCALE as int)
            < (ah as int - al as int) * (SCALE as int)) by (nonlinear_arith)
            requires
                (mag as int) - (al as int) < (ah as int) - (al as int),
                SCALE as int > 0,
        ;
        vstd::arithmetic::div_mod::lemma_div_by_multiple_is_strongly_ordered(
            (mag as int - al as int) * (SCALE as int),
            (ah as int - al as int) * (SCALE as int),
            SCALE as int,
            ah as int - al as int,
        );
        vstd::arithmetic::div_mod::lemma_div_by_multiple(SCALE as int, ah as int - al as int);
        assert((ah as int - al as int) * (SCALE as int) == (SCALE as int) * (ah as int - al as int))
            by (nonlinear_arith);
        assert((a as int) < (SCALE as int));
        vstd::arithmetic::div_mod::lemma_div_pos_is_pos(
            (mag as int - al as int) * (SCALE as int),
            ah as int - al as int,
        );
        assert((mag as int - al as int) * (SCALE as int) >= 0) by (nonlinear_arith)
            requires mag as int - al as int >= 0,
        ;
        assert(a as int >= 0);
    }
    if a == 0 {
        return (0, 0);
    }
    let x1 = mul_div_i64_with_bound(x, a, mag);
    let y1 = mul_div_i64_with_bound(y, a, mag);
    proof {
        lemma_tdiv_scale_bound(x as int, a as int, mag as int);
        lemma_tdiv_scale_bound(y as int, a as int, mag as int);
    }
    if p.curve_n == p.curve_d {
        return (x1, y1);
    }
    let pc = fixed_pow(a as u64, p.curve_n, p.curve_d);
    proof {
        lemma_pow_frac_le_scale(a as int, p.curve_n as nat, p.curve_d as nat, pc as int);
        assert(pc as int <= SCALE as int);
    }
    let x2 = mul_div_i64_with_bound(x1, pc as i64, a);
    let y2 = mul_div_i64_with_bound(y1, pc as i64, a);
    proof {
        lemma_tdiv_scale_bound(x1 as int, pc as int, a as int);
        lemma_tdiv_scale_bound(y1 as int, pc as int, a as int);
    }
    (x2, y2)
}

/// `tdiv(v * num, den)` for `|v| <= den`: the result is bounded by `num`.
fn mul_div_i64_with_bound(v: i64, num: i64, den: i64) -> (r: i64)
    requires
        den >= 1,
        num >= 0,
        -den <= v <= den,
    ensures
        r == tdiv(v as int * num as int, den as int),
        -num <= r <= num,
{
    proof {
        lemma_tdiv_scale_bound(v as int, num as int, den as int);
    }
    mul_div_i64(v, num, den)
}

/// A component of a vector is bounded by the integer magnitude.
proof fn lemma_component_le_mag(x: int, q: int, mag: int)
    requires
        x * x <= q,
        is_isqrt(q, mag),
    ensures
        -mag <= x <= mag,
{
    assert(x * x <= q < (mag + 1) * (mag + 1));
    if x > mag {
        assert((mag + 1) * (mag + 1) <= x * x) by (nonlinear_arith)
            requires 0 <= mag + 1 <= x,
        ;
    }
    if x < -mag {
        assert((mag + 1) * (mag + 1) <= x * x) by (nonlinear_arith)
            requires x <= -(mag + 1) && mag + 1 >= 0,
        ;
    }
}

/// Maps a shaped coordinate to the destination axis range.
fn axis_value(v: i64) -> (r: i32)
    requires
        -SCALE <= v <= SCALE,
    ensures
        r as int == spec_axis_value(v as int),
        0 <= r <= DEST_MAX,
{
    let scaled = mul_div_i64(v, DEST_HALF as i64, SCALE);
    proof {
        lemma_tdiv_scale_bound(v as int, DEST_HALF as int, SCALE as int);
    }
    let raw: i64 = scaled + (DEST_HALF as i64);
    if raw < 0 {
        0
    } else if raw > DEST_MAX as i64 {
        DEST_MAX
    } else {
        raw as i32
    }
}

/// An input event as seen by the pad engine, in plain values.
#[derive(Clone, Copy, Debug, PartialEq, Eq, Structural)]
pub enum PadEvent {
    /// Select the multi-touch slot subsequent position/tracking events
    /// refer to.
    Slot { index: i32 },
    /// New raw horizontal position for the selected slot.
    PositionX { value: i32 },
    /// New raw vertical position for the selected slot.
    PositionY { value: i32 },
    /// Tracking id for the selected slot: -1 means the contact ended.
    Tracking { id: i32 },
    /// A synchronization-frame marker: recompute and flush.
    SyncReport,
    /// Anything else; ignored.
    Other,
}

/// Most slots a pad engine tracks; slot-select events beyond this are
/// ignored as malformed hardware input.
pub const MAX_SLOTS: usize = 64;

/// The slot a fresh index starts as: released, centered, unclassified.
pub open spec fn spec_default_slot(p: PadParams) -> TouchSlot {
    TouchSlot { enabled: false, x: p.mid_x, y: p.mid_y, baked: TouchBake::Indeterminate }
}

/// The slot list after a tracking event on `cur`: a new contact merely
/// enables the slot; a release resets its classification, and — as the
/// stuck-button workaround — also releases and resets every other enabled
/// slot baked to the same button quadrant.
pub open spec fn spec_tracking(slots: Seq<TouchSlot>, cur: int, id: int) -> Seq<TouchSlot> {
    if id != -1 {
        slots.update(cur, TouchSlot { enabled: true, ..slots[cur] })
    } else {
        let s = slots[cur];
        Seq::new(
            slots.len(),
            |j: int|
                if j == cur {
                    TouchSlot { enabled: false, baked: TouchBake::Indeterminate, ..s }
                } else if s.baked is Button && slots[j].enabled && slots[j].baked == s.baked {
                    TouchSlot { enabled: false, baked: TouchBake::Indeterminate, ..slots[j] }
                } else {
                    slots[j]
                },
        )
    }
}

/// Per-device pad remapping state.
pub struct PadEngine {
    /// Immutable shaping parameters and destination codes.
    pub params: PadParams,
    /// Touch slots, created lazily as indices are referenced.
    pub slots: Vec<TouchSlot>,
    /// The slot subsequent position/tracking events refer to.
    pub cur_slot: usize,
    /// Axis pair as of the last emission.
    pub last_x: i32,
    pub last_y: i32,
    /// Quadrant-button state as of the last emission (length four).
    pub last_buttons: Vec<bool>,
}

impl PadEngine {
    /// Internal consistency: sane parameters, a selected slot in range, and
    /// only valid quadrants baked.
    pub open spec fn wf(self) -> bool {
        &&& self.params.wf()
        &&& 1 <= self.slots@.len() <= MAX_SLOTS
        &&& (self.cur_slot as int) < self.slots@.len()
        &&& self.last_buttons@.len() == 4
        &&& forall|i: int|
            0 <= i < self.slots@.len() ==> match (#[trigger] self.slots@[i]).baked {
                TouchBake::Button(q) => q < 4,
                _ => true,
            }
    }

    /// Builds an engine with one released slot and nothing yet emitted.
    pub fn new(params: PadParams) -> (r: PadEngine)
        requires
            params.wf(),
        ensures
            r.wf(),
            r.params == params,
            r.slots@ =~= seq![spec_default_slot(params)],
            r.cur_slot == 0,
            r.last_x == 0,
            r.last_y == 0,
            r.last_buttons@ =~= seq![false, false, false, false],
    {
        let mut slots: Vec<TouchSlot> = Vec::new();
        slots.push(TouchSlot {
            enabled: false,
            x: params.mid_x,
            y: params.mid_y,
            baked: TouchBake::Indeterminate,
        });
        let mut last_buttons: Vec<bool> = Vec::new();
        last_buttons.push(false);
        last_buttons.push(false);
        last_buttons.push(false);
        last_buttons.push(false);
        PadEngine { params, slots, cur_slot: 0, last_x: 0, last_y: 0, last_buttons }
    }

    /// Feeds one source event.  Position and slot events only update state;
    /// a tracking event applies [`spec_tracking`]; a synchronization frame
    /// recomputes the axis pair and buttons and emits exactly the changes.
    pub fn step(&mut self, ev: PadEvent) -> (out: Vec<OutEvent>)
        requires
            old(self).wf(),
        ensures
            final(self).wf(),
            final(self).params == old(self).params,
            match ev {
                PadEvent::Slot { index } => {
                    &&& out@.len() == 0
                    &&& final(self).last_x == old(self).last_x
                    &&& final(self).last_y == old(self).last_y
                    &&& final(self).last_buttons@ == old(self).last_buttons@
                    &&& if 0 <= index && (index as int) < MAX_SLOTS as int {
                        &&& final(self).cur_slot as int == index as int
                        &&& final(self).slots@.len() == if (index as int) + 1
                            > old(self).slots@.len() {
                            (index as int) + 1
                        } else {
                            old(self).slots@.len() as int
                        }
                        &&& forall|j: int|
                            0 <= j < old(self).slots@.len() ==> final(self).slots@[j] == old(
                                self,
                            ).slots@[j]
                        &&& forall|j: int|
                            old(self).slots@.len() <= j < final(self).slots@.len()
                                ==> final(self).slots@[j] == spec_default_slot(old(self).params)
                    } else {
                        final(self).slots@ == old(self).slots@ && final(self).cur_slot == old(
                            self,
                        ).cur_slot
                    }
                },
                PadEvent::PositionX { value } => {
                    &&& out@.len() == 0
                    &&& final(self).slots@ == old(self).slots@.update(
                        old(self).cur_slot as int,
                        TouchSlot { x: value, ..old(self).slots@[old(self).cur_slot as int] },
                    )
                    &&& final(self).cur_slot == old(self).cur_slot
                    &&& final(self).last_x == old(self).last_x
                    &&& final(self).last_y == old(self).last_y
                    &&& final(self).last_buttons@ == old(self).last_buttons@
                },
                PadEvent::PositionY { value } => {
                    &&& out@.len() == 0
                    &&& final(self).slots@ == old(self).slots@.update(
                        old(self).cur_slot as int,
                        TouchSlot { y: value, ..old(self).slots@[old(self).cur_slot as int] },
                    )
                    &&& final(self).cur_slot == old(self).cur_slot
                    &&& final(self).last_x == old(self).last_x
                    &&& final(self).last_y == old(self).last_y
                    &&& final(self).last_buttons@ == old(self).last_buttons@
                },
                PadEvent::Tracking { id } => {
                    &&& out@.len() == 0
                    &&& final(self).slots@ == spec_tracking(
                        old(self).slots@,
                        old(self).cur_slot as int,
                        id as int,
                    )
                    &&& final(self).cur_slot == old(self).cur_slot
                    &&& final(self).last_x == old(self).last_x
                    &&& final(self).last_y == old(self).last_y
                    &&& final(self).last_buttons@ == old(self).last_buttons@
                },
                PadEvent::SyncReport => {
                    let acc = spec_frame_fold(
                        old(self).slots@,
                        old(self).params,
                        old(self).slots@.len(),
                    );
                    let axis = spec_frame_axis(acc, old(self).params);
                    &&& final(self).slots@ == acc.slots
                    &&& final(self).cur_slot == old(self).cur_slot
                    &&& final(self).last_x as int == axis.0
                    &&& final(self).last_y as int == axis.1
                    &&& final(self).last_buttons@ == acc.buttons
                    &&& out@ == spec_frame_events(
                        old(self).params,
                        old(self).last_x as int,
                        old(self).last_y as int,
                        old(self).last_buttons@,
                        axis.0,
                        axis.1,
                        acc.buttons,
                    )
                    &&& (axis.0 == old(self).last_x as int && axis.1 == old(self).last_y as int
                        && acc.buttons =~= old(self).last_buttons@ ==> out@.len() == 0)
                },
                PadEvent::Other => {
                    &&& out@.len() == 0
                    &&& *final(self) == *old(self)
                },
            },
    {
        match ev {
            PadEvent::Slot { index } => {
                if 0 <= index && (index as usize) < MAX_SLOTS {
                    let idx = index as usize;
                    while self.slots.len() < idx + 1
                        invariant
                            old(self).wf(),
                            idx < MAX_SLOTS,
                            self.params == old(self).params,
                            self.cur_slot == old(self).cur_slot,
                            self.last_x == old(self).last_x,
                            self.last_y == old(self).last_y,
                            self.last_buttons@ == old(self).last_buttons@,
                            old(self).slots@.len() <= self.slots@.len() <= if (idx as int) + 1
                                > old(self).slots@.len() {
                                (idx as int) + 1
                            } else {
                                old(self).slots@.len() as int
                            },
                            forall|j: int|
                                0 <= j < old(self).slots@.len() ==> self.slots@[j] == old(
                                    self,
                                ).slots@[j],
                            forall|j: int|
                                old(self).slots@.len() <= j < self.slots@.len()
                                    ==> self.slots@[j] == spec_default_slot(old(self).params),
                        decreases idx + 1 - self.slots.len(),
                    {
                        self.slots.push(TouchSlot {
                            enabled: false,
                            x: self.params.mid_x,
                            y: self.params.mid_y,
                            baked: TouchBake::Indeterminate,
                        });
                    }
                    self.cur_slot = idx;
                }
                Vec::new()
            },
            PadEvent::PositionX { value } => {
                let i = self.cur_slot;
                let s = self.slots[i];
                self.slots.set(i, TouchSlot { x: value, ..s });
                Vec::new()
            },
            PadEvent::PositionY { value } => {
                let i = self.cur_slot;
                let s = self.slots[i];
                self.slots.set(i, TouchSlot { y: value, ..s });
                Vec::new()
            },
            PadEvent::Tracking { id } => {
                self.apply_tracking(id);
                Vec::new()
            },
            PadEvent::SyncReport => self.flush(),
            PadEvent::Other => Vec::new(),
        }
    }

    /// Applies a tracking event to the selected slot.
    fn apply_tracking(&mut self, id: i32)
        requires
            old(self).wf(),
        ensures
            final(self).wf(),
            final(self).params == old(self).params,
            final(self).cur_slot == old(self).cur_slot,
            final(self).last_x == old(self).last_x,
            final(self).last_y == old(self).last_y,
            final(self).last_buttons@ == old(self).last_buttons@,
            final(self).slots@ == spec_tracking(
                old(self).slots@,
                old(self).cur_slot as int,
                id as int,
            ),
    {
        let cur = self.cur_slot;
        if id != -1 {
            let s = self.slots[cur];
            self.slots.set(cur, TouchSlot { enabled: true, ..s });
            return;
        }
        let s = self.slots[cur];
        let ghost orig = self.slots@;
        let released_button = match s.baked {
            TouchBake::Button(_) => true,
            _ => false,
        };
        let n = self.slots.len();
        let mut j: usize = 0;
        while j < n
            invariant
                old(self).wf(),
                n == self.slots@.len(),
                orig == old(self).slots@,
                orig.len() == n,
                s == orig[old(self).cur_slot as int],
                cur == old(self).cur_slot,
                released_button == (s.baked is Button),
                id as int == -1,
                self.params == old(self).params,
                self.cur_slot == old(self).cur_slot,
                self.last_x == old(self).last_x,
                self.last_y == old(self).last_y,
                self.last_buttons@ == old(self).last_buttons@,
                j <= n,
                forall|k: int|
                    0 <= k < j ==> self.slots@[k] == spec_tracking(
                        orig,
                        old(self).cur_slot as int,
                        id as int,
                    )[k],
                forall|k: int| j <= k < n ==> self.slots@[k] == orig[k],
            decreases n - j,
        {
            let sj = self.slots[j];
            if j == cur {
                self.slots.set(
                    j,
                    TouchSlot { enabled: false, baked: TouchBake::Indeterminate, ..s },
                );
            } else if released_button && sj.enabled && bake_eq(sj.baked, s.baked) {
                self.slots.set(
                    j,
                    TouchSlot { enabled: false, baked: TouchBake::Indeterminate, ..sj },
                );
            }
            proof {
                let t = spec_tracking(orig, old(self).cur_slot as int, id as int);
                assert(t.len() == n);
                if j == cur {
                    assert(t[j as int] == TouchSlot {
                        enabled: false,
                        baked: TouchBake::Indeterminate,
                        ..s
                    });
                } else if s.baked is Button && orig[j as int].enabled && orig[j as int].baked
                    == s.baked {
                    assert(sj == orig[j as int]);
                    assert(t[j as int] == TouchSlot {
                        enabled: false,
                        baked: TouchBake::Indeterminate,
                        ..orig[j as int]
                    });
                } else {
                    assert(t[j as int] == orig[j as int]);
                }
                assert(self.slots@[j as int] == t[j as int]);
            }
            j = j + 1;
        }
        proof {
            assert(self.slots@ =~= spec_tracking(orig, old(self).cur_slot as int, id as int));
        }
    }

    /// Recomputes the frame and emits exactly the changed axis pair and
    /// quadrant buttons, then snapshots them as last-emitted.
    #[verifier::rlimit(100)]
    #[verifier::spinoff_prover]
    fn flush(&mut self) -> (out: Vec<OutEvent>)
        requires
            old(self).wf(),
        ensures
            final(self).wf(),
            final(self).params == old(self).params,
            final(self).cur_slot == old(self).cur_slot,
            ({
                let acc = spec_frame_fold(
                    old(self).slots@,
                    old(self).params,
                    old(self).slots@.len(),
                );
                let axis = spec_frame_axis(acc, old(self).params);
                &&& final(self).slots@ == acc.slots
                &&& final(self).last_x as int == axis.0
                &&& final(self).last_y as int == axis.1
                &&& final(self).last_buttons@ == acc.buttons
                &&& out@ == spec_frame_events(
                    old(self).params,
                    old(self).last_x as int,
                    old(self).last_y as int,
                    old(self).last_buttons@,
                    axis.0,
                    axis.1,
                    acc.buttons,
                )
                &&& (axis.0 == old(self).last_x as int && axis.1 == old(self).last_y as int
                    && acc.buttons =~= old(self).last_buttons@ ==> out@.len() == 0)
            }),
    {
        let ghost orig = self.slots@;
        let ghost p = self.params;
        let n = self.slots.len();
        let (sum_x, sum_y, count, b0, b1, b2, b3) = self.fold_frame();
        let ghost acc = spec_frame_fold(orig, p, n as nat);
        // axis pair
        let ax: i32;
        let ay: i32;
        if count > 0 {
            let avg_x = div_i64(sum_x, count as i64);
            let avg_y = div_i64(sum_y, count as i64);
            proof {
                crate::fixed::lemma_tdiv_avg_bound(sum_x as int, count as int, COORD_LIMIT as int);
                crate::fixed::lemma_tdiv_avg_bound(sum_y as int, count as int, COORD_LIMIT as int);
            }
            let (sx, sy) = shape_avg(avg_x, avg_y, &self.params);
            ax = axis_value(sx);
            ay = axis_value(sy);
        } else {
            ax = DEST_HALF;
            ay = DEST_HALF;
        }
        proof {
            let axis = spec_frame_axis(acc, p);
            assert((ax as int, ay as int) == axis);
        }
        // events
        let out = emit_events(
            &self.params,
            self.last_x,
            self.last_y,
            self.last_buttons[0],
            self.last_buttons[1],
            self.last_buttons[2],
            self.last_buttons[3],
            ax,
            ay,
            b0,
            b1,
            b2,
            b3,
        );
        proof {
            assert(old(self).last_buttons@ =~= seq![
                old(self).last_buttons@[0],
                old(self).last_buttons@[1],
                old(self).last_buttons@[2],
                old(self).last_buttons@[3],
            ]);
            assert(out@ == spec_frame_events(
                p,
                old(self).last_x as int,
                old(self).last_y as int,
                old(self).last_buttons@,
                ax as int,
                ay as int,
                acc.buttons,
            ));
        }
        // snapshot
        self.last_x = ax;
        self.last_y = ay;
        let mut nb: Vec<bool> = Vec::new();
        nb.push(b0);
        nb.push(b1);
        nb.push(b2);
        nb.push(b3);
        self.last_buttons = nb;
        proof {
            assert(self.last_buttons@ =~= acc.buttons);
        }
        out
    }

    /// Walks the slots once: bakes, sums axis contributors, ORs buttons.
    fn fold_frame(&mut self) -> (r: (i64, i64, usize, bool, bool, bool, bool))
        requires
            old(self).wf(),
        ensures
            final(self).wf(),
            final(self).params == old(self).params,
            final(self).cur_slot == old(self).cur_slot,
            final(self).last_x == old(self).last_x,
            final(self).last_y == old(self).last_y,
            final(self).last_buttons@ == old(self).last_buttons@,
            ({
                let acc = spec_frame_fold(
                    old(self).slots@,
                    old(self).params,
                    old(self).slots@.len(),
                );
                &&& final(self).slots@ == acc.slots
                &&& r.0 as int == acc.sum_x
                &&& r.1 as int == acc.sum_y
                &&& r.2 as int == acc.count
                &&& acc.buttons =~= seq![r.3, r.4, r.5, r.6]
                &&& r.2 <= MAX_SLOTS
                &&& r.2 >= 1 ==> -((r.2 as int) * COORD_LIMIT) <= r.0 as int
                    <= (r.2 as int) * COORD_LIMIT && -((r.2 as int) * COORD_LIMIT)
                    <= r.1 as int <= (r.2 as int) * COORD_LIMIT
            }),
    {
        let ghost orig = self.slots@;
        let ghost p = self.params;
        let n = self.slots.len();
        let mut sum_x: i64 = 0;
        let mut sum_y: i64 = 0;
        let mut count: usize = 0;
        let mut b0 = false;
        let mut b1 = false;
        let mut b2 = false;
        let mut b3 = false;
        let mut seen_enabled = false;
        let mut i: usize = 0;
        while i < n
            invariant
                old(self).wf(),
                p == old(self).params,
                p.wf(),
                orig == old(self).slots@,
                n == orig.len(),
                1 <= n <= MAX_SLOTS,
                self.params == old(self).params,
                self.cur_slot == old(self).cur_slot,
                self.last_x == old(self).last_x,
                self.last_y == old(self).last_y,
                self.last_buttons@ == old(self).last_buttons@,
                self.slots@.len() == n,
                i <= n,
                seen_enabled == exists|j: int| 0 <= j < i && orig[j].enabled,
                ({
                    let acc = spec_frame_fold(orig, p, i as nat);
                    &&& self.slots@ == acc.slots
                    &&& sum_x as int == acc.sum_x
                    &&& sum_y as int == acc.sum_y
                    &&& count as int == acc.count
                    &&& acc.buttons =~= seq![b0, b1, b2, b3]
                }),
                -((count as int) * COORD_LIMIT) <= sum_x as int <= (count as int) * COORD_LIMIT,
                -((count as int) * COORD_LIMIT) <= sum_y as int <= (count as int) * COORD_LIMIT,
                count <= i,
            decreases n - i,
        {
            let ghost acc_pre = spec_frame_fold(orig, p, i as nat);
            proof {
                lemma_frame_fold_slots(orig, p, i as nat);
            }
            let s = self.slots[i];
            proof {
                assert(s == orig[i as int]);
            }
            let participate = s.enabled && (self.params.multitouch || !seen_enabled);
            proof {
                assert(participate == spec_participates(orig, p, i as int));
            }
            if participate {
                let vx = norm_coord(s.x, self.params.mid_x, self.params.div_x);
                let vy0 = norm_coord(s.y, self.params.mid_y, self.params.div_y);
                let vy = compress_y(vy0, self.params.smash_n, self.params.smash_d);
                proof {
                    assert((vx as int, vy as int) == spec_slot_vec(orig[i as int], p));
                }
                match s.baked {
                    TouchBake::Indeterminate => {
                        let inside = within_unit(vx, vy);
                        if inside {
                            self.slots.set(i, TouchSlot { baked: TouchBake::Axis, ..s });
                            sum_x = sum_x + vx;
                            sum_y = sum_y + vy;
                            count = count + 1;
                        } else {
                            let q = quadrant_of(vx, vy);
                            self.slots.set(
                                i,
                                TouchSlot { baked: TouchBake::Button(q), ..s },
                            );
                            if q == 0 {
                                b0 = true;
                            } else if q == 1 {
                                b1 = true;
                            } else if q == 2 {
                                b2 = true;
                            } else {
                                b3 = true;
                            }
                        }
                    },
                    TouchBake::Axis => {
                        sum_x = sum_x + vx;
                        sum_y = sum_y + vy;
                        count = count + 1;
                    },
                    TouchBake::Button(q) => {
                        if q == 0 {
                            b0 = true;
                        } else if q == 1 {
                            b1 = true;
                        } else if q == 2 {
                            b2 = true;
                        } else {
                            b3 = true;
                        }
                        proof {
                            assert(q < 4);
                            let acc_post = spec_frame_fold(orig, p, (i + 1) as nat);
                            assert(acc_post.buttons =~= acc_pre.buttons.update(q as int, true));
                        }
                    },
                }
            }
            if s.enabled {
                seen_enabled = true;
            }
            i = i + 1;
            proof {
                let acc_post = spec_frame_fold(orig, p, i as nat);
                assert(acc_post.buttons =~= seq![b0, b1, b2, b3]);
                assert(self.slots@ =~= acc_post.slots);
            }
        }
        proof {
            lemma_frame_fold_slots(orig, p, n as nat);
            assert forall|ii: int|
                0 <= ii < self.slots@.len() implies match (#[trigger] self.slots@[ii]).baked {
                TouchBake::Button(q) => q < 4,
                _ => true,
            } by {
                assert(self.slots@[ii] == spec_slot_after(orig, p, ii));
                assert(0 <= spec_quadrant(
                    spec_slot_vec(orig[ii], p).0,
                    spec_slot_vec(orig[ii], p).1,
                ) < 4);
            }
        }
        (sum_x, sum_y, count, b0, b1, b2, b3)
    }
}

/// Assembles the change-suppressed event batch for one frame.
#[verifier::rlimit(100)]
#[verifier::spinoff_prover]
fn emit_events(
    p: &PadParams,
    last_x: i32,
    last_y: i32,
    lb0: bool,
    lb1: bool,
    lb2: bool,
    lb3: bool,
    ax: i32,
    ay: i32,
    b0: bool,
    b1: bool,
    b2: bool,
    b3: bool,
) -> (out: Vec<OutEvent>)
    ensures
        out@ == spec_frame_events(
            *p,
            last_x as int,
            last_y as int,
            seq![lb0, lb1, lb2, lb3],
            ax as int,
            ay as int,
            seq![b0, b1, b2, b3],
        ),
        ax == last_x && ay == last_y && b0 == lb0 && b1 == lb1 && b2 == lb2 && b3 == lb3
            ==> out@.len() == 0,
{
    let ghost lastb: Seq<bool> = seq![lb0, lb1, lb2, lb3];
    let ghost newb: Seq<bool> = seq![b0, b1, b2, b3];
    let ghost axis_part: Seq<OutEvent> = if ax as int != last_x as int || ay as int
        != last_y as int {
        seq![
            OutEvent::Axis { code: p.axis_x_code, value: ax },
            OutEvent::Axis { code: p.axis_y_code, value: ay },
        ]
    } else {
        Seq::empty()
    };
    let ghost d0: Seq<OutEvent> = if b0 != lb0 {
        seq![OutEvent::Key { code: p.button_codes.0, pressed: b0 }]
    } else {
        Seq::empty()
    };
    let ghost d1: Seq<OutEvent> = if b1 != lb1 {
        seq![OutEvent::Key { code: p.button_codes.1, pressed: b1 }]
    } else {
        Seq::empty()
    };
    let ghost d2: Seq<OutEvent> = if b2 != lb2 {
        seq![OutEvent::Key { code: p.button_codes.2, pressed: b2 }]
    } else {
        Seq::empty()
    };
    let ghost d3: Seq<OutEvent> = if b3 != lb3 {
        seq![OutEvent::Key { code: p.button_codes.3, pressed: b3 }]
    } else {
        Seq::empty()
    };
    let mut out: Vec<OutEvent> = Vec::new();
    if ax != last_x || ay != last_y {
        out.push(OutEvent::Axis { code: p.axis_x_code, value: ax });
        out.push(OutEvent::Axis { code: p.axis_y_code, value: ay });
    }
    proof {
        assert(out@ =~= axis_part);
    }
    if b0 != lb0 {
        out.push(OutEvent::Key { code: p.button_codes.0, pressed: b0 });
    }
    proof {
        assert(out@ =~= axis_part + d0);
    }
    if b1 != lb1 {
        out.push(OutEvent::Key { code: p.button_codes.1, pressed: b1 });
    }
    proof {
        assert(out@ =~= axis_part + d0 + d1);
    }
    if b2 != lb2 {
        out.push(OutEvent::Key { code: p.button_codes.2, pressed: b2 });
    }
    proof {
        assert(out@ =~= axis_part + d0 + d1 + d2);
    }
    if b3 != lb3 {
        out.push(OutEvent::Key { code: p.button_codes.3, pressed: b3 });
    }
    proof {
        assert(out@ =~= axis_part + d0 + d1 + d2 + d3);
        assert(lastb[0] == lb0 && lastb[1] == lb1 && lastb[2] == lb2 && lastb[3] == lb3);
        assert(newb[0] == b0 && newb[1] == b1 && newb[2] == b2 && newb[3] == b3);
        assert(spec_frame_events(*p, last_x as int, last_y as int, lastb, ax as int, ay as int, newb)
            =~= axis_part + d0 + d1 + d2 + d3) by {
            assert(spec_frame_events(
                *p,
                last_x as int,
                last_y as int,
                lastb,
                ax as int,
                ay as int,
                newb,
            ).len() == axis_part.len() + d0.len() + d1.len() + d2.len() + d3.len());
        }
    }
    out
}

/// Compares two bakes for the stuck-button scan.
fn bake_eq(a: TouchBake, b: TouchBake) -> (r: bool)
    ensures
        r == (a == b),
{
    match (a, b) {
        (TouchBake::Indeterminate, TouchBake::Indeterminate) => true,
        (TouchBake::Axis, TouchBake::Axis) => true,
        (TouchBake::Button(x), TouchBake::Button(y)) => x == y,
        _ => false,
    }
}

/// Whether a shaped vector lies within the unit circle.
fn within_unit(x: i64, y: i64) -> (r: bool)
    requires
        -COORD_LIMIT <= x <= COORD_LIMIT,
        -COORD_LIMIT <= y <= COORD_LIMIT,
    ensures
        r == spec_inside_unit(x as int, y as int),
{
    proof {
        assert((x as int) * (x as int) + (y as int) * (y as int)
            <= 2 * (COORD_LIMIT as int) * (COORD_LIMIT as int)
            && (x as int) * (x as int) >= 0
            && (y as int) * (y as int) >= 0) by (nonlinear_arith)
            requires
                -COORD_LIMIT <= x <= COORD_LIMIT,
                -COORD_LIMIT <= y <= COORD_LIMIT,
        ;
    }
    let xq: i128 = (x as i128) * (x as i128);
    let yq: i128 = (y as i128) * (y as i128);
    xq + yq <= 1_000_000_000_000
}

/// The sign quadrant of a vector.
fn quadrant_of(x: i64, y: i64) -> (q: u8)
    ensures
        q as int == spec_quadrant(x as int, y as int),
        q < 4,
{
    if x >= 0 && y >= 0 {
        0
    } else if x < 0 && y >= 0 {
        1
    } else if x >= 0 && y < 0 {
        2
    } else {
        3
    }
}

/// `shape` under the names used by the flush proof.
fn shape_avg(x: i64, y: i64, p: &PadParams) -> (r: (i64, i64))
    requires
        p.wf(),
        -COORD_LIMIT <= x <= COORD_LIMIT,
        -COORD_LIMIT <= y <= COORD_LIMIT,
    ensures
        (r.0 as int, r.1 as int) == spec_shape(x as int, y as int, *p),
        -SCALE <= r.0 <= SCALE,
        -SCALE <= r.1 <= SCALE,
{
    shape(x, y, p)
}

/// Touch baking is sticky across frames: once a slot has baked to `Axis` or
/// to a button, a frame leaves its class exactly as it was, even if its
/// position has since crossed the unit-circle boundary the other way.
pub proof fn lemma_bake_sticky_frame(slots: Seq<TouchSlot>, p: PadParams, i: int)
    requires
        0 <= i < slots.len(),
        !(slots[i].baked is Indeterminate),
    ensures
        spec_frame_fold(slots, p, slots.len() as nat).slots[i].baked == slots[i].baked,
{
    lemma_frame_fold_slots(slots, p, slots.len() as nat);
    assert(spec_frame_fold(slots, p, slots.len() as nat).slots[i] == spec_slot_after(
        slots,
        p,
        i,
    ));
}

/// Touch baking survives tracking events too: only the released slot
/// itself, or — by the stuck-button workaround — an enabled slot baked to
/// the same button quadrant as the released one, is ever reset.
pub proof fn lemma_bake_sticky_tracking(slots: Seq<TouchSlot>, cur: int, id: int, i: int)
    requires
        0 <= i < slots.len(),
        0 <= cur < slots.len(),
        i != cur,
        !(id == -1 && slots[cur].baked is Button && slots[i].enabled && slots[i].baked
            == slots[cur].baked),
    ensures
        spec_tracking(slots, cur, id)[i].baked == slots[i].baked,
{
}

/// The inner dead-zone boundary: a vector at distance exactly `active_low`
/// shapes to the zero vector, and the zero vector maps to the exact
/// destination midpoint.
pub proof fn lemma_dead_zone_boundary_low(x: int, y: int, p: PadParams)
    requires
        p.wf(),
        x * x + y * y == p.active_low * p.active_low,
    ensures
        spec_shape(x, y, p) == (0int, 0int),
        spec_axis_value(0) == DEST_HALF as int,
{
    assert(tdiv(0 * (DEST_HALF as int), SCALE as int) == 0);
}

/// The outer dead-zone boundary: a vector at or beyond `active_high` shapes
/// to the truncated unit vector in its own direction.
pub proof fn lemma_dead_zone_boundary_high(x: int, y: int, p: PadParams)
    requires
        p.wf(),
        x * x + y * y >= p.active_high * p.active_high,
    ensures
        spec_shape(x, y, p) == (
            tdiv(x * (SCALE as int), isqrt_v(x * x + y * y)),
            tdiv(y * (SCALE as int), isqrt_v(x * x + y * y)),
        ),
{
    let al = p.active_low as int;
    let ah = p.active_high as int;
    assert(al * al < ah * ah) by (nonlinear_arith)
        requires 0 <= al < ah,
    ;
}

/// Along an axis direction the outer boundary reaches exact full scale: a
/// touch at `active_high` or beyond on the positive horizontal axis maps to
/// the destination maximum.
pub proof fn lemma_full_scale_axis(x: int, p: PadParams)
    requires
        p.wf(),
        x >= p.active_high,
    ensures
        spec_shape(x, 0, p) == (SCALE as int, 0int),
        spec_axis_value(SCALE as int) == DEST_MAX as int,
{
    let s = SCALE as int;
    let ah = p.active_high as int;
    assert(x * x >= ah * ah) by (nonlinear_arith)
        requires x >= ah >= 0,
    ;
    lemma_dead_zone_boundary_high(x, 0, p);
    assert(x * x + 0 * 0 == x * x);
    assert(is_isqrt(x * x, x)) by (nonlinear_arith)
        requires x >= 1,
    ;
    lemma_isqrt_unique(x * x, x);
    assert(tdiv(x * s, x) == s) by {
        crate::fixed::lemma_tdiv_abs(x * s, x);
        assert(x * s >= 0) by (nonlinear_arith)
            requires x >= 1 && s >= 0,
        ;
        vstd::arithmetic::div_mod::lemma_div_multiples_vanish(s, x);
    }
    assert(tdiv(0 * s, x) == 0) by {
        assert(0 * s == 0);
    }
    assert(tdiv(s * (DEST_HALF as int), s) == DEST_HALF as int) by {
        crate::fixed::lemma_tdiv_abs(s * (DEST_HALF as int), s);
        assert(s * (DEST_HALF as int) >= 0) by (nonlinear_arith)
            requires s >= 0,
        ;
        vstd::arithmetic::div_mod::lemma_div_multiples_vanish(DEST_HALF as int, s);
    }
}

/// A frame leaves no slot undecided among participants, so a second frame
/// over unchanged slots computes exactly the same sums, count and buttons
/// and changes nothing: with the change-suppression contract of the flush,
/// the second of two identical frames emits zero events.
pub proof fn lemma_frame_fold_idempotent(slots: Seq<TouchSlot>, p: PadParams, i: nat)
    requires
        i <= slots.len(),
    ensures
        ({
            let acc = spec_frame_fold(slots, p, slots.len() as nat);
            let first = spec_frame_fold(slots, p, i);
            let second = spec_frame_fold(acc.slots, p, i);
            &&& second.slots =~= acc.slots
            &&& second.sum_x == first.sum_x
            &&& second.sum_y == first.sum_y
            &&& second.count == first.count
            &&& second.buttons =~= first.buttons
        }),
    decreases i,
{
    let acc = spec_frame_fold(slots, p, slots.len() as nat);
    lemma_frame_fold_slots(slots, p, slots.len() as nat);
    if i == 0 {
        assert(spec_frame_fold(acc.slots, p, 0).slots =~= acc.slots);
    } else {
        lemma_frame_fold_idempotent(slots, p, (i - 1) as nat);
        let k = (i - 1) as int;
        // enabled flags and positions agree, so participation and the
        // shaped vector agree
        assert(acc.slots.len() == slots.len());
        assert(acc.slots[k] == spec_slot_after(slots, p, k));
        assert(acc.slots[k].enabled == slots[k].enabled);
        assert(acc.slots[k].x == slots[k].x && acc.slots[k].y == slots[k].y);
        assert forall|j: int| 0 <= j < slots.len() implies (#[trigger] acc.slots[j]).enabled
            == slots[j].enabled by {
            assert(acc.slots[j] == spec_slot_after(slots, p, j));
        }
        if !p.multitouch {
            if spec_participates(slots, p, k) {
                assert forall|j: int| 0 <= j < k implies !(#[trigger] acc.slots[j]).enabled by {
                    assert(acc.slots[j].enabled == slots[j].enabled);
                }
            }
            if spec_participates(acc.slots, p, k) {
                assert forall|j: int| 0 <= j < k implies !(#[trigger] slots[j]).enabled by {
                    assert(acc.slots[j].enabled == slots[j].enabled);
                }
            }
        }
        assert(spec_participates(acc.slots, p, k) == spec_participates(slots, p, k));
        assert(spec_slot_vec(acc.slots[k], p) == spec_slot_vec(slots[k], p));
        if spec_participates(slots, p, k) {
            let v = spec_slot_vec(slots[k], p);
            match slots[k].baked {
                TouchBake::Indeterminate => {
                    // the slot has been baked by the first frame; the second
                    // frame takes the already-decided branch with the same
                    // contribution
                    if spec_inside_unit(v.0, v.1) {
                        assert(acc.slots[k].baked == TouchBake::Axis);
                    } else {
                        assert(acc.slots[k].baked == TouchBake::Button(
                            spec_quadrant(v.0, v.1) as u8,
                        ));
                        assert(0 <= spec_quadrant(v.0, v.1) < 4);
                    }
                },
                TouchBake::Axis => {
                    assert(acc.slots[k].baked == TouchBake::Axis);
                },
                TouchBake::Button(q) => {
                    assert(acc.slots[k].baked == TouchBake::Button(q));
                },
            }
            assert(spec_slot_after(acc.slots, p, k) == acc.slots[k]);
            assert(spec_frame_fold(acc.slots, p, i).slots =~= spec_frame_fold(
                acc.slots,
                p,
                (i - 1) as nat,
            ).slots.update(k, acc.slots[k]));
            assert(spec_frame_fold(acc.slots, p, i).slots =~= acc.slots);
        } else {
            assert(spec_frame_fold(acc.slots, p, i) == spec_frame_fold(
                acc.slots,
                p,
                (i - 1) as nat,
            ));
        }
    }
}

/// Structural facts about the frame fold: slot length is preserved, slots at
/// or past `i` are untouched, and processed slots carry [`spec_slot_after`].
pub proof fn lemma_frame_fold_slots(slots: Seq<TouchSlot>, p: PadParams, i: nat)
    requires
        i <= slots.len(),
    ensures
        spec_frame_fold(slots, p, i).slots.len() == slots.len(),
        forall|j: int|
            i <= j < slots.len() ==> spec_frame_fold(slots, p, i).slots[j] == slots[j],
        forall|j: int|
            0 <= j < i ==> spec_frame_fold(slots, p, i).slots[j] == spec_slot_after(slots, p, j),
        spec_frame_fold(slots, p, i).buttons.len() == 4,
        spec_frame_fold(slots, p, i).count <= i,
    decreases i,
{
    if i > 0 {
        lemma_frame_fold_slots(slots, p, (i - 1) as nat);
    }
}

} // verus!
