use trackjoy::events::OutEvent;
use trackjoy::pad::{PadEngine, PadEvent, PadParams, DEST_HALF, DEST_MAX};

// A simple square pad: raw range 0..=2000 on both axes, center 1000, unit
// divisor of 1000 device units (so raw 1500 is normalized 0.5).
fn params(multitouch: bool, curve: (u32, u32), smash: (u32, u32)) -> PadParams {
    PadParams {
        mid_x: 1000,
        mid_y: 1000,
        div_x: 1000 * 1_000_000,
        div_y: 1000 * 1_000_000,
        active_low: 100_000,
        active_high: 600_000,
        curve_n: curve.0,
        curve_d: curve.1,
        smash_n: smash.0,
        smash_d: smash.1,
        multitouch,
        axis_x_code: 1,
        axis_y_code: 2,
        button_codes: (10, 11, 12, 13),
    }
}

fn touch(engine: &mut PadEngine, slot: i32, x: i32, y: i32) {
    engine.step(PadEvent::Slot { index: slot });
    engine.step(PadEvent::Tracking { id: 7 });
    engine.step(PadEvent::PositionX { value: x });
    engine.step(PadEvent::PositionY { value: y });
}

#[test]
fn rescaled_distance_between_dead_zones() {
    // single touch at normalized distance 0.5 with active_low 0.1,
    // active_high 0.6 and a linear curve: rescaled to
    // (0.5 - 0.1) / (0.6 - 0.1) = 0.8 of full scale along +x
    let mut e = PadEngine::new(params(false, (1, 1), (1, 1)));
    touch(&mut e, 0, 1500, 1000);
    let out = e.step(PadEvent::SyncReport);
    let expect_x = DEST_HALF + (800_000i64 * DEST_HALF as i64 / 1_000_000) as i32;
    assert_eq!(
        out,
        vec![
            OutEvent::Axis { code: 1, value: expect_x },
            OutEvent::Axis { code: 2, value: DEST_HALF },
        ]
    );
    assert_eq!(expect_x, 16384 + 13107);
}

#[test]
fn distance_at_active_low_maps_to_midpoint() {
    let mut e = PadEngine::new(params(false, (1, 1), (1, 1)));
    // normalized distance exactly 0.1
    touch(&mut e, 0, 1100, 1000);
    let out = e.step(PadEvent::SyncReport);
    assert_eq!(
        out,
        vec![
            OutEvent::Axis { code: 1, value: DEST_HALF },
            OutEvent::Axis { code: 2, value: DEST_HALF },
        ]
    );
}

#[test]
fn distance_at_active_high_maps_to_full_scale() {
    let mut e = PadEngine::new(params(false, (1, 1), (1, 1)));
    // normalized distance 0.6 == active_high, along +x
    touch(&mut e, 0, 1600, 1000);
    let out = e.step(PadEvent::SyncReport);
    assert_eq!(
        out,
        vec![
            OutEvent::Axis { code: 1, value: DEST_MAX },
            OutEvent::Axis { code: 2, value: DEST_HALF },
        ]
    );
}

#[test]
fn identical_frames_emit_nothing_second_time() {
    let mut e = PadEngine::new(params(false, (1, 1), (1, 1)));
    touch(&mut e, 0, 1500, 1000);
    let first = e.step(PadEvent::SyncReport);
    assert!(!first.is_empty());
    let second = e.step(PadEvent::SyncReport);
    assert_eq!(second, Vec::new());
}

#[test]
fn axis_bake_is_sticky_outside_circle() {
    let mut e = PadEngine::new(params(false, (1, 1), (1, 1)));
    // first frame inside the unit circle: bakes to Axis
    touch(&mut e, 0, 1500, 1000);
    let first = e.step(PadEvent::SyncReport);
    assert!(first.iter().all(|ev| matches!(ev, OutEvent::Axis { .. })));
    // the same contact then leaves the circle: still an axis contributor,
    // clamped to full scale, and no button is pressed
    e.step(PadEvent::PositionX { value: 5000 });
    let out = e.step(PadEvent::SyncReport);
    assert_eq!(
        out,
        vec![
            OutEvent::Axis { code: 1, value: DEST_MAX },
            OutEvent::Axis { code: 2, value: DEST_HALF },
        ]
    );
}

#[test]
fn button_bake_is_sticky_inside_circle() {
    let mut e = PadEngine::new(params(false, (1, 1), (1, 1)));
    // first frame far outside: bakes to the (+,+) quadrant button
    touch(&mut e, 0, 5000, 1000);
    let first = e.step(PadEvent::SyncReport);
    assert!(first.contains(&OutEvent::Key { code: 10, pressed: true }));
    // moving inside the circle does not turn it into an axis contributor
    e.step(PadEvent::PositionX { value: 1200 });
    let out = e.step(PadEvent::SyncReport);
    assert_eq!(out, Vec::new());
}

#[test]
fn quadrant_buttons() {
    // (+,+)=0, (-,+)=1, (+,-)=2, (-,-)=3 in normalized space
    let cases = [
        (5000, 5000, 10u16),
        (-5000, 5000, 11u16),
        (5000, -5000, 12u16),
        (-5000, -5000, 13u16),
    ];
    for (x, y, code) in cases {
        let mut e = PadEngine::new(params(false, (1, 1), (1, 1)));
        touch(&mut e, 0, x, y);
        let out = e.step(PadEvent::SyncReport);
        assert!(out.contains(&OutEvent::Key { code, pressed: true }), "quadrant {code}");
    }
}

#[test]
fn release_resets_and_releases_button() {
    let mut e = PadEngine::new(params(false, (1, 1), (1, 1)));
    touch(&mut e, 0, 5000, 1000);
    let first = e.step(PadEvent::SyncReport);
    assert!(first.contains(&OutEvent::Key { code: 10, pressed: true }));
    e.step(PadEvent::Tracking { id: -1 });
    let out = e.step(PadEvent::SyncReport);
    assert!(out.contains(&OutEvent::Key { code: 10, pressed: false }));
}

#[test]
fn same_quadrant_release_unsticks_stuck_button() {
    let mut e = PadEngine::new(params(true, (1, 1), (1, 1)));
    // slot 0 and slot 1 both bake to quadrant 0
    touch(&mut e, 0, 5000, 5000);
    touch(&mut e, 1, 4000, 4000);
    let first = e.step(PadEvent::SyncReport);
    assert!(first.contains(&OutEvent::Key { code: 10, pressed: true }));
    // releasing slot 1 also force-resets slot 0 (the workaround for lost
    // release events), so the button goes up even though slot 0 never
    // reported its own release
    e.step(PadEvent::Slot { index: 1 });
    e.step(PadEvent::Tracking { id: -1 });
    let out = e.step(PadEvent::SyncReport);
    assert!(out.contains(&OutEvent::Key { code: 10, pressed: false }));
}

#[test]
fn multitouch_averages_contributors() {
    let mut e = PadEngine::new(params(true, (1, 1), (1, 1)));
    // touches at +0.4 and +0.6 along x average to +0.5: same output as the
    // single rescaled touch
    touch(&mut e, 0, 1400, 1000);
    touch(&mut e, 1, 1600, 1000);
    let out = e.step(PadEvent::SyncReport);
    let expect_x = DEST_HALF + (800_000i64 * DEST_HALF as i64 / 1_000_000) as i32;
    assert_eq!(
        out,
        vec![
            OutEvent::Axis { code: 1, value: expect_x },
            OutEvent::Axis { code: 2, value: DEST_HALF },
        ]
    );
}

#[test]
fn single_touch_mode_ignores_higher_slots() {
    let mut e = PadEngine::new(params(false, (1, 1), (1, 1)));
    touch(&mut e, 0, 1500, 1000);
    // a second contact in a higher slot does not participate
    touch(&mut e, 1, 5000, 5000);
    let out = e.step(PadEvent::SyncReport);
    let expect_x = DEST_HALF + (800_000i64 * DEST_HALF as i64 / 1_000_000) as i32;
    assert_eq!(
        out,
        vec![
            OutEvent::Axis { code: 1, value: expect_x },
            OutEvent::Axis { code: 2, value: DEST_HALF },
        ]
    );
}

#[test]
fn no_touch_reports_neutral_midpoint() {
    let mut e = PadEngine::new(params(false, (1, 1), (1, 1)));
    let out = e.step(PadEvent::SyncReport);
    // last-emitted starts at zero, so the first neutral frame emits the
    // midpoint once, and only once
    assert_eq!(
        out,
        vec![
            OutEvent::Axis { code: 1, value: DEST_HALF },
            OutEvent::Axis { code: 2, value: DEST_HALF },
        ]
    );
    assert_eq!(e.step(PadEvent::SyncReport), Vec::new());
}

#[test]
fn curve_above_one_desensitizes_center() {
    // curve 2: rescaled distance 0.8 becomes 0.8^2 = 0.64 of full scale
    let mut e = PadEngine::new(params(false, (2, 1), (1, 1)));
    touch(&mut e, 0, 1500, 1000);
    let out = e.step(PadEvent::SyncReport);
    let expect_x = DEST_HALF + (640_000i64 * DEST_HALF as i64 / 1_000_000) as i32;
    assert_eq!(
        out,
        vec![
            OutEvent::Axis { code: 1, value: expect_x },
            OutEvent::Axis { code: 2, value: DEST_HALF },
        ]
    );
}

#[test]
fn smash_compresses_downward() {
    // y_smash 3: a downward touch (positive normalized y) compresses toward
    // the edge; exact expected value of the fixed-point formula:
    // y = 0.5 -> ((0.5/2 + 0.52)^3 - 0.52) * 2 in fixed point
    let mut e = PadEngine::new(params(false, (1, 1), (3, 1)));
    touch(&mut e, 0, 1000, 1500);
    let out = e.step(PadEvent::SyncReport);
    // base = 0.77, 0.77^3 = 0.456533, y' = (0.456533 - 0.52) * 2 = -0.126934
    // magnitude 0.126934 is above active_low 0.1: rescaled
    // (0.126934 - 0.1) / 0.5 = 0.053868 of full scale, preserving direction
    assert_eq!(out.len(), 2);
    match (&out[0], &out[1]) {
        (OutEvent::Axis { code: 1, value: vx }, OutEvent::Axis { code: 2, value: vy }) => {
            assert_eq!(*vx, DEST_HALF);
            // downward compression pulls the value toward the top edge
            // (negative normalized y maps below the midpoint)
            assert!(*vy < DEST_HALF);
        },
        other => panic!("unexpected events {other:?}"),
    }
}

#[test]
fn slots_grow_lazily_and_bad_indices_are_ignored() {
    let mut e = PadEngine::new(params(true, (1, 1), (1, 1)));
    // a far slot index allocates the slots in between
    touch(&mut e, 5, 1500, 1000);
    let out = e.step(PadEvent::SyncReport);
    assert!(!out.is_empty());
    // negative or oversized slot indices are ignored as malformed input;
    // the engine keeps working on the previously selected slot
    e.step(PadEvent::Slot { index: -1 });
    e.step(PadEvent::Slot { index: 1_000_000 });
    e.step(PadEvent::PositionX { value: 1000 });
    e.step(PadEvent::PositionY { value: 1000 });
    let out = e.step(PadEvent::SyncReport);
    assert_eq!(
        out,
        vec![
            OutEvent::Axis { code: 1, value: DEST_HALF },
            OutEvent::Axis { code: 2, value: DEST_HALF },
        ]
    );
}
