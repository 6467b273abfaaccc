use trackjoy::classify::{Device, DeviceType};
use trackjoy::reconcile::{
    child_args, debounce_step, plan_reconcile, DebounceAction, DebounceState, WatchEvent,
};

#[test]
fn debounce_idle_notification_starts_window() {
    let (s, a) = debounce_step(DebounceState::Idle, WatchEvent::Notification);
    assert_eq!(s, DebounceState::Settling);
    assert_eq!(a, DebounceAction::ArmWindow);
}

#[test]
fn debounce_settling_notification_restarts_window() {
    let (s, a) = debounce_step(DebounceState::Settling, WatchEvent::Notification);
    assert_eq!(s, DebounceState::Settling);
    assert_eq!(a, DebounceAction::ArmWindow);
}

#[test]
fn debounce_error_never_touches_window() {
    let (s, a) = debounce_step(DebounceState::Settling, WatchEvent::NotificationError);
    assert_eq!(s, DebounceState::Settling);
    assert_eq!(a, DebounceAction::Ignore);
    let (s, a) = debounce_step(DebounceState::Idle, WatchEvent::NotificationError);
    assert_eq!(s, DebounceState::Idle);
    assert_eq!(a, DebounceAction::Ignore);
}

#[test]
fn debounce_timeout_triggers_single_reconcile() {
    let (s, a) = debounce_step(DebounceState::Settling, WatchEvent::Timeout);
    assert_eq!(s, DebounceState::Idle);
    assert_eq!(a, DebounceAction::RunReconcile);
    // back in Idle, a stale timeout does nothing
    let (s, a) = debounce_step(s, WatchEvent::Timeout);
    assert_eq!(s, DebounceState::Idle);
    assert_eq!(a, DebounceAction::Ignore);
}

#[test]
fn debounce_closed_shuts_down() {
    let (_, a) = debounce_step(DebounceState::Idle, WatchEvent::Closed);
    assert_eq!(a, DebounceAction::Shutdown);
    let (_, a) = debounce_step(DebounceState::Settling, WatchEvent::Closed);
    assert_eq!(a, DebounceAction::Shutdown);
}

fn key(paths: &[(&str, DeviceType)]) -> Vec<Device> {
    paths
        .iter()
        .map(|(p, k)| Device { device: *k, path: p.to_string() })
        .collect()
}

#[test]
fn reconcile_is_idempotent_without_changes() {
    let g1 = key(&[("k1", DeviceType::Keys), ("p1", DeviceType::Pad)]);
    let g2 = key(&[("p2", DeviceType::Pad)]);
    let running = vec![g1, g2];
    let discovered = vec![
        key(&[("k1", DeviceType::Keys), ("p1", DeviceType::Pad)]),
        key(&[("p2", DeviceType::Pad)]),
    ];
    let plan = plan_reconcile(&running, &discovered);
    assert_eq!(plan.stop, vec![false, false]);
    assert_eq!(plan.start, vec![false, false]);
}

#[test]
fn reconcile_starts_new_and_stops_stale() {
    let running = vec![key(&[("a", DeviceType::Pad)]), key(&[("b", DeviceType::Pad)])];
    let discovered = vec![key(&[("b", DeviceType::Pad)]), key(&[("c", DeviceType::Pad)])];
    let plan = plan_reconcile(&running, &discovered);
    assert_eq!(plan.stop, vec![true, false]);
    assert_eq!(plan.start, vec![false, true]);
}

#[test]
fn reconcile_membership_change_is_a_new_key() {
    // any membership change produces a different key: restart
    let running = vec![key(&[("a", DeviceType::Pad)])];
    let discovered = vec![key(&[("a", DeviceType::Pad), ("b", DeviceType::Pad)])];
    let plan = plan_reconcile(&running, &discovered);
    assert_eq!(plan.stop, vec![true]);
    assert_eq!(plan.start, vec![true]);
}

#[test]
fn reconcile_kind_matters_in_key() {
    let running = vec![key(&[("a", DeviceType::Pad)])];
    let discovered = vec![key(&[("a", DeviceType::Keys)])];
    let plan = plan_reconcile(&running, &discovered);
    assert_eq!(plan.stop, vec![true]);
    assert_eq!(plan.start, vec![true]);
}

#[test]
fn child_invocation_arguments() {
    let group = key(&[("k1", DeviceType::Keys), ("p1", DeviceType::Pad)]);
    let args = child_args(&"conf.json".to_string(), &group);
    assert_eq!(args, vec!["conf.json", "keys", "k1", "pad", "p1"]);
}
