use trackjoy::events::OutEvent;
use trackjoy::keys::{KeyEvent, KeysEngine};

#[test]
fn key_press_is_flushed_at_frame_boundary() {
    let mut e = KeysEngine::new(vec![(30, 300), (31, 301)]);
    let during = e.step(KeyEvent::Key { code: 30, pressed: true });
    // nothing is emitted outside a synchronization frame
    assert_eq!(during, Vec::new());
    let out = e.step(KeyEvent::SyncReport);
    assert_eq!(out, vec![OutEvent::Key { code: 300, pressed: true }]);
}

#[test]
fn unchanged_frame_emits_nothing() {
    let mut e = KeysEngine::new(vec![(30, 300)]);
    e.step(KeyEvent::Key { code: 30, pressed: true });
    e.step(KeyEvent::SyncReport);
    let out = e.step(KeyEvent::SyncReport);
    assert_eq!(out, Vec::new());
}

#[test]
fn release_is_flushed() {
    let mut e = KeysEngine::new(vec![(30, 300)]);
    e.step(KeyEvent::Key { code: 30, pressed: true });
    e.step(KeyEvent::SyncReport);
    e.step(KeyEvent::Key { code: 30, pressed: false });
    let out = e.step(KeyEvent::SyncReport);
    assert_eq!(out, vec![OutEvent::Key { code: 300, pressed: false }]);
}

#[test]
fn unmapped_keys_are_ignored() {
    let mut e = KeysEngine::new(vec![(30, 300)]);
    e.step(KeyEvent::Key { code: 99, pressed: true });
    let out = e.step(KeyEvent::SyncReport);
    assert_eq!(out, Vec::new());
}

#[test]
fn press_and_release_within_one_frame_coalesce() {
    let mut e = KeysEngine::new(vec![(30, 300)]);
    e.step(KeyEvent::Key { code: 30, pressed: true });
    e.step(KeyEvent::Key { code: 30, pressed: false });
    let out = e.step(KeyEvent::SyncReport);
    // the state never differed at the frame boundary
    assert_eq!(out, Vec::new());
}

#[test]
fn two_sources_share_one_destination() {
    let mut e = KeysEngine::new(vec![(30, 300), (31, 300)]);
    e.step(KeyEvent::Key { code: 30, pressed: true });
    e.step(KeyEvent::Key { code: 31, pressed: false });
    // destination state is per destination button: the later source wins
    let out = e.step(KeyEvent::SyncReport);
    assert_eq!(out, Vec::new());
    assert_eq!(e.dest_codes(), vec![300]);
}

#[test]
fn multiple_changes_flush_in_destination_order() {
    let mut e = KeysEngine::new(vec![(30, 300), (31, 301), (32, 302)]);
    e.step(KeyEvent::Key { code: 32, pressed: true });
    e.step(KeyEvent::Key { code: 30, pressed: true });
    let out = e.step(KeyEvent::SyncReport);
    assert_eq!(
        out,
        vec![
            OutEvent::Key { code: 300, pressed: true },
            OutEvent::Key { code: 302, pressed: true },
        ]
    );
}

#[test]
fn other_events_are_no_ops() {
    let mut e = KeysEngine::new(vec![(30, 300)]);
    assert_eq!(e.step(KeyEvent::Other), Vec::new());
    assert_eq!(e.step(KeyEvent::SyncReport), Vec::new());
}
