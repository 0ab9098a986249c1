use mt_client::input::{DebugMenu, InputState, Key, MoveKeys};

#[test]
fn movement_keys_follow_presses() {
    let mut s = InputState::new();
    let mut m = DebugMenu::default();
    s.handle_key(&mut m, Key::W, true);
    s.handle_key(&mut m, Key::LShift, true);
    assert!(s.keys.forward && s.keys.sneak);
    s.handle_key(&mut m, Key::W, false);
    assert!(!s.keys.forward && s.keys.sneak);
    s.handle_key(&mut m, Key::Other, true);
    assert!(s.keys.sneak);
}

#[test]
fn escape_pauses_and_releases_keys() {
    let mut s = InputState::new();
    let mut m = DebugMenu::default();
    s.handle_key(&mut m, Key::D, true);
    let e = s.handle_key(&mut m, Key::Escape, true);
    assert!(s.paused && e.pause_toggled && e.clear_mouse);
    assert_eq!(s.keys, MoveKeys::default());
    // while paused, keys do nothing
    let e = s.handle_key(&mut m, Key::W, true);
    assert!(!e.pause_toggled && !s.keys.forward);
    s.handle_key(&mut m, Key::F3, true);
    assert!(!m.enabled);
    // releasing escape does nothing
    s.handle_key(&mut m, Key::Escape, false);
    assert!(s.paused);
    let e = s.handle_key(&mut m, Key::Escape, true);
    assert!(!s.paused && e.pause_toggled && !e.clear_mouse);
}

#[test]
fn f3_toggles_debug_menu() {
    let mut s = InputState::new();
    let mut m = DebugMenu::default();
    assert!(!m.enabled);
    s.handle_key(&mut m, Key::F3, true);
    assert!(m.enabled);
    s.handle_key(&mut m, Key::F3, false);
    assert!(m.enabled);
    s.handle_key(&mut m, Key::F3, true);
    assert!(!m.enabled);
}

#[test]
fn focus_lost_releases_keys() {
    let mut s = InputState::new();
    let mut m = DebugMenu::default();
    s.handle_key(&mut m, Key::Space, true);
    s.focus_lost();
    assert_eq!(s.keys, MoveKeys::default());
}

#[test]
fn mouse_ignored_while_paused() {
    let mut s = InputState::new();
    let mut menu = DebugMenu::default();
    assert!(s.takes_mouse());
    s.handle_key(&mut menu, Key::Escape, true);
    assert!(!s.takes_mouse());
    s.handle_key(&mut menu, Key::Escape, true);
    assert!(s.takes_mouse());
}
