use rustaria::debug::DebugOverlay;
use rustaria::input::{handle_keyboard, InputEvent, InputOutcome, Key, KeyState};

const PASS: InputOutcome = InputOutcome { consumed: false, exit: false };
const DONE: InputOutcome = InputOutcome { consumed: true, exit: false };

fn press(key: Key) -> InputEvent {
    InputEvent::Key { key, pressed: true }
}

fn release(key: Key) -> InputEvent {
    InputEvent::Key { key, pressed: false }
}

#[test]
fn click_captures_mouse() {
    let mut d = DebugOverlay::new();
    let mut k = KeyState::new();
    assert_eq!(handle_keyboard(InputEvent::MouseLeftPressed, &mut d, &mut k), PASS);
    assert!(k.mouse_captured);
}

#[test]
fn escape_frees_mouse_then_exits() {
    let mut d = DebugOverlay::new();
    let mut k = KeyState::new();
    k.mouse_captured = true;
    assert_eq!(handle_keyboard(press(Key::Escape), &mut d, &mut k), DONE);
    assert!(!k.mouse_captured);
    assert_eq!(handle_keyboard(press(Key::Escape), &mut d, &mut k), InputOutcome { consumed: true, exit: true });
    assert_eq!(handle_keyboard(release(Key::Escape), &mut d, &mut k), PASS);
}

#[test]
fn debug_and_one_shot_keys() {
    let mut d = DebugOverlay::new();
    let mut k = KeyState::new();
    assert_eq!(handle_keyboard(press(Key::G), &mut d, &mut k), DONE);
    assert!(d.show_wireframe());
    assert_eq!(handle_keyboard(release(Key::G), &mut d, &mut k), PASS);
    assert!(d.show_wireframe());
    assert_eq!(handle_keyboard(press(Key::B), &mut d, &mut k), DONE);
    assert!(d.show_chunk_borders());
    assert_eq!(handle_keyboard(press(Key::L), &mut d, &mut k), DONE);
    assert!(k.toggle_light);
    assert_eq!(handle_keyboard(press(Key::R), &mut d, &mut k), DONE);
    assert!(k.regen_world);
}

#[test]
fn movement_keys_track_held_state() {
    let mut d = DebugOverlay::new();
    let mut k = KeyState::new();
    for (key, get) in [
        (Key::W, (|s: &KeyState| s.forward) as fn(&KeyState) -> bool),
        (Key::Z, |s: &KeyState| s.forward),
        (Key::ArrowUp, |s: &KeyState| s.forward),
        (Key::S, |s: &KeyState| s.backward),
        (Key::ArrowDown, |s: &KeyState| s.backward),
        (Key::A, |s: &KeyState| s.left),
        (Key::ArrowLeft, |s: &KeyState| s.left),
        (Key::D, |s: &KeyState| s.right),
        (Key::ArrowRight, |s: &KeyState| s.right),
        (Key::Space, |s: &KeyState| s.up),
        (Key::ShiftLeft, |s: &KeyState| s.down),
        (Key::ShiftRight, |s: &KeyState| s.down),
    ] {
        assert_eq!(handle_keyboard(press(key), &mut d, &mut k), PASS);
        assert!(get(&k));
        assert_eq!(handle_keyboard(release(key), &mut d, &mut k), PASS);
        assert!(!get(&k));
    }
    let before = k;
    assert_eq!(handle_keyboard(press(Key::Other), &mut d, &mut k), PASS);
    assert_eq!(handle_keyboard(InputEvent::Other, &mut d, &mut k), PASS);
    assert_eq!(k, before);
}
