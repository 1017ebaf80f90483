use vstd::prelude::*;

use crate::debug::{borders_toggled, wireframe_toggled, DebugOverlay};

verus! {

/// The keys the game reacts to.
#[derive(Debug, Clone, Copy, PartialEq, Eq, Structural)]
pub enum Key {
    W,
    Z,
    S,
    A,
    D,
    ArrowUp,
    ArrowDown,
    ArrowLeft,
    ArrowRight,
    Space,
    ShiftLeft,
    ShiftRight,
    Escape,
    G,
    B,
    L,
    R,
    Other,
}

/// A window input event, reduced to what the game reads from it.
#[derive(Debug, Clone, Copy, PartialEq, Eq, Structural)]
pub enum InputEvent {
    /// The left mouse button went down.
    MouseLeftPressed,
    /// A key went down (`pressed`) or up.
    Key { key: Key, pressed: bool },
    /// Anything else.
    Other,
}

/// Held movement keys, mouse capture, and the one-shot requests for the next frame.
#[derive(Debug, Clone, Copy, PartialEq, Eq, Structural)]
pub struct KeyState {
    pub forward: bool,
    pub backward: bool,
    pub left: bool,
    pub right: bool,
    pub up: bool,
    pub down: bool,
    pub mouse_captured: bool,
    /// Day/night toggle requested (consumed once per frame).
    pub toggle_light: bool,
    /// World regeneration requested (consumed once per frame).
    pub regen_world: bool,
}

/// What the caller does with an event after the game has seen it.
#[derive(Debug, Clone, Copy, PartialEq, Eq, Structural)]
pub struct InputOutcome {
    /// The event is fully handled and must not be processed further.
    pub consumed: bool,
    /// The application must exit.
    pub exit: bool,
}

impl KeyState {
    /// Nothing held, mouse free, nothing requested.
    pub fn new() -> (s: Self)
        ensures
            s == (KeyState {
                forward: false,
                backward: false,
                left: false,
                right: false,
                up: false,
                down: false,
                mouse_captured: false,
                toggle_light: false,
                regen_world: false,
            }),
    {
        KeyState {
            forward: false,
            backward: false,
            left: false,
            right: false,
            up: false,
            down: false,
            mouse_captured: false,
            toggle_light: false,
            regen_world: false,
        }
    }
}

/// The movement state after `key` went down (`pressed`) or up; `None` when `key` moves nothing.
/// W, Z and up-arrow move forward; S and down-arrow backward; A and left-arrow left;
/// D and right-arrow right; space up; either shift down.
pub open spec fn movement(s: KeyState, key: Key, pressed: bool) -> Option<KeyState> {
    match key {
        Key::W | Key::Z | Key::ArrowUp => Some(KeyState { forward: pressed, ..s }),
        Key::S | Key::ArrowDown => Some(KeyState { backward: pressed, ..s }),
        Key::A | Key::ArrowLeft => Some(KeyState { left: pressed, ..s }),
        Key::D | Key::ArrowRight => Some(KeyState { right: pressed, ..s }),
        Key::Space => Some(KeyState { up: pressed, ..s }),
        Key::ShiftLeft | Key::ShiftRight => Some(KeyState { down: pressed, ..s }),
        _ => None,
    }
}

/// How an event changes the key state and the debug state `(wireframe, chunk_borders)`,
/// and what the caller must do:
/// a left click captures the mouse; escape releases a captured mouse or else exits;
/// G flips wireframe and B the chunk-border overlay; L and R request the day/night toggle
/// and world regeneration; these five keys consume their key-down events. Movement keys
/// track their held state without consuming the event.
pub open spec fn input_step(event: InputEvent, s: KeyState, debug: (bool, bool)) -> (KeyState, (bool, bool), InputOutcome) {
    let pass = InputOutcome { consumed: false, exit: false };
    let done = InputOutcome { consumed: true, exit: false };
    match event {
        InputEvent::MouseLeftPressed => (KeyState { mouse_captured: true, ..s }, debug, pass),
        InputEvent::Key { key: Key::Escape, pressed: true } => if s.mouse_captured {
            (KeyState { mouse_captured: false, ..s }, debug, done)
        } else {
            (s, debug, InputOutcome { consumed: true, exit: true })
        },
        InputEvent::Key { key: Key::G, pressed: true } => (s, wireframe_toggled(debug), done),
        InputEvent::Key { key: Key::B, pressed: true } => (s, borders_toggled(debug), done),
        InputEvent::Key { key: Key::L, pressed: true } => (KeyState { toggle_light: true, ..s }, debug, done),
        InputEvent::Key { key: Key::R, pressed: true } => (KeyState { regen_world: true, ..s }, debug, done),
        InputEvent::Key { key, pressed } => match movement(s, key, pressed) {
            Some(s2) => (s2, debug, pass),
            None => (s, debug, pass),
        },
        InputEvent::Other => (s, debug, pass),
    }
}

/// Applies a keyboard or mouse-button event to the key state and the debug overlay.
pub fn handle_keyboard(event: InputEvent, debug: &mut DebugOverlay, input: &mut KeyState) -> (out: InputOutcome)
    ensures
        (*final(input), final(debug)@, out) == input_step(event, *old(input), old(debug)@),
{
    let pass = InputOutcome { consumed: false, exit: false };
    let done = InputOutcome { consumed: true, exit: false };
    match event {
        InputEvent::MouseLeftPressed => {
            input.mouse_captured = true;
            pass
        },
        InputEvent::Key { key: Key::Escape, pressed: true } => {
            if input.mouse_captured {
                input.mouse_captured = false;
                done
            } else {
                InputOutcome { consumed: true, exit: true }
            }
        },
        InputEvent::Key { key: Key::G, pressed: true } => {
            debug.toggle_wireframe();
            done
        },
        InputEvent::Key { key: Key::B, pressed: true } => {
            debug.toggle_chunk_borders();
            done
        },
        InputEvent::Key { key: Key::L, pressed: true } => {
            input.toggle_light = true;
            done
        },
        InputEvent::Key { key: Key::R, pressed: true } => {
            input.regen_world = true;
            done
        },
        InputEvent::Key { key, pressed } => {
            match key {
                Key::W | Key::Z | Key::ArrowUp => input.forward = pressed,
                Key::S | Key::ArrowDown => input.backward = pressed,
                Key::A | Key::ArrowLeft => input.left = pressed,
                Key::D | Key::ArrowRight => input.right = pressed,
                Key::Space => input.up = pressed,
                Key::ShiftLeft | Key::ShiftRight => input.down = pressed,
                _ => {},
            }
            pass
        },
        InputEvent::Other => pass,
    }
}

/// Releasing a key is never consumed, never exits, and changes neither the debug views,
/// the mouse capture nor the one-shot requests.
pub proof fn lemma_release_is_harmless(key: Key, s: KeyState, debug: (bool, bool))
    ensures
        ({
            let (s2, d2, out) = input_step(InputEvent::Key { key, pressed: false }, s, debug);
            &&& !out.exit && !out.consumed
            &&& d2 == debug
            &&& s2.toggle_light == s.toggle_light
            &&& s2.regen_world == s.regen_world
            &&& s2.mouse_captured == s.mouse_captured
        }),
{
}

/// Escape never exits while the mouse is captured: the first press frees the mouse, the
/// second one exits.
pub proof fn lemma_escape_frees_then_exits(s: KeyState, debug: (bool, bool))
    requires
        s.mouse_captured,
    ensures
        ({
            let esc = InputEvent::Key { key: Key::Escape, pressed: true };
            let (s2, d2, out1) = input_step(esc, s, debug);
            let (s3, d3, out2) = input_step(esc, s2, d2);
            &&& !out1.exit && out1.consumed && !s2.mouse_captured
            &&& out2.exit && out2.consumed
        }),
{
}


/// The held movement keys of a key state: forward, backward, left, right, up, down.
pub open spec fn held_keys(s: KeyState) -> (bool, bool, bool, bool, bool, bool) {
    (s.forward, s.backward, s.left, s.right, s.up, s.down)
}

/// The mouse capture and the two one-shot requests of a key state: captured, day/night
/// toggle, world regeneration.
pub open spec fn mode_flags(s: KeyState) -> (bool, bool, bool) {
    (s.mouse_captured, s.toggle_light, s.regen_world)
}

/// A left click captures the mouse, whether or not it was captured, and changes nothing
/// else; the click is passed on.
pub proof fn lemma_click_captures_mouse(s: KeyState, debug: (bool, bool))
    ensures
        ({
            let (s2, d2, out) = input_step(InputEvent::MouseLeftPressed, s, debug);
            &&& s2.mouse_captured
            &&& mode_flags(s2) == (true, s.toggle_light, s.regen_world)
            &&& held_keys(s2) == held_keys(s)
            &&& d2 == debug
            &&& !out.consumed && !out.exit
        }),
{
}

/// Pressing L or R requests the day/night toggle or the world regeneration, leaving the
/// mouse, the other request, the held keys and the debug views alone; the press is consumed.
/// Pressing G or B flips the wireframe or the chunk-border view and nothing else.
pub proof fn lemma_command_keys(s: KeyState, debug: (bool, bool))
    ensures
        ({
            let (s2, d2, out) = input_step(InputEvent::Key { key: Key::L, pressed: true }, s, debug);
            mode_flags(s2) == (s.mouse_captured, true, s.regen_world) && held_keys(s2) == held_keys(s) && d2 == debug
                && out.consumed && !out.exit
        }),
        ({
            let (s2, d2, out) = input_step(InputEvent::Key { key: Key::R, pressed: true }, s, debug);
            mode_flags(s2) == (s.mouse_captured, s.toggle_light, true) && held_keys(s2) == held_keys(s) && d2 == debug
                && out.consumed && !out.exit
        }),
        ({
            let (s2, d2, out) = input_step(InputEvent::Key { key: Key::G, pressed: true }, s, debug);
            s2 == s && d2 == (!debug.0, debug.1) && out.consumed && !out.exit
        }),
        ({
            let (s2, d2, out) = input_step(InputEvent::Key { key: Key::B, pressed: true }, s, debug);
            s2 == s && d2 == (debug.0, !debug.1) && out.consumed && !out.exit
        }),
{
}

/// A movement key sets its own held flag to whether it went down or up, and nothing else:
/// W, Z and up-arrow drive forward; S and down-arrow backward; A and left-arrow left; D and
/// right-arrow right; space up; either shift down. Movement events are passed on.
pub proof fn lemma_movement_keys(s: KeyState, debug: (bool, bool), key: Key, pressed: bool)
    ensures
        ({
            let (s2, d2, out) = input_step(InputEvent::Key { key, pressed }, s, debug);
            let h = held_keys(s);
            &&& (key == Key::W || key == Key::Z || key == Key::ArrowUp) ==> held_keys(s2) == (pressed, h.1, h.2, h.3, h.4, h.5)
            &&& (key == Key::S || key == Key::ArrowDown) ==> held_keys(s2) == (h.0, pressed, h.2, h.3, h.4, h.5)
            &&& (key == Key::A || key == Key::ArrowLeft) ==> held_keys(s2) == (h.0, h.1, pressed, h.3, h.4, h.5)
            &&& (key == Key::D || key == Key::ArrowRight) ==> held_keys(s2) == (h.0, h.1, h.2, pressed, h.4, h.5)
            &&& key == Key::Space ==> held_keys(s2) == (h.0, h.1, h.2, h.3, pressed, h.5)
            &&& (key == Key::ShiftLeft || key == Key::ShiftRight) ==> held_keys(s2) == (h.0, h.1, h.2, h.3, h.4, pressed)
            &&& key == Key::Other ==> s2 == s && d2 == debug && !out.consumed && !out.exit
            &&& (key != Key::Escape && key != Key::G && key != Key::B && key != Key::L && key != Key::R) ==> {
                &&& mode_flags(s2) == mode_flags(s)
                &&& d2 == debug
                &&& !out.consumed && !out.exit
            }
        }),
{
}

} // verus!
