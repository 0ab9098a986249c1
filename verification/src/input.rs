//! Keyboard handling of the game window: pausing, the debug menu, and the
//! movement keys.

use vstd::prelude::*;

verus! {

/// The debug menu and the figures it shows.
#[derive(Clone, Copy, Debug, PartialEq, Eq, Structural)]
pub struct DebugMenu {
    pub enabled: bool,
    pub fps: usize,
    pub blocks: usize,
    pub blocks_visible: usize,
}

impl Default for DebugMenu {
    /// Hidden, all figures zero.
    fn default() -> (m: Self)
        ensures
            !m.enabled,
            m.fps == 0,
            m.blocks == 0,
            m.blocks_visible == 0,
    {
        DebugMenu { enabled: false, fps: 0, blocks: 0, blocks_visible: 0 }
    }
}

/// The movement keys that are held down.
#[derive(Clone, Copy, Debug, PartialEq, Eq, Structural)]
pub struct MoveKeys {
    pub forward: bool,
    pub left: bool,
    pub backward: bool,
    pub right: bool,
    pub jump: bool,
    pub sneak: bool,
}

impl Default for MoveKeys {
    /// No key held down.
    fn default() -> (k: Self)
        ensures
            k == MoveKeys::none(),
    {
        MoveKeys { forward: false, left: false, backward: false, right: false, jump: false, sneak: false }
    }
}

impl MoveKeys {
    /// No key held down.
    pub open spec fn none() -> MoveKeys {
        MoveKeys { forward: false, left: false, backward: false, right: false, jump: false, sneak: false }
    }
}

/// The keys the game reacts to.
#[derive(Clone, Copy, Debug, PartialEq, Eq, Structural)]
pub enum Key {
    W,
    A,
    S,
    D,
    Space,
    LShift,
    Escape,
    F3,
    Other,
}

/// Whether the game is paused, and which movement keys are held.
#[derive(Clone, Copy, Debug, PartialEq, Eq, Structural)]
pub struct InputState {
    pub paused: bool,
    pub keys: MoveKeys,
}

/// What the window has to do after a key event: `pause_toggled` asks to
/// show or hide and release or grab the cursor, `clear_mouse` to drop the
/// mouse motion gathered so far.
#[derive(Clone, Copy, Debug, PartialEq, Eq, Structural)]
pub struct KeyEffect {
    pub pause_toggled: bool,
    pub clear_mouse: bool,
}

/// The movement keys after `key` went to state `pressed`.
pub open spec fn keys_after(keys: MoveKeys, key: Key, pressed: bool) -> MoveKeys {
    match key {
        Key::W => MoveKeys { forward: pressed, ..keys },
        Key::A => MoveKeys { left: pressed, ..keys },
        Key::S => MoveKeys { backward: pressed, ..keys },
        Key::D => MoveKeys { right: pressed, ..keys },
        Key::Space => MoveKeys { jump: pressed, ..keys },
        Key::LShift => MoveKeys { sneak: pressed, ..keys },
        _ => keys,
    }
}

impl InputState {
    /// Not paused, no key held.
    pub fn new() -> (s: Self)
        ensures
            !s.paused,
            s.keys == MoveKeys::none(),
    {
        InputState { paused: false, keys: MoveKeys::default() }
    }

    /// Reacts to `key` going down (`pressed`) or up. Pressing Escape toggles
    /// the pause; pausing lets go of all movement keys. While paused nothing
    /// else happens. Pressing F3 shows or hides the debug menu; a movement key
    /// is held exactly while it is down.
    pub fn handle_key(&mut self, menu: &mut DebugMenu, key: Key, pressed: bool) -> (e: KeyEffect)
        ensures
            (*final(self), *final(menu), e) == key_step(*old(self), *old(menu), key, pressed),
    {
        let mut e = KeyEffect { pause_toggled: false, clear_mouse: false };
        if key == Key::Escape && pressed {
            self.paused = !self.paused;
            e.pause_toggled = true;
            if self.paused {
                self.keys = MoveKeys::default();
                e.clear_mouse = true;
            }
        }
        if self.paused {
            return e;
        }
        if key == Key::F3 && pressed {
            menu.enabled = !menu.enabled;
        }
        match key {
            Key::W => self.keys.forward = pressed,
            Key::A => self.keys.left = pressed,
            Key::S => self.keys.backward = pressed,
            Key::D => self.keys.right = pressed,
            Key::Space => self.keys.jump = pressed,
            Key::LShift => self.keys.sneak = pressed,
            _ => {},
        }
        e
    }

    /// Whether mouse motion turns the camera (and recentres the cursor): only
    /// while the game is not paused.
    pub fn takes_mouse(&self) -> (r: bool)
        ensures
            r == takes_mouse(*self),
    {
        !self.paused
    }

    /// The window lost the focus: all movement keys are let go.
    pub fn focus_lost(&mut self)
        ensures
            final(self).paused == old(self).paused,
            final(self).keys == MoveKeys::none(),
    {
        self.keys = MoveKeys::default();
    }
}

/// The input state, debug menu and effect after `key` went to state
/// `pressed`, as `handle_key` computes them.
pub open spec fn key_step(s: InputState, menu: DebugMenu, key: Key, pressed: bool) -> (InputState, DebugMenu, KeyEffect) {
    let toggled = key == Key::Escape && pressed;
    let paused = s.paused != toggled;
    if paused {
        (
            InputState { paused, keys: if toggled { MoveKeys::none() } else { s.keys } },
            menu,
            KeyEffect { pause_toggled: toggled, clear_mouse: toggled },
        )
    } else {
        (
            InputState { paused, keys: keys_after(s.keys, key, pressed) },
            DebugMenu { enabled: menu.enabled != (key == Key::F3 && pressed), ..menu },
            KeyEffect { pause_toggled: toggled, clear_mouse: false },
        )
    }
}

/// Mouse motion turns the camera exactly while the game is not paused.
pub open spec fn takes_mouse(s: InputState) -> bool {
    !s.paused
}

/// While the game is paused, no key event but pressing Escape changes
/// anything, and mouse motion is ignored; pressing Escape twice gives back
/// the pause state, and the game comes back with no movement key held.
pub proof fn lemma_pause(s: InputState, menu: DebugMenu, key: Key, pressed: bool)
    ensures
        s.paused && !(key == Key::Escape && pressed) ==> key_step(s, menu, key, pressed).0 == s && key_step(s, menu, key, pressed).1 == menu,
        s.paused ==> !takes_mouse(s),
        ({
            let (s1, m1, _) = key_step(s, menu, Key::Escape, true);
            let (s2, _, _) = key_step(s1, m1, Key::Escape, true);
            &&& s2.paused == s.paused
            &&& !s.paused ==> s2.keys == MoveKeys::none()
        }),
{
}


/// While the game runs, a movement key holds exactly its own direction:
/// W forward, A left, S backward, D right, Space jump, left Shift sneak. The
/// key's direction becomes whether it is down, the other directions stay,
/// and the game stays running; F3 and other keys leave the directions.
pub proof fn lemma_movement_keys(s: InputState, menu: DebugMenu, pressed: bool)
    requires
        !s.paused,
    ensures
        ({
            let k = key_step(s, menu, Key::W, pressed).0;
            &&& !k.paused
            &&& k.keys == MoveKeys { forward: pressed, left: s.keys.left, backward: s.keys.backward, right: s.keys.right, jump: s.keys.jump, sneak: s.keys.sneak }
        }),
        ({
            let k = key_step(s, menu, Key::A, pressed).0;
            &&& !k.paused
            &&& k.keys == MoveKeys { forward: s.keys.forward, left: pressed, backward: s.keys.backward, right: s.keys.right, jump: s.keys.jump, sneak: s.keys.sneak }
        }),
        ({
            let k = key_step(s, menu, Key::S, pressed).0;
            &&& !k.paused
            &&& k.keys == MoveKeys { forward: s.keys.forward, left: s.keys.left, backward: pressed, right: s.keys.right, jump: s.keys.jump, sneak: s.keys.sneak }
        }),
        ({
            let k = key_step(s, menu, Key::D, pressed).0;
            &&& !k.paused
            &&& k.keys == MoveKeys { forward: s.keys.forward, left: s.keys.left, backward: s.keys.backward, right: pressed, jump: s.keys.jump, sneak: s.keys.sneak }
        }),
        ({
            let k = key_step(s, menu, Key::Space, pressed).0;
            &&& !k.paused
            &&& k.keys == MoveKeys { forward: s.keys.forward, left: s.keys.left, backward: s.keys.backward, right: s.keys.right, jump: pressed, sneak: s.keys.sneak }
        }),
        ({
            let k = key_step(s, menu, Key::LShift, pressed).0;
            &&& !k.paused
            &&& k.keys == MoveKeys { forward: s.keys.forward, left: s.keys.left, backward: s.keys.backward, right: s.keys.right, jump: s.keys.jump, sneak: pressed }
        }),
        key_step(s, menu, Key::F3, pressed).0 == s,
        key_step(s, menu, Key::F3, pressed).1.enabled == (menu.enabled != pressed),
        key_step(s, menu, Key::Other, pressed).0 == s,
        key_step(s, menu, Key::Other, pressed).1 == menu,
{
}

} // verus!
