use vstd::prelude::*;
use std::collections::HashSet;

verus! {

broadcast use vstd::std_specs::hash::group_hash_axioms;

/// The mouse buttons the game tells apart.
#[derive(Debug, Clone, Copy, PartialEq, Eq, Structural)]
pub enum MouseButton {
    Left,
    Right,
    Other,
}

/// Which buttons and keys went down or up since the last frame, and which
/// are held.  Keys are identified by a number.
pub struct InputState {
    pub left_mouse_pressed_this_frame: bool,
    pub right_mouse_pressed_this_frame: bool,
    pub left_mouse_released_this_frame: bool,
    pub right_mouse_released_this_frame: bool,
    pub left_mouse_is_down: bool,
    pub right_mouse_is_down: bool,
    pub left_mouse_was_pressed_event: bool,
    pub right_mouse_was_pressed_event: bool,
    pub keys_pressed_this_frame: HashSet<u32>,
    pub keys_held: HashSet<u32>,
}

/// The state of one mouse button: pressed this frame, released this frame,
/// down, and whether the last event for it was a press.
pub type ButtonState = (bool, bool, bool, bool);

/// A press or release event for a button in state `b`: a press counts as new
/// only when the last event was not a press, a release only when the button
/// was down.
pub open spec fn button_after(b: ButtonState, pressed: bool) -> ButtonState {
    (b.0 || (pressed && !b.3), b.1 || (!pressed && b.2), pressed, pressed)
}

impl InputState {
    /// The left button's state.
    pub open spec fn left(&self) -> ButtonState {
        (
            self.left_mouse_pressed_this_frame,
            self.left_mouse_released_this_frame,
            self.left_mouse_is_down,
            self.left_mouse_was_pressed_event,
        )
    }

    /// The right button's state.
    pub open spec fn right(&self) -> ButtonState {
        (
            self.right_mouse_pressed_this_frame,
            self.right_mouse_released_this_frame,
            self.right_mouse_is_down,
            self.right_mouse_was_pressed_event,
        )
    }

    /// Nothing pressed, released or held.
    pub fn new() -> (s: Self)
        ensures
            s.left() == (false, false, false, false),
            s.right() == (false, false, false, false),
            s.keys_pressed_this_frame@ == Set::<u32>::empty(),
            s.keys_held@ == Set::<u32>::empty(),
    {
        InputState {
            left_mouse_pressed_this_frame: false,
            right_mouse_pressed_this_frame: false,
            left_mouse_released_this_frame: false,
            right_mouse_released_this_frame: false,
            left_mouse_is_down: false,
            right_mouse_is_down: false,
            left_mouse_was_pressed_event: false,
            right_mouse_was_pressed_event: false,
            keys_pressed_this_frame: HashSet::new(),
            keys_held: HashSet::new(),
        }
    }

    /// Records a press (`pressed`) or release of a mouse button; buttons
    /// other than left and right are ignored.
    pub fn on_mouse_button(&mut self, button: MouseButton, pressed: bool, _inventory_open: bool)
        ensures
            final(self).left() == if button == MouseButton::Left {
                button_after(old(self).left(), pressed)
            } else {
                old(self).left()
            },
            final(self).right() == if button == MouseButton::Right {
                button_after(old(self).right(), pressed)
            } else {
                old(self).right()
            },
            final(self).keys_pressed_this_frame@ == old(self).keys_pressed_this_frame@,
            final(self).keys_held@ == old(self).keys_held@,
    {
        match button {
            MouseButton::Left => {
                if pressed && !self.left_mouse_was_pressed_event {
                    self.left_mouse_pressed_this_frame = true;
                }
                if !pressed && self.left_mouse_is_down {
                    self.left_mouse_released_this_frame = true;
                }
                self.left_mouse_is_down = pressed;
                self.left_mouse_was_pressed_event = pressed;
            },
            MouseButton::Right => {
                if pressed && !self.right_mouse_was_pressed_event {
                    self.right_mouse_pressed_this_frame = true;
                }
                if !pressed && self.right_mouse_is_down {
                    self.right_mouse_released_this_frame = true;
                }
                self.right_mouse_is_down = pressed;
                self.right_mouse_was_pressed_event = pressed;
            },
            MouseButton::Other => {},
        }
    }

    /// Records a press (`pressed`) or release of the key `key`: a press of a
    /// key that is not held yet counts as pressed this frame.
    pub fn on_keyboard_input(&mut self, key: u32, pressed: bool)
        ensures
            final(self).left() == old(self).left(),
            final(self).right() == old(self).right(),
            final(self).keys_pressed_this_frame@ == if pressed && !old(self).keys_held@.contains(key) {
                old(self).keys_pressed_this_frame@.insert(key)
            } else {
                old(self).keys_pressed_this_frame@
            },
            final(self).keys_held@ == if pressed {
                old(self).keys_held@.insert(key)
            } else {
                old(self).keys_held@.remove(key)
            },
    {
        if pressed {
            if !self.keys_held.contains(&key) {
                self.keys_pressed_this_frame.insert(key);
            }
            self.keys_held.insert(key);
        } else {
            self.keys_held.remove(&key);
        }
    }

    /// Forgets what happened during the frame; what is held stays held.
    pub fn clear_frame_state(&mut self)
        ensures
            final(self).left() == (false, false, old(self).left().2, old(self).left().3),
            final(self).right() == (false, false, old(self).right().2, old(self).right().3),
            final(self).keys_pressed_this_frame@ == Set::<u32>::empty(),
            final(self).keys_held@ == old(self).keys_held@,
    {
        self.left_mouse_pressed_this_frame = false;
        self.right_mouse_pressed_this_frame = false;
        self.left_mouse_released_this_frame = false;
        self.right_mouse_released_this_frame = false;
        self.keys_pressed_this_frame.clear();
    }
}

/// Holding a button down and pressing it again (a repeated press event)
/// does not report a second press in the same or a later frame.
pub proof fn law_repeat_press_not_new(b: ButtonState)
    requires
        b.3,
    ensures
        button_after(b, true).0 == b.0,
{
}

/// A button event: the button is down exactly when the event was a press;
/// a fresh press is reported pressed and a release of a held button is
/// reported released; a press never reports a release nor a release a
/// press; and what was reported this frame stays reported.
pub proof fn law_button_events(b: ButtonState, pressed: bool)
    ensures
        button_after(b, pressed).2 == pressed,
        button_after(b, pressed).3 == pressed,
        pressed && !b.3 ==> button_after(b, pressed).0,
        !pressed && b.2 ==> button_after(b, pressed).1,
        !pressed ==> button_after(b, pressed).0 == b.0,
        pressed ==> button_after(b, pressed).1 == b.1,
        b.0 ==> button_after(b, pressed).0,
        b.1 ==> button_after(b, pressed).1,
{
}

/// A button is reported released only after it was down.
pub proof fn law_release_needs_down(b: ButtonState)
    requires
        !b.1,
        !b.2,
    ensures
        !button_after(b, false).1,
{
}

} // verus!
