//! Keyboard shortcuts of the compositor.

use vstd::prelude::*;

verus! {

/// What the compositor does in answer to a key.
#[derive(Clone, Copy, Debug, PartialEq, Eq, Structural)]
pub enum Action {
    /// Nothing to do, for example when a keyboard event is passed to the client.
    Nothing,
    /// Ctrl-Alt-Fx, to change tty.
    ChangeVt(i32),
    /// Ctrl-Alt-Backspace, to exit the compositor.
    Quit,
}

/// Keysym of the backspace key.
pub const KEY_BACKSPACE: u32 = 0xff08;

/// Keysym that switches to the first virtual terminal.
pub const KEY_SWITCH_VT_1: u32 = 0x1008_fe01;

/// Keysym that switches to the twelfth virtual terminal.
pub const KEY_SWITCH_VT_12: u32 = 0x1008_fe0c;

/// The action bound to a key, if any: Ctrl-Alt-Backspace quits, and each of the twelve
/// terminal-switch keys changes to its terminal, counted from one.
pub open spec fn shortcut_of(ctrl: bool, alt: bool, keysym: u32) -> Option<Action> {
    if keysym == KEY_BACKSPACE && ctrl && alt {
        Some(Action::Quit)
    } else if KEY_SWITCH_VT_1 <= keysym <= KEY_SWITCH_VT_12 {
        Some(Action::ChangeVt((keysym - KEY_SWITCH_VT_1 + 1) as i32))
    } else {
        None
    }
}

/// Checks if a keyboard shortcut is triggered.
pub fn process_keyboard_shortcut(ctrl: bool, alt: bool, keysym: u32) -> (action: Option<Action>)
    ensures
        action == shortcut_of(ctrl, alt, keysym),
{
    if keysym == KEY_BACKSPACE && ctrl && alt {
        Some(Action::Quit)
    } else if KEY_SWITCH_VT_1 <= keysym && keysym <= KEY_SWITCH_VT_12 {
        let terminal: u32 = keysym - KEY_SWITCH_VT_1 + 1;
        Some(Action::ChangeVt(terminal as i32))
    } else {
        None
    }
}

/// What a press of a pointer button does to the focus of the keyboard.
#[derive(Clone, Copy, Debug, PartialEq, Eq, Structural)]
pub enum FocusChange {
    /// The focus stays.
    Keep,
    /// The window goes to the top and gets the focus.
    Raise(u64),
    /// No window has the focus any more.
    Clear,
}

/// What a pointer button does to the focus: a press outside a grab raises the window
/// under the pointer and gives it the focus, or takes the focus away where no window is
/// under the pointer. A release, and a press while the pointer is grabbed, leave the
/// focus.
pub open spec fn focus_after(
    pressed: bool,
    grabbed: bool,
    window_under_pointer: Option<u64>,
) -> FocusChange {
    if pressed && !grabbed {
        match window_under_pointer {
            Some(window) => FocusChange::Raise(window),
            None => FocusChange::Clear,
        }
    } else {
        FocusChange::Keep
    }
}

/// What a pointer button does to the focus of the keyboard.
pub fn button_focus(pressed: bool, grabbed: bool, window_under_pointer: Option<u64>) -> (change:
    FocusChange)
    ensures
        change == focus_after(pressed, grabbed, window_under_pointer),
{
    if pressed && !grabbed {
        match window_under_pointer {
            Some(window) => FocusChange::Raise(window),
            None => FocusChange::Clear,
        }
    } else {
        FocusChange::Keep
    }
}

} // verus!
