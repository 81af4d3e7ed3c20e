use alioth::input::{
    process_keyboard_shortcut, Action, KEY_BACKSPACE, KEY_SWITCH_VT_1, KEY_SWITCH_VT_12,
};

#[test]
fn ctrl_alt_backspace_quits() {
    assert_eq!(process_keyboard_shortcut(true, true, KEY_BACKSPACE), Some(Action::Quit));
    assert_eq!(process_keyboard_shortcut(true, false, KEY_BACKSPACE), None);
    assert_eq!(process_keyboard_shortcut(false, true, KEY_BACKSPACE), None);
    assert_eq!(process_keyboard_shortcut(false, false, KEY_BACKSPACE), None);
}

#[test]
fn terminal_keys_change_the_terminal() {
    assert_eq!(
        process_keyboard_shortcut(false, false, KEY_SWITCH_VT_1),
        Some(Action::ChangeVt(1))
    );
    assert_eq!(
        process_keyboard_shortcut(true, true, 0x1008_fe05),
        Some(Action::ChangeVt(5))
    );
    assert_eq!(
        process_keyboard_shortcut(false, true, KEY_SWITCH_VT_12),
        Some(Action::ChangeVt(12))
    );
    assert_eq!(process_keyboard_shortcut(true, true, KEY_SWITCH_VT_12 + 1), None);
    assert_eq!(process_keyboard_shortcut(true, true, KEY_SWITCH_VT_1 - 1), None);
}

#[test]
fn other_keys_do_nothing() {
    assert_eq!(process_keyboard_shortcut(true, true, 0x61), None);
    assert_eq!(process_keyboard_shortcut(false, false, 0), None);
    assert_ne!(Some(Action::Nothing), process_keyboard_shortcut(false, false, 0));
}

#[test]
fn keysyms_have_their_values() {
    assert_eq!(KEY_BACKSPACE, 0xff08);
    assert_eq!(KEY_SWITCH_VT_1, 0x1008_fe01);
    assert_eq!(KEY_SWITCH_VT_12, 0x1008_fe0c);
}
