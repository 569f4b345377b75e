use hyleus::devices::{Keyboard, Mouse};

#[test]
fn unreported_key_is_up() {
    let keyboard = Keyboard::default();
    assert!(!keyboard.is_pressed(17));
}

#[test]
fn pressed_key_reads_down() {
    let mut keyboard = Keyboard::default();
    keyboard.set_pressed(17, true);
    assert!(keyboard.is_pressed(17));
    assert!(!keyboard.is_pressed(18));
}

#[test]
fn released_key_reads_up() {
    let mut keyboard = Keyboard::default();
    keyboard.set_pressed(17, true);
    keyboard.set_pressed(17, false);
    assert!(!keyboard.is_pressed(17));
    assert_eq!(keyboard.keys.len(), 1);
}

#[test]
fn reports_of_other_keys_leave_a_key_alone() {
    let mut keyboard = Keyboard::default();
    keyboard.set_pressed(3, true);
    keyboard.set_pressed(4, false);
    keyboard.set_pressed(5, true);
    assert!(keyboard.is_pressed(3));
    assert!(!keyboard.is_pressed(4));
    assert!(keyboard.is_pressed(5));
}

#[test]
fn primary_button_is_left_right_or_middle() {
    let mut mouse = Mouse::default();
    assert!(!mouse.primary_button());
    mouse.back = true;
    mouse.forward = true;
    assert!(!mouse.primary_button());
    mouse.middle = true;
    assert!(mouse.primary_button());
    let right_only = Mouse { right: true, ..Mouse::default() };
    assert!(right_only.primary_button());
}
