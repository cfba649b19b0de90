use voxel_world::input::{KeyInput, KeyState, KeyboardState};

fn press(key: u32) -> KeyInput {
    KeyInput { key: Some(key), state: KeyState::Pressed }
}

fn release(key: u32) -> KeyInput {
    KeyInput { key: Some(key), state: KeyState::Released }
}

#[test]
fn new_keyboard_is_idle() {
    let k = KeyboardState::new();
    assert!(!k.is_pressed(1));
    assert!(!k.was_pressed(1));
    assert!(!k.was_released(1));
    let d = KeyboardState::default();
    assert!(d.keys_down.is_empty() && d.keys_pressed.is_empty() && d.keys_released.is_empty());
}

#[test]
fn press_holds_and_records_key() {
    let mut k = KeyboardState::new();
    k.process_keyboard_input(press(17));
    assert!(k.is_pressed(17));
    assert!(k.was_pressed(17));
    assert!(!k.was_released(17));
    assert!(!k.is_pressed(18));
    assert_eq!(k.keys_down, vec![17]);
}

#[test]
fn press_of_held_key_changes_nothing() {
    let mut k = KeyboardState::new();
    k.process_keyboard_input(press(3));
    k.reset_presses();
    k.process_keyboard_input(press(3));
    assert_eq!(k.keys_down, vec![3]);
    assert!(k.keys_pressed.is_empty());
}

#[test]
fn release_lets_go_and_records_key() {
    let mut k = KeyboardState::new();
    k.process_keyboard_input(press(5));
    k.process_keyboard_input(press(6));
    k.process_keyboard_input(release(5));
    assert!(!k.is_pressed(5));
    assert!(k.is_pressed(6));
    assert!(k.was_released(5));
    assert_eq!(k.keys_down, vec![6]);
    assert_eq!(k.keys_released, vec![5]);
}

#[test]
fn release_removes_every_copy() {
    let mut k = KeyboardState { keys_down: vec![2, 4, 2], keys_pressed: vec![], keys_released: vec![] };
    k.process_keyboard_input(release(2));
    assert_eq!(k.keys_down, vec![4]);
}

#[test]
fn release_of_unheld_key_is_recorded() {
    let mut k = KeyboardState::new();
    k.process_keyboard_input(release(9));
    assert!(k.was_released(9));
    assert!(k.keys_down.is_empty());
}

#[test]
fn event_without_key_changes_nothing() {
    let mut k = KeyboardState::new();
    k.process_keyboard_input(press(1));
    k.process_keyboard_input(KeyInput { key: None, state: KeyState::Pressed });
    k.process_keyboard_input(KeyInput { key: None, state: KeyState::Released });
    assert_eq!(k.keys_down, vec![1]);
    assert_eq!(k.keys_pressed, vec![1]);
    assert!(k.keys_released.is_empty());
}

#[test]
fn reset_keeps_held_keys() {
    let mut k = KeyboardState::new();
    k.process_keyboard_input(press(1));
    k.process_keyboard_input(release(2));
    k.reset_presses();
    assert!(k.is_pressed(1));
    assert!(!k.was_pressed(1));
    assert!(!k.was_released(2));
}

#[test]
fn frame_events_start_from_reset() {
    let mut k = KeyboardState::new();
    k.process_keyboard_input(press(1));
    k.process_events(&vec![press(2), release(1), press(1), release(2)]);
    assert_eq!(k.keys_down, vec![1]);
    assert_eq!(k.keys_pressed, vec![2, 1]);
    assert_eq!(k.keys_released, vec![1, 2]);
    k.process_events(&vec![]);
    assert!(k.keys_pressed.is_empty() && k.keys_released.is_empty());
    assert!(k.is_pressed(1));
}

#[test]
fn held_key_follows_last_event() {
    let mut k = KeyboardState::new();
    k.process_events(&vec![press(7), release(7), press(7)]);
    assert!(k.is_pressed(7));
    k.process_events(&vec![release(7), press(7), release(7)]);
    assert!(!k.is_pressed(7));
}

#[test]
fn held_keys_stay_distinct() {
    let mut k = KeyboardState::new();
    k.process_events(&vec![press(1), press(1), press(2), press(1), release(2), press(2)]);
    assert_eq!(k.keys_down, vec![1, 2]);
}
