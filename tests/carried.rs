use std::collections::HashMap;

use ride::keys::{Key, KeyboardShortcut};

#[test]
fn lib_it_works() {
    assert_eq!(2 + 2, 4);
}

#[test]
fn resources_it_works() {
    assert_eq!(2 + 2, 4);
}

#[test]
fn ride_text_it_works() {
    assert_eq!(2 + 2, 4);
}

#[test]
fn settings_it_works() {
    assert_eq!(2 + 2, 4);
}

#[test]
fn text_renderer_it_works() {
    assert_eq!(2 + 2, 4);
}

#[test]
fn speech_it_works() {
    assert_eq!(2 + 2, 4);
}

#[test]
fn windows_it_works() {
    assert_eq!(2 + 2, 4);
}

#[test]
fn mod_it_works() {
    assert_eq!(2 + 2, 4);
}

#[test]
fn unix_it_works() {
    assert_eq!(2 + 2, 4);
}

#[test]
fn screen_keys_hashmap() {
    let k1 = KeyboardShortcut::new(false, false, false, Key::Up);
    let k2 = KeyboardShortcut::new(false, false, false, Key::Up);

    let mut hm: HashMap<KeyboardShortcut, usize> = HashMap::new();
    hm.insert(k1, 2);
    assert_eq!(hm.contains_key(&k2), true);
}

#[test]
fn screen_enums_cast_test() {
    let k = Key::Up;
    assert_eq!(k.code(), 111);
}

#[test]
fn mod_keys_hashmap() {
    let k1 = KeyboardShortcut::new(false, false, false, Key::Up);
    let k2 = KeyboardShortcut::new(false, false, false, Key::Up);

    let mut hm: HashMap<KeyboardShortcut, usize> = HashMap::new();
    hm.insert(k1, 2);
    assert_eq!(hm.contains_key(&k2), true);
}

#[test]
fn mod_enums_cast_test() {
    let k = Key::Up;
    assert_eq!(k.code(), 111);
}
