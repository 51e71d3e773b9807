use sproutx::capture::device_kind;
use sproutx::capture::{is_keyboard, looks_like_our_device, name_looks_like_keyboard};

#[test]
fn recognises_our_virtual_keyboard() {
    assert!(looks_like_our_device("sproutx-vkbd"));
    assert!(looks_like_our_device("My SproutX device"));
    assert!(!looks_like_our_device("AT Translated Set 2 keyboard"));
}

#[test]
fn keyboard_names() {
    assert!(name_looks_like_keyboard("AT Translated Set 2 Keyboard"));
    assert!(name_looks_like_keyboard("usb-KBD"));
    assert!(!name_looks_like_keyboard("Logitech Mouse"));
}

#[test]
fn keyboards_have_the_typing_keys() {
    let full = vec![1u16, 28, 30, 42, 44, 57];
    assert!(is_keyboard(Some("Keyboard".to_string()), Some(full.clone())));
    assert!(is_keyboard(None, Some(full.clone())));
    assert!(!is_keyboard(Some("sproutx-vkbd".to_string()), Some(full.clone())));
    assert!(!is_keyboard(Some("Power Button".to_string()), Some(vec![116])));
    assert!(!is_keyboard(Some("Mouse".to_string()), None));
}

#[test]
fn device_kinds() {
    assert_eq!(device_kind(true, false), "keyboard");
    assert_eq!(device_kind(false, true), "other");
    assert_eq!(device_kind(false, false), "unknown");
}
