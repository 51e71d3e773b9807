use sproutx::log::{enabled, level_from_setting, level_tag};

#[test]
fn levels_from_setting() {
    assert_eq!(level_from_setting(Some(" OFF ".to_string()), true), 0);
    assert_eq!(level_from_setting(Some("error".to_string()), false), 0);
    assert_eq!(level_from_setting(Some("Warning".to_string()), false), 1);
    assert_eq!(level_from_setting(Some("warn".to_string()), true), 1);
    assert_eq!(level_from_setting(Some("\tDebug\n".to_string()), false), 3);
    assert_eq!(level_from_setting(Some("info".to_string()), true), 2);
    assert_eq!(level_from_setting(Some("TRACE".to_string()), false), 3);
    assert_eq!(level_from_setting(Some("loud".to_string()), true), 2);
    assert_eq!(level_from_setting(None, true), 3);
    assert_eq!(level_from_setting(None, false), 2);
}

#[test]
fn enabled_and_tags() {
    assert!(enabled(2, 1));
    assert!(enabled(2, 2));
    assert!(!enabled(2, 3));
    assert_eq!(level_tag(0), "error");
    assert_eq!(level_tag(1), "warn");
    assert_eq!(level_tag(2), "info");
    assert_eq!(level_tag(7), "debug");
}
