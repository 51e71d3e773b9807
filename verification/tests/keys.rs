use sproutx::keys::{
    is_hotkey_mod, printable, releases_key, translate, xkb_keycode, HotkeyGate, KeyLevel, ModBits, Planner, Stroke,
    KEY_ENTER, KEY_LEFTALT, KEY_LEFTCTRL, KEY_LEFTMETA, KEY_LEFTSHIFT, KEY_RIGHTALT, KEY_TAB,
};

fn mods() -> ModBits {
    ModBits { shift: 1, lock: 2, ctrl: 4, mod1: 8, mod2: 16, meta: 64 }
}

#[test]
fn hotkey_mods_exclude_shift() {
    for k in [29u16, 97, 56, 100, 125, 126] {
        assert!(is_hotkey_mod(k));
    }
    assert!(!is_hotkey_mod(KEY_LEFTSHIFT));
    assert!(!is_hotkey_mod(30));
}

#[test]
fn decodes_plain_letter() {
    let mut g = HotkeyGate::new();
    assert!(g.on_event(30, 1, 1_000));
    assert_eq!(printable("a".to_string()), Some("a".to_string()));
}

#[test]
fn decodes_shifted_letter() {
    let mut g = HotkeyGate::new();
    // Shift is no hotkey: its press is decoded, into no printable text.
    assert!(g.on_event(KEY_LEFTSHIFT, 1, 1_000));
    assert_eq!(printable(String::new()), None);
    assert!(g.on_event(30, 1, 1_001));
    assert_eq!(printable("A".to_string()), Some("A".to_string()));
}

#[test]
fn suppresses_ctrl_chord() {
    let mut g = HotkeyGate::new();
    assert!(!g.on_event(KEY_LEFTCTRL, 1, 1_000));
    assert!(!g.on_event(30, 1, 1_010));
    assert!(!g.on_event(39, 1, 1_020));
}

#[test]
fn suppresses_super_chord() {
    let mut g = HotkeyGate::new();
    g.on_event(KEY_LEFTMETA, 1, 5_000);
    assert!(!g.on_event(2, 1, 5_100));
}

#[test]
fn suppresses_alt_chord() {
    let mut g = HotkeyGate::new();
    g.on_event(KEY_LEFTALT, 1, 0);
    assert!(!g.on_event(30, 1, 249));
}

#[test]
fn decodes_normally_once_chord_window_passes() {
    let mut g = HotkeyGate::new();
    g.on_event(KEY_LEFTCTRL, 1, 1_000);
    g.on_event(KEY_LEFTCTRL, 0, 1_050);
    assert!(g.on_event(30, 1, 1_350));
    assert_eq!(g.last_hotkey_ms, Some(1_050));
}

#[test]
fn releases_and_repeats_are_not_decoded() {
    let mut g = HotkeyGate::new();
    assert!(!g.on_event(30, 0, 10));
    assert!(!g.on_event(30, 2, 10));
    assert_eq!(g.last_hotkey_ms, None);
}

#[test]
fn printable_rejects_empty_and_control_text() {
    assert_eq!(printable(String::new()), None);
    assert_eq!(printable("\u{8}".to_string()), None);
    assert_eq!(printable("\r\u{7f}".to_string()), None);
    assert_eq!(printable("\u{1b}x".to_string()), Some("\u{1b}x".to_string()));
}

#[test]
fn translate_masks() {
    let m = mods();
    assert_eq!(translate(&m, 0), Some(vec![]));
    assert_eq!(translate(&m, 1), Some(vec![KEY_LEFTSHIFT]));
    assert_eq!(translate(&m, 1 | 16), Some(vec![KEY_LEFTSHIFT, KEY_RIGHTALT]));
    assert_eq!(translate(&m, 8 | 64), Some(vec![KEY_LEFTALT, KEY_LEFTMETA]));
    assert_eq!(translate(&m, 4), None);
    assert_eq!(translate(&m, 2), None);
    assert_eq!(translate(&m, 1 | 32), None);
    let none = ModBits { shift: 0, lock: 0, ctrl: 0, mod1: 0, mod2: 0, meta: 0 };
    assert_eq!(translate(&none, 8), None);
}

fn level(keycode: u32, layout: u32, level: u32, syms: &[u32], masks: &[u32]) -> KeyLevel {
    KeyLevel { keycode, layout, level, syms: syms.to_vec(), masks: masks.to_vec() }
}

fn names(v: &[&str]) -> Vec<String> {
    v.iter().map(|s| s.to_string()).collect()
}

#[test]
fn planner_picks_the_cheapest_stroke() {
    let table = vec![
        level(38, 0, 0, &[0x61], &[0, 2]),
        level(38, 0, 1, &[0x41], &[1, 3]),
        level(30, 1, 0, &[0x41], &[0]),
        level(40, 0, 2, &[0xe9], &[4, 16]),
    ];
    let p = Planner::new(table, names(&["Shift", "Lock", "Control", "Mod1", "Mod2", "Mod3", "Mod4", "Mod5"]));
    let s = |ch: char| p.stroke_for(ch).map(|v| v.into_iter().map(|s| (s.key, s.mods)).collect::<Vec<_>>());
    assert_eq!(s('a'), Some(vec![(30, vec![])]));
    // level 1 with Shift scores 1 + 8 = 9; layout 1 scores 16.
    assert_eq!(s('A'), Some(vec![(30, vec![KEY_LEFTSHIFT])]));
    // the Control mask cannot be held; the Mod2 one (AltGr) can.
    assert_eq!(s('é'), Some(vec![(32, vec![KEY_RIGHTALT])]));
    assert_eq!(s('z'), None);
    assert_eq!(s('\n'), Some(vec![(KEY_ENTER, vec![])]));
    assert_eq!(s('\t'), Some(vec![(KEY_TAB, vec![])]));
    assert_eq!(s('x'), None);
}

#[test]
fn planner_reads_modifier_names() {
    // "Alt" stands for Mod1 when there is no "Mod1"; "Super" for Mod4.
    let table = vec![level(38, 0, 0, &[0x61], &[1 << 2]), level(39, 0, 0, &[0x61], &[1 << 3])];
    let p = Planner::new(table, names(&["Shift", "CapsLock", "Alt", "Super"]));
    assert_eq!(p.stroke_for('a').map(|v| v[0].mods.clone()), Some(vec![KEY_LEFTALT]));
}

#[test]
fn stroke_events_wrap_the_key_in_its_modifiers() {
    let s = Stroke { key: 30, mods: vec![KEY_LEFTSHIFT, KEY_RIGHTALT] };
    assert_eq!(
        s.events(),
        vec![(KEY_LEFTSHIFT, 1), (KEY_RIGHTALT, 1), (30, 1), (30, 0), (KEY_RIGHTALT, 0), (KEY_LEFTSHIFT, 0)]
    );
    assert_eq!(Stroke { key: 14, mods: vec![] }.events(), vec![(14, 1), (14, 0)]);
}

#[test]
fn plans_only_within_range() {
    let ok = Planner::new(vec![level(38, 0, 0, &[0x61], &[0])], names(&["Shift"]));
    assert!(ok.can_plan('a'));
    let low = Planner::new(vec![level(3, 0, 0, &[0x61], &[0])], names(&["Shift"]));
    assert!(!low.can_plan('a'));
    assert!(low.can_plan('b'));
    assert!(low.can_plan('\n'));
    let huge = Planner::new(vec![level(38, 0x1000_0000, 0, &[0x61], &[0])], names(&["Shift"]));
    assert!(!huge.can_plan('a'));
}

#[test]
fn planner_looks_up_the_keysym_of_each_character() {
    // 'ł' is the legacy keysym lstroke (0x1b3); '☃' has no legacy keysym and
    // is typed through its Unicode keysym (0x1000000 + code point).
    let table = vec![level(26, 0, 0, &[0x1b3], &[0]), level(27, 0, 0, &[0x100_2603], &[0])];
    let p = Planner::new(table, names(&["Shift"]));
    assert_eq!(p.stroke_for('ł').map(|v| v[0].key), Some(18));
    assert_eq!(p.stroke_for('☃').map(|v| v[0].key), Some(19));
    assert_eq!(p.stroke_for('ß').map(|v| v[0].key), None);
}

#[test]
fn plan_refuses_keys_below_the_xkb_offset() {
    let low = Planner::new(vec![level(3, 0, 0, &[0x61], &[0])], names(&["Shift"]));
    assert!(low.plan('a').is_none());
    assert_eq!(low.plan('b').map(|x| x.is_none()), Some(true));
    let ok = Planner::new(vec![level(38, 0, 0, &[0x61], &[0])], names(&["Shift"]));
    assert_eq!(ok.plan('a').and_then(|x| x).map(|v| v[0].key), Some(30));
}

#[test]
fn xkb_keycodes_and_key_direction() {
    assert_eq!(xkb_keycode(30), 38);
    assert_eq!(xkb_keycode(0), 8);
    assert!(releases_key(0));
    assert!(!releases_key(1));
    assert!(!releases_key(2));
}
