use sproutx::config::{
    parse_def_keyboard, parse_localectl, parse_setxkbmap,
    auto_from_layout, default_delay, default_depth, join_layouts, normalize, resolve_layout,
    sample, split_csv, FileConfig, Rule,
};

#[test]
fn localectl_parses_layout_and_variant() {
    let t = "\
Static hostname: nixos\n\
Other hosts: localhost\n\
  Virtual Console Keymap: (unset)\n\
  Keyboard: fr\n\
       X11 Layout: fr,us\n\
       X11 Variant: azerty,\n\
       X11 Model: pc105\n";
    assert_eq!(parse_localectl(t).unwrap(), "fr(azerty),us");
}

#[test]
fn localectl_ignores_unset_layout() {
    assert_eq!(parse_localectl("  X11 Layout: \n"), None);
}

#[test]
fn setxkbmap_query_parses() {
    let t = "rules:      evdev\nmodel:      pc105\nlayout:     us\nvariant:    intl\n";
    assert_eq!(parse_setxkbmap(t).unwrap(), "us(intl)");
}

#[test]
fn setxkbmap_no_variant_parses() {
    assert_eq!(parse_setxkbmap("layout:     us\n").unwrap(), "us");
}

#[test]
fn def_keyboard_parses_quoted() {
    let t = "XKBLAYOUT=\"us, fr\"\nXKBVARIANT=\"basic, azerty\"\nXKBOPTIONS=terminate:ctrl_alt_bksp\n";
    assert_eq!(parse_def_keyboard(t).unwrap(), "us(basic),fr(azerty)");
}


fn strings(v: &[&str]) -> Vec<String> {
    v.iter().map(|s| s.to_string()).collect()
}

#[test]
fn defaults() {
    assert_eq!(default_depth(), 64);
    assert_eq!(default_delay(), 12);
}

#[test]
fn normalize_fills_defaults_and_drops_empty_rules() {
    let cfg = FileConfig {
        layout: Some("fr".to_string()),
        depth: 0,
        delay_ms: 0,
        rules: vec![
            Rule { triggers: strings(&["  "]), replace: String::new() },
            Rule { triggers: strings(&[":a"]), replace: String::new() },
            Rule { triggers: vec![], replace: "text".to_string() },
            Rule { triggers: strings(&["", " "]), replace: String::new() },
        ],
    };
    let n = normalize(cfg);
    assert_eq!(n.layout, Some("fr".to_string()));
    assert_eq!(n.depth, 64);
    assert_eq!(n.delay_ms, 12);
    assert_eq!(n.rules.len(), 2);
    assert_eq!(n.rules[0].triggers, strings(&[":a"]));
    assert_eq!(n.rules[1].replace, "text");
    let kept = normalize(FileConfig { layout: None, depth: 8, delay_ms: 3, rules: vec![] });
    assert_eq!((kept.depth, kept.delay_ms), (8, 3));
}

#[test]
fn split_csv_trims_quotes_and_items() {
    assert_eq!(split_csv(" \"us, fr\" "), strings(&["us", "fr"]));
    assert_eq!(split_csv("fr(azerty)"), strings(&["fr(azerty)"]));
    assert_eq!(split_csv(""), strings(&[""]));
    assert_eq!(split_csv("a,,b"), strings(&["a", "", "b"]));
}

#[test]
fn join_layouts_pairs_variants() {
    assert_eq!(join_layouts(&strings(&["us", "fr"]), &strings(&["", "azerty"])), Some("us,fr(azerty)".to_string()));
    assert_eq!(join_layouts(&strings(&["us"]), &strings(&[" intl ", "x"])), Some("us(intl)".to_string()));
    assert_eq!(join_layouts(&strings(&[]), &strings(&["x"])), None);
    assert_eq!(join_layouts(&strings(&["", ""]), &strings(&[])), None);
}

#[test]
fn parsers_take_the_last_line() {
    assert_eq!(parse_setxkbmap("layout: us\nlayout: de\n").unwrap(), "de");
    assert_eq!(parse_def_keyboard("  XKBLAYOUT=fr  \r\n").unwrap(), "fr");
    assert_eq!(parse_localectl(""), None);
    // setxkbmap lines are not trimmed before the key is looked for.
    assert_eq!(parse_setxkbmap("  layout: us\n"), None);
}

#[test]
fn auto_from_layout_trims() {
    assert_eq!(auto_from_layout(&Some("  us  ".to_string())), Some("us".to_string()));
    assert_eq!(auto_from_layout(&Some("   ".to_string())), None);
    assert_eq!(auto_from_layout(&None), None);
}

#[test]
fn resolve_layout_precedence() {
    let lc = Some("X11 Layout: fr\n".to_string());
    let sx = Some("layout: de\n".to_string());
    let kb = Some("XKBLAYOUT=it\n".to_string());
    assert_eq!(resolve_layout(&Some("gb".to_string()), Some("es".to_string()), lc.clone(), sx.clone(), kb.clone()), "gb");
    assert_eq!(resolve_layout(&Some(" ".to_string()), Some("es".to_string()), lc.clone(), sx.clone(), kb.clone()), "es");
    assert_eq!(resolve_layout(&None, None, lc.clone(), sx.clone(), kb.clone()), "fr");
    assert_eq!(resolve_layout(&None, Some("".to_string()), Some("X11 Layout: \n".to_string()), sx.clone(), kb.clone()), "de");
    assert_eq!(resolve_layout(&None, None, None, None, kb.clone()), "it");
    assert_eq!(resolve_layout(&None, None, None, None, None), "us");
}

#[test]
fn sample_config_has_rules() {
    let s = sample();
    assert!(s.starts_with("# sproutx - system-wide text expander\n"));
    assert!(s.contains("  - trigger: \":sproutx\"\n"));
    assert!(s.contains("    replace: \"{{today}}\"\n"));
    assert!(s.ends_with("    replace: \"{{now}}\"\n"));
}

#[test]
fn normalize_twice_is_normalize_once() {
    let cfg = FileConfig {
        layout: None,
        depth: 0,
        delay_ms: 5,
        rules: vec![
            Rule { triggers: strings(&[" "]), replace: String::new() },
            Rule { triggers: strings(&[":k"]), replace: "K".to_string() },
        ],
    };
    let once = normalize(cfg);
    let (d, ms, n) = (once.depth, once.delay_ms, once.rules.len());
    let twice = normalize(once);
    assert_eq!((twice.depth, twice.delay_ms, twice.rules.len()), (d, ms, n));
    assert_eq!(twice.rules[0].triggers, strings(&[":k"]));
}

#[test]
fn resolved_layout_is_never_blank_or_padded() {
    assert_eq!(resolve_layout(&Some("  de \t".to_string()), None, None, None, None), "de");
    assert_eq!(resolve_layout(&None, Some("\n".to_string()), None, None, None), "us");
    let lc = Some("   X11 Layout: , us\n X11 Variant: , intl \n".to_string());
    assert_eq!(resolve_layout(&None, None, lc, None, None), ",us(intl)");
    let sx = Some("layout:  , \n".to_string());
    assert_eq!(resolve_layout(&None, None, None, sx, None), "us");
}
