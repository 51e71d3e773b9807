use sproutx::daemon::{idle_expired, rescan_due, will_feed};
use sproutx::config::Rule;
use sproutx::daemon::{handle_key, KeyAction};
use sproutx::engine::Engine;

fn engine() -> Engine {
    Engine::new(
        &[
            Rule { triggers: vec![":t".to_string()], replace: "T".to_string() },
            Rule { triggers: vec![":time".to_string(), ":hi".to_string()], replace: "R".to_string() },
        ],
        64,
    )
}

fn expand(t: &str, r: &str) -> Option<(String, String)> {
    Some((t.to_string(), r.to_string()))
}

fn view(a: KeyAction) -> Option<(String, String)> {
    match a {
        KeyAction::Nothing => None,
        KeyAction::Expand { trigger, replace } => Some((trigger, replace)),
    }
}

#[test]
fn typed_text_feeds_the_matcher() {
    let e = engine();
    let mut buf = Vec::new();
    assert_eq!(view(handle_key(&e, &mut buf, 64, 39, 1, Some(":".to_string()))), None);
    assert_eq!(view(handle_key(&e, &mut buf, 64, 35, 1, Some("h".to_string()))), None);
    assert_eq!(view(handle_key(&e, &mut buf, 64, 23, 1, Some("i".to_string()))), expand(":hi", "R"));
    assert!(buf.is_empty());
}

#[test]
fn releases_and_repeats_do_nothing() {
    let e = engine();
    let mut buf = vec!['x'];
    assert_eq!(view(handle_key(&e, &mut buf, 64, 30, 0, Some("a".to_string()))), None);
    assert_eq!(view(handle_key(&e, &mut buf, 64, 30, 2, Some("a".to_string()))), None);
    assert_eq!(buf, vec!['x']);
}

#[test]
fn backspace_drops_last_char() {
    let e = engine();
    let mut buf = vec!['a', 'b'];
    handle_key(&e, &mut buf, 64, 14, 1, None);
    assert_eq!(buf, vec!['a']);
    let mut empty = Vec::new();
    handle_key(&e, &mut empty, 64, 14, 1, None);
    assert!(empty.is_empty());
}

#[test]
fn enter_expands_or_clears() {
    let e = engine();
    let mut buf: Vec<char> = " :t".chars().collect();
    assert_eq!(view(handle_key(&e, &mut buf, 64, 28, 1, Some("\r".to_string()))), expand(":t", "T"));
    assert!(buf.is_empty());
    let mut other: Vec<char> = "abc".chars().collect();
    assert_eq!(view(handle_key(&e, &mut other, 64, 1, 1, None)), None);
    assert!(other.is_empty());
    let mut kp: Vec<char> = ":t".chars().collect();
    assert_eq!(view(handle_key(&e, &mut kp, 64, 96, 1, None)), expand(":t", "T"));
    assert!(kp.is_empty());
}

#[test]
fn hotkey_clears_buffer() {
    let e = engine();
    let mut buf = vec!['a'];
    handle_key(&e, &mut buf, 64, 29, 1, None);
    assert!(buf.is_empty());
}

#[test]
fn multi_char_text_stops_at_first_expansion() {
    let e = engine();
    let mut buf = Vec::new();
    assert_eq!(view(handle_key(&e, &mut buf, 64, 0, 1, Some(":hiya".to_string()))), expand(":hi", "R"));
    assert!(buf.is_empty());
}

#[test]
fn will_feed_only_plain_text_presses() {
    assert!(will_feed(0, 30, 1, &Some("a".to_string())));
    assert!(!will_feed(0, 30, 0, &Some("a".to_string())));
    assert!(!will_feed(0, 30, 1, &Some(String::new())));
    assert!(!will_feed(0, 30, 1, &None));
    assert!(!will_feed(0, 28, 1, &Some("\r".to_string())));
    assert!(!will_feed(3, 29, 1, &Some("x".to_string())));
    assert!(!will_feed(0, 14, 1, &Some("x".to_string())));
    assert!(idle_expired(1, 2000));
    assert!(!idle_expired(0, 5000));
    assert!(!idle_expired(3, 1999));
    assert!(rescan_due(3000));
    assert!(!rescan_due(2999));
}
