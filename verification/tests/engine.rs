use sproutx::config::Rule;
use sproutx::engine::Engine;

fn rule(triggers: &[&str], replace: &str) -> Rule {
    Rule { triggers: triggers.iter().map(|t| t.to_string()).collect(), replace: replace.to_string() }
}

fn triggers(e: &Engine) -> Vec<String> {
    e.rules().iter().map(|(t, _)| t.clone()).collect()
}

fn feed(e: &Engine, buf: &mut Vec<char>, depth: usize, text: &str) -> Vec<(String, String)> {
    let mut hits = Vec::new();
    for ch in text.chars() {
        if let Some(m) = e.feed_char(buf, depth, ch) {
            hits.push(m);
        }
    }
    hits
}

#[test]
fn rules_sorted_longest_first() {
    let e = Engine::new(&[rule(&[":a"], "A"), rule(&[":abc"], "ABC"), rule(&[":ab"], "AB")], 64);
    assert_eq!(triggers(&e), vec![":abc", ":ab", ":a"]);
}

#[test]
fn rules_of_equal_length_sorted_lexicographically() {
    let e = Engine::new(&[rule(&[":b", ":c"], "B"), rule(&[":a"], "A")], 64);
    assert_eq!(triggers(&e), vec![":a", ":b", ":c"]);
    assert_eq!(e.rules()[1].1, "B");
}

#[test]
fn triggers_trimmed_and_blank_dropped() {
    let e = Engine::new(&[rule(&["  :x  ", "   ", ""], "X")], 64);
    assert_eq!(e.rules().to_vec(), vec![(":x".to_string(), "X".to_string())]);
}

#[test]
fn duplicate_triggers_keep_rule_order() {
    let e = Engine::new(&[rule(&[":d"], "first"), rule(&[":d"], "second")], 64);
    assert_eq!(e.rules()[0].1, "first");
    assert_eq!(e.rules()[1].1, "second");
    assert!(!e.is_ambiguous(":d"));
}

#[test]
fn prefix_trigger_is_ambiguous() {
    let e = Engine::new(&[rule(&[":t"], "T"), rule(&[":time"], "TIME")], 64);
    assert!(e.is_ambiguous(":t"));
    assert!(!e.is_ambiguous(":time"));
    assert!(!e.is_ambiguous(":x"));
}

#[test]
fn unambiguous_trigger_fires_immediately() {
    let e = Engine::new(&[rule(&[":hi"], "hello")], 64);
    let mut buf = Vec::new();
    assert_eq!(feed(&e, &mut buf, 64, ":hi"), vec![(":hi".to_string(), "hello".to_string())]);
}

#[test]
fn ambiguous_trigger_waits_for_delimiter() {
    let e = Engine::new(&[rule(&[":t"], "T"), rule(&[":time"], "TIME")], 64);
    let mut buf = Vec::new();
    assert!(feed(&e, &mut buf, 64, ":t").is_empty());
    assert_eq!(feed(&e, &mut buf, 64, " "), vec![(":t".to_string(), "T".to_string())]);
    let mut buf2 = Vec::new();
    assert_eq!(feed(&e, &mut buf2, 64, ":time"), vec![(":time".to_string(), "TIME".to_string())]);
}

#[test]
fn trigger_fires_only_at_word_boundary() {
    let e = Engine::new(&[rule(&[":fast"], "FAST")], 64);
    let mut buf = Vec::new();
    assert!(feed(&e, &mut buf, 64, "going:fast").is_empty());
    let mut buf2 = Vec::new();
    assert_eq!(feed(&e, &mut buf2, 64, "going :fast").len(), 1);
}

#[test]
fn trigger_ending_with_delimiter() {
    let e = Engine::new(&[rule(&["btw."], "by the way")], 64);
    let mut buf = Vec::new();
    assert_eq!(feed(&e, &mut buf, 64, "so btw."), vec![("btw.".to_string(), "by the way".to_string())]);
}

#[test]
fn trigger_longer_than_depth_never_fires() {
    let e = Engine::new(&[rule(&[":abc"], "ABC")], 2);
    let mut buf = Vec::new();
    assert!(feed(&e, &mut buf, 64, ":abc ").is_empty());
}

#[test]
fn buffer_keeps_depth_plus_one_chars() {
    let e = Engine::new(&[], 64);
    let mut buf = Vec::new();
    feed(&e, &mut buf, 3, "abcdefg");
    assert_eq!(buf, vec!['d', 'e', 'f', 'g']);
    let mut buf0 = Vec::new();
    feed(&e, &mut buf0, 0, "xyz");
    assert_eq!(buf0, vec!['y', 'z']);
}

#[test]
fn overflowed_buffer_still_fires() {
    let e = Engine::new(&[rule(&[":ab"], "AB")], 64);
    let mut buf = Vec::new();
    // depth 3 keeps four characters; a trigger after a space fires all the same.
    assert_eq!(feed(&e, &mut buf, 3, "xyz :ab"), vec![(":ab".to_string(), "AB".to_string())]);
    assert_eq!(buf, vec![' ', ':', 'a', 'b']);
    let mut buf2: Vec<char> = "x :a".chars().collect();
    assert_eq!(e.feed_char(&mut buf2, 3, 'b'), Some((":ab".to_string(), "AB".to_string())));
    let mut buf3: Vec<char> = "xy:a".chars().collect();
    assert!(e.feed_char(&mut buf3, 3, 'b').is_none());
}

#[test]
fn trigger_typed_after_a_space_fires_on_a_full_buffer() {
    let e = Engine::new(&[rule(&[":fast"], "FAST")], 8);
    let mut buf: Vec<char> = "xxxx :fas".chars().collect();
    assert_eq!(e.feed_char(&mut buf, 8, 't'), Some((":fast".to_string(), "FAST".to_string())));
}

#[test]
fn delimiter_completes_on_a_full_buffer() {
    let e = Engine::new(&[rule(&[":t"], "T"), rule(&[":time"], "TIME")], 64);
    let mut buf: Vec<char> = "abc :t".chars().collect();
    // depth 4 keeps five characters.
    assert_eq!(e.feed_char(&mut buf, 4, ' '), Some((":t".to_string(), "T".to_string())));
    assert_eq!(buf, vec!['c', ' ', ':', 't', ' ']);
}

#[test]
fn doubled_trigger_is_not_ambiguous() {
    let e = Engine::new(&[rule(&[":hi"], "one"), rule(&[":hi"], "two")], 64);
    assert!(!e.is_ambiguous(":hi"));
    let mut buf = Vec::new();
    assert_eq!(feed(&e, &mut buf, 64, " :hi"), vec![(":hi".to_string(), "one".to_string())]);
}

#[test]
fn match_at_end_finds_completed_trigger() {
    let e = Engine::new(&[rule(&[":t"], "T"), rule(&[":time"], "TIME")], 64);
    let buf: Vec<char> = "say :t".chars().collect();
    assert_eq!(e.match_at_end(&buf), Some((":t".to_string(), "T".to_string())));
    let buf2: Vec<char> = "say:t".chars().collect();
    assert_eq!(e.match_at_end(&buf2), None);
}

#[test]
fn longest_trigger_wins() {
    let e = Engine::new(&[rule(&["-x"], "short"), rule(&["--x"], "long")], 64);
    let buf: Vec<char> = " --x".chars().collect();
    assert_eq!(e.match_at_end(&buf), Some(("--x".to_string(), "long".to_string())));
    let buf2: Vec<char> = "a--x".chars().collect();
    assert_eq!(e.match_at_end(&buf2), Some(("-x".to_string(), "short".to_string())));
}
