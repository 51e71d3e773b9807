use sproutx::config::Rule;
use sproutx::engine::Engine;
use sproutx::ipc::{reload_reply, rule_line, serve_step, Step};

fn engine() -> Engine {
    Engine::new(
        &[
            Rule { triggers: vec![":a".to_string()], replace: "x".repeat(61) },
            Rule { triggers: vec!["q\"".to_string()], replace: "short".to_string() },
        ],
        64,
    )
}

fn reply(s: Step) -> (String, u8) {
    match s {
        Step::Reply(r) => (r, 0),
        Step::Reload => (String::new(), 1),
        Step::Stop(r) => (r, 2),
    }
}

#[test]
fn simple_commands() {
    let e = engine();
    assert_eq!(reply(serve_step("ping\n", &e)), ("ok sproutx".to_string(), 0));
    assert_eq!(reply(serve_step(" status ", &e)), ("ok running rules=2".to_string(), 0));
    assert_eq!(reply(serve_step("reload", &e)), (String::new(), 1));
    assert_eq!(reply(serve_step("stop\r\n", &e)), ("ok stopped".to_string(), 2));
    assert_eq!(reply(serve_step("dance", &e)), ("err: unknown command dance".to_string(), 0));
}

#[test]
fn list_shows_each_rule() {
    let e = engine();
    let expected = format!("ok\n  \":a\" => {}...\n  \"q\\\"\" => short", "x".repeat(60));
    assert_eq!(reply(serve_step("list", &e)), (expected, 0));
    assert_eq!(reply(serve_step("list", &Engine::new(&[], 64))), ("ok".to_string(), 0));
}

#[test]
fn rule_line_quotes_and_cuts() {
    assert_eq!(rule_line(":hi", "hello"), "  \":hi\" => hello");
    assert_eq!(rule_line("a\nb", &"y".repeat(60)), format!("  \"a\\nb\" => {}", "y".repeat(60)));
    assert_eq!(rule_line("é", &"é".repeat(61)), format!("  \"é\" => {}...", "é".repeat(60)));
}

#[test]
fn reload_replies() {
    assert_eq!(reload_reply(Ok(("fr(azerty)".to_string(), 12))), "ok layout=fr(azerty) rules=12");
    assert_eq!(reload_reply(Ok(("us".to_string(), 0))), "ok layout=us rules=0");
    assert_eq!(reload_reply(Err("cannot read x".to_string())), "err: cannot read x");
}
