use sproutx::cli::{dry_run, rule_snippet, service_unit, yaml_quote_trigger};
use sproutx::config::Rule;
use sproutx::engine::Engine;

#[test]
fn quotes_triggers_for_yaml() {
    assert_eq!(yaml_quote_trigger(":hi"), "\":hi\"");
    assert_eq!(yaml_quote_trigger("a\"b\\c"), "\"a\\\"b\\\\c\"");
    assert_eq!(yaml_quote_trigger(""), "\"\"");
}

#[test]
fn rule_snippet_indents_replacement_lines() {
    assert_eq!(
        rule_snippet(":sig", "Jane\r\njane@example.com\n"),
        "  - trigger: \":sig\"\n    replace: |\n      Jane\n      jane@example.com\n"
    );
    assert_eq!(rule_snippet(":e", ""), "  - trigger: \":e\"\n    replace: |\n");
}

#[test]
fn dry_run_reports_matches_and_buffer() {
    let e = Engine::new(
        &[Rule { triggers: vec![":hi".to_string()], replace: "hello".to_string() }],
        64,
    );
    let (m, buf) = dry_run(&e, 64, "say :hi there");
    assert_eq!(m, vec![(":hi".to_string(), "hello".to_string())]);
    assert_eq!(buf.iter().collect::<String>(), " there");
    let (none, all) = dry_run(&e, 64, "nothing");
    assert!(none.is_empty());
    assert_eq!(all.iter().collect::<String>(), "nothing");
}

#[test]
fn unit_file_runs_the_daemon() {
    let u = service_unit("/usr/bin/sproutx");
    assert!(u.starts_with("[Unit]\nDescription=sproutx system-wide text expander\n"));
    assert!(u.contains("\n[Service]\nExecStart=/usr/bin/sproutx daemon\nRestart=on-failure\n"));
    assert!(u.ends_with("[Install]\nWantedBy=default.target\n"));
}
