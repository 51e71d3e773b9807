use chrono::{Datelike, Timelike};
use sproutx::template::{render_at, Stamp};

// Tuesday 5 March 2024, 14:07:09.
fn stamp() -> Stamp {
    Stamp { year: 2024, month: 3, day: 5, hour: 14, minute: 7, second: 9, ordinal0: 64, weekday: 1 }
}

#[test]
fn renders_today_time_now() {
    let t = stamp();
    assert_eq!(render_at("Today is {{today}}.", &t), "Today is 2024-03-05.");
    assert_eq!(render_at("{{date}}", &t), "2024-03-05");
    assert_eq!(render_at("{{time}}", &t), "14:07:09");
    assert_eq!(render_at("{{ now }}", &t), "2024-03-05 14:07:09");
}

#[test]
fn renders_formats() {
    let t = stamp();
    assert_eq!(render_at("{{today:%A, %d %B %Y}}", &t), "Tuesday, 05 March 2024");
    assert_eq!(render_at("{{date:%a %b %e %y}}", &t), "Tue Mar  5 24");
    assert_eq!(render_at("{{today:%j}}", &t), "065");
    assert_eq!(render_at("{{time:%H.%M}}", &t), "14.07");
    assert_eq!(render_at("{{time:}}", &t), "14:07:09");
    assert_eq!(render_at("{{today:100%%}}", &t), "100%");
    assert_eq!(render_at("{{today:%Q}}", &t), "%Q");
    assert_eq!(render_at("{{today:50%}}", &t), "50%");
}

#[test]
fn renders_day_offsets() {
    let t = stamp();
    assert_eq!(render_at("{{today+1}}", &t), "2024-03-06");
    assert_eq!(render_at("{{today-5}}", &t), "2024-02-29");
    assert_eq!(render_at("{{today +7 : %A}}", &t), "Tuesday");
    assert_eq!(render_at("{{date-365:%Y-%m-%d %H:%M}}", &t), "2023-03-06 14:07");
    assert_eq!(render_at("{{today+0}}", &t), "2024-03-05");
}

#[test]
fn out_of_range_offset_keeps_today() {
    let t = stamp();
    assert_eq!(render_at("{{today+9223372036854775807}}", &t), "2024-03-05");
    assert_eq!(render_at("{{today-9223372036854775808}}", &t), "2024-03-05");
}

#[test]
fn malformed_variables_stay() {
    let t = stamp();
    assert_eq!(render_at("{{foo}}", &t), "{{foo}}");
    assert_eq!(render_at("{{today+abc}}", &t), "{{today+abc}}");
    assert_eq!(render_at("{{todayx}}", &t), "{{todayx}}");
    assert_eq!(render_at("{{today+9223372036854775808}}", &t), "{{today+9223372036854775808}}");
    assert_eq!(render_at("a {{b", &t), "a {{b");
    assert_eq!(render_at("x}} {{ y", &t), "x}} {{ y");
}

#[test]
fn text_without_variables_is_unchanged() {
    let t = stamp();
    assert_eq!(render_at("plain text { } }}", &t), "plain text { } }}");
    assert_eq!(render_at("", &t), "");
}

#[test]
fn negative_years_are_padded_after_the_sign() {
    let t = Stamp { year: -5, month: 1, day: 2, hour: 3, minute: 4, second: 5, ordinal0: 1, weekday: 0 };
    assert_eq!(render_at("{{today:%Y|%y}}", &t), "-005|-5");
}

#[test]
fn render_at_the_clock() {
    let x = chrono::Local::now().naive_local();
    let t = Stamp {
        year: x.year(),
        month: x.month(),
        day: x.day(),
        hour: x.hour(),
        minute: x.minute(),
        second: x.second(),
        ordinal0: x.ordinal0(),
        weekday: x.weekday().num_days_from_monday(),
    };
    assert_eq!(render_at("{{today}}", &t), x.format("%Y-%m-%d").to_string());
    assert_eq!(render_at("{{today:%A %j}}", &t), x.format("%A %j").to_string());
    assert_eq!(render_at("no vars", &t), "no vars");
}

#[test]
fn literal_format_is_copied() {
    let t = stamp();
    assert_eq!(render_at("{{today:hello, world}}", &t), "hello, world");
}
