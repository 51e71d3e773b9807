//! The replacement templates: `{{today}}`, `{{time}}`, `{{now}}`,
//! `{{today+1}}`, `{{today:%A, %d %B %Y}}`, rendered at a given local time.

use vstd::prelude::*;

use chrono::{Datelike, Timelike};

use crate::text::{
    append_chars, chars_of, copy_range, find_char, find_char_exec, find_pair, find_pair_exec,
    is_prefix_exec, lemma_find_char, lemma_find_pair, same_chars, string_of, trim, trim_chars,
};

verus! {

/// A local date and time, with the derived fields that formatting reads.
#[derive(Clone, Copy, Debug)]
pub struct Stamp {
    pub year: i32,
    /// 1 to 12.
    pub month: u32,
    /// 1 to 31.
    pub day: u32,
    pub hour: u32,
    pub minute: u32,
    pub second: u32,
    /// Day of the year, starting from 0.
    pub ordinal0: u32,
    /// Day of the week, Monday being 0.
    pub weekday: u32,
}

impl Stamp {
    /// Every field in the range that chrono gives it.
    pub open spec fn wf(self) -> bool {
        &&& -262143 <= self.year <= 262142
        &&& 1 <= self.month <= 12
        &&& 1 <= self.day <= 31
        &&& self.hour < 24
        &&& self.minute < 60
        &&& self.second < 60
        &&& self.ordinal0 < 366
        &&& self.weekday < 7
    }
}

/// What `NaiveDateTime::checked_add_days` returns for the date-time that the
/// stamp's date and time fields name (`None` also when they name none).
pub uninterp spec fn chrono_add_days(t: Stamp, n: u64) -> Option<Stamp>;

/// What `NaiveDateTime::checked_sub_days` returns for the date-time that the
/// stamp's date and time fields name (`None` also when they name none).
pub uninterp spec fn chrono_sub_days(t: Stamp, n: u64) -> Option<Stamp>;

/// `NaiveDateTime::checked_add_days`: the date `n` days later, the time of day
/// kept; `None` out of chrono's range, which any `n` above `i32::MAX` leaves.
#[verifier::external_body]
fn add_days(t: &Stamp, n: u64) -> (r: Option<Stamp>)
    ensures
        r == chrono_add_days(*t, n),
        r matches Some(u) ==> u.wf() && u.hour == t.hour && u.minute == t.minute && u.second
            == t.second,
        n > i32::MAX ==> r is None,
{
    let d = chrono::NaiveDate::from_ymd_opt(t.year, t.month, t.day)?.and_hms_opt(t.hour, t.minute, t.second)?;
    let x = d.checked_add_days(chrono::Days::new(n))?;
    Some(Stamp {
        year: x.year(), month: x.month(), day: x.day(), hour: x.hour(), minute: x.minute(),
        second: x.second(), ordinal0: x.ordinal0(), weekday: x.weekday().num_days_from_monday(),
    })
}

/// `NaiveDateTime::checked_sub_days`: the date `n` days earlier, the time of
/// day kept; `None` out of chrono's range, which any `n` above `i32::MAX` leaves.
#[verifier::external_body]
fn sub_days(t: &Stamp, n: u64) -> (r: Option<Stamp>)
    ensures
        r == chrono_sub_days(*t, n),
        r matches Some(u) ==> u.wf() && u.hour == t.hour && u.minute == t.minute && u.second
            == t.second,
        n > i32::MAX ==> r is None,
{
    let d = chrono::NaiveDate::from_ymd_opt(t.year, t.month, t.day)?.and_hms_opt(t.hour, t.minute, t.second)?;
    let x = d.checked_sub_days(chrono::Days::new(n))?;
    Some(Stamp {
        year: x.year(), month: x.month(), day: x.day(), hour: x.hour(), minute: x.minute(),
        second: x.second(), ordinal0: x.ordinal0(), weekday: x.weekday().num_days_from_monday(),
    })
}

/// The decimal digit for `d`.
pub open spec fn digit_char(d: int) -> char {
    if d == 0 { '0' } else if d == 1 { '1' } else if d == 2 { '2' } else if d == 3 { '3' }
    else if d == 4 { '4' } else if d == 5 { '5' } else if d == 6 { '6' } else if d == 7 { '7' }
    else if d == 8 { '8' } else { '9' }
}

/// The decimal representation of `n`, without leading zeros.
pub open spec fn digits(n: nat) -> Seq<char>
    decreases n,
{
    if n < 10 {
        seq![digit_char(n as int)]
    } else {
        digits(n / 10).push(digit_char((n % 10) as int))
    }
}

/// `s` preceded by enough `fill` characters to make it `w` long.
pub open spec fn pad_left(s: Seq<char>, w: int, fill: char) -> Seq<char> {
    if s.len() < w {
        Seq::new((w - s.len()) as nat, |i: int| fill) + s
    } else {
        s
    }
}

/// `format!("{:0w}", v)`: zero padding goes after the sign.
pub open spec fn zero_padded(v: int, w: int) -> Seq<char> {
    if v >= 0 {
        pad_left(digits(v as nat), w, '0')
    } else {
        seq!['-'] + pad_left(digits((-v) as nat), w - 1, '0')
    }
}

/// `format!("{:w}", v)`: right-aligned, padded with spaces.
pub open spec fn space_padded(v: int, w: int) -> Seq<char> {
    if v >= 0 {
        pad_left(digits(v as nat), w, ' ')
    } else {
        pad_left(seq!['-'] + digits((-v) as nat), w, ' ')
    }
}

fn digit_of(d: u64) -> (c: char)
    requires
        d < 10,
    ensures
        c == digit_char(d as int),
{
    if d == 0 { '0' } else if d == 1 { '1' } else if d == 2 { '2' } else if d == 3 { '3' }
    else if d == 4 { '4' } else if d == 5 { '5' } else if d == 6 { '6' } else if d == 7 { '7' }
    else if d == 8 { '8' } else { '9' }
}

/// The decimal representation of `n`.
pub fn decimal(n: u64) -> (r: Vec<char>)
    ensures
        r@ == digits(n as nat),
    decreases n,
{
    if n < 10 {
        let mut v: Vec<char> = Vec::new();
        v.push(digit_of(n));
        assert(v@ =~= seq![digit_char(n as int)]);
        v
    } else {
        let mut v = decimal(n / 10);
        v.push(digit_of(n % 10));
        v
    }
}

fn push_fill(out: &mut Vec<char>, count: usize, fill: char)
    ensures
        final(out)@ == old(out)@ + Seq::new(count as nat, |i: int| fill),
{
    let mut k: usize = 0;
    while k < count
        invariant
            k <= count,
            out@ == old(out)@ + Seq::new(k as nat, |i: int| fill),
        decreases count - k,
    {
        out.push(fill);
        k = k + 1;
        assert(out@ =~= old(out)@ + Seq::new(k as nat, |i: int| fill));
    }
}

/// Appends `v` formatted as `{:0w}` (when `zero`) or `{:w}`.
fn push_padded(out: &mut Vec<char>, v: i64, w: usize, zero: bool)
    requires
        v > i64::MIN,
    ensures
        final(out)@ == old(out)@ + if zero {
            zero_padded(v as int, w as int)
        } else {
            space_padded(v as int, w as int)
        },
{
    let mag: u64 = if v >= 0 { v as u64 } else { (-v) as u64 };
    let d = decimal(mag);
    if v >= 0 {
        if d.len() < w {
            push_fill(out, w - d.len(), if zero { '0' } else { ' ' });
        }
        append_chars(out, &d);
        proof {
            if d@.len() < w {
                assert(final(out)@ =~= old(out)@ + pad_left(digits(mag as nat), w as int, if zero { '0' } else { ' ' }));
            } else {
                assert(final(out)@ =~= old(out)@ + pad_left(digits(mag as nat), w as int, if zero { '0' } else { ' ' }));
            }
        }
    } else if zero {
        out.push('-');
        let ghost mid = out@;
        if w > 1 && d.len() < w - 1 {
            push_fill(out, w - 1 - d.len(), '0');
        }
        append_chars(out, &d);
        assert(out@ =~= old(out)@ + (seq!['-'] + pad_left(digits(mag as nat), w - 1, '0')));
    } else {
        if w > 1 && d.len() < w - 1 {
            push_fill(out, w - 1 - d.len(), ' ');
        }
        out.push('-');
        append_chars(out, &d);
        assert(out@ =~= old(out)@ + pad_left(seq!['-'] + digits(mag as nat), w as int, ' '));
    }
}

/// The English name of month `m0`, January being 0.
pub open spec fn month_name(m0: int) -> Seq<char> {
    if m0 == 0 {
        "January"@
    } else if m0 == 1 {
        "February"@
    } else if m0 == 2 {
        "March"@
    } else if m0 == 3 {
        "April"@
    } else if m0 == 4 {
        "May"@
    } else if m0 == 5 {
        "June"@
    } else if m0 == 6 {
        "July"@
    } else if m0 == 7 {
        "August"@
    } else if m0 == 8 {
        "September"@
    } else if m0 == 9 {
        "October"@
    } else if m0 == 10 {
        "November"@
    } else {
        "December"@
    }
}

/// The English name of weekday `d`, Monday being 0.
pub open spec fn day_name(d: int) -> Seq<char> {
    if d == 0 {
        "Monday"@
    } else if d == 1 {
        "Tuesday"@
    } else if d == 2 {
        "Wednesday"@
    } else if d == 3 {
        "Thursday"@
    } else if d == 4 {
        "Friday"@
    } else if d == 5 {
        "Saturday"@
    } else {
        "Sunday"@
    }
}

fn month_name_exec(m0: u32) -> (r: &'static str)
    ensures
        r@ == month_name(m0 as int),
        r@.len() >= 3,
{
    if m0 == 0 {
        proof {
            reveal_strlit("January");
        }
        "January"
    } else if m0 == 1 {
        proof {
            reveal_strlit("February");
        }
        "February"
    } else if m0 == 2 {
        proof {
            reveal_strlit("March");
        }
        "March"
    } else if m0 == 3 {
        proof {
            reveal_strlit("April");
        }
        "April"
    } else if m0 == 4 {
        proof {
            reveal_strlit("May");
        }
        "May"
    } else if m0 == 5 {
        proof {
            reveal_strlit("June");
        }
        "June"
    } else if m0 == 6 {
        proof {
            reveal_strlit("July");
        }
        "July"
    } else if m0 == 7 {
        proof {
            reveal_strlit("August");
        }
        "August"
    } else if m0 == 8 {
        proof {
            reveal_strlit("September");
        }
        "September"
    } else if m0 == 9 {
        proof {
            reveal_strlit("October");
        }
        "October"
    } else if m0 == 10 {
        proof {
            reveal_strlit("November");
        }
        "November"
    } else {
        proof {
            reveal_strlit("December");
        }
        "December"
    }
}

fn day_name_exec(d: u32) -> (r: &'static str)
    ensures
        r@ == day_name(d as int),
        r@.len() >= 3,
{
    if d == 0 {
        proof {
            reveal_strlit("Monday");
        }
        "Monday"
    } else if d == 1 {
        proof {
            reveal_strlit("Tuesday");
        }
        "Tuesday"
    } else if d == 2 {
        proof {
            reveal_strlit("Wednesday");
        }
        "Wednesday"
    } else if d == 3 {
        proof {
            reveal_strlit("Thursday");
        }
        "Thursday"
    } else if d == 4 {
        proof {
            reveal_strlit("Friday");
        }
        "Friday"
    } else if d == 5 {
        proof {
            reveal_strlit("Saturday");
        }
        "Saturday"
    } else {
        proof {
            reveal_strlit("Sunday");
        }
        "Sunday"
    }
}

/// `y % 100` as Rust computes it: the remainder takes the sign of `y`.
pub open spec fn year_rem(y: int) -> int {
    if y >= 0 {
        y % 100
    } else {
        -((-y) % 100)
    }
}

/// What the directive `%c` becomes.
pub open spec fn directive(t: Stamp, c: char) -> Seq<char> {
    if c == 'Y' {
        zero_padded(t.year as int, 4)
    } else if c == 'y' {
        zero_padded(year_rem(t.year as int), 2)
    } else if c == 'm' {
        zero_padded(t.month as int, 2)
    } else if c == 'd' {
        zero_padded(t.day as int, 2)
    } else if c == 'e' {
        space_padded(t.day as int, 2)
    } else if c == 'H' {
        zero_padded(t.hour as int, 2)
    } else if c == 'M' {
        zero_padded(t.minute as int, 2)
    } else if c == 'S' {
        zero_padded(t.second as int, 2)
    } else if c == 'j' {
        zero_padded(t.ordinal0 + 1, 3)
    } else if c == 'b' {
        month_name(t.month - 1).take(3)
    } else if c == 'B' {
        month_name(t.month - 1)
    } else if c == 'a' {
        day_name(t.weekday as int).take(3)
    } else if c == 'A' {
        day_name(t.weekday as int)
    } else if c == '%' {
        seq!['%']
    } else {
        seq!['%', c]
    }
}

/// `t` formatted by `f`: characters other than `%` stand for themselves, `%`
/// and the next character form a directive, and a final lone `%` stays.
pub open spec fn formatted(t: Stamp, f: Seq<char>) -> Seq<char>
    decreases f.len(),
{
    if f.len() == 0 {
        Seq::<char>::empty()
    } else if f[0] != '%' {
        seq![f[0]] + formatted(t, f.drop_first())
    } else if f.len() == 1 {
        seq!['%']
    } else {
        directive(t, f[1]) + formatted(t, f.subrange(2, f.len() as int))
    }
}

fn push_directive(out: &mut Vec<char>, t: &Stamp, c: char)
    requires
        t.wf(),
    ensures
        final(out)@ == old(out)@ + directive(*t, c),
{
    if c == 'Y' {
        push_padded(out, t.year as i64, 4, true);
    } else if c == 'y' {
        let y = t.year;
        let r: i32 = if y >= 0 { y % 100 } else { -((-y) % 100) };
        push_padded(out, r as i64, 2, true);
    } else if c == 'm' {
        push_padded(out, t.month as i64, 2, true);
    } else if c == 'd' {
        push_padded(out, t.day as i64, 2, true);
    } else if c == 'e' {
        push_padded(out, t.day as i64, 2, false);
    } else if c == 'H' {
        push_padded(out, t.hour as i64, 2, true);
    } else if c == 'M' {
        push_padded(out, t.minute as i64, 2, true);
    } else if c == 'S' {
        push_padded(out, t.second as i64, 2, true);
    } else if c == 'j' {
        push_padded(out, t.ordinal0 as i64 + 1, 3, true);
    } else if c == 'b' {
        let name = chars_of(month_name_exec(t.month - 1));
        append_chars(out, &copy_range(&name, 0, 3));
    } else if c == 'B' {
        append_chars(out, &chars_of(month_name_exec(t.month - 1)));
    } else if c == 'a' {
        let name = chars_of(day_name_exec(t.weekday));
        append_chars(out, &copy_range(&name, 0, 3));
    } else if c == 'A' {
        append_chars(out, &chars_of(day_name_exec(t.weekday)));
    } else if c == '%' {
        out.push('%');
        assert(final(out)@ =~= old(out)@ + seq!['%']);
    } else {
        out.push('%');
        out.push(c);
        assert(final(out)@ =~= old(out)@ + seq!['%', c]);
    }
}

/// Formats a date and time with the directives `%Y %y %m %d %e %H %M %S %j
/// %b %B %a %A %%`; any other directive is written as it stands.
fn fmt_tokens(t: &Stamp, f: &[char]) -> (r: Vec<char>)
    requires
        t.wf(),
    ensures
        r@ == formatted(*t, f@),
{
    let mut out: Vec<char> = Vec::new();
    let n = f.len();
    let mut i: usize = 0;
    assert(f@.subrange(0, n as int) =~= f@);
    while i < n
        invariant
            i <= n == f@.len(),
            t.wf(),
            out@ + formatted(*t, f@.subrange(i as int, n as int)) == formatted(*t, f@),
        decreases n - i,
    {
        let ghost rest = f@.subrange(i as int, n as int);
        let ghost before = out@;
        let c = f[i];
        assert(rest[0] == c);
        if c != '%' {
            out.push(c);
            assert(rest.drop_first() =~= f@.subrange(i + 1, n as int));
            assert(out@ + formatted(*t, f@.subrange(i + 1, n as int)) =~= before + formatted(*t, rest));
            i = i + 1;
        } else if i + 1 == n {
            out.push('%');
            assert(out@ =~= before + formatted(*t, rest));
            assert(f@.subrange(n as int, n as int) =~= Seq::<char>::empty());
            i = n;
        } else {
            let d = f[i + 1];
            assert(rest[1] == d);
            push_directive(&mut out, t, d);
            assert(rest.subrange(2, rest.len() as int) =~= f@.subrange(i + 2, n as int));
            assert(out@ + formatted(*t, f@.subrange(i + 2, n as int)) =~= before + formatted(*t, rest));
            i = i + 2;
        }
    }
    out
}


/// An ASCII decimal digit.
pub open spec fn is_digit(c: char) -> bool {
    '0' <= c && c <= '9'
}

/// Every character is an ASCII digit.
pub open spec fn all_digits(s: Seq<char>) -> bool {
    forall|i: int| 0 <= i < s.len() ==> is_digit(#[trigger] s[i])
}

/// The value of a string of decimal digits.
pub open spec fn digits_value(s: Seq<char>) -> int
    decreases s.len(),
{
    if s.len() == 0 {
        0
    } else {
        digits_value(s.drop_last()) * 10 + (s.last() as int - '0' as int)
    }
}

/// What `str::parse::<i64>` accepts: an optional `+` or `-`, then one or more
/// ASCII digits, with a value that fits in an `i64`.
pub open spec fn parsed_i64(s: Seq<char>) -> Option<int> {
    let neg = s.len() > 0 && s[0] == '-';
    let body = if s.len() > 0 && (s[0] == '-' || s[0] == '+') {
        s.drop_first()
    } else {
        s
    };
    let v = if neg {
        -digits_value(body)
    } else {
        digits_value(body)
    };
    if body.len() == 0 || !all_digits(body) {
        None
    } else if i64::MIN <= v && v <= i64::MAX {
        Some(v)
    } else {
        None
    }
}

proof fn lemma_digits_value_grows(s: Seq<char>, k: int)
    requires
        0 <= k <= s.len(),
        forall|i: int| 0 <= i < s.len() ==> is_digit(#[trigger] s[i]),
    ensures
        digits_value(s) >= digits_value(s.take(k)) >= 0,
    decreases s.len(),
{
    if k == s.len() {
        assert(s.take(k) =~= s);
        if s.len() > 0 {
            lemma_digits_value_grows(s.drop_last(), k - 1);
        }
    } else {
        assert(s.drop_last().take(k) =~= s.take(k));
        lemma_digits_value_grows(s.drop_last(), k);
    }
}

/// `str::parse::<i64>`.
fn parse_i64(s: &[char]) -> (r: Option<i64>)
    ensures
        match r {
            Some(v) => parsed_i64(s@) == Some(v as int),
            None => parsed_i64(s@) is None,
        },
{
    let n = s.len();
    let neg = n > 0 && s[0] == '-';
    let start: usize = if n > 0 && (s[0] == '-' || s[0] == '+') { 1 } else { 0 };
    let ghost body = s@.subrange(start as int, n as int);
    proof {
        if start == 1 {
            assert(body =~= s@.drop_first());
        } else {
            assert(body =~= s@);
        }
    }
    if start == n {
        return None;
    }
    let mut mag: u64 = 0;
    let mut i: usize = start;
    while i < n
        invariant
            start <= i <= n == s@.len(),
            body == s@.subrange(start as int, n as int),
            body == (if s@.len() > 0 && (s@[0] == '-' || s@[0] == '+') {
                s@.drop_first()
            } else {
                s@
            }),
            neg == (s@.len() > 0 && s@[0] == '-'),
            body.len() > 0,
            forall|k: int| 0 <= k < i - start ==> is_digit(#[trigger] body[k]),
            mag as int == digits_value(body.take(i - start)),
            mag <= 9223372036854775808,
        decreases n - i,
    {
        let c = s[i];
        assert(body[i - start] == c);
        if !('0' <= c && c <= '9') {
            assert(!is_digit(body[i - start]));
            assert(!all_digits(body));
            return None;
        }
        let d = (c as u32 - '0' as u32) as u64;
        assert(d as int == c as int - '0' as int);
        assert(body.take(i - start + 1).last() == c);
        assert(body.take(i - start + 1).drop_last() =~= body.take(i - start));
        if mag > 922337203685477580 || (mag == 922337203685477580 && d > 8) {
            proof {
                assert(digits_value(body.take(i - start + 1)) > 9223372036854775808);
                if all_digits(body) {
                    lemma_digits_value_grows(body, i - start + 1);
                }
            }
            return None;
        }
        mag = mag * 10 + d;
        i = i + 1;
    }
    assert(body.take(n - start) =~= body);
    if neg {
        if mag == 9223372036854775808 {
            Some(i64::MIN)
        } else {
            Some(-(mag as i64))
        }
    } else if mag <= 9223372036854775807 {
        Some(mag as i64)
    } else {
        None
    }
}

/// `{{var}}`: how an unknown or malformed variable is written back.
pub open spec fn braced(var: Seq<char>) -> Seq<char> {
    "{{"@ + var + "}}"@
}

/// `now` moved by `d` days; `now` itself where chrono has no such date.
pub open spec fn shifted(now: Stamp, d: int) -> Stamp {
    if d >= 0 {
        match chrono_add_days(now, d as u64) {
            Some(t) => t,
            None => now,
        }
    } else {
        match chrono_sub_days(now, (-d) as u64) {
            Some(t) => t,
            None => now,
        }
    }
}

/// The value of a template variable (already trimmed) at time `now`:
/// `today` and `date` give `%Y-%m-%d`, `time` gives `%H:%M:%S`, `now` gives
/// both; `today` or `date` followed by a day offset and/or `:` and a format
/// give that day in that format; `time:` and a format give the time in that
/// format. Anything else, and an offset that is no `i64`, stays `{{var}}`.
pub open spec fn var_value(var: Seq<char>, now: Stamp) -> Seq<char> {
    if var == "today"@ || var == "date"@ {
        formatted(now, "%Y-%m-%d"@)
    } else if var == "time"@ {
        formatted(now, "%H:%M:%S"@)
    } else if var == "now"@ {
        formatted(now, "%Y-%m-%d %H:%M:%S"@)
    } else if "today"@.is_prefix_of(var) || "date"@.is_prefix_of(var) {
        let base = trim(
            if "today"@.is_prefix_of(var) {
                var.skip("today"@.len() as int)
            } else {
                var.skip("date"@.len() as int)
            },
        );
        let offset = match find_char(base, ':') {
            Some(i) => trim(base.take(i)),
            None => base,
        };
        let f = match find_char(base, ':') {
            Some(i) => trim(base.skip(i + 1)),
            None => Seq::<char>::empty(),
        };
        let days = if offset.len() == 0 {
            Some(0int)
        } else {
            parsed_i64(offset)
        };
        match days {
            Some(d) => formatted(
                shifted(now, d),
                if f.len() == 0 {
                    "%Y-%m-%d"@
                } else {
                    f
                },
            ),
            None => braced(var),
        }
    } else if "time:"@.is_prefix_of(var) {
        let f = trim(var.skip("time:"@.len() as int));
        formatted(
            now,
            if f.len() == 0 {
                "%H:%M:%S"@
            } else {
                f
            },
        )
    } else {
        braced(var)
    }
}

fn render_var(var: &[char], now: &Stamp) -> (r: Vec<char>)
    requires
        now.wf(),
    ensures
        r@ == var_value(var@, *now),
{
    let today = chars_of("today");
    let date = chars_of("date");
    if same_chars(var, &today) || same_chars(var, &date) {
        return fmt_tokens(now, &chars_of("%Y-%m-%d"));
    }
    if same_chars(var, &chars_of("time")) {
        return fmt_tokens(now, &chars_of("%H:%M:%S"));
    }
    if same_chars(var, &chars_of("now")) {
        return fmt_tokens(now, &chars_of("%Y-%m-%d %H:%M:%S"));
    }
    let is_today = is_prefix_exec(&today, var);
    if is_today || is_prefix_exec(&date, var) {
        let skip = if is_today { today.len() } else { date.len() };
        let base = trim_chars(&copy_range(var, skip, var.len()));
        assert(base@ == trim(
            if "today"@.is_prefix_of(var@) {
                var@.skip("today"@.len() as int)
            } else {
                var@.skip("date"@.len() as int)
            },
        )) by {
            if is_today {
                assert(var@.subrange(skip as int, var@.len() as int) =~= var@.skip("today"@.len() as int));
            } else {
                assert(var@.subrange(skip as int, var@.len() as int) =~= var@.skip("date"@.len() as int));
            }
        }
        proof {
            lemma_find_char(base@, ':');
        }
        let (offset, f) = match find_char_exec(&base, ':') {
            Some(i) => {
                assert(i < base@.len());
                (trim_chars(&copy_range(&base, 0, i)), trim_chars(&copy_range(&base, i + 1, base.len())))
            },
            None => (copy_range(&base, 0, base.len()), Vec::new()),
        };
        proof {
            assert(base@.subrange(0, base@.len() as int) =~= base@);
            lemma_find_char(base@, ':');
        }
        proof {
            match find_char(base@, ':') {
                Some(i) => {
                    assert(base@.subrange(0, i) =~= base@.take(i));
                    assert(base@.subrange(i + 1, base@.len() as int) =~= base@.skip(i + 1));
                },
                None => {},
            }
        }
        let days: Option<i64> = if offset.len() == 0 { Some(0) } else { parse_i64(&offset) };
        match days {
            Some(d) => {
                let dt = if d >= 0 {
                    match add_days(now, d as u64) {
                        Some(t) => t,
                        None => *now,
                    }
                } else {
                    let back: u64 = ((-(d + 1)) as u64) + 1;
                    assert(back as int == -(d as int));
                    match sub_days(now, back) {
                        Some(t) => t,
                        None => *now,
                    }
                };
                let fmt = if f.len() == 0 { chars_of("%Y-%m-%d") } else { f };
                fmt_tokens(&dt, &fmt)
            },
            None => braced_exec(var),
        }
    } else if is_prefix_exec(&chars_of("time:"), var) {
        let tp = chars_of("time:");
        let f = trim_chars(&copy_range(var, tp.len(), var.len()));
        assert(var@.subrange(tp@.len() as int, var@.len() as int) =~= var@.skip("time:"@.len() as int));
        let fmt = if f.len() == 0 { chars_of("%H:%M:%S") } else { f };
        fmt_tokens(now, &fmt)
    } else {
        braced_exec(var)
    }
}

fn braced_exec(var: &[char]) -> (r: Vec<char>)
    ensures
        r@ == braced(var@),
{
    let mut out = chars_of("{{");
    append_chars(&mut out, var);
    append_chars(&mut out, &chars_of("}}"));
    out
}

/// The text with every `{{ var }}` replaced by its value at time `now`. A
/// `{{` with no `}}` after it stays as it is.
pub open spec fn rendered(s: Seq<char>, now: Stamp) -> Seq<char>
    decreases s.len(),
{
    match find_pair(s, '{', '{') {
        None => s,
        Some(i) => {
            proof {
                lemma_find_pair(s, '{', '{');
            }
            let tail = s.skip(i + 2);
            s.take(i) + match find_pair(tail, '}', '}') {
                Some(j) => {
                    proof {
                        lemma_find_pair(tail, '}', '}');
                    }
                    var_value(trim(tail.take(j)), now) + rendered(tail.skip(j + 2), now)
                },
                None => "{{"@ + rendered(tail, now),
            }
        },
    }
}

/// One step of `rendered`: the text up to the first `{{`, then the variable
/// (or the bare `{{`), then the rest.
proof fn lemma_rendered_step(s: Seq<char>, now: Stamp)
    ensures
        match find_pair(s, '{', '{') {
            None => rendered(s, now) == s,
            Some(i) => {
                let tail = s.skip(i + 2);
                &&& 0 <= i && i + 2 <= s.len()
                &&& match find_pair(tail, '}', '}') {
                    Some(j) => 0 <= j && j + 2 <= tail.len() && rendered(s, now) == s.take(i)
                        + var_value(trim(tail.take(j)), now) + rendered(tail.skip(j + 2), now),
                    None => rendered(s, now) == s.take(i) + "{{"@ + rendered(tail, now),
                }
            },
        },
{
    lemma_find_pair(s, '{', '{');
    if let Some(i) = find_pair(s, '{', '{') {
        lemma_find_pair(s.skip(i + 2), '}', '}');
    }
}

/// Renders the template at time `now`.
pub fn render_at(input: &str, now: &Stamp) -> (r: String)
    requires
        now.wf(),
    ensures
        r@ == rendered(input@, *now),
{
    let s = chars_of(input);
    let n = s.len();
    let mut out: Vec<char> = Vec::new();
    let mut pos: usize = 0;
    assert(s@.subrange(0, n as int) =~= s@);
    while pos < n
        invariant
            pos <= n == s@.len(),
            s@ == input@,
            now.wf(),
            out@ + rendered(s@.subrange(pos as int, n as int), *now) == rendered(s@, *now),
        decreases n - pos,
    {
        let ghost rest = s@.subrange(pos as int, n as int);
        let ghost before = out@;
        proof {
            lemma_rendered_step(rest, *now);
        }
        match find_pair_exec(&s, pos, '{', '{') {
            None => {
                append_chars(&mut out, &copy_range(&s, pos, n));
                assert(s@.subrange(n as int, n as int) =~= Seq::<char>::empty());
                assert(out@ + rendered(s@.subrange(n as int, n as int), *now) =~= before + rest);
                pos = n;
            },
            Some(i) => {
                append_chars(&mut out, &copy_range(&s, pos, pos + i));
                let tstart = pos + i + 2;
                let ghost tail = rest.skip(i + 2);
                assert(rest.take(i as int) =~= s@.subrange(pos as int, pos + i));
                assert(tail =~= s@.subrange(tstart as int, n as int));
                match find_pair_exec(&s, tstart, '}', '}') {
                    Some(j) => {
                        let var = trim_chars(&copy_range(&s, tstart, tstart + j));
                        assert(tail.take(j as int) =~= s@.subrange(tstart as int, tstart + j));
                        assert(tail.skip(j + 2) =~= s@.subrange(tstart + j + 2, n as int));
                        let ghost mid = out@;
                        append_chars(&mut out, &render_var(&var, now));
                        assert(out@ + rendered(s@.subrange(tstart + j + 2, n as int), *now) =~= mid
                            + (var_value(trim(tail.take(j as int)), *now) + rendered(tail.skip(j + 2), *now)));
                        pos = tstart + j + 2;
                    },
                    None => {
                        let ghost mid = out@;
                        append_chars(&mut out, &chars_of("{{"));
                        assert(out@ + rendered(s@.subrange(tstart as int, n as int), *now) =~= mid
                            + ("{{"@ + rendered(tail, *now)));
                        pos = tstart;
                    },
                }
            },
        }
    }
    assert(s@.subrange(n as int, n as int) =~= Seq::<char>::empty());
    assert(out@ + rendered(Seq::<char>::empty(), *now) =~= out@);
    string_of(&out)
}

/// `%B` writes the English name of the stamp's month (January to December)
/// and `%b` its first three letters; `%A` writes the English name of the
/// weekday (Monday to Sunday) and `%a` its first three letters.
pub proof fn lemma_name_directives(t: Stamp)
    requires
        t.wf(),
    ensures
        formatted(t, "%B"@) == seq!["January"@, "February"@, "March"@, "April"@, "May"@, "June"@, "July"@, "August"@, "September"@, "October"@, "November"@, "December"@][t.month - 1],
        formatted(t, "%b"@) == seq!["January"@, "February"@, "March"@, "April"@, "May"@, "June"@, "July"@, "August"@, "September"@, "October"@, "November"@, "December"@][t.month - 1].take(3),
        formatted(t, "%A"@) == seq!["Monday"@, "Tuesday"@, "Wednesday"@, "Thursday"@, "Friday"@, "Saturday"@, "Sunday"@][t.weekday as int],
        formatted(t, "%a"@) == seq!["Monday"@, "Tuesday"@, "Wednesday"@, "Thursday"@, "Friday"@, "Saturday"@, "Sunday"@][t.weekday as int].take(3),
{
    reveal_strlit("%B");
    reveal_strlit("%b");
    reveal_strlit("%A");
    reveal_strlit("%a");
    assert("%B"@.subrange(2, 2) =~= Seq::<char>::empty());
    assert("%b"@.subrange(2, 2) =~= Seq::<char>::empty());
    assert("%A"@.subrange(2, 2) =~= Seq::<char>::empty());
    assert("%a"@.subrange(2, 2) =~= Seq::<char>::empty());
    assert(formatted(t, Seq::<char>::empty()) == Seq::<char>::empty());
    assert("%B"@.len() == 2 && "%B"@[0] == '%' && "%B"@[1] == 'B');
    assert("%b"@.len() == 2 && "%b"@[0] == '%' && "%b"@[1] == 'b');
    assert("%A"@.len() == 2 && "%A"@[0] == '%' && "%A"@[1] == 'A');
    assert("%a"@.len() == 2 && "%a"@[0] == '%' && "%a"@[1] == 'a');
    let ms = seq!["January"@, "February"@, "March"@, "April"@, "May"@, "June"@, "July"@, "August"@, "September"@, "October"@, "November"@, "December"@];
    let ds = seq!["Monday"@, "Tuesday"@, "Wednesday"@, "Thursday"@, "Friday"@, "Saturday"@, "Sunday"@];
    assert(month_name(t.month - 1) == ms[t.month - 1]);
    assert(day_name(t.weekday as int) == ds[t.weekday as int]);
    assert(formatted(t, "%B"@) =~= month_name(t.month - 1));
    assert(formatted(t, "%b"@) =~= month_name(t.month - 1).take(3));
    assert(formatted(t, "%A"@) =~= day_name(t.weekday as int));
    assert(formatted(t, "%a"@) =~= day_name(t.weekday as int).take(3));
}

proof fn lemma_digit_char(d: int)
    requires
        0 <= d < 10,
    ensures
        is_digit(digit_char(d)),
        digit_char(d) as int - '0' as int == d,
{
}

/// The decimal digits of `n` are digits, read back as `n`, and have no
/// leading zero.
pub proof fn lemma_digits_read_back(n: nat)
    ensures
        digits(n).len() > 0,
        all_digits(digits(n)),
        digits_value(digits(n)) == n,
        n >= 10 ==> digits(n)[0] != '0',
    decreases n,
{
    if n < 10 {
        lemma_digit_char(n as int);
        let s = digits(n);
        assert(s.drop_last() =~= Seq::<char>::empty());
        assert(digits_value(Seq::<char>::empty()) == 0);
        assert(s.last() == digit_char(n as int));
        assert(digits_value(s) == digits_value(s.drop_last()) * 10 + (s.last() as int - '0' as int));
    } else {
        lemma_digits_read_back(n / 10);
        lemma_digit_char((n % 10) as int);
        let p = digits(n / 10);
        let s = digits(n);
        assert(s.drop_last() =~= p);
        assert(s[0] == p[0]);
        assert forall|i: int| 0 <= i < s.len() implies is_digit(#[trigger] s[i]) by {
            if i < p.len() {
                assert(s[i] == p[i]);
            }
        }
        assert((n / 10) * 10 + n % 10 == n) by (nonlinear_arith);
        assert(s.last() == digit_char((n % 10) as int));
        assert(digits_value(s) == digits_value(s.drop_last()) * 10 + (s.last() as int - '0' as int));
        if n / 10 < 10 {
            lemma_digit_char((n / 10) as int);
            assert(p[0] == digit_char((n / 10) as int));
        }
    }
}

proof fn lemma_zeros_value(z: Seq<char>, s: Seq<char>)
    requires
        forall|i: int| 0 <= i < z.len() ==> #[trigger] z[i] == '0',
    ensures
        digits_value(z + s) == digits_value(s),
    decreases s.len(),
{
    if s.len() == 0 {
        assert(z + s =~= z);
        lemma_zeros_zero(z);
    } else {
        lemma_zeros_value(z, s.drop_last());
        assert((z + s).drop_last() =~= z + s.drop_last());
        assert((z + s).last() == s.last());
    }
}

proof fn lemma_zeros_zero(z: Seq<char>)
    requires
        forall|i: int| 0 <= i < z.len() ==> #[trigger] z[i] == '0',
    ensures
        digits_value(z) == 0,
    decreases z.len(),
{
    if z.len() > 0 {
        assert(z.last() == z[z.len() - 1]);
        lemma_zeros_zero(z.drop_last());
    }
}

/// A zero-padded number is at least as wide as asked, and reads back (as
/// `str::parse::<i64>` reads it) as the number itself.
pub proof fn lemma_zero_padded_reads_back(v: int, w: int)
    requires
        i64::MIN < v <= i64::MAX,
    ensures
        zero_padded(v, w).len() >= w,
        parsed_i64(zero_padded(v, w)) == Some(v),
{
    let m: nat = if v >= 0 { v as nat } else { (-v) as nat };
    lemma_digits_read_back(m);
    let d = digits(m);
    let ww = if v >= 0 { w } else { w - 1 };
    let p = pad_left(d, ww, '0');
    let z = if d.len() < ww { Seq::new((ww - d.len()) as nat, |i: int| '0') } else { Seq::<char>::empty() };
    assert(p =~= z + d);
    lemma_zeros_value(z, d);
    assert forall|i: int| 0 <= i < p.len() implies is_digit(#[trigger] p[i]) by {
        if i < z.len() {
        } else {
            assert(p[i] == d[i - z.len()]);
        }
    }
    assert(p[0] != '-' && p[0] != '+') by {
        if z.len() > 0 {
            assert(p[0] == z[0]);
        } else {
            assert(p[0] == d[0]);
        }
    }
    if v < 0 {
        let r = seq!['-'] + p;
        assert(r.drop_first() =~= p);
        assert(r[0] == '-');
    }
}

/// A number directive writes the stamp's own field, zero-padded to its
/// width: `%Y` the year (4), `%m` the month, `%d` the day, `%H` the hour,
/// `%M` the minute, `%S` the second (2 each), `%j` the day of the year
/// counted from 1 (3).
pub proof fn lemma_number_directives(t: Stamp)
    requires
        t.wf(),
    ensures
        parsed_i64(formatted(t, "%Y"@)) == Some(t.year as int) && formatted(t, "%Y"@).len() >= 4,
        parsed_i64(formatted(t, "%m"@)) == Some(t.month as int) && formatted(t, "%m"@).len() >= 2,
        parsed_i64(formatted(t, "%d"@)) == Some(t.day as int) && formatted(t, "%d"@).len() >= 2,
        parsed_i64(formatted(t, "%H"@)) == Some(t.hour as int) && formatted(t, "%H"@).len() >= 2,
        parsed_i64(formatted(t, "%M"@)) == Some(t.minute as int) && formatted(t, "%M"@).len() >= 2,
        parsed_i64(formatted(t, "%S"@)) == Some(t.second as int) && formatted(t, "%S"@).len() >= 2,
        parsed_i64(formatted(t, "%j"@)) == Some(t.ordinal0 + 1) && formatted(t, "%j"@).len() >= 3,
{
    assert(formatted(t, Seq::<char>::empty()) == Seq::<char>::empty());
    reveal_strlit("%Y");
    reveal_strlit("%m");
    reveal_strlit("%d");
    reveal_strlit("%H");
    reveal_strlit("%M");
    reveal_strlit("%S");
    reveal_strlit("%j");
    assert("%Y"@.len() == 2 && "%Y"@[0] == '%' && "%Y"@[1] == 'Y');
    assert("%m"@.len() == 2 && "%m"@[0] == '%' && "%m"@[1] == 'm');
    assert("%d"@.len() == 2 && "%d"@[0] == '%' && "%d"@[1] == 'd');
    assert("%H"@.len() == 2 && "%H"@[0] == '%' && "%H"@[1] == 'H');
    assert("%M"@.len() == 2 && "%M"@[0] == '%' && "%M"@[1] == 'M');
    assert("%S"@.len() == 2 && "%S"@[0] == '%' && "%S"@[1] == 'S');
    assert("%j"@.len() == 2 && "%j"@[0] == '%' && "%j"@[1] == 'j');
    assert(Seq::<char>::empty().len() == 0);
    assert("%Y"@.subrange(2, 2) =~= Seq::<char>::empty());
    assert("%m"@.subrange(2, 2) =~= Seq::<char>::empty());
    assert("%d"@.subrange(2, 2) =~= Seq::<char>::empty());
    assert("%H"@.subrange(2, 2) =~= Seq::<char>::empty());
    assert("%M"@.subrange(2, 2) =~= Seq::<char>::empty());
    assert("%S"@.subrange(2, 2) =~= Seq::<char>::empty());
    assert("%j"@.subrange(2, 2) =~= Seq::<char>::empty());
    lemma_zero_padded_reads_back(t.year as int, 4);
    lemma_zero_padded_reads_back(t.month as int, 2);
    lemma_zero_padded_reads_back(t.day as int, 2);
    lemma_zero_padded_reads_back(t.hour as int, 2);
    lemma_zero_padded_reads_back(t.minute as int, 2);
    lemma_zero_padded_reads_back(t.second as int, 2);
    lemma_zero_padded_reads_back(t.ordinal0 + 1, 3);
    assert(formatted(t, "%Y"@) =~= zero_padded(t.year as int, 4));
    assert(formatted(t, "%m"@) =~= zero_padded(t.month as int, 2));
    assert(formatted(t, "%d"@) =~= zero_padded(t.day as int, 2));
    assert(formatted(t, "%H"@) =~= zero_padded(t.hour as int, 2));
    assert(formatted(t, "%M"@) =~= zero_padded(t.minute as int, 2));
    assert(formatted(t, "%S"@) =~= zero_padded(t.second as int, 2));
    assert(formatted(t, "%j"@) =~= zero_padded(t.ordinal0 + 1, 3));
}

/// Every `%` of `f` is followed by the character it introduces.
pub open spec fn directives_closed(f: Seq<char>) -> bool
    decreases f.len(),
{
    if f.len() == 0 {
        true
    } else if f[0] != '%' {
        directives_closed(f.drop_first())
    } else if f.len() == 1 {
        false
    } else {
        directives_closed(f.subrange(2, f.len() as int))
    }
}

/// A format whose directives are complete formats the same alone as at the
/// head of a longer format: formatting `a + b` writes `a`'s text, then `b`'s.
pub proof fn lemma_formatted_concat(t: Stamp, a: Seq<char>, b: Seq<char>)
    requires
        directives_closed(a),
    ensures
        formatted(t, a + b) == formatted(t, a) + formatted(t, b),
    decreases a.len(),
{
    let f = a + b;
    if a.len() == 0 {
        assert(f =~= b);
        assert(formatted(t, a) == Seq::<char>::empty());
        assert(Seq::<char>::empty() + formatted(t, b) =~= formatted(t, b));
    } else if a[0] != '%' {
        lemma_formatted_concat(t, a.drop_first(), b);
        assert(f[0] == a[0]);
        assert(f.drop_first() =~= a.drop_first() + b);
        assert(seq![a[0]] + (formatted(t, a.drop_first()) + formatted(t, b)) =~= seq![a[0]]
            + formatted(t, a.drop_first()) + formatted(t, b));
    } else {
        let rest = a.subrange(2, a.len() as int);
        lemma_formatted_concat(t, rest, b);
        assert(f[0] == a[0] && f[1] == a[1] && f.len() >= 2);
        assert(f.subrange(2, f.len() as int) =~= rest + b);
        assert(directive(t, a[1]) + (formatted(t, rest) + formatted(t, b)) =~= directive(t, a[1])
            + formatted(t, rest) + formatted(t, b));
    }
}

/// `{{date}}` is `{{today}}`; `{{today}}` is the year, month and day joined by
/// `-`; `{{time}}` is the hour, minute and second joined by `:`; `{{now}}` is
/// `{{today}}`, a space and `{{time}}`.
pub proof fn lemma_date_time_parts(t: Stamp)
    ensures
        var_value("date"@, t) == var_value("today"@, t),
        var_value("today"@, t) == formatted(t, "%Y"@) + "-"@ + formatted(t, "%m"@) + "-"@ + formatted(
            t,
            "%d"@,
        ),
        var_value("time"@, t) == formatted(t, "%H"@) + ":"@ + formatted(t, "%M"@) + ":"@ + formatted(
            t,
            "%S"@,
        ),
        var_value("now"@, t) == var_value("today"@, t) + " "@ + var_value("time"@, t),
{
    reveal_strlit("today");
    reveal_strlit("date");
    reveal_strlit("time");
    reveal_strlit("now");
    reveal_strlit("%Y-%m-%d");
    reveal_strlit("%H:%M:%S");
    reveal_strlit("%Y-%m-%d %H:%M:%S");
    reveal_strlit("%Y");
    reveal_strlit("%m");
    reveal_strlit("%d");
    reveal_strlit("%H");
    reveal_strlit("%M");
    reveal_strlit("%S");
    reveal_strlit("-");
    reveal_strlit(":");
    reveal_strlit(" ");
    reveal_with_fuel(directives_closed, 3);
    let y = "%Y"@;
    let m = "%m"@;
    let d = "%d"@;
    let hh = "%H"@;
    let mm = "%M"@;
    let ss = "%S"@;
    assert(y.subrange(2, 2) =~= Seq::<char>::empty());
    assert(m.subrange(2, 2) =~= Seq::<char>::empty());
    assert(d.subrange(2, 2) =~= Seq::<char>::empty());
    assert(hh.subrange(2, 2) =~= Seq::<char>::empty());
    assert(mm.subrange(2, 2) =~= Seq::<char>::empty());
    assert(ss.subrange(2, 2) =~= Seq::<char>::empty());
    assert("-"@.drop_first() =~= Seq::<char>::empty());
    assert(":"@.drop_first() =~= Seq::<char>::empty());
    assert(" "@.drop_first() =~= Seq::<char>::empty());
    assert(formatted(t, Seq::<char>::empty()) == Seq::<char>::empty());
    assert(formatted(t, "-"@) =~= "-"@);
    assert(formatted(t, ":"@) =~= ":"@);
    assert(formatted(t, " "@) =~= " "@);
    // today
    lemma_formatted_concat(t, y, "-"@ + m + "-"@ + d);
    lemma_formatted_concat(t, "-"@, m + "-"@ + d);
    lemma_formatted_concat(t, m, "-"@ + d);
    lemma_formatted_concat(t, "-"@, d);
    assert("%Y-%m-%d"@ =~= y + ("-"@ + (m + ("-"@ + d))));
    assert(y + ("-"@ + (m + ("-"@ + d))) =~= y + ("-"@ + m + "-"@ + d));
    assert("-"@ + m + "-"@ + d =~= "-"@ + (m + "-"@ + d));
    assert(m + "-"@ + d =~= m + ("-"@ + d));
    // time
    lemma_formatted_concat(t, hh, ":"@ + mm + ":"@ + ss);
    lemma_formatted_concat(t, ":"@, mm + ":"@ + ss);
    lemma_formatted_concat(t, mm, ":"@ + ss);
    lemma_formatted_concat(t, ":"@, ss);
    assert("%H:%M:%S"@ =~= hh + (":"@ + mm + ":"@ + ss));
    assert(":"@ + mm + ":"@ + ss =~= ":"@ + (mm + ":"@ + ss));
    assert(mm + ":"@ + ss =~= mm + (":"@ + ss));
    // now
    let day = "%Y-%m-%d"@;
    let tim = "%H:%M:%S"@;
    assert(directives_closed(day)) by {
        reveal_with_fuel(directives_closed, 9);
        let s1 = day.subrange(2, 8);
        let s2 = s1.drop_first();
        let s3 = s2.subrange(2, 5);
        let s4 = s3.drop_first();
        let s5 = s4.subrange(2, 2);
        assert(s5 =~= Seq::<char>::empty());
        assert(s1[0] == '-' && s2[0] == '%' && s3[0] == '-' && s4[0] == '%');
        assert(s2.len() == 5 && s4.len() == 2);
    }
    lemma_formatted_concat(t, day, " "@ + tim);
    lemma_formatted_concat(t, " "@, tim);
    assert("%Y-%m-%d %H:%M:%S"@ =~= day + (" "@ + tim));
    assert("now"@.len() == 3 && "today"@.len() == 5 && "date"@.len() == 4 && "time"@.len() == 4);
    assert("time"@[0] != "date"@[0]);
    assert(formatted(t, day) + (formatted(t, " "@) + formatted(t, tim)) =~= formatted(t, day) + " "@
        + formatted(t, tim));
    assert(formatted(t, y) + (formatted(t, "-"@) + (formatted(t, m) + (formatted(t, "-"@) + formatted(t, d))))
        =~= formatted(t, y) + "-"@ + formatted(t, m) + "-"@ + formatted(t, d));
    assert(formatted(t, hh) + (formatted(t, ":"@) + (formatted(t, mm) + (formatted(t, ":"@) + formatted(t, ss))))
        =~= formatted(t, hh) + ":"@ + formatted(t, mm) + ":"@ + formatted(t, ss));
}

/// `%%` writes one `%`; `%` before a character that names no directive is
/// written as it stands, with that character; a lone `%` at the end of a
/// format stays.
pub proof fn lemma_literal_percent(t: Stamp, c: char, f: Seq<char>)
    requires
        directives_closed(f),
    ensures
        formatted(t, seq!['%', '%']) == seq!['%'],
        !(c == 'Y' || c == 'y' || c == 'm' || c == 'd' || c == 'e' || c == 'H' || c == 'M' || c == 'S'
            || c == 'j' || c == 'b' || c == 'B' || c == 'a' || c == 'A' || c == '%') ==> formatted(
            t,
            seq!['%', c],
        ) == seq!['%', c],
        formatted(t, f + seq!['%']) == formatted(t, f) + seq!['%'],
{
    assert(seq!['%', '%'].subrange(2, 2) =~= Seq::<char>::empty());
    assert(seq!['%', c].subrange(2, 2) =~= Seq::<char>::empty());
    assert(formatted(t, Seq::<char>::empty()) == Seq::<char>::empty());
    assert(seq!['%'] + Seq::<char>::empty() =~= seq!['%']);
    assert(seq!['%', c] + Seq::<char>::empty() =~= seq!['%', c]);
    lemma_formatted_concat(t, f, seq!['%']);
}

/// `%y` writes the last two digits of a year of the common era, zero-padded,
/// and `%e` the day of the month padded with a space to two places.
pub proof fn lemma_short_number_directives(t: Stamp)
    requires
        t.wf(),
    ensures
        t.year >= 0 ==> parsed_i64(formatted(t, "%y"@)) == Some((t.year as int) % 100) && formatted(t, "%y"@).len() == 2,
        formatted(t, "%e"@).len() == 2,
        t.day < 10 ==> formatted(t, "%e"@) == seq![' '] + digits(t.day as nat),
        t.day >= 10 ==> formatted(t, "%e"@) == digits(t.day as nat),
{
    reveal_strlit("%y");
    reveal_strlit("%e");
    assert("%y"@.len() == 2 && "%y"@[0] == '%' && "%y"@[1] == 'y');
    assert("%e"@.len() == 2 && "%e"@[0] == '%' && "%e"@[1] == 'e');
    assert("%y"@.subrange(2, 2) =~= Seq::<char>::empty());
    assert("%e"@.subrange(2, 2) =~= Seq::<char>::empty());
    assert(formatted(t, Seq::<char>::empty()) == Seq::<char>::empty());
    assert(formatted(t, "%y"@) =~= zero_padded(year_rem(t.year as int), 2));
    assert(formatted(t, "%e"@) =~= space_padded(t.day as int, 2));
    lemma_zero_padded_reads_back(year_rem(t.year as int), 2);
    let y = year_rem(t.year as int);
    if t.year >= 0 {
        lemma_digits_read_back(y as nat);
        assert(digits(y as nat).len() <= 2) by {
            if y >= 10 {
                assert(digits(y as nat) == digits((y / 10) as nat).push(digit_char(y % 10)));
                assert(digits((y / 10) as nat).len() == 1);
            }
        }
    }
    lemma_digits_read_back(t.day as nat);
    let d = t.day as nat;
    if d >= 10 {
        assert(digits(d) == digits(d / 10).push(digit_char((d % 10) as int)));
        assert(digits(d / 10).len() == 1);
    } else {
        assert(digits(d).len() == 1);
        assert(Seq::new(1, |i: int| ' ') =~= seq![' ']);
    }
}

/// `str::parse::<i64>` takes an optional `+` before the digits, and `-` for
/// the negative number.
pub proof fn lemma_parse_signs(s: Seq<char>)
    requires
        s.len() > 0,
        all_digits(s),
        digits_value(s) <= i64::MAX,
    ensures
        parsed_i64(s) == Some(digits_value(s)),
        parsed_i64(seq!['+'] + s) == Some(digits_value(s)),
        parsed_i64(seq!['-'] + s) == Some(-digits_value(s)),
{
    lemma_digits_value_grows(s, 0);
    assert(s.take(0) =~= Seq::<char>::empty());
    assert((seq!['+'] + s).drop_first() =~= s);
    assert((seq!['-'] + s).drop_first() =~= s);
    assert(s[0] != '+' && s[0] != '-') by {
        assert(is_digit(s[0]));
    }
}

/// Text without `{{` renders as itself.
pub proof fn lemma_plain_text_unchanged(s: Seq<char>, now: Stamp)
    requires
        forall|i: int| 0 <= i && i + 1 < s.len() ==> !(#[trigger] s[i] == '{' && s[i + 1] == '{'),
    ensures
        rendered(s, now) == s,
{
    lemma_find_pair(s, '{', '{');
    if let Some(i) = find_pair(s, '{', '{') {
        assert(s[i] == '{' && s[i + 1] == '{');
    }
}

/// A format without `%` is copied as it stands.
pub proof fn lemma_literal_format(t: Stamp, f: Seq<char>)
    requires
        forall|i: int| 0 <= i < f.len() ==> #[trigger] f[i] != '%',
    ensures
        formatted(t, f) == f,
    decreases f.len(),
{
    if f.len() > 0 {
        assert(f[0] != '%');
        assert forall|i: int| 0 <= i < f.drop_first().len() implies #[trigger] f.drop_first()[i] != '%' by {
            assert(f.drop_first()[i] == f[i + 1]);
        }
        lemma_literal_format(t, f.drop_first());
        assert(f =~= seq![f[0]] + f.drop_first());
    }
}

/// A variable that is none of the known forms is written back as `{{var}}`.
pub proof fn lemma_unknown_variable_kept(var: Seq<char>, now: Stamp)
    requires
        !"today"@.is_prefix_of(var),
        !"date"@.is_prefix_of(var),
        !"time:"@.is_prefix_of(var),
        var != "time"@,
        var != "now"@,
    ensures
        var_value(var, now) == braced(var),
{
    if var == "today"@ {
        assert("today"@.is_prefix_of(var));
    }
    if var == "date"@ {
        assert("date"@.is_prefix_of(var));
    }
}

} // verus!
