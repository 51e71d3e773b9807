//! The control socket's protocol: one command line in, one reply out.

use vstd::prelude::*;

use crate::engine::{view_entries, Engine, Entry};
use crate::template::{all_digits, decimal, digits, digits_value, lemma_digits_read_back};
use crate::text::{
    append_chars, chars_of, lemma_trim_edges, lemma_trim_solid, same_chars, string_of, trim, trim_chars,
};

verus! {

/// What `format!("{:?}", s)` gives for a string: `s` quoted, with escapes.
pub uninterp spec fn debug_str(s: Seq<char>) -> Seq<char>;

/// `<str as Debug>::fmt`, through `format!("{:?}", s)`: the string in double
/// quotes with Rust's escapes. Which characters are escaped is not stated.
#[verifier::external_body]
pub fn debug_quoted(s: &str) -> (r: String)
    ensures
        r@ == debug_str(s@),
{
    format!("{:?}", s)
}

/// The first 60 characters of a replacement, and `...` when it has more.
pub open spec fn preview(r: Seq<char>) -> Seq<char> {
    if r.len() > 60 {
        r.take(60) + "..."@
    } else {
        r
    }
}

/// One rule in a listing: `  "trigger" => replacement`, the replacement cut
/// to 60 characters.
pub open spec fn listing_line(t: Seq<char>, r: Seq<char>) -> Seq<char> {
    "  "@ + debug_str(t) + " => "@ + preview(r)
}

/// The line that lists trigger `t` with replacement `r`.
pub fn rule_line(t: &str, r: &str) -> (out: String)
    ensures
        out@ == listing_line(t@, r@),
{
    let mut v = chars_of("  ");
    append_chars(&mut v, &chars_of(debug_quoted(t).as_str()));
    append_chars(&mut v, &chars_of(" => "));
    let rc = chars_of(r);
    if rc.len() > 60 {
        append_chars(&mut v, &crate::text::copy_range(&rc, 0, 60));
        append_chars(&mut v, &chars_of("..."));
        assert(v@ =~= listing_line(t@, r@));
    } else {
        append_chars(&mut v, &rc);
    }
    string_of(&v)
}

/// What the daemon does for one command line.
pub enum Step {
    /// Send this reply.
    Reply(String),
    /// Reload the configuration, then send `reload_reply` of the outcome.
    Reload,
    /// Stop the daemon after sending this reply.
    Stop(String),
}

/// The listing of the engine's rules: `ok`, then one line per trigger.
pub open spec fn list_reply(es: Seq<Entry>) -> Seq<char>
    decreases es.len(),
{
    if es.len() == 0 {
        "ok"@
    } else {
        list_reply(es.drop_last()) + "\n"@ + listing_line(es.last().0, es.last().1)
    }
}

/// The step for a command line (trimmed): `ping`, `status`, `reload`,
/// `list`, `stop`; anything else is an unknown command.
pub open spec fn step_for(line: Seq<char>, es: Seq<Entry>) -> (Seq<char>, int) {
    let cmd = trim(line);
    if cmd == "ping"@ {
        ("ok sproutx"@, 0)
    } else if cmd == "status"@ {
        ("ok running rules="@ + digits(es.len()), 0)
    } else if cmd == "reload"@ {
        (Seq::<char>::empty(), 1)
    } else if cmd == "list"@ {
        (list_reply(es), 0)
    } else if cmd == "stop"@ {
        ("ok stopped"@, 2)
    } else {
        ("err: unknown command "@ + cmd, 0)
    }
}

/// A step by its reply and its kind (0 reply, 1 reload, 2 stop).
pub open spec fn step_view(s: Step) -> (Seq<char>, int) {
    match s {
        Step::Reply(r) => (r@, 0),
        Step::Reload => (Seq::<char>::empty(), 1),
        Step::Stop(r) => (r@, 2),
    }
}

/// Answers one command line.
pub fn serve_step(line: &str, engine: &Engine) -> (s: Step)
    ensures
        step_view(s) == step_for(line@, engine.entries()),
{
    let cmd = trim_chars(&chars_of(line));
    if same_chars(&cmd, &chars_of("ping")) {
        Step::Reply("ok sproutx".to_owned())
    } else if same_chars(&cmd, &chars_of("status")) {
        let rules = engine.rules();
        let mut v = chars_of("ok running rules=");
        append_chars(&mut v, &decimal(rules.len() as u64));
        Step::Reply(string_of(&v))
    } else if same_chars(&cmd, &chars_of("reload")) {
        Step::Reload
    } else if same_chars(&cmd, &chars_of("list")) {
        let rules = engine.rules();
        let ghost es = view_entries(rules@);
        let mut v = chars_of("ok");
        let mut i: usize = 0;
        while i < rules.len()
            invariant
                i <= rules@.len() == es.len(),
                es == view_entries(rules@),
                v@ == list_reply(es.take(i as int)),
            decreases rules@.len() - i,
        {
            let (t, r) = &rules[i];
            append_chars(&mut v, &chars_of("\n"));
            append_chars(&mut v, &chars_of(rule_line(t.as_str(), r.as_str()).as_str()));
            proof {
                assert(es.take(i + 1).drop_last() =~= es.take(i as int));
                assert(es.take(i + 1).last() == es[i as int]);
            }
            i = i + 1;
        }
        assert(es.take(es.len() as int) =~= es);
        Step::Reply(string_of(&v))
    } else if same_chars(&cmd, &chars_of("stop")) {
        Step::Stop("ok stopped".to_owned())
    } else {
        let mut v = chars_of("err: unknown command ");
        append_chars(&mut v, &cmd);
        Step::Reply(string_of(&v))
    }
}

/// The reply to `reload`: the layout and the number of rules after a
/// successful reload, or the configuration error.
pub open spec fn reload_text(outcome: Result<(Seq<char>, nat), Seq<char>>) -> Seq<char> {
    match outcome {
        Ok((layout, n)) => "ok layout="@ + layout + " rules="@ + digits(n),
        Err(e) => "err: "@ + e,
    }
}

/// The reply to `reload`.
pub fn reload_reply(outcome: Result<(String, usize), String>) -> (r: String)
    ensures
        r@ == reload_text(
            match outcome {
                Ok((l, n)) => Ok((l@, n as nat)),
                Err(e) => Err(e@),
            },
        ),
{
    match outcome {
        Ok((layout, n)) => {
            let mut v = chars_of("ok layout=");
            append_chars(&mut v, &chars_of(layout.as_str()));
            append_chars(&mut v, &chars_of(" rules="));
            append_chars(&mut v, &decimal(n as u64));
            string_of(&v)
        },
        Err(e) => {
            let mut v = chars_of("err: ");
            append_chars(&mut v, &chars_of(e.as_str()));
            string_of(&v)
        },
    }
}

/// A preview keeps the replacement's first 60 characters; a replacement of
/// at most 60 characters is shown whole, a longer one is cut there and marked
/// with `...`.
pub proof fn lemma_preview_cut(r: Seq<char>)
    ensures
        r.len() <= 60 ==> preview(r) == r,
        r.len() > 60 ==> preview(r).len() == 63 && preview(r).take(60) == r.take(60)
            && preview(r).skip(60) == "..."@,
{
    if r.len() > 60 {
        reveal_strlit("...");
        assert(preview(r).take(60) =~= r.take(60));
        assert(preview(r).skip(60) =~= "..."@);
    }
}

/// A listing of several rules is the listing of the first ones followed by
/// the lines of the rest: every rule gets its line, in order.
pub proof fn lemma_list_reply_concat(a: Seq<Entry>, b: Seq<Entry>)
    ensures
        list_reply(a + b) == list_reply(a) + list_reply(b).skip(2),
        list_reply(b).len() >= 2,
        list_reply(b).take(2) == "ok"@,
    decreases b.len(),
{
    reveal_strlit("ok");
    if b.len() == 0 {
        assert(a + b =~= a);
        assert(list_reply(b).skip(2) =~= Seq::<char>::empty());
        assert(list_reply(a) + Seq::<char>::empty() =~= list_reply(a));
        assert(list_reply(b).take(2) =~= "ok"@);
    } else {
        lemma_list_reply_concat(a, b.drop_last());
        assert((a + b).drop_last() =~= a + b.drop_last());
        assert((a + b).last() == b.last());
        let lb = list_reply(b.drop_last());
        let line = "\n"@ + listing_line(b.last().0, b.last().1);
        assert(list_reply(b) == lb + line);
        assert(lb.len() >= 2);
        assert((lb + line).skip(2) =~= lb.skip(2) + line);
        assert((lb + line).take(2) =~= lb.take(2));
        assert(list_reply(a + b) =~= list_reply(a) + lb.skip(2) + line);
    }
}

/// White space around a command does not change it.
pub proof fn lemma_command_trimmed(line: Seq<char>, es: Seq<Entry>)
    ensures
        step_for(line, es) == step_for(trim(line), es),
{
    lemma_trim_edges(line);
    lemma_trim_solid(trim(line));
}

/// `status` reports the number of rules, in decimal digits that read back as
/// that number.
pub proof fn lemma_status_counts_rules(es: Seq<Entry>)
    ensures
        step_for("status"@, es).1 == 0,
        "ok running rules="@.is_prefix_of(step_for("status"@, es).0),
        ({
            let d = step_for("status"@, es).0.skip("ok running rules="@.len() as int);
            all_digits(d) && digits_value(d) == es.len()
        }),
{
    reveal_strlit("status");
    reveal_strlit("ping");
    reveal_strlit("ok running rules=");
    assert("status"@[0] == 's' && "status"@[5] == 's');
    lemma_trim_solid("status"@);
    assert("status"@ != "ping"@);
    lemma_digits_read_back(es.len());
    let r = "ok running rules="@ + digits(es.len());
    assert(r.skip("ok running rules="@.len() as int) =~= digits(es.len()));
    assert(r.take("ok running rules="@.len() as int) =~= "ok running rules="@);
}

/// After a reload, the reply names the layout and reports the number of
/// rules in digits that read back as that number; a failed reload answers
/// `err: ` and the error.
pub proof fn lemma_reload_reports(layout: Seq<char>, n: nat, e: Seq<char>)
    ensures
        ({
            let r = reload_text(Ok((layout, n)));
            let head = "ok layout="@ + layout + " rules="@;
            &&& head.is_prefix_of(r)
            &&& all_digits(r.skip(head.len() as int))
            &&& digits_value(r.skip(head.len() as int)) == n
        }),
        reload_text(Err(e)) == "err: "@ + e,
{
    lemma_digits_read_back(n);
    let head = "ok layout="@ + layout + " rules="@;
    let r = head + digits(n);
    assert(r.skip(head.len() as int) =~= digits(n));
    assert(r.take(head.len() as int) =~= head);
}

} // verus!
