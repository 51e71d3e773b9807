//! Text that the command-line tool produces: the rule that `sproutx add`
//! appends, the dry run of `sproutx test`, and the systemd unit of
//! `sproutx install`.

use vstd::prelude::*;

use crate::engine::{feed_result, Engine, Entry};
use crate::text::{append_chars, chars_of, lines, lines_of, string_of};

verus! {

/// How one character of a trigger is written inside YAML double quotes.
pub open spec fn yaml_escape(c: char) -> Seq<char> {
    if c == '"' {
        seq!['\\', '"']
    } else if c == '\\' {
        seq!['\\', '\\']
    } else {
        seq![c]
    }
}

/// The characters of `s`, each escaped.
pub open spec fn yaml_escaped(s: Seq<char>) -> Seq<char>
    decreases s.len(),
{
    if s.len() == 0 {
        Seq::<char>::empty()
    } else {
        yaml_escaped(s.drop_last()) + yaml_escape(s.last())
    }
}

/// `s` as a YAML double-quoted scalar: quotes and backslashes escaped.
pub fn yaml_quote_trigger(s: &str) -> (r: String)
    ensures
        r@ == seq!['"'] + yaml_escaped(s@) + seq!['"'],
{
    let cs = chars_of(s);
    let mut out: Vec<char> = Vec::new();
    out.push('"');
    let mut i: usize = 0;
    while i < cs.len()
        invariant
            i <= cs@.len(),
            cs@ == s@,
            out@ == seq!['"'] + yaml_escaped(cs@.take(i as int)),
        decreases cs@.len() - i,
    {
        let c = cs[i];
        if c == '"' {
            out.push('\\');
            out.push('"');
        } else if c == '\\' {
            out.push('\\');
            out.push('\\');
        } else {
            out.push(c);
        }
        proof {
            assert(cs@.take(i + 1).drop_last() =~= cs@.take(i as int));
            assert(cs@.take(i + 1).last() == c);
        }
        i = i + 1;
        assert(out@ =~= seq!['"'] + yaml_escaped(cs@.take(i as int)));
    }
    assert(cs@.take(cs@.len() as int) =~= cs@);
    out.push('"');
    assert(out@ =~= seq!['"'] + yaml_escaped(s@) + seq!['"']);
    string_of(&out)
}

/// The lines of a replacement as a YAML block scalar's body, each indented
/// by six spaces and ended by a newline.
pub open spec fn block_lines(ls: Seq<Seq<char>>) -> Seq<char>
    decreases ls.len(),
{
    if ls.len() == 0 {
        Seq::<char>::empty()
    } else {
        block_lines(ls.drop_last()) + "      "@ + ls.last() + "\n"@
    }
}

/// The rule that `sproutx add` appends to the configuration.
pub open spec fn rule_text(trigger: Seq<char>, replacement: Seq<char>) -> Seq<char> {
    "  - trigger: "@ + (seq!['"'] + yaml_escaped(trigger) + seq!['"']) + "\n    replace: |\n"@
        + block_lines(lines(replacement))
}

/// The YAML of a new rule, as `sproutx add` appends it.
pub fn rule_snippet(trigger: &str, replacement: &str) -> (r: String)
    ensures
        r@ == rule_text(trigger@, replacement@),
{
    let mut out = chars_of("  - trigger: ");
    append_chars(&mut out, &chars_of(yaml_quote_trigger(trigger).as_str()));
    append_chars(&mut out, &chars_of("\n    replace: |\n"));
    let ls = lines_of(&chars_of(replacement));
    let ghost lv = ls@.map_values(|v: Vec<char>| v@);
    let ghost head = out@;
    let mut i: usize = 0;
    while i < ls.len()
        invariant
            i <= ls@.len() == lv.len(),
            lv == ls@.map_values(|v: Vec<char>| v@),
            out@ == head + block_lines(lv.take(i as int)),
        decreases ls@.len() - i,
    {
        append_chars(&mut out, &chars_of("      "));
        append_chars(&mut out, &ls[i]);
        append_chars(&mut out, &chars_of("\n"));
        proof {
            assert(lv.take(i + 1).drop_last() =~= lv.take(i as int));
            assert(lv.take(i + 1).last() == ls@[i as int]@);
        }
        i = i + 1;
    }
    assert(lv.take(lv.len() as int) =~= lv);
    string_of(&out)
}

/// A dry run: the expansions while typing `t` from buffer `buf` (the buffer
/// being cleared after each), and the final buffer.
pub open spec fn dry_run_result(es: Seq<Entry>, limit: int, buf: Seq<char>, depth: int, t: Seq<char>) -> (
    Seq<Entry>,
    Seq<char>,
)
    decreases t.len(),
{
    if t.len() == 0 {
        (Seq::<Entry>::empty(), buf)
    } else {
        let (b1, m) = feed_result(es, limit, buf, depth, t[0]);
        match m {
            Some(x) => {
                let (ms, fb) = dry_run_result(es, limit, Seq::<char>::empty(), depth, t.drop_first());
                (seq![x] + ms, fb)
            },
            None => dry_run_result(es, limit, b1, depth, t.drop_first()),
        }
    }
}

/// What `sproutx test` reports for `text`: the (trigger, replacement) pairs
/// that fire while typing it, and the characters left in the buffer.
pub fn dry_run(engine: &Engine, depth: usize, text: &str) -> (r: (Vec<(String, String)>, Vec<char>))
    requires
        text@.len() > 0 ==> depth < usize::MAX,
    ensures
        (r.0@.map_values(|p: (String, String)| (p.0@, p.1@)), r.1@) == dry_run_result(
            engine.entries(),
            engine.depth_limit() as int,
            Seq::<char>::empty(),
            depth as int,
            text@,
        ),
{
    let cs = chars_of(text);
    let ghost es = engine.entries();
    let ghost limit = engine.depth_limit() as int;
    let mut matches: Vec<(String, String)> = Vec::new();
    let mut buffer: Vec<char> = Vec::new();
    let mut i: usize = 0;
    assert(cs@.subrange(0, cs@.len() as int) =~= cs@);
    while i < cs.len()
        invariant
            es == engine.entries(),
            limit == engine.depth_limit() as int,
            cs@.len() > 0 ==> depth < usize::MAX,
            i <= cs@.len(),
            cs@ == text@,
            ({
                let rest = dry_run_result(es, limit, buffer@, depth as int, cs@.subrange(i as int, cs@.len() as int));
                (matches@.map_values(|p: (String, String)| (p.0@, p.1@)) + rest.0, rest.1)
            }) == dry_run_result(es, limit, Seq::<char>::empty(), depth as int, text@),
        decreases cs@.len() - i,
    {
        let ghost rest = cs@.subrange(i as int, cs@.len() as int);
        assert(rest[0] == cs@[i as int]);
        assert(rest.drop_first() =~= cs@.subrange(i + 1, cs@.len() as int));
        let ghost before = matches@.map_values(|p: (String, String)| (p.0@, p.1@));
        let hit = engine.feed_char(&mut buffer, depth, cs[i]);
        match hit {
            Some(m) => {
                let ghost mv = (m.0@, m.1@);
                matches.push(m);
                buffer.clear();
                proof {
                    let tail = dry_run_result(es, limit, Seq::<char>::empty(), depth as int, rest.drop_first());
                    assert(matches@.map_values(|p: (String, String)| (p.0@, p.1@)) =~= before.push(mv));
                    assert(before + (seq![mv] + tail.0) =~= before.push(mv) + tail.0);
                }
            },
            None => {},
        }
        i = i + 1;
    }
    assert(cs@.subrange(i as int, cs@.len() as int) =~= Seq::<char>::empty());
    assert(matches@.map_values(|p: (String, String)| (p.0@, p.1@)) + Seq::<Entry>::empty() =~= matches@.map_values(|p: (String, String)| (p.0@, p.1@)));
    (matches, buffer)
}

/// The systemd user unit that starts `exe daemon`.
pub open spec fn unit_text(exe: Seq<char>) -> Seq<char> {
    UNIT_HEAD@ + exe + UNIT_TAIL@
}

/// The unit file up to the program's path.
pub const UNIT_HEAD: &'static str = "[Unit]
Description=sproutx system-wide text expander
After=graphical-session.target
PartOf=graphical-session.target

[Service]
ExecStart=";

/// The unit file after the program's path.
pub const UNIT_TAIL: &'static str = " daemon
Restart=on-failure
RestartSec=2

[Install]
WantedBy=default.target
";

/// The systemd user unit that `sproutx install` writes.
pub fn service_unit(exe: &str) -> (r: String)
    ensures
        r@ == unit_text(exe@),
{
    let mut v = chars_of(UNIT_HEAD);
    append_chars(&mut v, &chars_of(exe));
    append_chars(&mut v, &chars_of(UNIT_TAIL));
    string_of(&v)
}

/// Each line of a replacement becomes one line of the block, empty lines
/// included: six spaces, the line, a newline.
pub proof fn lemma_block_line(l: Seq<char>)
    ensures
        block_lines(seq![l]) == "      "@ + l + "\n"@,
{
    assert(seq![l].drop_last() =~= Seq::<Seq<char>>::empty());
    assert(seq![l].last() == l);
    assert(block_lines(Seq::<Seq<char>>::empty()) == Seq::<char>::empty());
    assert(Seq::<char>::empty() + "      "@ + l + "\n"@ =~= "      "@ + l + "\n"@);
}

/// The block of several lines is the blocks of its parts, one after the other.
pub proof fn lemma_block_lines_concat(a: Seq<Seq<char>>, b: Seq<Seq<char>>)
    ensures
        block_lines(a + b) == block_lines(a) + block_lines(b),
    decreases b.len(),
{
    if b.len() == 0 {
        assert(a + b =~= a);
        assert(block_lines(a) + Seq::<char>::empty() =~= block_lines(a));
    } else {
        lemma_block_lines_concat(a, b.drop_last());
        assert((a + b).drop_last() =~= a + b.drop_last());
        assert((a + b).last() == b.last());
        assert(block_lines(a) + block_lines(b) =~= block_lines(a) + block_lines(b.drop_last()) + "      "@
            + b.last() + "\n"@);
    }
}

/// One keystroke of a dry run: a keystroke that fires reports its expansion
/// and empties the buffer; one that does not leaves the buffer as the matcher
/// left it and reports nothing.
pub proof fn lemma_dry_run_keystroke(es: Seq<Entry>, limit: int, buf: Seq<char>, depth: int, c: char)
    ensures
        dry_run_result(es, limit, buf, depth, seq![c]) == match feed_result(es, limit, buf, depth, c) {
            (_, Some(m)) => (seq![m], Seq::<char>::empty()),
            (b1, None) => (Seq::<Entry>::empty(), b1),
        },
{
    let t = seq![c];
    assert(t.drop_first() =~= Seq::<char>::empty());
    assert(t[0] == c);
    let (b1, m) = feed_result(es, limit, buf, depth, c);
    assert(dry_run_result(es, limit, Seq::<char>::empty(), depth, Seq::<char>::empty()) == (
    Seq::<Entry>::empty(), Seq::<char>::empty()));
    assert(dry_run_result(es, limit, b1, depth, Seq::<char>::empty()) == (Seq::<Entry>::empty(), b1));
    if let Some(x) = m {
        assert(seq![x] + Seq::<Entry>::empty() =~= seq![x]);
    }
}

/// A dry run over two pieces of text in turn, the second starting from the
/// buffer that the first left, reports the expansions of both, in order, and
/// ends with the buffer of the second: it is the dry run over the whole text.
pub proof fn lemma_dry_run_concat(
    es: Seq<Entry>,
    limit: int,
    buf: Seq<char>,
    depth: int,
    t1: Seq<char>,
    t2: Seq<char>,
)
    ensures
        dry_run_result(es, limit, buf, depth, t1 + t2) == ({
            let (m1, b1) = dry_run_result(es, limit, buf, depth, t1);
            let (m2, b2) = dry_run_result(es, limit, b1, depth, t2);
            (m1 + m2, b2)
        }),
    decreases t1.len(),
{
    if t1.len() == 0 {
        assert(t1 + t2 =~= t2);
        let (m2, b2) = dry_run_result(es, limit, buf, depth, t2);
        assert(Seq::<Entry>::empty() + m2 =~= m2);
    } else {
        let t = t1 + t2;
        assert(t[0] == t1[0]);
        assert(t.drop_first() =~= t1.drop_first() + t2);
        let (b1, m) = feed_result(es, limit, buf, depth, t1[0]);
        match m {
            Some(x) => {
                lemma_dry_run_concat(es, limit, Seq::<char>::empty(), depth, t1.drop_first(), t2);
                let (ma, ba) = dry_run_result(es, limit, Seq::<char>::empty(), depth, t1.drop_first());
                let (mb, bb) = dry_run_result(es, limit, ba, depth, t2);
                assert(seq![x] + (ma + mb) =~= (seq![x] + ma) + mb);
            },
            None => {
                lemma_dry_run_concat(es, limit, b1, depth, t1.drop_first(), t2);
            },
        }
    }
}

/// Reads the body of a YAML double-quoted scalar back, for bodies that use
/// only the escapes `\"` and `\\`: `None` where a `"` stands bare (it would
/// end the scalar) or a `\` starts any other escape or ends the body.
pub open spec fn yaml_unescaped(e: Seq<char>) -> Option<Seq<char>>
    decreases e.len(),
{
    if e.len() == 0 {
        Some(Seq::<char>::empty())
    } else if e[0] == '"' {
        None
    } else if e[0] == '\\' {
        if e.len() >= 2 && (e[1] == '"' || e[1] == '\\') {
            match yaml_unescaped(e.subrange(2, e.len() as int)) {
                Some(r) => Some(seq![e[1]] + r),
                None => None,
            }
        } else {
            None
        }
    } else {
        match yaml_unescaped(e.drop_first()) {
            Some(r) => Some(seq![e[0]] + r),
            None => None,
        }
    }
}

proof fn lemma_yaml_escaped_concat(a: Seq<char>, b: Seq<char>)
    ensures
        yaml_escaped(a + b) == yaml_escaped(a) + yaml_escaped(b),
    decreases b.len(),
{
    if b.len() == 0 {
        assert(a + b =~= a);
        assert(yaml_escaped(a) + Seq::<char>::empty() =~= yaml_escaped(a));
    } else {
        lemma_yaml_escaped_concat(a, b.drop_last());
        assert((a + b).drop_last() =~= a + b.drop_last());
        assert((a + b).last() == b.last());
        assert(yaml_escaped(a) + yaml_escaped(b) =~= yaml_escaped(a) + yaml_escaped(b.drop_last())
            + yaml_escape(b.last()));
    }
}

/// The quoted form of a trigger reads back as the trigger: its body uses only
/// the escapes `\"` and `\\`, and no `"` stands bare in it.
pub proof fn lemma_yaml_quote_reads_back(s: Seq<char>)
    ensures
        yaml_unescaped(yaml_escaped(s)) == Some(s),
    decreases s.len(),
{
    if s.len() == 0 {
        assert(yaml_escaped(s) == Seq::<char>::empty());
    } else {
        let c = s[0];
        let rest = s.drop_first();
        lemma_yaml_quote_reads_back(rest);
        assert(s =~= seq![c] + rest);
        lemma_yaml_escaped_concat(seq![c], rest);
        assert(seq![c].drop_last() =~= Seq::<char>::empty());
        assert(seq![c].last() == c);
        assert(yaml_escaped(Seq::<char>::empty()) == Seq::<char>::empty());
        assert(yaml_escaped(seq![c]) == yaml_escaped(seq![c].drop_last()) + yaml_escape(c));
        assert(yaml_escaped(seq![c]) =~= yaml_escape(c));
        let e = yaml_escaped(s);
        let er = yaml_escaped(rest);
        assert(e =~= yaml_escape(c) + er);
        if c == '"' || c == '\\' {
            assert(e.subrange(2, e.len() as int) =~= er);
            assert(e[0] == '\\' && e[1] == c);
        } else {
            assert(e.drop_first() =~= er);
            assert(e[0] == c);
        }
        assert(seq![c] + rest =~= s);
    }
}

/// The unit starts the program at the given path with `daemon`, on a line of
/// its own: `ExecStart=<exe> daemon`.
pub proof fn lemma_unit_runs_daemon(exe: Seq<char>)
    ensures
        crate::text::contains_seq(unit_text(exe), "\nExecStart="@ + exe + " daemon\n"@),
{
    reveal_strlit("[Unit]
Description=sproutx system-wide text expander
After=graphical-session.target
PartOf=graphical-session.target

[Service]
ExecStart=");
    reveal_strlit(" daemon
Restart=on-failure
RestartSec=2

[Install]
WantedBy=default.target
");
    reveal_strlit("\nExecStart=");
    reveal_strlit(" daemon\n");
    let h = UNIT_HEAD@;
    let t = UNIT_TAIL@;
    let needle = "\nExecStart="@ + exe + " daemon\n"@;
    let u = unit_text(exe);
    let i = h.len() - 11;
    assert(h.subrange(i, h.len() as int) =~= "\nExecStart="@);
    assert(t.subrange(0, 8) =~= " daemon\n"@);
    assert(u.subrange(i, i + needle.len()) =~= needle);
}

} // verus!
