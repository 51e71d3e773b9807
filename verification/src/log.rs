//! The log level: how `SPROUTX_LOG` sets it, and which messages it lets through.

use vstd::prelude::*;

use crate::text::{
    chars_of, edges_solid, is_space, lemma_lower_letters, lemma_trim_edges, lemma_trim_solid, lower,
    lower_chars, same_chars, trim, trim_chars,
};

verus! {

/// The level that a value of `SPROUTX_LOG` (trimmed, in any ASCII case) names;
/// unknown values mean `info`.
pub open spec fn named_level(v: Seq<char>) -> u8 {
    let w = lower(trim(v));
    if w == "off"@ || w == "error"@ {
        0
    } else if w == "warn"@ || w == "warning"@ {
        1
    } else if w == "info"@ {
        2
    } else if w == "debug"@ || w == "trace"@ {
        3
    } else {
        2
    }
}

/// The log level: 0 error, 1 warn, 2 info, 3 debug. `setting` is the value of
/// `SPROUTX_LOG`, `None` when it is unset (or not Unicode); then `-v` means
/// debug and its absence info.
pub fn level_from_setting(setting: Option<String>, verbose: bool) -> (r: u8)
    ensures
        r == match setting {
            Some(v) => named_level(v@),
            None => if verbose {
                3u8
            } else {
                2u8
            },
        },
{
    match setting {
        Some(v) => {
            let w = lower_chars(&trim_chars(&chars_of(v.as_str())));
            if same_chars(&w, &chars_of("off")) || same_chars(&w, &chars_of("error")) {
                0
            } else if same_chars(&w, &chars_of("warn")) || same_chars(&w, &chars_of("warning")) {
                1
            } else if same_chars(&w, &chars_of("info")) {
                2
            } else if same_chars(&w, &chars_of("debug")) || same_chars(&w, &chars_of("trace")) {
                3
            } else {
                2
            }
        },
        None => if verbose {
            3
        } else {
            2
        },
    }
}

/// Whether a message of `level` shows at the current level.
pub fn enabled(current: u8, level: u8) -> (r: bool)
    ensures
        r == (current >= level),
{
    current >= level
}

/// The tag that a message of `level` carries.
pub fn level_tag(level: u8) -> (r: &'static str)
    ensures
        r@ == if level == 0 {
            "error"@
        } else if level == 1 {
            "warn"@
        } else if level == 2 {
            "info"@
        } else {
            "debug"@
        },
{
    match level {
        0 => "error",
        1 => "warn",
        2 => "info",
        _ => "debug",
    }
}

proof fn lemma_plain_name(w: Seq<char>)
    requires
        w.len() > 0,
        forall|i: int| 0 <= i < w.len() ==> 'a' <= #[trigger] w[i] <= 'z',
    ensures
        lower(trim(w)) == w,
{
    lemma_trim_solid(w);
    lemma_lower_letters(w);
    assert(lower(w) =~= w);
}

/// The level names, as `SPROUTX_LOG` takes them: `off` and `error` are 0,
/// `warn` and `warning` 1, `info` 2, `debug` and `trace` 3; any other value
/// is 2. Case and surrounding white space do not matter.
pub proof fn lemma_level_names(v: Seq<char>)
    ensures
        named_level("off"@) == 0 && named_level("error"@) == 0,
        named_level("warn"@) == 1 && named_level("warning"@) == 1,
        named_level("info"@) == 2,
        named_level("debug"@) == 3 && named_level("trace"@) == 3,
        named_level(v) <= 3,
        named_level(v) == named_level(lower(trim(v))),
{
    reveal_strlit("off");
    reveal_strlit("error");
    reveal_strlit("warn");
    reveal_strlit("warning");
    reveal_strlit("info");
    reveal_strlit("debug");
    reveal_strlit("trace");
    lemma_plain_name("off"@);
    lemma_plain_name("error"@);
    lemma_plain_name("warn"@);
    lemma_plain_name("warning"@);
    lemma_plain_name("info"@);
    lemma_plain_name("debug"@);
    lemma_plain_name("trace"@);
    assert("off"@.len() == 3 && "error"@.len() == 5 && "warn"@.len() == 4 && "warning"@.len() == 7);
    assert("info"@.len() == 4 && "debug"@.len() == 5 && "trace"@.len() == 5);
    assert("warn"@[0] != "info"@[0] && "error"@[0] != "debug"@[0] && "error"@[0] != "trace"@[0]);
    assert("debug"@[0] != "trace"@[0]);
    let w = lower(trim(v));
    lemma_trim_edges(v);
    lemma_lower_letters(trim(v));
    assert(edges_solid(w)) by {
        if w.len() > 0 {
            assert(!is_space(w[0]));
            assert(!is_space(w[w.len() - 1]));
        }
    }
    lemma_trim_solid(w);
    lemma_lower_letters(w);
    assert(lower(w) =~= w);
}

} // verus!
