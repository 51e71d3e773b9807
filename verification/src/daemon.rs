//! The daemon's decisions on each key event: what happens to the typed-text
//! buffer and whether a trigger expands. Reading devices, decoding keys with
//! the keymap and injecting keystrokes are done by the caller.

use vstd::prelude::*;

use crate::engine::{
    feed_result, fits_window, hit_view, lemma_first_fit, window_match, Engine, Entry,
};
use crate::keys::{hotkey_mod, is_hotkey_mod, KEY_BACKSPACE, KEY_ENTER, KEY_ESC, KEY_KPENTER};
use crate::text::{chars_of, opt_view};

verus! {

/// What the daemon does after a key event.
pub enum KeyAction {
    /// Nothing beyond the buffer update.
    Nothing,
    /// Erase the trigger and type the rendered replacement (the buffer is
    /// already cleared).
    Expand { trigger: String, replace: String },
}

/// The buffer and the expansion after feeding `t`, character by character,
/// stopping at the first expansion.
pub open spec fn fed(es: Seq<Entry>, limit: int, buf: Seq<char>, depth: int, t: Seq<char>) -> (
    Seq<char>,
    Option<Entry>,
)
    decreases t.len(),
{
    if t.len() == 0 {
        (buf, None)
    } else {
        let (b1, m) = feed_result(es, limit, buf, depth, t[0]);
        if m is Some {
            (b1, m)
        } else {
            fed(es, limit, b1, depth, t.drop_first())
        }
    }
}

/// Enter, keypad Enter and Escape end a line of typing.
pub open spec fn ends_line(code: u16) -> bool {
    code == KEY_ENTER || code == KEY_KPENTER || code == KEY_ESC
}

/// The buffer and the expansion after key event `code`/`value`, `text` being
/// what the keymap decoded for it. Only presses count. Backspace drops the
/// last character; Enter or Escape expands a trigger at the end of the buffer;
/// a hotkey modifier clears a non-empty buffer; decoded text is fed to the
/// matcher. Enter and Escape leave the buffer empty, and so does every
/// expansion.
pub open spec fn key_outcome(
    es: Seq<Entry>,
    limit: int,
    buf: Seq<char>,
    depth: int,
    code: u16,
    value: i32,
    text: Option<Seq<char>>,
) -> (Seq<char>, Option<Entry>) {
    if value != 1 {
        (buf, None)
    } else if code == KEY_BACKSPACE {
        (if buf.len() > 0 {
            buf.drop_last()
        } else {
            buf
        }, None)
    } else if ends_line(code) {
        match window_match(es, buf, buf.len() as int, limit) {
            Some(m) => (Seq::<char>::empty(), Some(m)),
            None => (Seq::<char>::empty(), None),
        }
    } else if hotkey_mod(code) && buf.len() > 0 {
        (Seq::<char>::empty(), None)
    } else {
        match text {
            Some(t) => match fed(es, limit, buf, depth, t) {
                (_, Some(m)) => (Seq::<char>::empty(), Some(m)),
                (b, None) => (b, None),
            },
            None => (buf, None),
        }
    }
}

/// Key event `code`/`value` with decoded `text` feeds characters to the matcher.
pub open spec fn feeds_text(buf_len: int, code: u16, value: i32, text: Option<Seq<char>>) -> bool {
    &&& value == 1
    &&& code != KEY_BACKSPACE
    &&& !ends_line(code)
    &&& !(hotkey_mod(code) && buf_len > 0)
    &&& text matches Some(t) && t.len() > 0
}

/// Whether `handle_key` will feed characters to the matcher, which needs a
/// depth below `usize::MAX`.
pub fn will_feed(buffer_len: usize, code: u16, value: i32, text: &Option<String>) -> (r: bool)
    ensures
        r == feeds_text(buffer_len as int, code, value, opt_view(*text)),
{
    value == 1 && code != KEY_BACKSPACE && !(code == KEY_ENTER || code == KEY_KPENTER || code
        == KEY_ESC) && !(is_hotkey_mod(code) && buffer_len > 0) && match text {
        Some(t) => t.as_str().unicode_len() > 0,
        None => false,
    }
}

/// The expansion that an action asks for.
pub open spec fn action_view(a: KeyAction) -> Option<Entry> {
    match a {
        KeyAction::Nothing => None,
        KeyAction::Expand { trigger, replace } => Some((trigger@, replace@)),
    }
}

fn action_of(m: Option<(String, String)>) -> (a: KeyAction)
    ensures
        action_view(a) == hit_view(m),
{
    match m {
        Some((trigger, replace)) => KeyAction::Expand { trigger, replace },
        None => KeyAction::Nothing,
    }
}

/// Decides what key event `code`/`value` does to `buffer`, given the text
/// that the keymap decoded for it.
pub fn handle_key(
    engine: &Engine,
    buffer: &mut Vec<char>,
    depth: usize,
    code: u16,
    value: i32,
    text: Option<String>,
) -> (a: KeyAction)
    requires
        feeds_text(old(buffer)@.len() as int, code, value, opt_view(text)) ==> depth < usize::MAX,
    ensures
        (final(buffer)@, action_view(a)) == key_outcome(
            engine.entries(),
            engine.depth_limit() as int,
            old(buffer)@,
            depth as int,
            code,
            value,
            opt_view(text),
        ),
{
    if value != 1 {
        return KeyAction::Nothing;
    }
    if code == KEY_BACKSPACE {
        buffer.pop();
        return KeyAction::Nothing;
    }
    if code == KEY_ENTER || code == KEY_KPENTER || code == KEY_ESC {
        let hit = engine.match_at_end(buffer);
        buffer.clear();
        return action_of(hit);
    }
    if is_hotkey_mod(code) && buffer.len() > 0 {
        buffer.clear();
        return KeyAction::Nothing;
    }
    match text {
        Some(t) => {
            let cs = chars_of(t.as_str());
            if cs.len() == 0 {
                return KeyAction::Nothing;
            }
            let hit = feed_text(engine, buffer, depth, &cs);
            if hit.is_some() {
                buffer.clear();
            }
            action_of(hit)
        },
        None => KeyAction::Nothing,
    }
}

/// Feeds `cs` to the matcher until the first expansion.
fn feed_text(engine: &Engine, buffer: &mut Vec<char>, depth: usize, cs: &[char]) -> (r: Option<(String, String)>)
    requires
        depth < usize::MAX,
    ensures
        (final(buffer)@, hit_view(r)) == fed(
            engine.entries(),
            engine.depth_limit() as int,
            old(buffer)@,
            depth as int,
            cs@,
        ),
{
    let ghost es = engine.entries();
    let ghost limit = engine.depth_limit() as int;
    let mut i: usize = 0;
    assert(cs@.subrange(0, cs@.len() as int) =~= cs@);
    while i < cs.len()
        invariant
            es == engine.entries(),
            limit == engine.depth_limit() as int,
            depth < usize::MAX,
            i <= cs@.len(),
            fed(es, limit, buffer@, depth as int, cs@.subrange(i as int, cs@.len() as int)) == fed(
                es,
                limit,
                old(buffer)@,
                depth as int,
                cs@,
            ),
        decreases cs@.len() - i,
    {
        let ghost rest = cs@.subrange(i as int, cs@.len() as int);
        assert(rest[0] == cs@[i as int]);
        assert(rest.drop_first() =~= cs@.subrange(i + 1, cs@.len() as int));
        let hit = engine.feed_char(buffer, depth, cs[i]);
        if hit.is_some() {
            return hit;
        }
        i = i + 1;
    }
    assert(cs@.subrange(i as int, cs@.len() as int) =~= Seq::<char>::empty());
    None
}

/// After this long without key events, the typed-text buffer is dropped.
pub const IDLE_CLEAR_MS: u64 = 2000;

/// How often the daemon looks for newly plugged keyboards.
pub const HOTPLUG_SCAN_MS: u64 = 3000;

/// Whether a non-empty buffer has been idle long enough to be dropped.
pub fn idle_expired(buffer_len: usize, idle_ms: u64) -> (r: bool)
    ensures
        r == (buffer_len > 0 && idle_ms >= IDLE_CLEAR_MS),
{
    buffer_len > 0 && idle_ms >= IDLE_CLEAR_MS
}

/// Whether it is time to look for new keyboards again.
pub fn rescan_due(since_ms: u64) -> (r: bool)
    ensures
        r == (since_ms >= HOTPLUG_SCAN_MS),
{
    since_ms >= HOTPLUG_SCAN_MS
}

proof fn lemma_window_match_in(es: Seq<Entry>, buf: Seq<char>, n: int, depth: int)
    ensures
        window_match(es, buf, n, depth) matches Some(m) ==> es.contains(m),
{
    lemma_first_fit(es, buf, n, depth);
}

proof fn lemma_feed_in(es: Seq<Entry>, limit: int, buf: Seq<char>, depth: int, ch: char)
    ensures
        feed_result(es, limit, buf, depth, ch).1 matches Some(m) ==> es.contains(m),
{
    let b = feed_result(es, limit, buf, depth, ch).0;
    lemma_window_match_in(es, b, b.len() as int, limit);
    lemma_window_match_in(es, b, b.len() - 1, limit);
}

proof fn lemma_fed_in(es: Seq<Entry>, limit: int, buf: Seq<char>, depth: int, t: Seq<char>)
    ensures
        fed(es, limit, buf, depth, t).1 matches Some(m) ==> es.contains(m),
    decreases t.len(),
{
    if t.len() > 0 {
        lemma_feed_in(es, limit, buf, depth, t[0]);
        let (b1, m) = feed_result(es, limit, buf, depth, t[0]);
        lemma_fed_in(es, limit, b1, depth, t.drop_first());
    }
}

/// Every expansion is one of the configured (trigger, replacement) entries.
pub proof fn lemma_expansion_is_a_rule(
    es: Seq<Entry>,
    limit: int,
    buf: Seq<char>,
    depth: int,
    code: u16,
    value: i32,
    text: Option<Seq<char>>,
)
    ensures
        key_outcome(es, limit, buf, depth, code, value, text).1 matches Some(m) ==> es.contains(m),
{
    lemma_window_match_in(es, buf, buf.len() as int, limit);
    if let Some(t) = text {
        lemma_fed_in(es, limit, buf, depth, t);
    }
}

/// Enter or Escape never leaves text behind, and neither does an expansion:
/// the buffer is empty afterwards.
pub proof fn lemma_line_end_clears(
    es: Seq<Entry>,
    limit: int,
    buf: Seq<char>,
    depth: int,
    code: u16,
    text: Option<Seq<char>>,
)
    ensures
        ends_line(code) ==> key_outcome(es, limit, buf, depth, code, 1, text).0.len() == 0,
        key_outcome(es, limit, buf, depth, code, 1, text).1 is Some ==> key_outcome(
            es,
            limit,
            buf,
            depth,
            code,
            1,
            text,
        ).0.len() == 0,
{
}

/// Enter or Escape after a trigger at a word boundary expands it (or a
/// longer trigger that ends there).
pub proof fn lemma_line_end_completes(
    es: Seq<Entry>,
    limit: int,
    buf: Seq<char>,
    depth: int,
    code: u16,
    text: Option<Seq<char>>,
    j: int,
)
    requires
        ends_line(code),
        0 <= j < es.len(),
        fits_window(es[j].0, buf, buf.len() as int, limit),
    ensures
        key_outcome(es, limit, buf, depth, code, 1, text).1 is Some,
{
    lemma_first_fit(es, buf, buf.len() as int, limit);
}

/// Backspace undoes a typed character: while the buffer has room, typing a
/// character and then Backspace leaves the buffer as it was.
pub proof fn lemma_backspace_undoes_typing(
    es: Seq<Entry>,
    limit: int,
    buf: Seq<char>,
    depth: int,
    ch: char,
    text: Option<Seq<char>>,
)
    requires
        buf.len() + 1 <= (if depth < 1 {
            2
        } else {
            depth + 1
        }),
    ensures
        key_outcome(
            es,
            limit,
            feed_result(es, limit, buf, depth, ch).0,
            depth,
            KEY_BACKSPACE,
            1,
            text,
        ).0 == buf,
{
    assert(buf.push(ch).drop_last() =~= buf);
}

/// A key event that decodes to no text leaves the buffer alone and expands
/// nothing, unless it is a press of Backspace, Enter, keypad Enter, Escape or
/// a hotkey modifier (Control, Alt, Super; Shift is none, so a capital typed
/// with Shift keeps the trigger being typed).
pub proof fn lemma_silent_key_keeps_buffer(
    es: Seq<Entry>,
    limit: int,
    buf: Seq<char>,
    depth: int,
    code: u16,
    value: i32,
    text: Option<Seq<char>>,
)
    requires
        text matches Some(t) ==> t.len() == 0,
        value == 1 ==> code != KEY_BACKSPACE && !ends_line(code) && !hotkey_mod(code),
    ensures
        key_outcome(es, limit, buf, depth, code, value, text) == (buf, None::<Entry>),
        !hotkey_mod(42u16) && !hotkey_mod(54u16),
{
}

/// A press of Control, Alt or Super (left or right) while text is being
/// typed drops that text and expands nothing: what follows is a shortcut.
pub proof fn lemma_shortcut_clears_buffer(
    es: Seq<Entry>,
    limit: int,
    buf: Seq<char>,
    depth: int,
    code: u16,
    text: Option<Seq<char>>,
)
    requires
        code == 29 || code == 97 || code == 56 || code == 100 || code == 125 || code == 126,
        buf.len() > 0,
    ensures
        key_outcome(es, limit, buf, depth, code, 1, text) == (Seq::<char>::empty(), None::<Entry>),
{
}

/// A press that decodes to one character feeds it to the matcher: the
/// buffer becomes what the matcher leaves, or empty when that character
/// fires an expansion, which is then the expansion reported.
pub proof fn lemma_typed_char_feeds_matcher(
    es: Seq<Entry>,
    limit: int,
    buf: Seq<char>,
    depth: int,
    code: u16,
    c: char,
)
    requires
        code != KEY_BACKSPACE,
        !ends_line(code),
        !hotkey_mod(code),
    ensures
        key_outcome(es, limit, buf, depth, code, 1, Some(seq![c])) == match feed_result(
            es,
            limit,
            buf,
            depth,
            c,
        ) {
            (_, Some(m)) => (Seq::<char>::empty(), Some(m)),
            (b1, None) => (b1, None),
        },
{
    let t = seq![c];
    assert(t[0] == c);
    assert(t.drop_first() =~= Seq::<char>::empty());
    let (b1, m) = feed_result(es, limit, buf, depth, c);
    assert(fed(es, limit, b1, depth, Seq::<char>::empty()) == (b1, None::<Entry>));
}

/// Enter, keypad Enter or Escape right after a trigger that starts a word
/// and is no longer than the matcher's depth expands a trigger.
pub proof fn lemma_trigger_then_enter_fires(
    es: Seq<Entry>,
    limit: int,
    buf: Seq<char>,
    depth: int,
    code: u16,
    text: Option<Seq<char>>,
    j: int,
)
    requires
        code == 28 || code == 96 || code == 1,
        0 <= j < es.len(),
        es[j].0.len() <= limit,
        es[j].0.len() <= buf.len(),
        buf.subrange(buf.len() - es[j].0.len(), buf.len() as int) == es[j].0,
        buf.len() == es[j].0.len() || !crate::text::is_word_char(buf[buf.len() - es[j].0.len() - 1]),
    ensures
        key_outcome(es, limit, buf, depth, code, 1, text).1 is Some,
{
    lemma_line_end_completes(es, limit, buf, depth, code, text, j);
}

/// Typed text left idle for two seconds is dropped, and not sooner; new
/// keyboards are looked for every three seconds.
pub proof fn lemma_daemon_timers(buffer_len: usize, idle_ms: u64, since_ms: u64)
    ensures
        (buffer_len > 0 && idle_ms >= IDLE_CLEAR_MS) <==> (buffer_len > 0 && idle_ms >= 2000),
        (since_ms >= HOTPLUG_SCAN_MS) <==> (since_ms >= 3000),
{
}

} // verus!
