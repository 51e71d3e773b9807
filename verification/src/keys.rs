//! Keyboard decisions that need no keymap: which key events are shortcut
//! chords rather than text, which decoded text is printable, and how a
//! character becomes keystrokes, given the keymap's levels as plain data.

use vstd::prelude::*;

use crate::text::chars_of;

verus! {

/// Offset between kernel evdev keycodes and XKB keycodes.
pub const XKB_OFFSET: u32 = 8;

pub const KEY_ESC: u16 = 1;
pub const KEY_BACKSPACE: u16 = 14;
pub const KEY_TAB: u16 = 15;
pub const KEY_ENTER: u16 = 28;
pub const KEY_KPENTER: u16 = 96;
pub const KEY_RIGHTCTRL: u16 = 97;
pub const KEY_LEFTCTRL: u16 = 29;
pub const KEY_LEFTSHIFT: u16 = 42;
pub const KEY_LEFTALT: u16 = 56;
pub const KEY_RIGHTALT: u16 = 100;
pub const KEY_LEFTMETA: u16 = 125;
pub const KEY_RIGHTMETA: u16 = 126;

/// Modifier keys that signal a shortcut/gesture (context change) rather
/// than plain typing. Shift is deliberately excluded.
pub const HOTKEY_MOD_KEYS: [u16; 6] = [
    KEY_LEFTCTRL,
    KEY_RIGHTCTRL,
    KEY_LEFTALT,
    KEY_RIGHTALT,
    KEY_LEFTMETA,
    KEY_RIGHTMETA,
];

/// Ctrl, Alt or Super, left or right.
pub open spec fn hotkey_mod(code: u16) -> bool {
    code == KEY_LEFTCTRL || code == KEY_RIGHTCTRL || code == KEY_LEFTALT || code == KEY_RIGHTALT
        || code == KEY_LEFTMETA || code == KEY_RIGHTMETA
}

/// Whether `code` is one of `HOTKEY_MOD_KEYS`.
pub fn is_hotkey_mod(code: u16) -> (r: bool)
    ensures
        r == hotkey_mod(code),
{
    code == KEY_LEFTCTRL || code == KEY_RIGHTCTRL || code == KEY_LEFTALT || code == KEY_RIGHTALT
        || code == KEY_LEFTMETA || code == KEY_RIGHTMETA
}

/// Window (after a hotkey key event), in milliseconds, during which printable
/// keys are treated as part of a shortcut chord rather than as text.
pub const HOTKEY_WINDOW_MS: u64 = 250;

/// Keys pressed right after a "hotkey" modifier (Ctrl/Alt/Super) are shortcut
/// gestures (copy, paste, workspace switch) rather than text. Suppression is
/// time-windowed on the raw key events, never derived from held-modifier
/// state: a stuck or missed release only skips keys within a short window.
pub struct HotkeyGate {
    /// Time (milliseconds on a monotonic clock) of the last hotkey event.
    pub last_hotkey_ms: Option<u64>,
}

/// A press at `now` falls within the chord window of the last hotkey event
/// (the elapsed time saturates at zero, as `Instant::elapsed` does).
pub open spec fn in_chord(last: Option<u64>, now: u64) -> bool {
    match last {
        Some(t) => now < t || now - t < HOTKEY_WINDOW_MS,
        None => false,
    }
}

impl HotkeyGate {
    /// A gate that has seen no hotkey.
    pub fn new() -> (g: HotkeyGate)
        ensures
            g.last_hotkey_ms is None,
    {
        HotkeyGate { last_hotkey_ms: None }
    }

    /// Records key event `evcode` with `value` (0 = release, 1 = press,
    /// 2 = repeat) at time `now_ms`, and says whether the keymap should decode
    /// it into text: only a press of a non-hotkey key outside a chord window.
    pub fn on_event(&mut self, evcode: u16, value: i32, now_ms: u64) -> (decode: bool)
        ensures
            final(self).last_hotkey_ms == if hotkey_mod(evcode) {
                Some(now_ms)
            } else {
                old(self).last_hotkey_ms
            },
            decode == (value == 1 && !hotkey_mod(evcode) && !in_chord(
                old(self).last_hotkey_ms,
                now_ms,
            )),
    {
        if is_hotkey_mod(evcode) {
            self.last_hotkey_ms = Some(now_ms);
            return false;
        }
        if value != 1 {
            return false;
        }
        match self.last_hotkey_ms {
            Some(t) => !(now_ms < t || now_ms - t < HOTKEY_WINDOW_MS),
            None => true,
        }
    }
}

/// A quarter of a second after a hotkey event, presses are text again;
/// within it they are part of the shortcut.
pub proof fn lemma_chord_lasts_a_quarter_second(last: u64, now: u64)
    ensures
        last <= now ==> (in_chord(Some(last), now) <==> now - last < 250),
{
}

/// A stuck or missed modifier release never freezes decoding: a press more
/// than the window after the last hotkey event is decoded, and one within the
/// window is not.
pub proof fn lemma_chord_window(last: u64, now: u64)
    ensures
        now >= last + HOTKEY_WINDOW_MS ==> !in_chord(Some(last), now),
        last <= now < last + HOTKEY_WINDOW_MS ==> in_chord(Some(last), now),
        !in_chord(None, now),
{
}

/// A control character: Unicode general category `Cc`, which
/// `char::is_control` goes by.
pub open spec fn is_control_char(c: char) -> bool {
    c <= '\u{1f}' || ('\u{7f}' <= c && c <= '\u{9f}')
}

/// Decoded key text that is worth feeding to the matcher: not empty, and not
/// made only of control characters.
pub open spec fn printable_text(s: Seq<char>) -> bool {
    s.len() > 0 && exists|i: int| 0 <= i < s.len() && !is_control_char(#[trigger] s[i])
}

/// The decoded text of a key press, unless it is empty or only control characters.
pub fn printable(s: String) -> (r: Option<String>)
    ensures
        r == (if printable_text(s@) {
            Some(s)
        } else {
            None
        }),
{
    let cs = chars_of(s.as_str());
    let mut i: usize = 0;
    while i < cs.len()
        invariant
            i <= cs@.len(),
            cs@ == s@,
            forall|k: int| 0 <= k < i ==> is_control_char(#[trigger] cs@[k]),
        decreases cs@.len() - i,
    {
        let c = cs[i];
        if !(c <= '\u{1f}' || ('\u{7f}' <= c && c <= '\u{9f}')) {
            assert(!is_control_char(s@[i as int]));
            return Some(s);
        }
        i = i + 1;
    }
    None
}

/// A single keystroke plus modifiers to hold while typing it.
#[derive(Clone, Debug)]
pub struct Stroke {
    pub key: u16,
    pub mods: Vec<u16>,
}

/// The keymap's modifier masks for the roles that typing cares about; 0 where
/// the keymap has no such modifier (below index 32).
#[derive(Clone, Copy, Debug)]
pub struct ModBits {
    pub shift: u32,
    pub lock: u32,
    pub ctrl: u32,
    pub mod1: u32,
    pub mod2: u32,
    pub meta: u32,
}

/// What modifier bit `b` asks for: the key that holds it, or `None` when a
/// keystroke cannot hold it (Control, Lock, or a modifier of no known role).
pub open spec fn bit_key(m: ModBits, b: u32) -> Option<u16> {
    if b == m.shift {
        Some(KEY_LEFTSHIFT)
    } else if m.ctrl != 0 && b == m.ctrl {
        None
    } else if m.lock != 0 && b == m.lock {
        None
    } else if m.mod1 != 0 && b == m.mod1 {
        Some(KEY_LEFTALT)
    } else if m.mod2 != 0 && b == m.mod2 {
        Some(KEY_RIGHTALT)
    } else if m.meta != 0 && b == m.meta {
        Some(KEY_LEFTMETA)
    } else {
        None
    }
}

/// The keys that hold the set bits of `mask` below bit `k`, lowest bit first;
/// `None` as soon as one of them cannot be held.
pub open spec fn bits_keys(m: ModBits, mask: u32, k: nat) -> Option<Seq<u16>>
    decreases k,
{
    if k == 0 {
        Some(Seq::<u16>::empty())
    } else {
        match bits_keys(m, mask, (k - 1) as nat) {
            None => None,
            Some(ks) => if mask & (1u32 << ((k - 1) as u32)) == 0 {
                Some(ks)
            } else {
                match bit_key(m, 1u32 << ((k - 1) as u32)) {
                    Some(key) => Some(ks.push(key)),
                    None => None,
                }
            },
        }
    }
}

/// The modifier keys to hold for `mask`: none for 0; `None` when a bit cannot
/// be held, or when no key results.
pub open spec fn mask_keys(m: ModBits, mask: u32) -> Option<Seq<u16>> {
    if mask == 0 {
        Some(Seq::<u16>::empty())
    } else {
        match bits_keys(m, mask, 32) {
            Some(ks) => if ks.len() > 0 {
                Some(ks)
            } else {
                None
            },
            None => None,
        }
    }
}

proof fn lemma_bits_keys_none(m: ModBits, mask: u32, k: nat, j: nat)
    requires
        k <= j,
        bits_keys(m, mask, k) is None,
    ensures
        bits_keys(m, mask, j) is None,
    decreases j,
{
    if k < j {
        lemma_bits_keys_none(m, mask, k, (j - 1) as nat);
    }
}

proof fn lemma_bits_keys_len(m: ModBits, mask: u32, k: nat)
    ensures
        bits_keys(m, mask, k) matches Some(ks) ==> ks.len() <= k,
    decreases k,
{
    if k > 0 {
        lemma_bits_keys_len(m, mask, (k - 1) as nat);
    }
}

fn bit_key_exec(m: &ModBits, b: u32) -> (r: Option<u16>)
    ensures
        r == bit_key(*m, b),
{
    if b == m.shift {
        Some(KEY_LEFTSHIFT)
    } else if m.ctrl != 0 && b == m.ctrl {
        None
    } else if m.lock != 0 && b == m.lock {
        None
    } else if m.mod1 != 0 && b == m.mod1 {
        Some(KEY_LEFTALT)
    } else if m.mod2 != 0 && b == m.mod2 {
        Some(KEY_RIGHTALT)
    } else if m.meta != 0 && b == m.meta {
        Some(KEY_LEFTMETA)
    } else {
        None
    }
}

/// The modifier keys to hold for a keymap modifier mask.
pub fn translate(m: &ModBits, mask: u32) -> (r: Option<Vec<u16>>)
    ensures
        match r {
            Some(v) => mask_keys(*m, mask) == Some(v@),
            None => mask_keys(*m, mask) is None,
        },
{
    if mask == 0 {
        return Some(Vec::new());
    }
    let mut kcs: Vec<u16> = Vec::new();
    let mut bit: u32 = 0;
    while bit < 32
        invariant
            bit <= 32,
            mask != 0,
            bits_keys(*m, mask, bit as nat) == Some(kcs@),
        decreases 32 - bit,
    {
        let b: u32 = 1u32 << bit;
        if mask & b != 0 {
            match bit_key_exec(m, b) {
                Some(key) => {
                    kcs.push(key);
                },
                None => {
                    proof {
                        assert(((bit + 1) as nat - 1) as u32 == bit);
                        assert(bits_keys(*m, mask, (bit + 1) as nat) is None);
                        lemma_bits_keys_none(*m, mask, (bit + 1) as nat, 32);
                    }
                    return None;
                },
            }
        }
        bit = bit + 1;
    }
    if kcs.len() == 0 {
        None
    } else {
        Some(kcs)
    }
}

/// One shift level of one key of the keymap, as the keymap describes it.
#[derive(Clone, Debug)]
pub struct KeyLevel {
    /// XKB keycode (the evdev code plus 8).
    pub keycode: u32,
    pub layout: u32,
    pub level: u32,
    /// The keysyms that the level produces.
    pub syms: Vec<u32>,
    /// The modifier masks that select the level.
    pub masks: Vec<u32>,
}

/// The keystroke and the score of every way that level `l` offers to type
/// `target` can be computed: an XKB keycode of at least 8, and a score that
/// fits in a `u32`.
pub open spec fn level_fits(m: ModBits, l: KeyLevel, target: u32) -> bool {
    l.syms@.contains(target) ==> forall|k: int|
        0 <= k < l.masks@.len() ==> match #[trigger] mask_keys(m, l.masks@[k]) {
            Some(mods) => l.keycode >= XKB_OFFSET && mods.len() + l.layout * 16 + l.level * 8
                <= u32::MAX,
            None => true,
        }
}

/// Planning `ch` (keysym `target`) stays within `u32` scores and valid keycodes.
pub open spec fn plannable(m: ModBits, levels: Seq<KeyLevel>, ch: char, target: u32) -> bool {
    ch == '\n' || ch == '\t' || target == 0 || forall|i: int|
        0 <= i < levels.len() ==> level_fits(m, #[trigger] levels[i], target)
}

/// A way to type a keysym: evdev key, modifier keys, and its score (fewer
/// modifiers, lower layout and lower level are preferred).
pub type Choice = (u16, Seq<u16>, int);

/// The way to type with level `l` under modifier mask `mask`, if it can be held.
pub open spec fn mask_choice(m: ModBits, l: KeyLevel, mask: u32) -> Option<Choice> {
    match mask_keys(m, mask) {
        Some(mods) => Some(
            ((l.keycode - XKB_OFFSET) as u16, mods, mods.len() + l.layout * 16 + l.level * 8),
        ),
        None => None,
    }
}

/// The ways that the first `k` masks of level `l` offer.
pub open spec fn masks_choices(m: ModBits, l: KeyLevel, k: int) -> Seq<Choice> {
    l.masks@.take(k).filter_map(|mask: u32| mask_choice(m, l, mask))
}

/// The ways that one level offers to type `target`, one per usable mask.
pub open spec fn level_choices(m: ModBits, l: KeyLevel, target: u32) -> Seq<Choice> {
    if l.syms@.contains(target) {
        masks_choices(m, l, l.masks@.len() as int)
    } else {
        Seq::<Choice>::empty()
    }
}

proof fn lemma_masks_choices_step(m: ModBits, l: KeyLevel, k: int)
    requires
        0 <= k < l.masks@.len(),
    ensures
        masks_choices(m, l, k + 1) == match mask_choice(m, l, l.masks@[k]) {
            Some(c) => masks_choices(m, l, k).push(c),
            None => masks_choices(m, l, k),
        },
{
    let t = l.masks@.take(k + 1);
    assert(t.drop_last() =~= l.masks@.take(k));
    assert(t.last() == l.masks@[k]);
    reveal_with_fuel(Seq::filter_map, 1);
    match mask_choice(m, l, l.masks@[k]) {
        Some(c) => {
            assert(masks_choices(m, l, k) + seq![c] =~= masks_choices(m, l, k).push(c));
        },
        None => {},
    }
}

/// All ways to type `target`, level after level.
pub open spec fn all_choices(m: ModBits, levels: Seq<KeyLevel>, target: u32) -> Seq<Choice>
    decreases levels.len(),
{
    if levels.len() == 0 {
        Seq::<Choice>::empty()
    } else {
        all_choices(m, levels.drop_last(), target) + level_choices(m, levels.last(), target)
    }
}

/// `c` is the first choice with the lowest score.
pub open spec fn best_choice(cs: Seq<Choice>, c: Choice) -> bool {
    exists|i: int|
        0 <= i < cs.len() && cs[i] == c && (forall|j: int| 0 <= j < cs.len() ==> #[trigger] cs[j].2 >= c.2)
            && (forall|j: int| 0 <= j < i ==> #[trigger] cs[j].2 > c.2)
}

proof fn lemma_best_push(cs: Seq<Choice>, best: Option<Choice>, x: Choice)
    requires
        best is None <==> cs.len() == 0,
        best matches Some(b) ==> best_choice(cs, b),
    ensures
        best_choice(
            cs.push(x),
            match best {
                Some(b) => if x.2 < b.2 {
                    x
                } else {
                    b
                },
                None => x,
            },
        ),
{
    let ns = cs.push(x);
    match best {
        Some(b) => {
            let i = choose|i: int|
                0 <= i < cs.len() && cs[i] == b && (forall|j: int|
                    0 <= j < cs.len() ==> #[trigger] cs[j].2 >= b.2) && (forall|j: int|
                    0 <= j < i ==> #[trigger] cs[j].2 > b.2);
            if x.2 < b.2 {
                assert(ns[cs.len() as int] == x);
                assert forall|j: int| 0 <= j < ns.len() implies #[trigger] ns[j].2 >= x.2 by {
                    if j < cs.len() {
                        assert(ns[j] == cs[j]);
                    }
                }
                assert forall|j: int| 0 <= j < cs.len() implies #[trigger] ns[j].2 > x.2 by {
                    assert(ns[j] == cs[j]);
                }
            } else {
                assert(ns[i] == b);
                assert forall|j: int| 0 <= j < ns.len() implies #[trigger] ns[j].2 >= b.2 by {
                    if j < cs.len() {
                        assert(ns[j] == cs[j]);
                    }
                }
                assert forall|j: int| 0 <= j < i implies #[trigger] ns[j].2 > b.2 by {
                    assert(ns[j] == cs[j]);
                }
            }
        },
        None => {
            assert(ns[0] == x);
        },
    }
}

/// The first index of `x` in `s`, if any.
pub open spec fn first_index<A>(s: Seq<A>, x: A) -> Option<int>
    decreases s.len(),
{
    if s.len() == 0 {
        None
    } else if s[0] == x {
        Some(0)
    } else {
        match first_index(s.drop_first(), x) {
            Some(i) => Some(i + 1),
            None => None,
        }
    }
}

/// The mask of the first candidate name that the keymap's modifier names hold
/// at an index below 32; 0 when there is none. (Looking a modifier up by name
/// is `xkb_keymap_mod_get_index`.)
pub open spec fn role_bit(names: Seq<Seq<char>>, cands: Seq<Seq<char>>) -> u32
    decreases cands.len(),
{
    if cands.len() == 0 {
        0
    } else {
        match first_index(names, cands[0]) {
            Some(i) => if i < 32 {
                1u32 << (i as u32)
            } else {
                role_bit(names, cands.drop_first())
            },
            None => role_bit(names, cands.drop_first()),
        }
    }
}

fn name_index(names: &Vec<Vec<char>>, n: &[char]) -> (r: Option<usize>)
    ensures
        match r {
            Some(i) => first_index(names@.map_values(|v: Vec<char>| v@), n@) == Some(i as int),
            None => first_index(names@.map_values(|v: Vec<char>| v@), n@) is None,
        },
{
    let ghost nv = names@.map_values(|v: Vec<char>| v@);
    let mut i: usize = 0;
    assert(nv.subrange(0, nv.len() as int) =~= nv);
    while i < names.len()
        invariant
            i <= names@.len() == nv.len(),
            nv == names@.map_values(|v: Vec<char>| v@),
            first_index(nv, n@) == match first_index(nv.subrange(i as int, nv.len() as int), n@) {
                Some(j) => Some(j + i),
                None => None,
            },
        decreases names@.len() - i,
    {
        let ghost rest = nv.subrange(i as int, nv.len() as int);
        assert(rest.drop_first() =~= nv.subrange(i + 1, nv.len() as int));
        assert(rest[0] == names@[i as int]@);
        if crate::text::same_chars(&names[i], n) {
            return Some(i);
        }
        i = i + 1;
    }
    assert(nv.subrange(i as int, nv.len() as int) =~= Seq::<Seq<char>>::empty());
    None
}

fn role_bit_exec(names: &Vec<Vec<char>>, cands: &[&str]) -> (r: u32)
    ensures
        r == role_bit(names@.map_values(|v: Vec<char>| v@), cands@.map_values(|c: &str| c@)),
{
    let ghost nv = names@.map_values(|v: Vec<char>| v@);
    let ghost cv = cands@.map_values(|c: &str| c@);
    let mut k: usize = 0;
    assert(cv.subrange(0, cv.len() as int) =~= cv);
    while k < cands.len()
        invariant
            k <= cands@.len() == cv.len(),
            nv == names@.map_values(|v: Vec<char>| v@),
            cv == cands@.map_values(|c: &str| c@),
            role_bit(nv, cv) == role_bit(nv, cv.subrange(k as int, cv.len() as int)),
        decreases cands@.len() - k,
    {
        let ghost rest = cv.subrange(k as int, cv.len() as int);
        assert(rest.drop_first() =~= cv.subrange(k + 1, cv.len() as int));
        assert(rest[0] == cands@[k as int]@);
        if let Some(i) = name_index(names, &chars_of(cands[k])) {
            if i < 32 {
                return 1u32 << (i as u32);
            }
        }
        k = k + 1;
    }
    0
}

/// Converts unicode characters into concrete keystrokes for the current keymap.
pub struct Planner {
    levels: Vec<KeyLevel>,
    mods: ModBits,
}

impl Planner {
    /// The keymap's levels, as the planner searches them.
    pub closed spec fn table(self) -> Seq<KeyLevel> {
        self.levels@
    }

    /// The modifier masks of the roles that typing uses.
    pub closed spec fn mod_bits(self) -> ModBits {
        self.mods
    }

    /// A planner over the keymap's levels (in keycode, layout, level order)
    /// and its modifier names (by index).
    pub fn new(levels: Vec<KeyLevel>, mod_names: Vec<String>) -> (p: Planner)
        ensures
            p.table() == levels@,
            p.mod_bits() == (ModBits {
                shift: role_bit(views_of(mod_names@), seq!["Shift"@]),
                lock: role_bit(views_of(mod_names@), seq!["Lock"@, "CapsLock"@]),
                ctrl: role_bit(views_of(mod_names@), seq!["Control"@]),
                mod1: role_bit(views_of(mod_names@), seq!["Mod1"@, "Alt"@]),
                mod2: role_bit(views_of(mod_names@), seq!["Mod2"@, "ISO_Level3_Shift"@, "AltGr"@]),
                meta: role_bit(views_of(mod_names@), seq!["Mod4"@, "Super"@, "Meta"@]),
            }),
    {
        let mut names: Vec<Vec<char>> = Vec::new();
        let mut k: usize = 0;
        while k < mod_names.len()
            invariant
                k <= mod_names@.len(),
                names@.map_values(|v: Vec<char>| v@) == views_of(mod_names@).take(k as int),
            decreases mod_names@.len() - k,
        {
            let ghost before = names@.map_values(|v: Vec<char>| v@);
            let c = chars_of(mod_names[k].as_str());
            let ghost cv = c@;
            names.push(c);
            assert(names@.map_values(|v: Vec<char>| v@) =~= before.push(cv));
            assert(views_of(mod_names@).take(k + 1) =~= views_of(mod_names@).take(k as int).push(cv));
            k = k + 1;
        }
        assert(views_of(mod_names@).take(k as int) =~= views_of(mod_names@));
        let shift_c: [&str; 1] = ["Shift"];
        let lock_c: [&str; 2] = ["Lock", "CapsLock"];
        let ctrl_c: [&str; 1] = ["Control"];
        let mod1_c: [&str; 2] = ["Mod1", "Alt"];
        let mod2_c: [&str; 3] = ["Mod2", "ISO_Level3_Shift", "AltGr"];
        let meta_c: [&str; 3] = ["Mod4", "Super", "Meta"];
        assert(shift_c@.map_values(|c: &str| c@) =~= seq!["Shift"@]);
        assert(lock_c@.map_values(|c: &str| c@) =~= seq!["Lock"@, "CapsLock"@]);
        assert(ctrl_c@.map_values(|c: &str| c@) =~= seq!["Control"@]);
        assert(mod1_c@.map_values(|c: &str| c@) =~= seq!["Mod1"@, "Alt"@]);
        assert(mod2_c@.map_values(|c: &str| c@) =~= seq!["Mod2"@, "ISO_Level3_Shift"@, "AltGr"@]);
        assert(meta_c@.map_values(|c: &str| c@) =~= seq!["Mod4"@, "Super"@, "Meta"@]);
        let mods = ModBits {
            shift: role_bit_exec(&names, &shift_c),
            lock: role_bit_exec(&names, &lock_c),
            ctrl: role_bit_exec(&names, &ctrl_c),
            mod1: role_bit_exec(&names, &mod1_c),
            mod2: role_bit_exec(&names, &mod2_c),
            meta: role_bit_exec(&names, &meta_c),
        };
        Planner { levels, mods }
    }
}

/// The strings of `v`, by their characters.
pub open spec fn views_of(v: Seq<String>) -> Seq<Seq<char>> {
    v.map_values(|x: String| x@)
}

/// The keystrokes, each by its key and its modifier keys.
pub open spec fn strokes_view(v: Seq<Stroke>) -> Seq<(u16, Seq<u16>)> {
    v.map_values(|s: Stroke| (s.key, s.mods@))
}

/// What typing `ch` takes with the keymap's levels, given `target`, the
/// keysym of `ch`: Enter for a newline, Tab for a tab, nothing for keysym 0;
/// otherwise the one keystroke of the best way to type `target`, if any.
pub open spec fn planned(m: ModBits, levels: Seq<KeyLevel>, ch: char, target: u32) -> Option<Seq<(u16, Seq<u16>)>> {
    if ch == '\n' {
        Some(seq![(KEY_ENTER, Seq::<u16>::empty())])
    } else if ch == '\t' {
        Some(seq![(KEY_TAB, Seq::<u16>::empty())])
    } else if target == 0 {
        None
    } else {
        let cs = all_choices(m, levels, target);
        if cs.len() == 0 {
            None
        } else {
            Some(seq![{
                let c = choose|c: Choice| best_choice(cs, c);
                (c.0, c.1)
            }])
        }
    }
}

proof fn lemma_best_unique(cs: Seq<Choice>, a: Choice, b: Choice)
    requires
        best_choice(cs, a),
        best_choice(cs, b),
    ensures
        a == b,
{
    let i = choose|i: int|
        0 <= i < cs.len() && cs[i] == a && (forall|j: int| 0 <= j < cs.len() ==> #[trigger] cs[j].2 >= a.2)
            && (forall|j: int| 0 <= j < i ==> #[trigger] cs[j].2 > a.2);
    let k = choose|k: int|
        0 <= k < cs.len() && cs[k] == b && (forall|j: int| 0 <= j < cs.len() ==> #[trigger] cs[j].2 >= b.2)
            && (forall|j: int| 0 <= j < k ==> #[trigger] cs[j].2 > b.2);
    assert(cs[i].2 >= b.2 && cs[k].2 >= a.2);
    if i < k {
        assert(cs[i].2 > b.2);
    }
    if k < i {
        assert(cs[k].2 > a.2);
    }
}

proof fn lemma_all_choices_step(m: ModBits, levels: Seq<KeyLevel>, target: u32, i: int)
    requires
        0 <= i < levels.len(),
    ensures
        all_choices(m, levels.take(i + 1), target) == all_choices(m, levels.take(i), target)
            + level_choices(m, levels[i], target),
{
    assert(levels.take(i + 1).drop_last() =~= levels.take(i));
    assert(levels.take(i + 1).last() == levels[i]);
}

fn contains_sym(syms: &Vec<u32>, target: u32) -> (r: bool)
    ensures
        r == syms@.contains(target),
{
    let mut i: usize = 0;
    while i < syms.len()
        invariant
            i <= syms@.len(),
            forall|k: int| 0 <= k < i ==> syms@[k] != target,
        decreases syms@.len() - i,
    {
        if syms[i] == target {
            assert(syms@[i as int] == target);
            return true;
        }
        i = i + 1;
    }
    false
}

/// The XKB keycode of kernel key code `evcode`.
pub fn xkb_keycode(evcode: u16) -> (r: u32)
    ensures
        r == evcode + XKB_OFFSET,
{
    evcode as u32 + XKB_OFFSET
}

/// Whether key event value `value` releases the key (0); a press (1) or an
/// autorepeat (2), or any other value, holds it down.
pub fn releases_key(value: i32) -> (r: bool)
    ensures
        r == (value == 0),
{
    value == 0
}

/// The keysym that stands for character `c` (`xkb_utf32_to_keysym`).
pub uninterp spec fn keysym_of(c: char) -> u32;

/// `xkeysym::Keysym::from_char` (which `xkbcommon` re-exports as
/// `xkb::Keysym`): the keysym of a character. Latin-1 printable characters
/// are their own keysym; the rest of the mapping (special keys, the table of
/// legacy keysyms, Unicode keysyms) is only named.
#[verifier::external_body]
pub(crate) fn keysym(c: char) -> (r: u32)
    ensures
        r == keysym_of(c),
        ('\u{20}' <= c <= '\u{7e}' || '\u{a0}' <= c <= '\u{ff}') ==> r == c as u32,
{
    xkeysym::Keysym::from_char(c).raw()
}

impl Planner {
    /// The keystrokes that type `ch`, `target` being its keysym: the keystroke
    /// of the first (key, layout, level, mask) that produces `target` with the
    /// lowest score, where a score counts modifiers, and 16 per layout and 8
    /// per level.
    fn strokes_for_sym(&self, ch: char, target: u32) -> (r: Option<Vec<Stroke>>)
        requires
            plannable(self.mod_bits(), self.table(), ch, target),
        ensures
            match r {
                Some(v) => planned(self.mod_bits(), self.table(), ch, target) == Some(strokes_view(v@)),
                None => planned(self.mod_bits(), self.table(), ch, target) is None,
            },
    {
        if ch == '\n' {
            let v = vec![Stroke { key: KEY_ENTER, mods: Vec::new() }];
            assert(strokes_view(v@) =~= seq![(KEY_ENTER, Seq::<u16>::empty())]);
            return Some(v);
        }
        if ch == '\t' {
            let v = vec![Stroke { key: KEY_TAB, mods: Vec::new() }];
            assert(strokes_view(v@) =~= seq![(KEY_TAB, Seq::<u16>::empty())]);
            return Some(v);
        }
        if target == 0 {
            return None;
        }
        let ghost m = self.mods;
        let ghost levels = self.levels@;
        let mut best: Option<(Stroke, u32)> = None;
        let ghost mut seen: Seq<Choice> = Seq::empty();
        let mut li: usize = 0;
        while li < self.levels.len()
            invariant
                m == self.mods,
                levels == self.levels@,
                forall|i: int| 0 <= i < levels.len() ==> level_fits(m, #[trigger] levels[i], target),
                li <= levels.len(),
                seen == all_choices(m, levels.take(li as int), target),
                best is None <==> seen.len() == 0,
                best matches Some(b) ==> best_choice(seen, (b.0.key, b.0.mods@, b.1 as int)),
            decreases levels.len() - li,
        {
            let l = &self.levels[li];
            proof {
                lemma_all_choices_step(m, levels, target, li as int);
                assert(level_fits(m, *l, target));
            }
            if contains_sym(&l.syms, target) {
                let mut mk: usize = 0;
                let ghost base = seen;
                while mk < l.masks.len()
                    invariant
                        m == self.mods,
                        level_fits(m, *l, target),
                        l.syms@.contains(target),
                        mk <= l.masks@.len(),
                        seen == base + masks_choices(m, *l, mk as int),
                        best is None <==> seen.len() == 0,
                        best matches Some(b) ==> best_choice(seen, (b.0.key, b.0.mods@, b.1 as int)),
                    decreases l.masks@.len() - mk,
                {
                    proof {
                        lemma_masks_choices_step(m, *l, mk as int);
                    }
                    match translate(&self.mods, l.masks[mk]) {
                        Some(mods) => {
                            proof {
                                assert(mask_keys(m, l.masks@[mk as int]) == Some(mods@));
                            }
                            let score: u32 = mods.len() as u32 + l.layout * 16 + l.level * 8;
                            let ghost x: Choice = ((l.keycode - XKB_OFFSET) as u16, mods@, score as int);
                            let ghost old_best: Option<Choice> = match &best {
                                Some(b) => Some((b.0.key, b.0.mods@, b.1 as int)),
                                None => None,
                            };
                            proof {
                                lemma_best_push(seen, old_best, x);
                                assert(seen.push(x) =~= base + masks_choices(m, *l, mk + 1));
                                seen = seen.push(x);
                            }
                            let better = match &best {
                                Some(b) => score < b.1,
                                None => true,
                            };
                            if better {
                                best = Some((Stroke { key: (l.keycode - XKB_OFFSET) as u16, mods }, score));
                            }
                        },
                        None => {},
                    }
                    mk = mk + 1;
                }
                proof {
                    assert(l.masks@.take(l.masks@.len() as int) =~= l.masks@);
                }
            }
            li = li + 1;
        }
        proof {
            assert(levels.take(levels.len() as int) =~= levels);
        }
        match best {
            Some((s, score)) => {
                let ghost c: Choice = (s.key, s.mods@, score as int);
                proof {
                    let cs = all_choices(m, levels, target);
                    let d = choose|d: Choice| best_choice(cs, d);
                    lemma_best_unique(cs, c, d);
                }
                let v = vec![s];
                assert(strokes_view(v@) =~= seq![(c.0, c.1)]);
                Some(v)
            },
            None => None,
        }
    }
}

impl Planner {
    /// The keystrokes that type `ch`: the keystroke of the first (key,
    /// layout, level, mask) that produces the keysym of `ch` with the lowest
    /// score, where a score counts modifiers, and 16 per layout and 8 per level.
    pub fn stroke_for(&self, ch: char) -> (r: Option<Vec<Stroke>>)
        requires
            plannable(self.mod_bits(), self.table(), ch, keysym_of(ch)),
        ensures
            match r {
                Some(v) => planned(self.mod_bits(), self.table(), ch, keysym_of(ch)) == Some(strokes_view(v@)),
                None => planned(self.mod_bits(), self.table(), ch, keysym_of(ch)) is None,
            },
    {
        let target = keysym(ch);
        self.strokes_for_sym(ch, target)
    }

    /// Whether `stroke_for(ch)` may be called: every way to type the keysym
    /// of `ch` has a keycode of at least 8 and a score that fits in a `u32`.
    pub fn can_plan(&self, ch: char) -> (r: bool)
        ensures
            r == plannable(self.mod_bits(), self.table(), ch, keysym_of(ch)),
    {
        let target = keysym(ch);
        self.can_plan_sym(ch, target)
    }

    /// The keystrokes that type `ch`, or `None` when the keymap holds a way
    /// to type it that no keystroke can express (a keycode below 8, or a
    /// score beyond `u32`).
    pub fn plan(&self, ch: char) -> (r: Option<Option<Vec<Stroke>>>)
        ensures
            r is None <==> !plannable(self.mod_bits(), self.table(), ch, keysym_of(ch)),
            r matches Some(x) ==> match x {
                Some(v) => planned(self.mod_bits(), self.table(), ch, keysym_of(ch)) == Some(strokes_view(v@)),
                None => planned(self.mod_bits(), self.table(), ch, keysym_of(ch)) is None,
            },
    {
        if self.can_plan(ch) {
            Some(self.stroke_for(ch))
        } else {
            None
        }
    }

    /// Whether `strokes_for_sym(ch, target)` may be called.
    fn can_plan_sym(&self, ch: char, target: u32) -> (r: bool)
        ensures
            r == plannable(self.mod_bits(), self.table(), ch, target),
    {
        if ch == '\n' || ch == '\t' || target == 0 {
            return true;
        }
        let ghost m = self.mods;
        let ghost levels = self.levels@;
        let mut li: usize = 0;
        while li < self.levels.len()
            invariant
                m == self.mods,
                levels == self.levels@,
                ch != '\n' && ch != '\t' && target != 0,
                li <= levels.len(),
                forall|i: int| 0 <= i < li ==> level_fits(m, #[trigger] levels[i], target),
            decreases levels.len() - li,
        {
            let l = &self.levels[li];
            if contains_sym(&l.syms, target) {
                let mut mk: usize = 0;
                while mk < l.masks.len()
                    invariant
                        m == self.mods,
                        levels == self.levels@,
                        ch != '\n' && ch != '\t' && target != 0,
                        li < levels.len(),
                        *l == levels[li as int],
                        l.syms@.contains(target),
                        mk <= l.masks@.len(),
                        forall|k: int| 0 <= k < mk ==> match #[trigger] mask_keys(m, l.masks@[k]) {
                            Some(mods) => l.keycode >= XKB_OFFSET && mods.len() + l.layout * 16 + l.level * 8
                                <= u32::MAX,
                            None => true,
                        },
                    decreases l.masks@.len() - mk,
                {
                    if let Some(mods) = translate(&self.mods, l.masks[mk]) {
                        proof {
                            lemma_bits_keys_len(m, l.masks@[mk as int], 32);
                            assert(mask_keys(m, l.masks@[mk as int]) == Some(mods@));
                        }
                        if l.keycode < XKB_OFFSET || mods.len() as u64 + l.layout as u64 * 16 + l.level as u64 * 8 > 0xffff_ffff {
                            assert(!level_fits(m, levels[li as int], target));
                            return false;
                        }
                    }
                    mk = mk + 1;
                }
            }
            li = li + 1;
        }
        true
    }
}

/// The key events (code, value) that type a stroke: each modifier pressed in
/// order, the key pressed and released, the modifiers released in reverse.
pub open spec fn stroke_events(key: u16, mods: Seq<u16>) -> Seq<(u16, i32)> {
    mods.map_values(|m: u16| (m, 1i32)) + seq![(key, 1i32), (key, 0i32)] + mods.reverse().map_values(
        |m: u16| (m, 0i32),
    )
}

impl Stroke {
    /// The key events that type this stroke.
    pub fn events(&self) -> (r: Vec<(u16, i32)>)
        ensures
            r@ == stroke_events(self.key, self.mods@),
    {
        let mut out: Vec<(u16, i32)> = Vec::new();
        let n = self.mods.len();
        let mut i: usize = 0;
        while i < n
            invariant
                n == self.mods@.len(),
                i <= n,
                out@ == self.mods@.take(i as int).map_values(|m: u16| (m, 1i32)),
            decreases n - i,
        {
            out.push((self.mods[i], 1));
            i = i + 1;
            assert(out@ =~= self.mods@.take(i as int).map_values(|m: u16| (m, 1i32)));
        }
        out.push((self.key, 1));
        out.push((self.key, 0));
        let ghost mid = out@;
        assert(self.mods@.take(n as int) =~= self.mods@);
        let mut j: usize = n;
        while j > 0
            invariant
                n == self.mods@.len(),
                j <= n,
                out@ == mid + self.mods@.reverse().take((n - j) as int).map_values(|m: u16| (m, 0i32)),
            decreases j,
        {
            j = j - 1;
            out.push((self.mods[j], 0));
            assert(self.mods@.reverse()[(n - 1 - j) as int] == self.mods@[j as int]);
            assert(out@ =~= mid + self.mods@.reverse().take((n - j) as int).map_values(|m: u16| (m, 0i32)));
        }
        assert(self.mods@.reverse().take(n as int) =~= self.mods@.reverse());
        assert(out@ =~= stroke_events(self.key, self.mods@));
        out
    }
}

proof fn lemma_best_exists(cs: Seq<Choice>)
    requires
        cs.len() > 0,
    ensures
        exists|c: Choice| best_choice(cs, c),
    decreases cs.len(),
{
    if cs.len() == 1 {
        lemma_best_push(Seq::<Choice>::empty(), None, cs[0]);
        assert(Seq::<Choice>::empty().push(cs[0]) =~= cs);
    } else {
        let p = cs.drop_last();
        lemma_best_exists(p);
        let b = choose|c: Choice| best_choice(p, c);
        lemma_best_push(p, Some(b), cs.last());
        assert(p.push(cs.last()) =~= cs);
    }
}

proof fn lemma_masks_choices_props(m: ModBits, l: KeyLevel, k: int)
    requires
        0 <= k <= l.masks@.len(),
    ensures
        forall|i: int| 0 <= i < masks_choices(m, l, k).len() ==> (#[trigger] masks_choices(m, l, k)[i]).2
            >= masks_choices(m, l, k)[i].1.len(),
        forall|q: int| 0 <= q < k && l.masks@[q] == 0 ==> masks_choices(m, l, k).contains(
            ((l.keycode - XKB_OFFSET) as u16, Seq::<u16>::empty(), l.layout * 16 + l.level * 8),
        ),
    decreases k,
{
    if k > 0 {
        lemma_masks_choices_props(m, l, k - 1);
        lemma_masks_choices_step(m, l, k - 1);
        let prev = masks_choices(m, l, k - 1);
        let zero: Choice = ((l.keycode - XKB_OFFSET) as u16, Seq::<u16>::empty(), l.layout * 16 + l.level * 8);
        match mask_choice(m, l, l.masks@[k - 1]) {
            Some(c) => {
                let cur = prev.push(c);
                assert forall|i: int| 0 <= i < cur.len() implies (#[trigger] cur[i]).2 >= cur[i].1.len() by {
                    if i < prev.len() {
                        assert(cur[i] == prev[i]);
                    }
                }
                assert forall|q: int| 0 <= q < k && l.masks@[q] == 0 implies cur.contains(zero) by {
                    if q < k - 1 {
                        let w = choose|w: int| 0 <= w < prev.len() && prev[w] == zero;
                        assert(cur[w] == prev[w]);
                    } else {
                        assert(c == zero);
                        assert(cur[prev.len() as int] == c);
                    }
                }
            },
            None => {
                assert(l.masks@[k - 1] != 0);
            },
        }
    }
}

proof fn lemma_all_choices_props(m: ModBits, levels: Seq<KeyLevel>, target: u32)
    ensures
        forall|i: int| 0 <= i < all_choices(m, levels, target).len() ==> (#[trigger] all_choices(m, levels, target)[i]).2
            >= all_choices(m, levels, target)[i].1.len(),
        (forall|i: int| 0 <= i < levels.len() ==> !(#[trigger] levels[i]).syms@.contains(target)) ==> all_choices(
            m,
            levels,
            target,
        ).len() == 0,
        forall|i: int, q: int|
            0 <= i < levels.len() && levels[i].syms@.contains(target) && 0 <= q < levels[i].masks@.len()
                && #[trigger] levels[i].masks@[q] == 0 ==> all_choices(m, levels, target).contains(
                ((levels[i].keycode - XKB_OFFSET) as u16, Seq::<u16>::empty(), levels[i].layout * 16 + levels[i].level * 8),
            ),
    decreases levels.len(),
{
    if levels.len() > 0 {
        let p = levels.drop_last();
        let l = levels.last();
        lemma_all_choices_props(m, p, target);
        lemma_masks_choices_props(m, l, l.masks@.len() as int);
        let a = all_choices(m, p, target);
        let b = level_choices(m, l, target);
        let cs = a + b;
        assert forall|i: int| 0 <= i < cs.len() implies (#[trigger] cs[i]).2 >= cs[i].1.len() by {
            if i < a.len() {
                assert(cs[i] == a[i]);
            } else {
                assert(cs[i] == b[i - a.len()]);
            }
        }
        if forall|i: int| 0 <= i < levels.len() ==> !(#[trigger] levels[i]).syms@.contains(target) {
            assert forall|i: int| 0 <= i < p.len() implies !(#[trigger] p[i]).syms@.contains(target) by {
                assert(p[i] == levels[i]);
            }
            assert(!levels[levels.len() - 1].syms@.contains(target));
        }
        assert forall|i: int, q: int|
            0 <= i < levels.len() && levels[i].syms@.contains(target) && 0 <= q < levels[i].masks@.len()
                && #[trigger] levels[i].masks@[q] == 0 implies cs.contains(
                ((levels[i].keycode - XKB_OFFSET) as u16, Seq::<u16>::empty(), levels[i].layout * 16 + levels[i].level * 8),
            ) by {
            let z: Choice = ((levels[i].keycode - XKB_OFFSET) as u16, Seq::<u16>::empty(), levels[i].layout * 16 + levels[i].level * 8);
            if i < p.len() {
                assert(p[i] == levels[i]);
                let w = choose|w: int| 0 <= w < a.len() && a[w] == z;
                assert(cs[w] == a[w]);
            } else {
                assert(levels[i] == l);
                let w = choose|w: int| 0 <= w < b.len() && b[w] == z;
                assert(cs[a.len() + w] == b[w]);
            }
        }
    }
}

/// What typing a character takes: a newline is Enter and a tab is Tab, with
/// no modifier; a character whose keysym no level of the keymap produces
/// cannot be typed; and when some level on the first layout's base level
/// produces it with no modifier, it is typed with no modifier (the cheapest
/// way always wins).
pub proof fn lemma_planned_means(m: ModBits, levels: Seq<KeyLevel>, ch: char, target: u32)
    ensures
        ch == '\n' ==> planned(m, levels, ch, target) == Some(seq![(28u16, Seq::<u16>::empty())]),
        ch == '\t' ==> planned(m, levels, ch, target) == Some(seq![(15u16, Seq::<u16>::empty())]),
        (ch != '\n' && ch != '\t' && forall|i: int| 0 <= i < levels.len() ==> !(#[trigger] levels[i]).syms@.contains(target))
            ==> planned(m, levels, ch, target) is None,
        (ch != '\n' && ch != '\t' && target != 0 && exists|i: int, q: int|
            0 <= i < levels.len() && levels[i].syms@.contains(target) && levels[i].layout == 0
                && levels[i].level == 0 && 0 <= q < levels[i].masks@.len() && #[trigger] levels[i].masks@[q] == 0)
            ==> (planned(m, levels, ch, target) matches Some(v) && v.len() == 1 && v[0].1.len() == 0),
{
    lemma_all_choices_props(m, levels, target);
    let cs = all_choices(m, levels, target);
    if ch != '\n' && ch != '\t' && target != 0 && exists|i: int, q: int|
        0 <= i < levels.len() && levels[i].syms@.contains(target) && levels[i].layout == 0
            && levels[i].level == 0 && 0 <= q < levels[i].masks@.len() && #[trigger] levels[i].masks@[q] == 0 {
        let (i, q) = choose|i: int, q: int|
            0 <= i < levels.len() && levels[i].syms@.contains(target) && levels[i].layout == 0
                && levels[i].level == 0 && 0 <= q < levels[i].masks@.len() && #[trigger] levels[i].masks@[q] == 0;
        let z: Choice = ((levels[i].keycode - XKB_OFFSET) as u16, Seq::<u16>::empty(), levels[i].layout * 16 + levels[i].level * 8);
        assert(cs.contains(z));
        let w = choose|w: int| 0 <= w < cs.len() && cs[w] == z;
        lemma_best_exists(cs);
        let c = choose|c: Choice| best_choice(cs, c);
        let k = choose|k: int|
            0 <= k < cs.len() && cs[k] == c && (forall|j: int| 0 <= j < cs.len() ==> #[trigger] cs[j].2 >= c.2)
                && (forall|j: int| 0 <= j < k ==> #[trigger] cs[j].2 > c.2);
        assert(cs[w].2 >= c.2);
        assert(cs[k].2 >= cs[k].1.len());
    }
}

/// Decoded text is fed to the matcher exactly when it holds a character
/// outside the C0 and C1 control ranges (`U+0000`–`U+001F`, `U+007F`–`U+009F`):
/// empty text, or text of control characters only (Backspace, Escape, Tab,
/// Enter as the keymap decodes them), is not.
pub proof fn lemma_printable_means(s: Seq<char>)
    ensures
        printable_text(s) <==> exists|i: int|
            0 <= i < s.len() && !(#[trigger] s[i] <= '\u{1f}' || ('\u{7f}' <= s[i] && s[i] <= '\u{9f}')),
        !printable_text(Seq::<char>::empty()),
{
}

} // verus!
