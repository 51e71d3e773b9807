//! Which input devices are keyboards worth listening to.

use vstd::prelude::*;

use crate::text::{opt_view, chars_of, contains_exec, contains_seq, lemma_lower_letters, lower, lower_chars};

verus! {

/// The mark in the name of this program's own virtual keyboard.
pub const VKB_NAME_MARK: &'static str = "sproutx";

/// The device's name says it is this program's own virtual keyboard.
pub open spec fn our_device(name: Seq<char>) -> bool {
    contains_seq(lower(name), VKB_NAME_MARK@)
}

/// Whether a device name (in any case) holds `sproutx`.
pub fn looks_like_our_device(name: &str) -> (r: bool)
    ensures
        r == our_device(name@),
{
    contains_exec(&lower_chars(&chars_of(name)), &chars_of(VKB_NAME_MARK))
}

/// A device name that says "keyboard", in any case.
pub open spec fn keyboard_name(name: Seq<char>) -> bool {
    contains_seq(lower(name), "keyboard"@) || contains_seq(lower(name), "kbd"@)
}

/// Whether a device name (in any case) holds `keyboard` or `kbd`.
pub fn name_looks_like_keyboard(name: &str) -> (r: bool)
    ensures
        r == keyboard_name(name@),
{
    let n = lower_chars(&chars_of(name));
    contains_exec(&n, &chars_of("keyboard")) || contains_exec(&n, &chars_of("kbd"))
}

pub const KEY_A: u16 = 30;
pub const KEY_Z: u16 = 44;
pub const KEY_ENTER: u16 = 28;
pub const KEY_LEFTSHIFT: u16 = 42;
pub const KEY_SPACE: u16 = 57;

/// The keys whose presence makes a device a keyboard: A, Z, Enter, left
/// Shift and Space.
pub open spec fn has_typing_keys(keys: Seq<u16>) -> bool {
    keys.contains(KEY_A) && keys.contains(KEY_Z) && keys.contains(KEY_ENTER) && keys.contains(
        KEY_LEFTSHIFT,
    ) && keys.contains(KEY_SPACE)
}

fn has_key(keys: &Vec<u16>, k: u16) -> (r: bool)
    ensures
        r == keys@.contains(k),
{
    let mut i: usize = 0;
    while i < keys.len()
        invariant
            i <= keys@.len(),
            forall|j: int| 0 <= j < i ==> keys@[j] != k,
        decreases keys@.len() - i,
    {
        if keys[i] == k {
            assert(keys@[i as int] == k);
            return true;
        }
        i = i + 1;
    }
    false
}

/// A device that is not this program's own and reports the typing keys.
pub open spec fn listened(name: Option<Seq<char>>, keys: Option<Seq<u16>>) -> bool {
    let ours = match name {
        Some(n) => our_device(n),
        None => false,
    };
    !ours && match keys {
        Some(ks) => has_typing_keys(ks),
        None => false,
    }
}

/// A device is a keyboard to listen to when it is not this program's own
/// virtual keyboard and it reports the typing keys. `name` is the device's
/// name, `keys` its supported key codes (`None` when it reports none).
pub fn is_keyboard(name: Option<String>, keys: Option<Vec<u16>>) -> (r: bool)
    ensures
        r == listened(
            opt_view(name),
            match keys {
                Some(ks) => Some(ks@),
                None => None,
            },
        ),
{
    if let Some(n) = &name {
        if looks_like_our_device(n.as_str()) {
            return false;
        }
    }
    match &keys {
        Some(ks) => has_key(ks, KEY_A) && has_key(ks, KEY_Z) && has_key(ks, KEY_ENTER) && has_key(
            ks,
            KEY_LEFTSHIFT,
        ) && has_key(ks, KEY_SPACE),
        None => false,
    }
}

/// How `sproutx inspect` labels a device: a keyboard, another device with a
/// name, or an unknown one.
pub fn device_kind(is_kbd: bool, has_name: bool) -> (r: &'static str)
    ensures
        r@ == if is_kbd {
            "keyboard"@
        } else if has_name {
            "other"@
        } else {
            "unknown"@
        },
{
    if is_kbd {
        "keyboard"
    } else if has_name {
        "other"
    } else {
        "unknown"
    }
}

/// The device's name matters only to recognise this program's own virtual
/// keyboard: any other name is listened to exactly as a nameless device is.
pub proof fn lemma_name_marks_only_our_device(name: Seq<char>, keys: Option<Seq<u16>>)
    requires
        !our_device(name),
    ensures
        listened(Some(name), keys) == listened(None, keys),
{
}

/// A device other than this program's own is listened to exactly when it
/// reports the keys A, Z, Enter, left Shift and Space; this program's own
/// device never is.
pub proof fn lemma_listened_keys(name: Option<Seq<char>>, keys: Seq<u16>)
    ensures
        (name matches Some(n) ==> !our_device(n)) ==> (listened(name, Some(keys)) <==> (keys.contains(
            30u16,
        ) && keys.contains(44u16) && keys.contains(28u16) && keys.contains(42u16) && keys.contains(
            57u16,
        ))),
        (name matches Some(n) && our_device(n)) ==> !listened(name, Some(keys)),
        !listened(name, None),
{
}

proof fn lemma_lower_concat(a: Seq<char>, b: Seq<char>)
    ensures
        lower(a + b) == lower(a) + lower(b),
{
    assert(lower(a + b) =~= lower(a) + lower(b));
}

proof fn lemma_lower_twice(n: Seq<char>)
    ensures
        lower(lower(n)) == lower(n),
{
    lemma_lower_letters(n);
    lemma_lower_letters(lower(n));
    assert(lower(lower(n)) =~= lower(n));
}

/// This program's own device is recognised by `sproutx` anywhere in its
/// name, in any case; a keyboard's name by `keyboard` or `kbd` anywhere in
/// it, in any case.
pub proof fn lemma_device_names(a: Seq<char>, b: Seq<char>, n: Seq<char>)
    ensures
        our_device(a + "sproutx"@ + b),
        keyboard_name(a + "keyboard"@ + b),
        keyboard_name(a + "kbd"@ + b),
        our_device(n) == our_device(lower(n)),
        keyboard_name(n) == keyboard_name(lower(n)),
{
    reveal_strlit("sproutx");
    reveal_strlit("keyboard");
    reveal_strlit("kbd");
    lemma_lower_twice(n);
    lemma_plain_in(a, "sproutx"@, b);
    lemma_plain_in(a, "keyboard"@, b);
    lemma_plain_in(a, "kbd"@, b);
}

proof fn lemma_plain_in(a: Seq<char>, w: Seq<char>, b: Seq<char>)
    requires
        forall|i: int| 0 <= i < w.len() ==> 'a' <= #[trigger] w[i] <= 'z',
    ensures
        contains_seq(lower(a + w + b), w),
{
    lemma_lower_concat(a + w, b);
    lemma_lower_concat(a, w);
    lemma_lower_letters(w);
    assert(lower(w) =~= w);
    let s = lower(a + w + b);
    let i = a.len() as int;
    assert(s.subrange(i, i + w.len()) =~= w);
}

} // verus!
