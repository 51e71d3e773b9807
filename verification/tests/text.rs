use sproutx::text::{chars_of, is_whitespace, lines_of, split_chars, string_of, trim_chars};

#[test]
fn whitespace_agrees_with_std() {
    for c in (0u32..=0x10ffff).filter_map(char::from_u32) {
        assert_eq!(is_whitespace(c), c.is_whitespace(), "{:?}", c);
    }
}

#[test]
fn trim_agrees_with_std() {
    for s in ["", "  ", " a b ", "\u{3000}x\u{85}", "\t\nx\r\n", "y"] {
        let t: String = trim_chars(&s.chars().collect::<Vec<_>>()).into_iter().collect();
        assert_eq!(t, s.trim());
    }
}

#[test]
fn lines_agree_with_std() {
    for s in ["", "a", "a\n", "a\n\nb", "a\r\nb\r\n", "\n", "x\r", "a\rb\n"] {
        let ls: Vec<String> =
            lines_of(&s.chars().collect::<Vec<_>>()).into_iter().map(|l| l.into_iter().collect()).collect();
        let expected: Vec<String> = s.lines().map(|l| l.to_string()).collect();
        assert_eq!(ls, expected, "{:?}", s);
    }
}

#[test]
fn split_agrees_with_std() {
    for s in ["", ",", "a,b", "a,,b,", "abc"] {
        let ps: Vec<String> = split_chars(&s.chars().collect::<Vec<_>>(), ',')
            .into_iter()
            .map(|l| l.into_iter().collect())
            .collect();
        let expected: Vec<String> = s.split(',').map(|l| l.to_string()).collect();
        assert_eq!(ps, expected);
    }
}

#[test]
fn chars_round_trip() {
    let s = "héllo ✓";
    assert_eq!(string_of(&chars_of(s)), s);
}

#[test]
fn control_characters_agree_with_std() {
    for c in (0u32..=0x10ffff).step_by(7).chain(0..0x200).filter_map(char::from_u32) {
        let decoded = sproutx::keys::printable(c.to_string());
        assert_eq!(decoded.is_none(), c.is_control(), "{:?}", c);
    }
}

#[test]
fn ascii_lowercase_agrees_with_std() {
    for s in ["ABC xyz", "SproutX-VKBD", "ÀÉ Ω", ""] {
        let l: String = sproutx::text::lower_chars(&s.chars().collect::<Vec<_>>()).into_iter().collect();
        assert_eq!(l, s.to_ascii_lowercase());
    }
}
