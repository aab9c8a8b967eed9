use fish_session::text::{
    char_width, contains_text, decimal, joined, split_words, text_precedes, to_lower, trim,
    trim_end, trim_start,
};

#[test]
fn white_space_of_every_kind_is_trimmed() {
    assert_eq!(trim(" \t\r\n dev \u{a0}\u{3000}"), "dev");
    assert_eq!(trim("\u{85}\u{1680}\u{2000}\u{200a}\u{2028}\u{2029}\u{202f}\u{205f}x"), "x");
    assert_eq!(trim("\u{200b}x\u{180e}"), "\u{200b}x\u{180e}");
    assert_eq!(trim_start("  a b  "), "a b  ");
    assert_eq!(trim_end("  a b  "), "  a b");
    assert_eq!(trim(" \u{b}\u{c} "), "");
}

#[test]
fn white_space_is_what_std_says() {
    for code in 0..=0x10ffff {
        if let Some(c) = char::from_u32(code) {
            let text = c.to_string();
            assert_eq!(trim(&text), text.trim());
        }
    }
}

#[test]
fn trimming_twice_is_trimming_once() {
    for text in ["", "  ", "a", " a", "a \u{2003}", " a b "] {
        assert_eq!(trim(trim(text)), trim(text));
    }
}

#[test]
fn only_ascii_letters_are_lowered() {
    assert_eq!(to_lower("AbZ-09_"), "abz-09_");
    assert_eq!(to_lower("\u{c4}A"), "\u{c4}a");
}

#[test]
fn numbers_are_written_in_decimal() {
    assert_eq!(decimal(0), "0");
    assert_eq!(decimal(1907), "1907");
    assert_eq!(decimal(u128::MAX), u128::MAX.to_string());
}

#[test]
fn texts_are_ordered_by_their_characters() {
    assert!(text_precedes("", "a"));
    assert!(text_precedes("ab", "abc"));
    assert!(text_precedes("Z", "a"));
    assert!(text_precedes("z", "\u{e4}"));
    assert!(!text_precedes("b", "ab"));
    assert!(!text_precedes("ab", "ab"));
}

#[test]
fn a_part_is_found_anywhere() {
    assert!(contains_text("session", "ss"));
    assert!(contains_text("session", ""));
    assert!(contains_text("", ""));
    assert!(contains_text("session", "session"));
    assert!(!contains_text("session", "sessions"));
    assert!(!contains_text("aab", "ba"));
}

#[test]
fn words_stand_between_white_space() {
    assert_eq!(split_words(" one\ttwo\u{3000}three "), ["one", "two", "three"]);
    assert!(split_words(" \n ").is_empty());
}

#[test]
fn texts_are_joined() {
    assert_eq!(joined("a", "\u{4e2d}"), "a\u{4e2d}");
    assert_eq!(joined("", ""), "");
}

#[test]
fn characters_have_their_width_in_bytes() {
    for c in ['a', '\u{7f}', '\u{80}', '\u{7ff}', '\u{800}', '\u{ffff}', '\u{10000}'] {
        assert_eq!(char_width(c), c.len_utf8());
    }
}
