use pepperx_uinput_helper::text::{
    chars_of, find, has_prefix, lines, same_text, split_once, strip_prefix, take_before, trim,
    typeable, whitespace, Trim,
};

const SAMPLES: [&str; 14] = [
    "",
    "a",
    "\n",
    "\r\n",
    "\r",
    "a\nb",
    "a\r\nb\r",
    "\n\na\n\n",
    "  ê x \u{3000}",
    "\"quoted\"",
    "\"\"",
    "\" mixed\" ",
    "aaab",
    "x,y,,z",
];

#[test]
fn white_space_is_what_unicode_says() {
    for c in '\u{0}'..=char::MAX {
        assert_eq!(whitespace(c), c.is_whitespace(), "U+{:04X}", c as u32);
    }
}

#[test]
fn controls_but_newline_and_tab_cannot_be_typed() {
    for n in 0..=0x12_0000u32 {
        let expected = match char::from_u32(n) {
            Some(c) => !c.is_control() || c == '\n' || c == '\t',
            None => false,
        };
        assert_eq!(typeable(n), expected, "U+{n:04X}");
    }
    assert!(!typeable(u32::MAX));
}

#[test]
fn lines_are_split_as_text_files_are() {
    for s in SAMPLES {
        assert_eq!(lines(s), s.lines().collect::<Vec<_>>(), "{s:?}");
    }
}

#[test]
fn trims_take_both_ends() {
    for s in SAMPLES {
        assert_eq!(trim(s, Trim::Whitespace), s.trim(), "{s:?}");
        assert_eq!(trim(s, Trim::Char('"')), s.trim_matches('"'), "{s:?}");
        assert_eq!(trim(s, Trim::Char('a')), s.trim_matches('a'), "{s:?}");
    }
}

#[test]
fn searches_find_the_first_occurrence() {
    assert_eq!(find("xêxab", "ab"), Some(3));
    assert_eq!(find("aab", "ab"), Some(1));
    assert_eq!(find("ab", ""), Some(0));
    assert_eq!(find("", ""), Some(0));
    assert_eq!(find("ab", "abc"), None);
    for s in SAMPLES {
        assert_eq!(split_once(s, ','), s.split_once(','), "{s:?}");
        assert_eq!(take_before(s, ','), s.split(',').next().unwrap(), "{s:?}");
        assert_eq!(strip_prefix(s, "a"), s.strip_prefix("a"), "{s:?}");
        assert_eq!(has_prefix(s, "\""), s.starts_with('"'), "{s:?}");
        assert_eq!(chars_of(s), s.chars().collect::<Vec<_>>(), "{s:?}");
        for t in SAMPLES {
            assert_eq!(same_text(s, t), s == t, "{s:?} {t:?}");
        }
    }
}
