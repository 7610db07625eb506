use revise::chars::{chars_of, is_control, is_field_space, is_line_break, is_whitespace, len_utf8, string_of, trim_bounds};

#[test]
fn character_classes_are_those_of_unicode() {
    for code in 0..=0x10FFFFu32 {
        if let Some(c) = char::from_u32(code) {
            assert_eq!(is_whitespace(c), c.is_whitespace(), "{:?}", c);
            assert_eq!(is_control(c), c.is_control(), "{:?}", c);
            assert_eq!(len_utf8(c), c.len_utf8(), "{:?}", c);
            assert_eq!(is_line_break(c), c == '\r' || c == '\n');
            assert_eq!(is_field_space(c), c.is_whitespace() && c != '\r' && c != '\n');
        }
    }
}

#[test]
fn texts_are_taken_apart_and_put_together() {
    let text = "a\u{e9}\u{2028}\u{1F600}z";
    let chars = chars_of(text);
    assert_eq!(chars, ['a', '\u{e9}', '\u{2028}', '\u{1F600}', 'z']);
    assert_eq!(string_of(&chars, 0, chars.len()), text);
    assert_eq!(string_of(&chars, 1, 3), "\u{e9}\u{2028}");
    assert_eq!(string_of(&chars, 2, 2), "");
}

#[test]
fn trimming_takes_white_space_from_both_ends() {
    let bounds = |text: &str| trim_bounds(&chars_of(text));
    assert_eq!(bounds(""), (0, 0));
    assert_eq!(bounds("abc"), (0, 3));
    assert_eq!(bounds("  a b\t\n"), (2, 5));
    assert_eq!(bounds(" \u{2003}\r\n").0, bounds(" \u{2003}\r\n").1);
    for text in ["", " ", "x", "  x  y  ", "\u{a0}z\u{3000}", "\n\t"] {
        let chars = chars_of(text);
        let (from, to) = trim_bounds(&chars);
        assert_eq!(string_of(&chars, from, to), text.trim());
    }
}
