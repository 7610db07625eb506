use revise::report::{bytes_to_chars, context_to, excerpt, whole_span, Excerpt};

#[test]
fn test_context_to() {
    assert_eq!(context_to(0..0, ""), (0..0, 1));
    assert_eq!(context_to(2..2, "a\nbcd\nefgh"), (2..6, 2));
    assert_eq!(context_to(0..10, "abc\ndef\r\ngh"), (0..11, 1));
    assert_eq!(context_to(3..5, "a\nbc\nc\nd\n"), (2..5, 2));
    assert_eq!(context_to(3..6, "a\nbc\r\nd\n"), (2..6, 2));
    assert_eq!(context_to(2..8, "a\nbc\nde\nfg\n"), (2..8, 2));
    assert_eq!(context_to(2..9, "a\nbc\nde\nfg\n"), (2..11, 2));
}

#[test]
fn context_of_a_span_behind_the_text() {
    assert_eq!(context_to(40..50, "a\nbc"), (2..4, 2));
    assert_eq!(context_to(4..4, "a\nbc"), (2..4, 2));
    assert_eq!(context_to(3..3, "a\nb\n"), (2..4, 2));
}

#[test]
fn bytes_to_chars_counts_characters() {
    assert_eq!(bytes_to_chars("", 0), 0);
    assert_eq!(bytes_to_chars("abc", 0), 0);
    assert_eq!(bytes_to_chars("abc", 2), 2);
    assert_eq!(bytes_to_chars("abc", 3), 3);
    assert_eq!(bytes_to_chars("é\u{2028}x", 2), 1);
    assert_eq!(bytes_to_chars("é\u{2028}x", 5), 2);
    assert_eq!(bytes_to_chars("é\u{2028}x", 6), 3);
}

#[test]
fn the_whole_text_ends_before_its_last_line_break() {
    assert_eq!(whole_span(""), 0..0);
    assert_eq!(whole_span("abc"), 0..3);
    assert_eq!(whole_span("abc\n"), 0..3);
    assert_eq!(whole_span("abc\r\n"), 0..3);
    assert_eq!(whole_span("abc\r"), 0..4);
    assert_eq!(whole_span("abc\n\n"), 0..4);
    assert_eq!(whole_span("\n"), 0..0);
    assert_eq!(whole_span("\r\n"), 0..0);
}

#[test]
fn an_excerpt_holds_the_lines_of_all_spans() {
    let text = "t\n\n\u{e9}t\u{e9} - a\nb - c\nlast";
    assert_eq!(
        excerpt(text, &vec![12..17, 3..8]),
        Some(Excerpt { context: 3..19, line: 3, marks: vec![(7, 12), (0, 3)] })
    );
    assert_eq!(
        excerpt(text, &vec![19..23]),
        Some(Excerpt { context: 19..23, line: 5, marks: vec![(0, 4)] })
    );
    assert_eq!(
        excerpt(text, &vec![0..0]),
        Some(Excerpt { context: 0..2, line: 1, marks: vec![(0, 0)] })
    );
    assert_eq!(excerpt("", &vec![0..0]), Some(Excerpt { context: 0..0, line: 1, marks: vec![(0, 0)] }));
}

#[test]
fn there_is_no_excerpt_for_spans_outside_the_text() {
    assert_eq!(excerpt("abc", &vec![]), None);
    assert_eq!(excerpt("abc", &vec![0..4]), None);
    assert_eq!(excerpt("abc", &vec![0..1, 2..1]), None);
    assert_eq!(excerpt("abc", &vec![3..3]), Some(Excerpt { context: 0..3, line: 1, marks: vec![(3, 3)] }));
}
