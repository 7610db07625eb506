use revise::{parse_set, Card, CardSet, OptionSet, ParseError};

fn options(items: &[&str]) -> OptionSet {
    let mut set = OptionSet::new();
    for item in items {
        set.insert((*item).to_owned());
    }
    set
}

fn card(terms: &[&str], definitions: &[&str]) -> Card {
    Card { terms: options(terms), definitions: options(definitions) }
}

fn quoted(option: &str) -> String {
    let mut text = String::from("\"");
    for ch in option.chars() {
        if ch == '"' || ch == '\\' {
            text.push('\\');
        }
        text.push(ch);
    }
    text.push('"');
    text
}

fn list(options: &OptionSet) -> String {
    let mut text = String::new();
    for index in 0..options.len() {
        if index > 0 {
            text.push(',');
        }
        text.push_str(&quoted(options.get(index)));
    }
    text
}

fn render(set: &CardSet) -> String {
    let mut text = set.title.clone();
    for card in &set.cards {
        text.push('\n');
        text.push_str(&list(&card.terms));
        text.push_str(" - ");
        text.push_str(&list(&card.definitions));
    }
    text
}

#[test]
fn a_duplicate_card_is_kept_once_and_flagged_once() {
    assert_eq!(
        parse_set("t\n\na,b - c\n\na,b - c").unwrap_err(),
        [ParseError::DuplicateCard { original: 3..10, duplicate: 12..19 }]
    );
    assert_eq!(
        parse_set("t\n\na,b - c\n\nb , a - c").unwrap_err(),
        [ParseError::DuplicateCard { original: 3..10, duplicate: 12..21 }]
    );
}

#[test]
fn an_empty_document_has_no_title_and_no_cards() {
    assert_eq!(
        parse_set("").unwrap_err(),
        [ParseError::NoTitle { line: 0..0 }, ParseError::EmptySet]
    );
}

#[test]
fn a_title_alone_is_an_empty_set() {
    assert_eq!(parse_set("x\n\r\n\n\n  \n\r\n").unwrap_err(), [ParseError::EmptySet]);
}

#[test]
fn a_dash_without_spaces_belongs_to_the_option() {
    let set = parse_set("t\nfoo-bar   -   baz-quux").unwrap();
    assert_eq!(set.cards, [card(&["foo-bar"], &["baz-quux"])]);
}

#[test]
fn a_third_section_is_flagged_from_its_dash_to_the_end_of_the_line() {
    assert_eq!(
        parse_set("t\na - b - c - d").unwrap_err(),
        [ParseError::ThirdPart { before: 2..8, span: 8..15 }]
    );
    assert_eq!(
        parse_set("t\na - b - c - d # not this\nx - y").unwrap_err(),
        [ParseError::ThirdPart { before: 2..8, span: 8..16 }]
    );
}

#[test]
fn unknown_escapes_are_dropped_and_flagged() {
    assert_eq!(
        parse_set("t\n\"\\'\\/\\\\\" - d").unwrap_err(),
        [
            ParseError::UnknownEscape { escape: '\'', span: 4..5 },
            ParseError::UnknownEscape { escape: '/', span: 6..7 }
        ]
    );
    let set = parse_set("t\n\"\\\\\" - \"\\\"\"").unwrap();
    assert_eq!(set.cards, [card(&["\\"], &["\""])]);
}

#[test]
fn every_diagnostic_of_a_document_is_reported() {
    assert_eq!(
        parse_set("t\n\tx,, - \"y\"z -\r").unwrap_err(),
        [
            ParseError::ExpectedSpace { character: '\t', span: 2..3 },
            ParseError::EmptyOption { span: 4..6 },
            ParseError::EmptyOption { span: 5..7 },
            ParseError::TrailingOptionChars { span: 12..13 },
            ParseError::ThirdPart { before: 2..14, span: 14..15 },
            ParseError::MissingLineFeed { cr_span: 15..16 },
        ]
    );
    assert_eq!(
        parse_set("#c\n\r\tx\r").unwrap_err(),
        [
            ParseError::MissingLineFeed { cr_span: 3..4 },
            ParseError::UnexpectedControlChar { character: '\t', span: 4..5 },
            ParseError::MissingLineFeed { cr_span: 6..7 },
            ParseError::EmptySet,
        ]
    );
}

#[test]
fn spans_count_bytes_of_utf8() {
    assert_eq!(
        parse_set("é\nü - ö - ä").unwrap_err(),
        [ParseError::ThirdPart { before: 3..11, span: 11..15 }]
    );
    assert_eq!(
        parse_set("\u{1F600}\n\u{2028}a - b").unwrap_err(),
        [ParseError::ExpectedSpace { character: '\u{2028}', span: 5..8 }]
    );
}

#[test]
fn line_endings_do_not_change_a_regular_set() {
    let unix = "Capitals # of Europe\n\nFrance - Paris\n# a comment\nItaly, Italia - Rome\n";
    let dos = unix.replace('\n', "\r\n");
    assert_eq!(parse_set(&dos).unwrap(), parse_set(unix).unwrap());
    assert_eq!(parse_set(&dos).unwrap().cards.len(), 2);
}

#[test]
fn a_set_is_read_back_from_its_rendering() {
    let text = "The title\n\"  , - , \\\"\" , a - b-c, \\d\nx y  z - \"#\"\n";
    let set = parse_set(text).unwrap();
    assert_eq!(set.title, "The title");
    assert_eq!(
        set.cards,
        [card(&["  , - , \"", "a"], &["b-c", "\\d"]), card(&["x y  z"], &["#"])]
    );
    let again = render(&set);
    assert_eq!(
        again,
        "The title\n\"  , - , \\\"\",\"a\" - \"b-c\",\"\\\\d\"\n\"x y  z\" - \"#\""
    );
    assert_eq!(parse_set(&again).unwrap(), set);
}

fn plain_list(options: &OptionSet) -> String {
    let mut text = String::new();
    for index in 0..options.len() {
        if index > 0 {
            text.push(',');
        }
        text.push_str(options.get(index));
    }
    text
}

fn render_plainly(set: &CardSet) -> String {
    let mut text = set.title.clone();
    for card in &set.cards {
        text.push('\n');
        text.push_str(&plain_list(&card.terms));
        text.push_str(" - ");
        text.push_str(&plain_list(&card.definitions));
    }
    text
}

#[test]
fn a_set_of_plain_options_is_read_back_from_its_plain_rendering() {
    let text = "Rivers  # of the world\n\n the Nile , Nil - \"Egypt\",Sudan\r\nRio-Grande, a\"b - x  y--z\n";
    let set = parse_set(text).unwrap();
    let again = render_plainly(&set);
    assert_eq!(again, "Rivers\nthe Nile,Nil - Egypt,Sudan\nRio-Grande,a\"b - x  y--z");
    assert_eq!(parse_set(&again).unwrap(), set);
    assert_eq!(parse_set(&render(&set)).unwrap(), set);
}

#[test]
fn an_option_that_needs_its_quotes_is_not_read_back_from_a_plain_rendering() {
    let set = parse_set("t\n\" , - , \" - \"a-\"").unwrap();
    assert_eq!(set.cards, [card(&[" , - , "], &["a-"])]);
    assert!(parse_set(&render_plainly(&set)).is_err());
    assert_eq!(parse_set(&render(&set)).unwrap(), set);
}

#[test]
fn cards_are_equal_as_sets() {
    assert_eq!(card(&["a", "b"], &["c"]), card(&["b", "a", "b"], &["c"]));
    assert_ne!(card(&["a", "b"], &["c"]), card(&["a"], &["c"]));
    assert_ne!(card(&["a"], &["c"]), card(&["c"], &["a"]));
    let first = CardSet { title: "t".to_owned(), cards: vec![card(&["a"], &["b"]), card(&["c"], &["d"])] };
    let second = CardSet { title: "t".to_owned(), cards: vec![card(&["c"], &["d"]), card(&["a"], &["b"])] };
    assert_eq!(first, second);
    let third = CardSet { title: "u".to_owned(), cards: vec![card(&["c"], &["d"]), card(&["a"], &["b"])] };
    assert_ne!(first, third);
}

#[test]
fn option_sets_keep_the_order_of_first_addition() {
    let mut set = OptionSet::new();
    assert!(set.is_empty());
    assert!(set.insert("b".to_owned()));
    assert!(set.insert("a".to_owned()));
    assert!(!set.insert("b".to_owned()));
    assert_eq!(set.len(), 2);
    assert_eq!(set.get(0), "b");
    assert_eq!(set.get(1), "a");
    assert_eq!(set.position(&"a".to_owned()), Some(1));
    assert_eq!(set.position(&"c".to_owned()), None);
    assert!(set.contains(&"a".to_owned()));
    assert!(set.includes(&options(&["a"])));
    assert!(!options(&["a"]).includes(&set));
}
