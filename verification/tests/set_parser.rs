use revise::set::card::{parse_card, parse_title};
use revise::set::context::ParseContext;
use revise::set::document::parse_set_inner;
use revise::set::lexer::{
    parse_character, parse_comment, parse_newline, parse_option_ws, parse_ws,
};
use revise::set::option::{parse_option, parse_option_atom, parse_options, parse_quoted};
use revise::{parse_set, Card, CardSet, NoMatch, OptionSet, ParseError};
use std::ops::Range;

fn run_parser<R>(
    parser: impl FnOnce(&mut ParseContext) -> Result<R, NoMatch>,
    input: &str,
) -> Option<(R, String, Vec<ParseError>)> {
    let mut cx = ParseContext::new(input);
    match parser(&mut cx) {
        Ok(res) => {
            let rest = cx.remaining();
            Some((res, rest, cx.into_errors()))
        }
        Err(NoMatch) => {
            assert_eq!(cx.remaining(), input);
            assert!(cx.errors().is_empty());
            None
        }
    }
}

fn s(text: &str) -> String {
    text.to_owned()
}

fn options(items: &[&str]) -> OptionSet {
    let mut set = OptionSet::new();
    for item in items {
        set.insert((*item).to_owned());
    }
    set
}

fn card(terms: &[&str], definitions: &[&str]) -> Card {
    Card { terms: options(terms), definitions: options(definitions) }
}

fn no_title(line: Range<usize>) -> ParseError {
    ParseError::NoTitle { line }
}

fn empty_set() -> ParseError {
    ParseError::EmptySet
}

fn duplicate_card(original: Range<usize>, duplicate: Range<usize>) -> ParseError {
    ParseError::DuplicateCard { original, duplicate }
}

fn third_part(before: Range<usize>, span: Range<usize>) -> ParseError {
    ParseError::ThirdPart { before, span }
}

fn missing_dash_ws(dash: Range<usize>) -> ParseError {
    ParseError::MissingWhitespaceAroundDash { dash }
}

fn no_terms(card: Range<usize>) -> ParseError {
    ParseError::NoTerms { card }
}

fn no_definitions(card: Range<usize>) -> ParseError {
    ParseError::NoDefinitions { card }
}

fn duplicate_option(original: Range<usize>, duplicate: Range<usize>) -> ParseError {
    ParseError::DuplicateOption { original, duplicate }
}

fn empty_option(span: Range<usize>) -> ParseError {
    ParseError::EmptyOption { span }
}

fn trailing_option_chars(span: Range<usize>) -> ParseError {
    ParseError::TrailingOptionChars { span }
}

fn unknown_escape(escape: char, span: Range<usize>) -> ParseError {
    ParseError::UnknownEscape { escape, span }
}

fn unclosed_quote(span: Range<usize>) -> ParseError {
    ParseError::UnclosedQuote { span }
}

fn unexpected_control_char(character: char, span: Range<usize>) -> ParseError {
    ParseError::UnexpectedControlChar { character, span }
}

fn expected_space(character: char, span: Range<usize>) -> ParseError {
    ParseError::ExpectedSpace { character, span }
}

fn missing_line_feed(cr_span: Range<usize>) -> ParseError {
    ParseError::MissingLineFeed { cr_span }
}

#[test]
fn test_parse_set() {
    let parse = |input| {
        let (set, remaining, errors) = run_parser(|cx| Ok(parse_set_inner(cx)), input).unwrap();
        assert_eq!(remaining, "");
        (set, errors)
    };

    assert_eq!(
        parse("title\na,b - c\n\na,b - c"),
        (
            CardSet { title: "title".to_owned(), cards: vec![card(&["a", "b"], &["c"])] },
            vec![duplicate_card(6..13, 15..22)]
        )
    );
    assert_eq!(
        parse(" -- \r\n\r\n \" , - , \" - \" , - , \" "),
        (
            CardSet { title: "--".to_owned(), cards: vec![card(&[" , - , "], &[" , - , "])] },
            vec![],
        )
    );
    assert_eq!(
        parse("x\n\r\n\n\n  \n\r\n"),
        (CardSet { title: "x".to_owned(), cards: vec![] }, vec![empty_set()],)
    );
}

#[test]
fn test_parse_title() {
    let parse = |input| run_parser(|cx| Ok(parse_title(cx)), input).unwrap();

    assert_eq!(parse(""), (s(""), s(""), vec![no_title(0..0)]));
    assert_eq!(parse(" "), (s(""), s(""), vec![no_title(0..1)]));
    assert_eq!(parse("  #foo"), (s(""), s(""), vec![no_title(0..2)]));
    assert_eq!(parse("  #foo\n"), (s(""), s("\n"), vec![no_title(0..2)]));
    assert_eq!(parse("x\r\n"), (s("x"), s("\r\n"), vec![]));
    assert_eq!(parse("   title  "), (s("title"), s(""), vec![]));
}

#[test]
fn test_parse_card() {
    let parse = |input| run_parser(parse_card, input);

    assert_eq!(parse(""), None);
    assert_eq!(parse("  "), None);
    assert_eq!(parse("\t\t\t\r\n"), None);
    assert_eq!(parse("t - d"), Some((card(&["t"], &["d"]), s(""), vec![])));
    assert_eq!(parse("t1, t2 - d\n"), Some((card(&["t1", "t2"], &["d"]), s("\n"), vec![])));
    assert_eq!(parse("t - d1 ,d2#c"), Some((card(&["t"], &["d1", "d2"]), s(""), vec![])));
    assert_eq!(
        parse("t1,t2 - d1 , d2#comment\r\nfoo"),
        Some((card(&["t1", "t2"], &["d1", "d2"]), s("\r\nfoo"), vec![]))
    );
    assert_eq!(parse(" - xyz"), Some((card(&[], &["xyz"]), s(""), vec![no_terms(0..6)])));
    assert_eq!(parse("xyz - "), Some((card(&["xyz"], &[]), s(""), vec![no_definitions(0..6)])));
    assert_eq!(
        parse("-"),
        Some((
            card(&[], &[]),
            s(""),
            vec![missing_dash_ws(0..1), no_terms(0..1), no_definitions(0..1)]
        ))
    );
    assert_eq!(
        parse("foo-bar   -   baz-quux"),
        Some((card(&["foo-bar"], &["baz-quux"]), s(""), vec![])),
    );
    assert_eq!(parse("a  -b"), Some((card(&["a"], &["b"]), s(""), vec![missing_dash_ws(3..4)])),);
    assert_eq!(parse("a-  b"), Some((card(&["a"], &["b"]), s(""), vec![missing_dash_ws(1..2)])),);
    assert_eq!(
        parse("a - b - c - d"),
        Some((card(&["a"], &["b"]), s(""), vec![third_part(0..6, 6..13)])),
    );
}

#[test]
fn test_parse_options() {
    let parse = |input| run_parser(parse_options, input);

    assert_eq!(parse(""), None);
    assert_eq!(parse(" x"), None);
    assert_eq!(parse("the option"), Some((options(&["the option"]), s(""), Vec::new())));
    assert_eq!(parse("a,b,c#"), Some((options(&["a", "b", "c"]), s("#"), Vec::new())));
    assert_eq!(
        parse("a  ,  b ,, c"),
        Some((options(&["a", "b", "c"]), s(""), vec![empty_option(8..10)]))
    );
    assert_eq!(
        parse(",   , "),
        Some((
            options(&[]),
            s(" "),
            vec![empty_option(0..1), empty_option(0..5), empty_option(4..6)]
        ))
    );
    assert_eq!(parse("a,a"), Some((options(&["a"]), s(""), vec![duplicate_option(0..1, 2..3)])));
    assert_eq!(parse("\"\""), Some((options(&[]), s(""), vec![empty_option(0..2)])));
}

#[test]
fn test_parse_option() {
    let parse = |input| run_parser(parse_option, input);

    assert_eq!(parse(""), None);
    assert_eq!(parse("   foo"), None);
    assert_eq!(parse("a\u{2028}"), Some((s("a"), s("\u{2028}"), Vec::new())));
    assert_eq!(parse("a \u{1680}b  "), Some((s("a \u{1680}b"), s("  "), Vec::new())));
    assert_eq!(parse("\"---\"--"), Some((s("---"), s("--"), Vec::new())));
    assert_eq!(parse("a---b---"), Some((s("a---b"), s("---"), Vec::new())));
    assert_eq!(
        parse("a\u{85}b"),
        Some((s("a\u{85}b"), s(""), vec![unexpected_control_char('\u{85}', 1..3)]))
    );
    assert_eq!(parse("a\"\""), Some((s("a\"\""), s(""), Vec::new())));
    assert_eq!(parse("\"a\"bc\n"), Some((s("abc"), s("\n"), vec![trailing_option_chars(3..5)])));
}

#[test]
fn test_parse_option_atom() {
    let parse = |input| run_parser(parse_option_atom, input);

    assert_eq!(parse(""), None);
    assert_eq!(parse(","), None);
    assert_eq!(parse("-"), None);
    assert_eq!(parse("#"), None);
    assert_eq!(parse(" "), None);
    assert_eq!(parse("^"), Some(('^', s(""), Vec::new())));
    assert_eq!(parse("qq"), Some(('q', s("q"), Vec::new())));
}

#[test]
fn test_parse_option_ws() {
    let parse = |input| run_parser(parse_option_ws, input);

    assert_eq!(parse(""), None);
    assert_eq!(parse("X"), None);
    assert_eq!(parse("\r"), None);
    assert_eq!(parse("\n"), None);
    assert_eq!(parse(" "), Some((' ', s(""), Vec::new())));
    assert_eq!(parse("\u{2003}abc"), Some(('\u{2003}', s("abc"), Vec::new())));
    assert_eq!(
        parse("\u{85}abc"),
        Some(('\u{85}', s("abc"), vec![unexpected_control_char('\u{85}', 0..2)]))
    );
}

#[test]
fn test_parse_quoted() {
    let parse = |input| run_parser(parse_quoted, input);

    assert_eq!(parse(""), None);
    assert_eq!(parse("'"), None);
    assert_eq!(parse(" \""), None);
    assert_eq!(parse(r#""""#), Some((s(""), s(""), Vec::new())));
    assert_eq!(parse(r#"""abc"#), Some((s(""), s("abc"), Vec::new())));
    assert_eq!(parse(r#""ab""cd"#), Some((s("ab"), s("\"cd"), Vec::new())));
    assert_eq!(parse(r#""'''""#), Some((s("'''"), s(""), Vec::new())));
    assert_eq!(parse(r#""a\\b""#), Some((s("a\\b"), s(""), Vec::new())));
    assert_eq!(parse(r#""\"""#), Some((s("\""), s(""), Vec::new())));
    assert_eq!(parse(r#""\\\"""#), Some((s("\\\""), s(""), Vec::new())));
    assert_eq!(parse(r#"""#), Some((s(""), s(""), vec![unclosed_quote(0..1)])));
    assert_eq!(parse(r#""abc"#), Some((s("abc"), s(""), vec![unclosed_quote(0..4)])));
    assert_eq!(parse(r#""a\"#), Some((s("a"), s(""), vec![unclosed_quote(0..3)])));
    assert_eq!(parse(r#""\""#), Some((s("\""), s(""), vec![unclosed_quote(0..3)])));
    assert_eq!(parse("\"x\n"), Some((s("x"), s("\n"), vec![unclosed_quote(0..2)])));
    assert_eq!(parse("\"\r\n"), Some((s(""), s("\r\n"), vec![unclosed_quote(0..1)])));
    assert_eq!(
        parse(r#""\'\/\\""#),
        Some((s("\\"), s(""), vec![unknown_escape('\'', 2..3), unknown_escape('/', 4..5)]))
    );
    assert_eq!(parse("\"\\\n\""), Some((s(""), s(""), vec![unknown_escape('\n', 2..3)])));
    assert_eq!(
        parse("\"\\\r\n\""),
        Some((s(""), s("\n\""), vec![unknown_escape('\r', 2..3), unclosed_quote(0..3)]))
    );
}

#[test]
fn test_parse_comment() {
    let parse = |input| {
        let ((), rest, errors) = run_parser(
            |cx| {
                parse_comment(cx);
                Ok(())
            },
            input,
        )
        .unwrap();
        (rest, errors)
    };

    assert_eq!(parse(""), (s(""), Vec::new()));
    assert_eq!(parse("abc"), (s("abc"), Vec::new()));
    assert_eq!(parse("#"), (s(""), Vec::new()));
    assert_eq!(parse("#abc"), (s(""), Vec::new()));
    assert_eq!(parse("#abc\r\ndef"), (s("\r\ndef"), Vec::new()));
    assert_eq!(parse("\n#abc"), (s("\n#abc"), Vec::new()));
    assert_eq!(parse("#a\u{0}b"), (s(""), vec![unexpected_control_char('\u{0}', 2..3)]));
}

#[test]
fn test_parse_character() {
    let parse = |input| run_parser(parse_character, input);

    assert_eq!(parse(""), None);
    assert_eq!(parse("\r"), None);
    assert_eq!(parse("\n\n"), None);

    assert_eq!(parse("a"), Some(('a', s(""), Vec::new())));
    assert_eq!(parse("abc"), Some(('a', s("bc"), Vec::new())));
    assert_eq!(parse("\t"), Some(('\t', s(""), vec![unexpected_control_char('\t', 0..1)])));
    assert_eq!(
        parse("\u{85}x"),
        Some(('\u{85}', s("x"), vec![unexpected_control_char('\u{85}', 0..2)]))
    );
}

#[test]
fn test_parse_ws() {
    let parse = |input| run_parser(parse_ws, input).map(|((), rest, errors)| (rest, errors));

    assert_eq!(parse(""), None);
    assert_eq!(parse("X"), None);
    assert_eq!(parse("\r"), None);
    assert_eq!(parse("\n"), None);
    assert_eq!(parse(" "), Some((s(""), Vec::new())));
    assert_eq!(parse(" x"), Some((s("x"), Vec::new())));
    assert_eq!(parse("\tx"), Some((s("x"), vec![expected_space('\t', 0..1)])));
    assert_eq!(parse("\u{85}"), Some((s(""), vec![expected_space('\u{85}', 0..2)])));
}

#[test]
fn test_parse_newline() {
    let parse = |input| run_parser(parse_newline, input).map(|((), rest, errors)| (rest, errors));

    assert_eq!(parse(""), None);
    assert_eq!(parse(" "), None);
    assert_eq!(parse("\n"), Some((s(""), Vec::new())));
    assert_eq!(parse("\n\n"), Some((s("\n"), Vec::new())));
    assert_eq!(parse("\r\n\r\n"), Some((s("\r\n"), Vec::new())));
    assert_eq!(parse("\r"), Some((s(""), vec![missing_line_feed(0..1)])));
    assert_eq!(parse("\r\r"), Some((s("\r"), vec![missing_line_feed(0..1)])));
}

#[test]
fn parse_set_gives_the_set_of_a_regular_document() {
    let set = parse_set("Capitals # of Europe\n\nFrance - Paris\nthe Netherlands, Holland - Amsterdam, \"The Hague\"\n").unwrap();
    assert_eq!(set.title, "Capitals");
    assert_eq!(set.cards.len(), 2);
    assert_eq!(set.cards[0], card(&["France"], &["Paris"]));
    assert_eq!(set.cards[1], card(&["Holland", "the Netherlands"], &["The Hague", "Amsterdam"]));
}
