use revise::simple::{parse, CardSide, ParseError};
use revise::{Card, CardSet, OptionSet};
use std::ops::Range;

fn options(items: &[&str]) -> OptionSet {
    let mut set = OptionSet::new();
    for item in items {
        set.insert((*item).to_owned());
    }
    set
}

fn card(terms: &[&str], definitions: &[&str]) -> Card {
    Card { terms: options(terms), definitions: options(definitions) }
}

fn empty_options(input: &str, on: CardSide) -> Vec<Range<usize>> {
    parse(input)
        .unwrap_err()
        .into_iter()
        .map(|e| match e {
            ParseError::EmptyOption { side, span } if side == on => span,
            _ => panic!("{:?}", e),
        })
        .collect()
}

fn duplicate_options(input: &str, on: CardSide) -> Vec<(Range<usize>, Range<usize>)> {
    parse(input)
        .unwrap_err()
        .into_iter()
        .map(|e| match e {
            ParseError::DuplicateOption { side, original, duplicate } if side == on => {
                (original, duplicate)
            }
            _ => panic!("{:?}", e),
        })
        .collect()
}

#[test]
fn simple() {
    let set = "title\n\nterm -  definition1 ,  definition2  \n\nterm1,term2,  term3   - definition ";
    assert_eq!(
        parse(set).unwrap(),
        CardSet {
            title: "title".to_owned(),
            cards: vec![
                card(&["term"], &["definition1", "definition2"]),
                card(&["term1", "term2", "term3"], &["definition"]),
            ],
        }
    );
}

#[test]
fn any_line_break() {
    assert_eq!(
        parse("title\r\n\nx - y\r\n\r\n\n\r\nz - w\r\n\n").unwrap(),
        parse("title\n\nx - y\nz - w").unwrap()
    );
}

#[test]
fn ignore_empty_lines() {
    assert_eq!(
        parse("title\n\na - b\n\n\nc - d\n\ne - f\n\n\n\n\n").unwrap(),
        parse("title\n\na - b\nc - d\ne - f").unwrap(),
    );
}

#[test]
fn comments() {
    assert_eq!(
        parse("\t# x\n# x\ntitle\n# xyz\n\na - b\n# comment\nc - d\n   #comment"),
        parse("title\n\na - b\nc - d"),
    );
}

#[test]
fn no_title() {
    assert_eq!(parse("").unwrap_err(), [ParseError::NoTitle(None), ParseError::EmptySet]);
    assert_eq!(parse("#x\n").unwrap_err(), [ParseError::NoTitle(None), ParseError::EmptySet]);
    assert_eq!(parse("\n\nt - d").unwrap_err(), [ParseError::NoTitle(Some(0..0))]);
    assert_eq!(parse("#c\n\n\nt - d").unwrap_err(), [ParseError::NoTitle(Some(3..3))]);
}

#[test]
fn empty_set() {
    assert_eq!(parse("title").unwrap_err(), [ParseError::EmptySet]);
    assert_eq!(parse("title\n").unwrap_err(), [ParseError::EmptySet]);
    assert_eq!(parse("title\n\n").unwrap_err(), [ParseError::EmptySet]);
    assert_eq!(parse("title\n\n\n\n\n\n\n\n\n").unwrap_err(), [ParseError::EmptySet]);
    assert_eq!(parse("title\n\n#a\n#b\n#c").unwrap_err(), [ParseError::EmptySet]);
}

#[test]
fn nonempty_second_line() {
    assert_eq!(
        parse("title\ntest").unwrap_err(),
        [ParseError::SecondLineNotEmpty(6..10), ParseError::EmptySet]
    );
    assert_eq!(parse("title\nabc\nt - d").unwrap_err(), [ParseError::SecondLineNotEmpty(6..9)]);
    assert_eq!(
        parse("title\n# c\nabc\nt - d").unwrap_err(),
        [ParseError::SecondLineNotEmpty(10..13)],
    );
    assert_eq!(
        parse("\ntest\nt - d").unwrap_err(),
        [ParseError::NoTitle(Some(0..0)), ParseError::SecondLineNotEmpty(1..5)]
    );
}

#[test]
fn empty_term() {
    let parse = |input| empty_options(input, CardSide::Term);

    assert_eq!(parse("t\n\n - b"), [3..3]);
    assert_eq!(parse("t\n\n, - b"), [3..4, 3..4]);
    assert_eq!(parse("t\n\n,, - b"), [3..4, 3..5, 4..5]);
    assert_eq!(parse("t\n\n,,, - b"), [3..4, 3..5, 4..6, 5..6]);
    assert_eq!(parse("t\n\n,,,, - b"), [3..4, 3..5, 4..6, 5..7, 6..7]);
    assert_eq!(parse("t\n\na,, ,   ,c - d"), [4..6, 6..7, 8..11]);
}

#[test]
fn duplicate_term() {
    parse("t\n\na,b,c - d\na,b,c - e").unwrap();

    let parse = |input| duplicate_options(input, CardSide::Term);
    assert_eq!(
        parse("t\n\n  term,term ,other,     term    , other - m"),
        [(5..9, 10..14), (5..9, 27..31), (16..21, 37..42)]
    );
}

#[test]
fn no_definitions() {
    let parse = |input: &str| {
        revise::simple::parse(input)
            .unwrap_err()
            .into_iter()
            .map(|e| match e {
                ParseError::NoDefinitions(span) => span,
                _ => panic!("{:?}", e),
            })
            .collect::<Vec<_>>()
    };
    assert_eq!(parse("t\n\nterm, other term, -- y --\na - b\na-b"), [3..28, 35..38]);
}

#[test]
fn empty_definition() {
    let parse = |input| empty_options(input, CardSide::Definition);
    assert_eq!(parse("t\n\na - b ,   ,, ,"), [10..13, 13..15, 15..16, 16..17]);
}

#[test]
fn duplicate_definition() {
    let parse = |input| duplicate_options(input, CardSide::Definition);
    assert_eq!(
        parse("t\n\nt -  abc,   d ,abc,   abc   ,d"),
        [(8..11, 18..21), (8..11, 25..28), (15..16, 32..33)],
    );
}

#[test]
fn third_part() {
    let parse = |input: &str| {
        revise::simple::parse(input)
            .unwrap_err()
            .into_iter()
            .map(|e| match e {
                ParseError::ThirdPart { before, span } => (before, span),
                _ => panic!("{:?}", e),
            })
            .collect::<Vec<_>>()
    };
    assert_eq!(
        parse("t\n\na - b -c- d - e - f\ng - h-i\nj - k - l\n"),
        [(3..14, 14..22), (31..36, 36..40)]
    );
}

#[test]
fn duplicate_card() {
    parse("t\n\na,b - c,d\nc,d - a,b").unwrap();
    let parse = |input: &str| {
        revise::simple::parse(input)
            .unwrap_err()
            .into_iter()
            .map(|e| match e {
                ParseError::DuplicateCard { original: o, duplicate: d } => (o, d),
                _ => panic!("{:?}", e),
            })
            .collect::<Vec<_>>()
    };
    assert_eq!(
        parse("t\n\na,b - c,d\nx - y\n b , a  -  d , c\r\nx  -  y\r\n"),
        [(3..12, 19..35), (13..18, 37..44)]
    );
}

#[test]
fn card_side_names() {
    assert_eq!(CardSide::Term.name(), "term");
    assert_eq!(CardSide::Definition.name(), "definition");
}

#[test]
fn spans_count_bytes() {
    assert_eq!(
        revise::simple::parse("é\n\nü,, - b").unwrap_err(),
        [
            ParseError::EmptyOption { side: CardSide::Term, span: 6..8 },
            ParseError::EmptyOption { side: CardSide::Term, span: 7..8 }
        ]
    );
}
