use revise::{parse_guess, OptionSet};

fn guess(items: &[&str]) -> OptionSet {
    let mut set = OptionSet::new();
    for item in items {
        set.insert((*item).to_owned());
    }
    set
}

#[test]
fn test() {
    assert_eq!(parse_guess(""), guess(&[]));
    assert_eq!(parse_guess(" "), guess(&[]));
    assert_eq!(parse_guess(",,,,,,"), guess(&[]));
    assert_eq!(parse_guess("a, \"\" ,,b,,,"), guess(&["a", "b"]));
    assert_eq!(parse_guess(" foo "), guess(&["foo"]));
    assert_eq!(parse_guess("a,b"), guess(&["a", "b"]));
    assert_eq!(parse_guess("\"a,b\""), guess(&["a,b"]));
    assert_eq!(parse_guess("\"\\\"\\\\\""), guess(&["\"\\"]));
    assert_eq!(parse_guess(" - - , -- -- "), guess(&["- -", "-- --"]));
    assert_eq!(parse_guess("a\",b\"\""), guess(&["a\"", "b\"\""]));
}

#[test]
fn unknown_escapes_are_dropped() {
    assert_eq!(parse_guess(r#""\'\/\\""#), guess(&["\\"]));
}

#[test]
fn an_open_quote_gives_what_was_read() {
    assert_eq!(parse_guess("\"abc"), guess(&["abc"]));
    assert_eq!(parse_guess("\"abc\\"), guess(&["abc"]));
}

#[test]
fn an_answer_ends_where_it_goes_wrong() {
    assert_eq!(parse_guess("x, \"a\"b, c"), guess(&["x", "a"]));
}
