//! What a document gives without diagnostics is a set that a regular document can hold: a
//! title without white space around it, cards with terms and definitions, options that are
//! not empty and hold no control characters, and nothing twice.

use crate::chars::{control, span, trim, trim_end, trim_start, white_space};
use crate::model::{
    CardModel, Deck, distinct_cards, distinct_options, lemma_first_card, lemma_first_index,
    printable, regular_card, regular_option, regular_options, regular_set, regular_title, Seen,
};
use crate::set::error::ParseError;
use crate::set::grammar::{
    add_card, add_option, after_comma, any, card, card_definitions, card_head, card_line,
    card_lines, character, comma, comment, Cursor, dash_run, document, empty_slot_end, exact_char,
    leading_blank_lines, lemma_add_card, lemma_add_option, lemma_after_comma, lemma_card,
    lemma_card_definitions, lemma_card_head, lemma_card_line, lemma_card_lines, lemma_comma,
    lemma_comment, lemma_dash_run, lemma_flag, lemma_follows_chain, lemma_leading_blank_lines,
    lemma_option, lemma_option_piece, lemma_option_tail, lemma_option_ws_run, lemma_options,
    lemma_options_rest, lemma_plain_run, lemma_quiet_between, lemma_quoted, lemma_quoted_body,
    lemma_single, lemma_step, lemma_third_part, lemma_title, lemma_ws_run, newline, option,
    option_atom, option_joint, option_piece, option_tail, option_ws, option_ws_run, options,
    options_rest, plain_char, plain_run, quiet, quoted, quoted_body, title, ws_run,
};
use vstd::prelude::*;

verus! {

/// Each of `values` is a regular option, and none occurs twice.
pub open spec fn regular_seen(values: Seq<Seq<char>>) -> bool {
    &&& distinct_options(values)
    &&& forall|i: int| 0 <= i < values.len() ==> regular_option(#[trigger] values[i])
}

/// Each of `cards` is a regular card, and none occurs twice.
pub open spec fn regular_deck(cards: Seq<CardModel>) -> bool {
    &&& distinct_cards(cards)
    &&& forall|i: int| 0 <= i < cards.len() ==> regular_card(#[trigger] cards[i])
}

/// A text with one more printable character is printable.
pub proof fn lemma_printable_push(value: Seq<char>, ch: char)
    requires
        printable(value),
        !control(ch),
    ensures
        printable(value.push(ch)),
{
    assert forall|i: int| 0 <= i < value.push(ch).len() implies !control(
        #[trigger] value.push(ch)[i],
    ) by {
        if i < value.len() {
            assert(value.push(ch)[i] == value[i]);
        }
    }
}

/// Two printable texts, one behind the other, are printable.
pub proof fn lemma_printable_add(first: Seq<char>, second: Seq<char>)
    requires
        printable(first),
        printable(second),
    ensures
        printable(first + second),
{
    assert forall|i: int| 0 <= i < (first + second).len() implies !control(
        #[trigger] (first + second)[i],
    ) by {
        if i < first.len() {
            assert((first + second)[i] == first[i]);
        } else {
            assert((first + second)[i] == second[i - first.len()]);
        }
    }
}

/// A character that was read without a flag is no control character.
pub proof fn lemma_character_quiet(text: Seq<char>, c: Cursor)
    requires
        c.within(text),
    ensures
        match character(text, c) {
            Some((ch, next)) => quiet(c, next) ==> !control(ch) && next == c.step(),
            None => true,
        },
        match option_ws(text, c) {
            Some((ch, next)) => quiet(c, next) ==> !control(ch) && next == c.step(),
            None => true,
        },
{
    if c.pos < text.len() {
        let ch = text[c.pos];
        lemma_flag(
            c,
            ParseError::UnexpectedControlChar { character: ch, span: span(text, c.pos, c.pos + 1) },
        );
    }
}

/// What `quoted_body` reads without a flag is what a regular document can hold.
pub proof fn lemma_quoted_body_regular(text: Seq<char>, c: Cursor, start: int, acc: Seq<char>)
    requires
        c.within(text),
        printable(acc),
        quiet(c, quoted_body(text, c, start, acc).1),
    ensures
        printable(quoted_body(text, c, start, acc).0),
    decreases text.len() - c.pos,
{
    let result = quoted_body(text, c, start, acc).1;
    lemma_single(text, c);
    lemma_character_quiet(text, c);
    match character(text, c) {
        None => {},
        Some((ch, next)) => {
            if ch == '\\' {
                match any(text, next) {
                    Some((escape, after)) => {
                        if escape == '"' || escape == '\\' {
                            lemma_quoted_body(text, after, start, acc.push(escape));
                            lemma_step(next);
                            lemma_follows_chain(c, next, after);
                            lemma_quiet_between(c, after, result);
                            lemma_printable_push(acc, escape);
                            lemma_quoted_body_regular(text, after, start, acc.push(escape));
                        } else {
                            let error = ParseError::UnknownEscape {
                                escape,
                                span: span(text, next.pos, after.pos),
                            };
                            lemma_quoted_body(text, after.flag(error), start, acc);
                            lemma_flag(next, error);
                        }
                    },
                    None => {
                        lemma_quoted_body(text, next, start, acc);
                        lemma_quiet_between(c, next, result);
                        lemma_quoted_body_regular(text, next, start, acc);
                    },
                }
            } else if ch == '"' {
            } else {
                lemma_quoted_body(text, next, start, acc.push(ch));
                lemma_quiet_between(c, next, result);
                lemma_printable_push(acc, ch);
                lemma_quoted_body_regular(text, next, start, acc.push(ch));
            }
        },
    }
}

/// What `dash_run` reads without a flag is what a regular document can hold.
pub proof fn lemma_dash_run_regular(text: Seq<char>, c: Cursor, acc: Seq<char>)
    requires
        c.within(text),
        printable(acc),
    ensures
        printable(dash_run(text, c, acc).0),
    decreases text.len() - c.pos,
{
    lemma_single(text, c);
    match exact_char(text, c, '-') {
        Some(next) => {
            lemma_printable_push(acc, '-');
            lemma_dash_run_regular(text, next, acc.push('-'));
        },
        None => {},
    }
}

/// What `option_ws_run` reads without a flag is what a regular document can hold.
pub proof fn lemma_option_ws_run_regular(text: Seq<char>, c: Cursor, acc: Seq<char>)
    requires
        c.within(text),
        printable(acc),
        quiet(c, option_ws_run(text, c, acc).1),
    ensures
        printable(option_ws_run(text, c, acc).0),
    decreases text.len() - c.pos,
{
    lemma_single(text, c);
    lemma_character_quiet(text, c);
    match option_ws(text, c) {
        Some((ch, next)) => {
            lemma_option_ws_run(text, next, acc.push(ch));
            lemma_quiet_between(c, next, option_ws_run(text, next, acc.push(ch)).1);
            lemma_printable_push(acc, ch);
            lemma_option_ws_run_regular(text, next, acc.push(ch));
        },
        None => {},
    }
}

/// What `option_piece` reads without a flag is what a regular document can hold.
pub proof fn lemma_option_piece_regular(text: Seq<char>, c: Cursor)
    requires
        c.within(text),
    ensures
        match option_piece(text, c) {
            Some((piece, next)) => quiet(c, next) ==> printable(piece),
            None => true,
        },
{
    let nothing = Seq::<char>::empty();
    lemma_dash_run(text, c, nothing);
    lemma_option_ws_run(text, c, nothing);
    let (joint, mid) = option_joint(text, c);
    lemma_single(text, mid);
    lemma_character_quiet(text, mid);
    match option_atom(text, mid) {
        Some((ch, next)) => {
            if quiet(c, next) {
                lemma_quiet_between(c, mid, next);
                lemma_dash_run_regular(text, c, nothing);
                if !(exact_char(text, c, '-') is Some) {
                    lemma_option_ws_run_regular(text, c, nothing);
                }
                lemma_printable_push(joint, ch);
            }
        },
        None => {},
    }
}

/// What `option_tail` reads without a flag is what a regular document can hold.
pub proof fn lemma_option_tail_regular(text: Seq<char>, c: Cursor, acc: Seq<char>)
    requires
        c.within(text),
        printable(acc),
        quiet(c, option_tail(text, c, acc).1),
    ensures
        printable(option_tail(text, c, acc).0),
    decreases text.len() - c.pos,
{
    lemma_option_piece(text, c);
    lemma_option_piece_regular(text, c);
    match option_piece(text, c) {
        Some((piece, next)) => {
            lemma_option_tail(text, next, acc + piece);
            lemma_quiet_between(c, next, option_tail(text, next, acc + piece).1);
            lemma_printable_add(acc, piece);
            lemma_option_tail_regular(text, next, acc + piece);
        },
        None => {},
    }
}

/// What `option` reads without a flag is what a regular document can hold.
pub proof fn lemma_option_regular(text: Seq<char>, c: Cursor)
    requires
        c.within(text),
    ensures
        match option(text, c) {
            Some((value, next)) => quiet(c, next) ==> printable(value),
            None => true,
        },
{
    lemma_quoted(text, c);
    lemma_single(text, c);
    lemma_character_quiet(text, c);
    match quoted(text, c) {
        Some((inside, after_quote)) => {
            let (value, end) = option_tail(text, after_quote, inside);
            lemma_option_tail(text, after_quote, inside);
            let error = ParseError::TrailingOptionChars {
                span: span(text, after_quote.pos, end.pos),
            };
            lemma_flag(end, error);
            let result = option(text, c)->Some_0.1;
            if quiet(c, result) {
                lemma_follows_chain(c, after_quote, end);
                lemma_quiet_between(c, end, result);
                lemma_quiet_between(c, after_quote, end);
                let next = c.step();
                lemma_step(c);
                lemma_quoted_body(text, next, c.pos, Seq::empty());
                lemma_quiet_between(c, next, after_quote);
                lemma_quoted_body_regular(text, next, c.pos, Seq::empty());
                lemma_option_tail_regular(text, after_quote, inside);
            }
        },
        None => match option_atom(text, c) {
            Some((ch, next)) => {
                let result = option_tail(text, next, seq![ch]).1;
                lemma_option_tail(text, next, seq![ch]);
                if quiet(c, result) {
                    lemma_quiet_between(c, next, result);
                    lemma_printable_push(Seq::empty(), ch);
                    assert(Seq::<char>::empty().push(ch) =~= seq![ch]);
                    lemma_option_tail_regular(text, next, seq![ch]);
                }
            },
            None => {},
        },
    }
}

/// What `add_option` reads without a flag is what a regular document can hold.
pub proof fn lemma_add_option_regular(
    seen: Seen,
    c: Cursor,
    value: Seq<char>,
    at: std::ops::Range<usize>,
)
    requires
        regular_seen(seen.values),
        printable(value),
        quiet(c, add_option(seen, c, value, at).1),
    ensures
        regular_seen(add_option(seen, c, value, at).0.values),
        add_option(seen, c, value, at).0.values.len() > 0,
{
    lemma_flag(c, ParseError::EmptyOption { span: at });
    lemma_first_index(seen.values, value);
    match crate::model::first_index(seen.values, value) {
        Some(i) => lemma_flag(
            c,
            ParseError::DuplicateOption { original: seen.spans[i], duplicate: at },
        ),
        None => {
            let after = seen.values.push(value);
            assert forall|i: int| 0 <= i < after.len() implies regular_option(
                #[trigger] after[i],
            ) by {
                if i < seen.values.len() {
                    assert(after[i] == seen.values[i]);
                }
            }
        },
    }
}

/// What `after_comma` reads without a flag is what a regular document can hold.
pub proof fn lemma_after_comma_regular(text: Seq<char>, c: Cursor, comma_at: int, seen: Seen)
    requires
        c.within(text),
        regular_seen(seen.values),
        quiet(c, after_comma(text, c, comma_at, seen).1),
    ensures
        regular_seen(after_comma(text, c, comma_at, seen).0.values),
{
    lemma_ws_run(text, c);
    let at = ws_run(text, c);
    lemma_option(text, at);
    lemma_option_regular(text, at);
    match option(text, at) {
        Some((value, end)) => {
            let here = span(text, at.pos, end.pos);
            let result = add_option(seen, end, value, here).1;
            lemma_add_option(seen, end, value, here);
            lemma_follows_chain(c, at, end);
            lemma_quiet_between(c, end, result);
            lemma_quiet_between(c, at, end);
            lemma_add_option_regular(seen, end, value, here);
        },
        None => {
            lemma_flag(
                c,
                ParseError::EmptyOption { span: span(text, comma_at, empty_slot_end(text, c)) },
            );
        },
    }
}

/// What `options_rest` reads without a flag is what a regular document can hold.
pub proof fn lemma_options_rest_regular(text: Seq<char>, c: Cursor, seen: Seen)
    requires
        c.within(text),
        regular_seen(seen.values),
        quiet(c, options_rest(text, c, seen).1),
    ensures
        regular_seen(options_rest(text, c, seen).0.values),
        options_rest(text, c, seen).0.values.len() >= seen.values.len(),
    decreases text.len() - c.pos,
{
    lemma_comma(text, c);
    match comma(text, c) {
        Some((comma_at, next)) => {
            let (taken, after) = after_comma(text, next, comma_at, seen);
            lemma_after_comma(text, next, comma_at, seen);
            lemma_options_rest(text, after, taken);
            let result = options_rest(text, after, taken).1;
            lemma_follows_chain(c, next, after);
            lemma_quiet_between(c, after, result);
            lemma_quiet_between(c, next, after);
            lemma_after_comma_regular(text, next, comma_at, seen);
            lemma_options_rest_regular(text, after, taken);
            lemma_after_comma_grows(text, next, comma_at, seen);
        },
        None => {},
    }
}

/// What follows a comma takes no option away.
pub proof fn lemma_after_comma_grows(text: Seq<char>, c: Cursor, comma_at: int, seen: Seen)
    ensures
        after_comma(text, c, comma_at, seen).0.values.len() >= seen.values.len(),
{
}

/// What `options` reads without a flag is what a regular document can hold.
pub proof fn lemma_options_regular(text: Seq<char>, c: Cursor)
    requires
        c.within(text),
    ensures
        match options(text, c) {
            Some((values, next)) => quiet(c, next) ==> regular_options(values),
            None => true,
        },
{
    let nothing = Seen { values: Seq::empty(), spans: Seq::empty() };
    lemma_options(text, c);
    match exact_char(text, c, ',') {
        Some(next) => {
            let error = ParseError::EmptyOption { span: span(text, c.pos, next.pos) };
            let flagged = next.flag(error);
            lemma_flag(c, error);
            lemma_after_comma(text, flagged, c.pos, nothing);
            let (first, after) = after_comma(text, flagged, c.pos, nothing);
            lemma_options_rest(text, after, first);
            lemma_follows_chain(flagged, after, options_rest(text, after, first).1);
        },
        None => {
            lemma_option(text, c);
            lemma_option_regular(text, c);
            match option(text, c) {
                Some((value, next)) => {
                    let here = span(text, c.pos, next.pos);
                    let (first, after) = add_option(nothing, next, value, here);
                    lemma_add_option(nothing, next, value, here);
                    lemma_options_rest(text, after, first);
                    let result = options_rest(text, after, first).1;
                    if quiet(c, result) {
                        lemma_follows_chain(c, next, after);
                        lemma_quiet_between(c, after, result);
                        lemma_quiet_between(c, next, after);
                        lemma_add_option_regular(nothing, next, value, here);
                        lemma_options_rest_regular(text, after, first);
                    }
                },
                None => {},
            }
        },
    }
}

/// What `card` reads without a flag is what a regular document can hold.
pub proof fn lemma_card_regular(text: Seq<char>, c: Cursor)
    requires
        c.within(text),
    ensures
        match card(text, c) {
            Some((found, next)) => quiet(c, next) ==> regular_card(found),
            None => true,
        },
{
    lemma_ws_run(text, c);
    let lead = ws_run(text, c);
    lemma_options(text, lead);
    lemma_options_regular(text, lead);
    lemma_step(c);
    let found_terms = options(text, lead);
    let after_terms = match found_terms {
        Some((_, end)) => end,
        None => c,
    };
    if found_terms is Some {
        lemma_follows_chain(c, lead, after_terms);
    }
    lemma_ws_run(text, after_terms);
    let at_dash = ws_run(text, after_terms);
    lemma_follows_chain(c, after_terms, at_dash);
    lemma_single(text, at_dash);
    lemma_card_head(text, c);
    match card_head(text, c) {
        Some((head, next)) => {
            lemma_follows_chain(c, at_dash, next);
            if head.has_dash {
                lemma_card_definitions(text, next, head.space_before, c.pos);
            }
            let (definitions, end) = if head.has_dash {
                card_definitions(text, next, head.space_before, c.pos)
            } else {
                (Seq::empty(), next)
            };
            lemma_follows_chain(c, next, end);
            let whole = span(text, c.pos, end.pos);
            let first = if head.terms.len() == 0 {
                end.flag(ParseError::NoTerms { card: whole })
            } else {
                end
            };
            lemma_flag(end, ParseError::NoTerms { card: whole });
            lemma_follows_chain(c, end, first);
            let second = if definitions.len() == 0 {
                first.flag(ParseError::NoDefinitions { card: whole })
            } else {
                first
            };
            lemma_flag(first, ParseError::NoDefinitions { card: whole });
            lemma_follows_chain(c, first, second);
            lemma_comment(text, second);
            let to = comment(text, second);
            if quiet(c, to) {
                lemma_quiet_between(c, second, to);
                lemma_quiet_between(c, first, second);
                lemma_quiet_between(c, end, first);
                lemma_quiet_between(c, next, end);
                lemma_quiet_between(c, at_dash, next);
                lemma_quiet_between(c, after_terms, at_dash);
                if found_terms is Some {
                    lemma_quiet_between(c, lead, after_terms);
                }
                lemma_card_definitions_regular(text, next, head.space_before, c.pos);
            }
        },
        None => {},
    }
}

/// What `card_definitions` reads without a flag is what a regular document can hold.
pub proof fn lemma_card_definitions_regular(
    text: Seq<char>,
    c: Cursor,
    space_before: bool,
    card_start: int,
)
    requires
        c.within(text),
        quiet(c, card_definitions(text, c, space_before, card_start).1),
    ensures
        card_definitions(text, c, space_before, card_start).0.len() > 0 ==> regular_options(
            card_definitions(text, c, space_before, card_start).0,
        ),
{
    let result = card_definitions(text, c, space_before, card_start).1;
    lemma_ws_run(text, c);
    let spaced = ws_run(text, c);
    let error = ParseError::MissingWhitespaceAroundDash { dash: span(text, c.pos - 1, c.pos) };
    let flagged = if !space_before || !(spaced.pos > c.pos) {
        spaced.flag(error)
    } else {
        spaced
    };
    lemma_flag(spaced, error);
    lemma_follows_chain(c, spaced, flagged);
    lemma_options(text, flagged);
    lemma_options_regular(text, flagged);
    match options(text, flagged) {
        Some((_, end)) => {
            lemma_ws_run(text, end);
            let after = ws_run(text, end);
            lemma_third_part(text, after, card_start);
            lemma_follows_chain(c, flagged, end);
            lemma_follows_chain(c, end, after);
            lemma_quiet_between(c, after, result);
            lemma_quiet_between(c, end, after);
            lemma_quiet_between(c, flagged, end);
        },
        None => {},
    }
}

/// What `card_line` reads without a flag is what a regular document can hold.
pub proof fn lemma_card_line_regular(text: Seq<char>, c: Cursor, deck: Deck)
    requires
        c.within(text),
        regular_deck(deck.cards),
        quiet(c, card_line(text, c, deck).1),
    ensures
        regular_deck(card_line(text, c, deck).0.cards),
{
    lemma_card(text, c);
    lemma_card_regular(text, c);
    match card(text, c) {
        Some((found, end)) => {
            let here = span(text, c.pos, end.pos);
            lemma_add_card(deck, end, found, here);
            lemma_quiet_between(c, end, add_card(deck, end, found, here).1);
            lemma_first_card(deck.cards, found);
            match crate::model::first_card(deck.cards, found) {
                Some(i) => lemma_flag(
                    end,
                    ParseError::DuplicateCard { original: deck.spans[i], duplicate: here },
                ),
                None => {
                    let after = deck.cards.push(found);
                    assert forall|i: int| 0 <= i < after.len() implies regular_card(
                        #[trigger] after[i],
                    ) by {
                        if i < deck.cards.len() {
                            assert(after[i] == deck.cards[i]);
                        }
                    }
                },
            }
        },
        None => {},
    }
}

/// What `card_lines` reads without a flag is what a regular document can hold.
pub proof fn lemma_card_lines_regular(text: Seq<char>, c: Cursor, deck: Deck)
    requires
        c.within(text),
        regular_deck(deck.cards),
        quiet(c, card_lines(text, c, deck).1),
    ensures
        regular_deck(card_lines(text, c, deck).0.cards),
    decreases text.len() - c.pos,
{
    lemma_single(text, c);
    match newline(text, c) {
        Some(next) => {
            let (taken, after) = card_line(text, next, deck);
            lemma_card_line(text, next, deck);
            lemma_card_lines(text, after, taken);
            let result = card_lines(text, after, taken).1;
            lemma_follows_chain(c, next, after);
            lemma_quiet_between(c, after, result);
            lemma_quiet_between(c, next, after);
            lemma_card_line_regular(text, next, deck);
            lemma_card_lines_regular(text, after, taken);
        },
        None => {},
    }
}

/// The characters of a title line that was read without a flag are no control characters.
pub proof fn lemma_plain_run_regular(text: Seq<char>, c: Cursor, acc: Seq<char>)
    requires
        c.within(text),
        forall|i: int| 0 <= i < acc.len() ==> !control(#[trigger] acc[i]) && acc[i] != '#',
        quiet(c, plain_run(text, c, acc).1),
    ensures
        forall|i: int|
            0 <= i < plain_run(text, c, acc).0.len() ==> !control(
                #[trigger] plain_run(text, c, acc).0[i],
            ) && plain_run(text, c, acc).0[i] != '#',
    decreases text.len() - c.pos,
{
    lemma_single(text, c);
    lemma_character_quiet(text, c);
    match plain_char(text, c) {
        Some((ch, next)) => {
            lemma_plain_run(text, next, acc.push(ch));
            lemma_quiet_between(c, next, plain_run(text, next, acc.push(ch)).1);
            assert forall|i: int| 0 <= i < acc.push(ch).len() implies !control(
                #[trigger] acc.push(ch)[i],
            ) && acc.push(ch)[i] != '#' by {
                if i < acc.len() {
                    assert(acc.push(ch)[i] == acc[i]);
                }
            }
            lemma_plain_run_regular(text, next, acc.push(ch));
        },
        None => {},
    }
}

/// What is left of a text without the white space at its start is the end of the text, and
/// does not start with white space.
pub proof fn lemma_trim_start(raw: Seq<char>)
    ensures
        trim_start(raw).len() <= raw.len(),
        trim_start(raw) == raw.skip(raw.len() - trim_start(raw).len()),
        trim_start(raw).len() > 0 ==> !white_space(trim_start(raw)[0]),
    decreases raw.len(),
{
    if raw.len() > 0 && white_space(raw[0]) {
        let rest = raw.drop_first();
        lemma_trim_start(rest);
        assert(rest.skip(rest.len() - trim_start(rest).len()) =~= raw.skip(
            raw.len() - trim_start(rest).len(),
        ));
    } else {
        assert(raw.skip(0) =~= raw);
    }
}

/// What is left of a text without the white space at its end is the start of the text, and
/// does not end with white space.
pub proof fn lemma_trim_end(raw: Seq<char>)
    ensures
        trim_end(raw).len() <= raw.len(),
        trim_end(raw) == raw.take(trim_end(raw).len() as int),
        trim_end(raw).len() > 0 ==> !white_space(trim_end(raw).last()),
    decreases raw.len(),
{
    if raw.len() > 0 && white_space(raw.last()) {
        let rest = raw.drop_last();
        lemma_trim_end(rest);
        assert(rest.take(trim_end(rest).len() as int) =~= raw.take(trim_end(rest).len() as int));
    } else {
        assert(raw.take(raw.len() as int) =~= raw);
    }
}

/// What `title` reads without a flag is what a regular document can hold.
pub proof fn lemma_title_regular(text: Seq<char>, c: Cursor)
    requires
        c.within(text),
        quiet(c, title(text, c).1),
    ensures
        regular_title(title(text, c).0),
{
    lemma_plain_run(text, c, Seq::empty());
    let (raw, end) = plain_run(text, c, Seq::empty());
    let name = trim(raw);
    let error = ParseError::NoTitle { line: span(text, c.pos, end.pos) };
    let flagged = if name.len() == 0 {
        end.flag(error)
    } else {
        end
    };
    lemma_flag(end, error);
    lemma_comment(text, flagged);
    lemma_follows_chain(c, end, flagged);
    lemma_quiet_between(c, flagged, title(text, c).1);
    lemma_quiet_between(c, end, flagged);
    lemma_plain_run_regular(text, c, Seq::empty());
    let front = trim_start(raw);
    lemma_trim_start(raw);
    lemma_trim_end(front);
    let skipped = raw.len() - front.len();
    assert(name.len() > 0);
    assert(name[0] == front[0]);
    assert forall|i: int| 0 <= i < name.len() implies !control(#[trigger] name[i]) && name[i]
        != '#' by {
        assert(name[i] == front[i]);
        assert(front[i] == raw[skipped + i]);
    }
}

/// Every set that a document gives without diagnostics is a set that a regular document can
/// hold.
pub proof fn lemma_read_is_regular(text: Seq<char>)
    requires
        document(text).errors.len() == 0,
    ensures
        regular_set(document(text).set),
{
    let c0 = Cursor::start();
    let nothing = Deck { cards: Seq::empty(), spans: Seq::empty() };
    lemma_leading_blank_lines(text, c0);
    let c1 = leading_blank_lines(text, c0);
    lemma_title(text, c1);
    let c2 = title(text, c1).1;
    lemma_card_lines(text, c2, nothing);
    let (deck, c3) = card_lines(text, c2, nothing);
    lemma_flag(c3, ParseError::EmptySet);
    lemma_follows_chain(c0, c1, c2);
    lemma_follows_chain(c0, c2, c3);
    lemma_quiet_between(c0, c2, c3);
    lemma_quiet_between(c0, c1, c2);
    lemma_title_regular(text, c1);
    lemma_card_lines_regular(text, c2, nothing);
}

} // verus!
