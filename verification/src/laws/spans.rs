//! Every span of every diagnostic is the byte span of a range of characters of the text.
//!
//! So a span never cuts a character in two, never ends before it starts, and never reaches
//! beyond the text: whoever shows a diagnostic can cut the text at its spans.

use crate::chars::{byte_offset, lemma_byte_offset_monotonic, span, trim};
use crate::model::{Deck, first_card, first_index, lemma_first_card, lemma_first_index, Seen};
use crate::set::error::ParseError;
use crate::set::grammar::{
    add_option, after_comma, any, blank_line, card, card_definitions, card_head, card_line,
    card_lines, character, comma, comment, Cursor, document, empty_slot_end, exact_char,
    leading_blank_lines, lemma_add_option, lemma_after_comma, lemma_blank_line, lemma_card,
    lemma_card_definitions, lemma_card_head, lemma_card_line, lemma_comma,
    lemma_leading_blank_lines, lemma_option, lemma_option_tail, lemma_options, lemma_plain_run,
    lemma_plain_skip, lemma_quoted, lemma_single, lemma_title, lemma_ws_run, line_rest, newline,
    option, option_atom, option_piece, option_tail, option_ws, options, options_rest, plain_char,
    plain_run, plain_skip, quoted, quoted_body, third_part, title, ws, ws_run,
};
use std::ops::Range;
use vstd::prelude::*;

verus! {

/// `range` is the byte span of a range of characters of `text`.
pub open spec fn marks_text(text: Seq<char>, range: Range<usize>) -> bool {
    exists|from: int, to: int| 0 <= from <= to <= text.len() && range == span(text, from, to)
}

/// Every span of `error` is the byte span of a range of characters of `text`.
pub open spec fn error_marks_text(text: Seq<char>, error: ParseError) -> bool {
    match error {
        ParseError::NoTitle { line } => marks_text(text, line),
        ParseError::EmptySet => true,
        ParseError::DuplicateCard { original, duplicate } => marks_text(text, original)
            && marks_text(text, duplicate),
        ParseError::ThirdPart { before, span } => marks_text(text, before) && marks_text(
            text,
            span,
        ),
        ParseError::MissingWhitespaceAroundDash { dash } => marks_text(text, dash),
        ParseError::NoTerms { card } => marks_text(text, card),
        ParseError::NoDefinitions { card } => marks_text(text, card),
        ParseError::DuplicateOption { original, duplicate } => marks_text(text, original)
            && marks_text(text, duplicate),
        ParseError::EmptyOption { span } => marks_text(text, span),
        ParseError::TrailingOptionChars { span } => marks_text(text, span),
        ParseError::UnknownEscape { escape, span } => marks_text(text, span),
        ParseError::UnclosedQuote { span } => marks_text(text, span),
        ParseError::UnexpectedControlChar { character, span } => marks_text(text, span),
        ParseError::ExpectedSpace { character, span } => marks_text(text, span),
        ParseError::MissingLineFeed { cr_span } => marks_text(text, cr_span),
    }
}

/// Every span of each of `errors` is the byte span of a range of characters of `text`.
pub open spec fn errors_mark_text(text: Seq<char>, errors: Seq<ParseError>) -> bool {
    forall|i: int| 0 <= i < errors.len() ==> error_marks_text(text, #[trigger] errors[i])
}

/// Each of `spans` is the byte span of a range of characters of `text`, and there are
/// `count` of them.
pub open spec fn spans_mark_text(text: Seq<char>, spans: Seq<Range<usize>>, count: nat) -> bool {
    &&& spans.len() == count
    &&& forall|i: int| 0 <= i < spans.len() ==> marks_text(text, #[trigger] spans[i])
}

/// The cursor lies in the text, and its diagnostics mark the text.
pub open spec fn sound(text: Seq<char>, c: Cursor) -> bool {
    c.within(text) && errors_mark_text(text, c.errors)
}

/// The span of a range of characters marks the text.
pub proof fn lemma_span_marks(text: Seq<char>, from: int, to: int)
    requires
        0 <= from <= to <= text.len(),
    ensures
        marks_text(text, span(text, from, to)),
{
}

/// A span that marks the text lies in the text, start before end.
pub proof fn lemma_marks_in_text(text: Seq<char>, range: Range<usize>)
    requires
        marks_text(text, range),
        byte_offset(text, text.len() as int) <= usize::MAX,
    ensures
        range.start <= range.end <= byte_offset(text, text.len() as int),
{
    let (from, to) = choose|from: int, to: int|
        0 <= from <= to <= text.len() && range == span(text, from, to);
    lemma_byte_offset_monotonic(text, from, to);
    lemma_byte_offset_monotonic(text, to, text.len() as int);
}

/// A diagnostic that marks the text, added to diagnostics that mark the text.
pub proof fn lemma_flag_marks(text: Seq<char>, c: Cursor, error: ParseError)
    requires
        sound(text, c),
        error_marks_text(text, error),
    ensures
        sound(text, c.flag(error)),
{
    assert forall|i: int| 0 <= i < c.flag(error).errors.len() implies error_marks_text(
        text,
        #[trigger] c.flag(error).errors[i],
    ) by {
        if i < c.errors.len() {
            assert(c.flag(error).errors[i] == c.errors[i]);
        }
    }
}

/// The rules that read one character, or one line break.
pub proof fn lemma_single_sound(text: Seq<char>, c: Cursor)
    requires
        sound(text, c),
    ensures
        match character(text, c) {
            Some((_, next)) => sound(text, next),
            None => true,
        },
        match plain_char(text, c) {
            Some((_, next)) => sound(text, next),
            None => true,
        },
        match option_atom(text, c) {
            Some((_, next)) => sound(text, next),
            None => true,
        },
        match ws(text, c) {
            Some(next) => sound(text, next),
            None => true,
        },
        match option_ws(text, c) {
            Some((_, next)) => sound(text, next),
            None => true,
        },
        match newline(text, c) {
            Some(next) => sound(text, next),
            None => true,
        },
        match any(text, c) {
            Some((_, next)) => sound(text, next),
            None => true,
        },
        forall|x: char|
            match #[trigger] exact_char(text, c, x) {
                Some(next) => sound(text, next),
                None => true,
            },
{
    if c.pos < text.len() {
        let ch = text[c.pos];
        let here = span(text, c.pos, c.pos + 1);
        lemma_span_marks(text, c.pos, c.pos + 1);
        let step = c.step();
        assert(sound(text, step));
        lemma_flag_marks(text, step, ParseError::UnexpectedControlChar { character: ch, span: here });
        lemma_flag_marks(text, step, ParseError::ExpectedSpace { character: ch, span: here });
        lemma_flag_marks(text, step, ParseError::MissingLineFeed { cr_span: here });
        if c.pos + 1 < text.len() {
            assert(sound(text, step.step()));
        }
    }
}

/// `ws_run` keeps the diagnostics marking the text.
pub proof fn lemma_ws_run_sound(text: Seq<char>, c: Cursor)
    requires
        sound(text, c),
    ensures
        sound(text, ws_run(text, c)),
    decreases text.len() - c.pos,
{
    lemma_single_sound(text, c);
    match ws(text, c) {
        Some(next) => lemma_ws_run_sound(text, next),
        None => {},
    }
}

/// `line_rest` keeps the diagnostics marking the text.
pub proof fn lemma_line_rest_sound(text: Seq<char>, c: Cursor)
    requires
        sound(text, c),
    ensures
        sound(text, line_rest(text, c)),
    decreases text.len() - c.pos,
{
    lemma_single_sound(text, c);
    match character(text, c) {
        Some((_, next)) => lemma_line_rest_sound(text, next),
        None => {},
    }
}

/// `comment` and `blank_line` keep the diagnostics marking the text.
pub proof fn lemma_comment_sound(text: Seq<char>, c: Cursor)
    requires
        sound(text, c),
    ensures
        sound(text, comment(text, c)),
        sound(text, blank_line(text, c)),
{
    lemma_single_sound(text, c);
    match exact_char(text, c, '#') {
        Some(next) => lemma_line_rest_sound(text, next),
        None => {},
    }
    lemma_ws_run_sound(text, c);
    let spaced = ws_run(text, c);
    lemma_single_sound(text, spaced);
    match exact_char(text, spaced, '#') {
        Some(next) => lemma_line_rest_sound(text, next),
        None => {},
    }
}

/// `plain_run` and `plain_skip` keep the diagnostics marking the text.
pub proof fn lemma_plain_run_sound(text: Seq<char>, c: Cursor, acc: Seq<char>)
    requires
        sound(text, c),
    ensures
        sound(text, plain_run(text, c, acc).1),
        sound(text, plain_skip(text, c)),
    decreases text.len() - c.pos,
{
    lemma_single_sound(text, c);
    match plain_char(text, c) {
        Some((ch, next)) => lemma_plain_run_sound(text, next, acc.push(ch)),
        None => {},
    }
}

/// `title` keeps the diagnostics marking the text.
pub proof fn lemma_title_sound(text: Seq<char>, c: Cursor)
    requires
        sound(text, c),
    ensures
        sound(text, title(text, c).1),
{
    lemma_plain_run_sound(text, c, Seq::empty());
    lemma_plain_run(text, c, Seq::empty());
    let (raw, end) = plain_run(text, c, Seq::empty());
    let error = ParseError::NoTitle { line: span(text, c.pos, end.pos) };
    lemma_span_marks(text, c.pos, end.pos);
    lemma_flag_marks(text, end, error);
    let flagged = if trim(raw).len() == 0 {
        end.flag(error)
    } else {
        end
    };
    lemma_comment_sound(text, flagged);
}

/// `quoted_body` keeps the diagnostics marking the text.
pub proof fn lemma_quoted_body_sound(text: Seq<char>, c: Cursor, start: int, acc: Seq<char>)
    requires
        sound(text, c),
        0 <= start <= c.pos,
    ensures
        sound(text, quoted_body(text, c, start, acc).1),
    decreases text.len() - c.pos,
{
    lemma_single_sound(text, c);
    lemma_single(text, c);
    match character(text, c) {
        None => {
            lemma_span_marks(text, start, c.pos);
            lemma_flag_marks(text, c, ParseError::UnclosedQuote { span: span(text, start, c.pos) });
        },
        Some((ch, next)) => if ch == '\\' {
            lemma_single_sound(text, next);
            match any(text, next) {
                Some((escape, after)) => if escape == '"' || escape == '\\' {
                    lemma_quoted_body_sound(text, after, start, acc.push(escape));
                } else {
                    let error = ParseError::UnknownEscape {
                        escape,
                        span: span(text, next.pos, after.pos),
                    };
                    lemma_span_marks(text, next.pos, after.pos);
                    lemma_flag_marks(text, after, error);
                    lemma_quoted_body_sound(text, after.flag(error), start, acc);
                },
                None => lemma_quoted_body_sound(text, next, start, acc),
            }
        } else if ch == '"' {
        } else {
            lemma_quoted_body_sound(text, next, start, acc.push(ch));
        },
    }
}

/// `option_tail` keeps the diagnostics marking the text.
pub proof fn lemma_option_tail_sound(text: Seq<char>, c: Cursor, acc: Seq<char>)
    requires
        sound(text, c),
    ensures
        sound(text, option_tail(text, c, acc).1),
    decreases text.len() - c.pos,
{
    lemma_option_piece_sound(text, c);
    crate::set::grammar::lemma_option_piece(text, c);
    match option_piece(text, c) {
        Some((piece, next)) => lemma_option_tail_sound(text, next, acc + piece),
        None => {},
    }
}

/// `dash_run` keeps the diagnostics marking the text.
pub proof fn lemma_dash_run_sound(text: Seq<char>, c: Cursor, acc: Seq<char>)
    requires
        sound(text, c),
    ensures
        sound(text, crate::set::grammar::dash_run(text, c, acc).1),
    decreases text.len() - c.pos,
{
    lemma_single_sound(text, c);
    match exact_char(text, c, '-') {
        Some(next) => lemma_dash_run_sound(text, next, acc.push('-')),
        None => {},
    }
}

/// `option_ws_run` keeps the diagnostics marking the text.
pub proof fn lemma_option_ws_run_sound(text: Seq<char>, c: Cursor, acc: Seq<char>)
    requires
        sound(text, c),
    ensures
        sound(text, crate::set::grammar::option_ws_run(text, c, acc).1),
    decreases text.len() - c.pos,
{
    lemma_single_sound(text, c);
    match option_ws(text, c) {
        Some((ch, next)) => lemma_option_ws_run_sound(text, next, acc.push(ch)),
        None => {},
    }
}

/// `option_piece` keeps the diagnostics marking the text.
pub proof fn lemma_option_piece_sound(text: Seq<char>, c: Cursor)
    requires
        sound(text, c),
    ensures
        match option_piece(text, c) {
            Some((_, next)) => sound(text, next),
            None => true,
        },
{
    lemma_dash_run_sound(text, c, Seq::empty());
    lemma_option_ws_run_sound(text, c, Seq::empty());
    let mid = crate::set::grammar::option_joint(text, c).1;
    lemma_single_sound(text, mid);
}

/// `option` keeps the diagnostics marking the text.
pub proof fn lemma_option_sound(text: Seq<char>, c: Cursor)
    requires
        sound(text, c),
    ensures
        match option(text, c) {
            Some((_, next)) => sound(text, next),
            None => true,
        },
{
    lemma_single_sound(text, c);
    lemma_single(text, c);
    lemma_quoted(text, c);
    match quoted(text, c) {
        Some((inside, after_quote)) => {
            lemma_quoted_body_sound(text, c.step(), c.pos, Seq::empty());
            lemma_option_tail_sound(text, after_quote, inside);
            lemma_option_tail(text, after_quote, inside);
            let end = option_tail(text, after_quote, inside).1;
            lemma_span_marks(text, after_quote.pos, end.pos);
            lemma_flag_marks(
                text,
                end,
                ParseError::TrailingOptionChars { span: span(text, after_quote.pos, end.pos) },
            );
        },
        None => match option_atom(text, c) {
            Some((ch, next)) => lemma_option_tail_sound(text, next, seq![ch]),
            None => {},
        },
    }
}

/// The options seen so far were read at spans that mark the text.
pub open spec fn seen_marks_text(text: Seq<char>, seen: Seen) -> bool {
    spans_mark_text(text, seen.spans, seen.values.len())
}

/// `add_option` keeps the diagnostics and the spans of the options marking the text.
pub proof fn lemma_add_option_sound(
    text: Seq<char>,
    seen: Seen,
    c: Cursor,
    value: Seq<char>,
    at: Range<usize>,
)
    requires
        sound(text, c),
        seen_marks_text(text, seen),
        marks_text(text, at),
    ensures
        sound(text, add_option(seen, c, value, at).1),
        seen_marks_text(text, add_option(seen, c, value, at).0),
{
    lemma_flag_marks(text, c, ParseError::EmptyOption { span: at });
    lemma_first_index(seen.values, value);
    match first_index(seen.values, value) {
        Some(i) => {
            assert(marks_text(text, seen.spans[i]));
            lemma_flag_marks(
                text,
                c,
                ParseError::DuplicateOption { original: seen.spans[i], duplicate: at },
            );
        },
        None => {
            let after = seen.spans.push(at);
            assert forall|i: int| 0 <= i < after.len() implies marks_text(
                text,
                #[trigger] after[i],
            ) by {
                if i < seen.spans.len() {
                    assert(after[i] == seen.spans[i]);
                }
            }
        },
    }
}

/// `after_comma` keeps the diagnostics and the spans of the options marking the text.
pub proof fn lemma_after_comma_sound(text: Seq<char>, c: Cursor, comma_at: int, seen: Seen)
    requires
        sound(text, c),
        seen_marks_text(text, seen),
        0 <= comma_at <= c.pos,
    ensures
        sound(text, after_comma(text, c, comma_at, seen).1),
        seen_marks_text(text, after_comma(text, c, comma_at, seen).0),
{
    lemma_ws_run_sound(text, c);
    lemma_ws_run(text, c);
    let at = ws_run(text, c);
    lemma_option_sound(text, at);
    lemma_option(text, at);
    match option(text, at) {
        Some((value, end)) => {
            lemma_span_marks(text, at.pos, end.pos);
            lemma_add_option_sound(text, seen, end, value, span(text, at.pos, end.pos));
        },
        None => {
            lemma_span_marks(text, comma_at, empty_slot_end(text, c));
            lemma_flag_marks(
                text,
                c,
                ParseError::EmptyOption { span: span(text, comma_at, empty_slot_end(text, c)) },
            );
        },
    }
}

/// `options_rest` keeps the diagnostics and the spans of the options marking the text.
pub proof fn lemma_options_rest_sound(text: Seq<char>, c: Cursor, seen: Seen)
    requires
        sound(text, c),
        seen_marks_text(text, seen),
    ensures
        sound(text, options_rest(text, c, seen).1),
    decreases text.len() - c.pos,
{
    lemma_comma(text, c);
    lemma_ws_run_sound(text, c);
    lemma_ws_run(text, c);
    lemma_single_sound(text, ws_run(text, c));
    match comma(text, c) {
        Some((comma_at, next)) => {
            lemma_after_comma(text, next, comma_at, seen);
            lemma_after_comma_sound(text, next, comma_at, seen);
            let (taken, after) = after_comma(text, next, comma_at, seen);
            lemma_options_rest_sound(text, after, taken);
        },
        None => {},
    }
}

/// `options` keeps the diagnostics marking the text.
pub proof fn lemma_options_sound(text: Seq<char>, c: Cursor)
    requires
        sound(text, c),
    ensures
        match options(text, c) {
            Some((_, next)) => sound(text, next),
            None => true,
        },
{
    let nothing = Seen { values: Seq::empty(), spans: Seq::empty() };
    lemma_single_sound(text, c);
    match exact_char(text, c, ',') {
        Some(next) => {
            let error = ParseError::EmptyOption { span: span(text, c.pos, next.pos) };
            lemma_span_marks(text, c.pos, next.pos);
            lemma_flag_marks(text, next, error);
            let flagged = next.flag(error);
            lemma_after_comma(text, flagged, c.pos, nothing);
            lemma_after_comma_sound(text, flagged, c.pos, nothing);
            let (first, after) = after_comma(text, flagged, c.pos, nothing);
            lemma_options_rest_sound(text, after, first);
        },
        None => {
            lemma_option(text, c);
            lemma_option_sound(text, c);
            match option(text, c) {
                Some((value, next)) => {
                    let here = span(text, c.pos, next.pos);
                    lemma_span_marks(text, c.pos, next.pos);
                    lemma_add_option(nothing, next, value, here);
                    lemma_add_option_sound(text, nothing, next, value, here);
                    let (first, after) = add_option(nothing, next, value, here);
                    lemma_options_rest_sound(text, after, first);
                },
                None => {},
            }
        },
    }
}

/// `card_head` keeps the diagnostics marking the text.
pub proof fn lemma_card_head_sound(text: Seq<char>, c: Cursor)
    requires
        sound(text, c),
    ensures
        match card_head(text, c) {
            Some((_, next)) => sound(text, next),
            None => true,
        },
{
    lemma_ws_run_sound(text, c);
    lemma_ws_run(text, c);
    let lead = ws_run(text, c);
    lemma_options_sound(text, lead);
    lemma_options(text, lead);
    let after_terms = match options(text, lead) {
        Some((_, end)) => end,
        None => c,
    };
    lemma_ws_run_sound(text, after_terms);
    lemma_ws_run(text, after_terms);
    lemma_single_sound(text, ws_run(text, after_terms));
}

/// `third_part` keeps the diagnostics marking the text.
pub proof fn lemma_third_part_sound(text: Seq<char>, c: Cursor, card_start: int)
    requires
        sound(text, c),
        0 <= card_start <= c.pos,
    ensures
        sound(text, third_part(text, c, card_start)),
{
    lemma_single_sound(text, c);
    lemma_single(text, c);
    match exact_char(text, c, '-') {
        Some(next) => {
            lemma_plain_run_sound(text, next, Seq::empty());
            lemma_plain_skip(text, next);
            let end = plain_skip(text, next);
            lemma_span_marks(text, card_start, c.pos);
            lemma_span_marks(text, c.pos, end.pos);
            lemma_flag_marks(
                text,
                end,
                ParseError::ThirdPart {
                    before: span(text, card_start, c.pos),
                    span: span(text, c.pos, end.pos),
                },
            );
        },
        None => {},
    }
}

/// `card_definitions` keeps the diagnostics marking the text.
pub proof fn lemma_card_definitions_sound(
    text: Seq<char>,
    c: Cursor,
    space_before: bool,
    card_start: int,
)
    requires
        sound(text, c),
        0 <= card_start < c.pos,
    ensures
        sound(text, card_definitions(text, c, space_before, card_start).1),
{
    lemma_ws_run_sound(text, c);
    lemma_ws_run(text, c);
    let spaced = ws_run(text, c);
    let error = ParseError::MissingWhitespaceAroundDash { dash: span(text, c.pos - 1, c.pos) };
    lemma_span_marks(text, c.pos - 1, c.pos);
    lemma_flag_marks(text, spaced, error);
    let flagged = if !space_before || !(spaced.pos > c.pos) {
        spaced.flag(error)
    } else {
        spaced
    };
    lemma_options_sound(text, flagged);
    lemma_options(text, flagged);
    match options(text, flagged) {
        Some((_, end)) => {
            lemma_ws_run_sound(text, end);
            lemma_ws_run(text, end);
            lemma_third_part_sound(text, ws_run(text, end), card_start);
        },
        None => lemma_third_part_sound(text, flagged, card_start),
    }
}

/// `card` keeps the diagnostics marking the text.
pub proof fn lemma_card_sound(text: Seq<char>, c: Cursor)
    requires
        sound(text, c),
    ensures
        match card(text, c) {
            Some((_, next)) => sound(text, next),
            None => true,
        },
{
    lemma_card_head_sound(text, c);
    lemma_card_head(text, c);
    match card_head(text, c) {
        Some((head, next)) => {
            if head.has_dash {
                lemma_card_definitions_sound(text, next, head.space_before, c.pos);
                lemma_card_definitions(text, next, head.space_before, c.pos);
            }
            let (definitions, end) = if head.has_dash {
                card_definitions(text, next, head.space_before, c.pos)
            } else {
                (Seq::empty(), next)
            };
            let whole = span(text, c.pos, end.pos);
            lemma_span_marks(text, c.pos, end.pos);
            lemma_flag_marks(text, end, ParseError::NoTerms { card: whole });
            let first = if head.terms.len() == 0 {
                end.flag(ParseError::NoTerms { card: whole })
            } else {
                end
            };
            lemma_flag_marks(text, first, ParseError::NoDefinitions { card: whole });
            let second = if definitions.len() == 0 {
                first.flag(ParseError::NoDefinitions { card: whole })
            } else {
                first
            };
            lemma_comment_sound(text, second);
        },
        None => {},
    }
}

/// The cards read so far were read at spans that mark the text.
pub open spec fn deck_marks_text(text: Seq<char>, deck: Deck) -> bool {
    spans_mark_text(text, deck.spans, deck.cards.len())
}

/// `card_line` keeps the diagnostics and the spans of the cards marking the text.
pub proof fn lemma_card_line_sound(text: Seq<char>, c: Cursor, deck: Deck)
    requires
        sound(text, c),
        deck_marks_text(text, deck),
    ensures
        sound(text, card_line(text, c, deck).1),
        deck_marks_text(text, card_line(text, c, deck).0),
{
    lemma_card_sound(text, c);
    lemma_card(text, c);
    lemma_comment_sound(text, c);
    match card(text, c) {
        Some((found, end)) => {
            let here = span(text, c.pos, end.pos);
            lemma_span_marks(text, c.pos, end.pos);
            lemma_first_card(deck.cards, found);
            match first_card(deck.cards, found) {
                Some(i) => {
                    assert(marks_text(text, deck.spans[i]));
                    lemma_flag_marks(
                        text,
                        end,
                        ParseError::DuplicateCard { original: deck.spans[i], duplicate: here },
                    );
                },
                None => {
                    let after = deck.spans.push(here);
                    assert forall|i: int| 0 <= i < after.len() implies marks_text(
                        text,
                        #[trigger] after[i],
                    ) by {
                        if i < deck.spans.len() {
                            assert(after[i] == deck.spans[i]);
                        }
                    }
                },
            }
        },
        None => {},
    }
}

/// `card_lines` keeps the diagnostics marking the text.
pub proof fn lemma_card_lines_sound(text: Seq<char>, c: Cursor, deck: Deck)
    requires
        sound(text, c),
        deck_marks_text(text, deck),
    ensures
        sound(text, card_lines(text, c, deck).1),
    decreases text.len() - c.pos,
{
    lemma_single_sound(text, c);
    lemma_single(text, c);
    match newline(text, c) {
        Some(next) => {
            lemma_card_line(text, next, deck);
            lemma_card_line_sound(text, next, deck);
            let (taken, after) = card_line(text, next, deck);
            lemma_card_lines_sound(text, after, taken);
        },
        None => {},
    }
}

/// `leading_blank_lines` keeps the diagnostics marking the text.
pub proof fn lemma_leading_blank_lines_sound(text: Seq<char>, c: Cursor)
    requires
        sound(text, c),
    ensures
        sound(text, leading_blank_lines(text, c)),
    decreases text.len() - c.pos,
{
    lemma_comment_sound(text, c);
    lemma_blank_line(text, c);
    let blank = blank_line(text, c);
    lemma_single_sound(text, blank);
    lemma_single(text, blank);
    match newline(text, blank) {
        Some(next) => lemma_leading_blank_lines_sound(text, next),
        None => {},
    }
}

/// Every span of every diagnostic of a document is the byte span of a range of characters
/// of the text.
pub proof fn lemma_spans_mark_text(text: Seq<char>)
    ensures
        errors_mark_text(text, document(text).errors),
{
    let start = Cursor::start();
    let nothing = Deck { cards: Seq::empty(), spans: Seq::empty() };
    lemma_leading_blank_lines_sound(text, start);
    lemma_leading_blank_lines(text, start);
    let first = leading_blank_lines(text, start);
    lemma_title_sound(text, first);
    lemma_title(text, first);
    let titled = title(text, first).1;
    lemma_card_lines_sound(text, titled, nothing);
    let end = card_lines(text, titled, nothing).1;
    lemma_flag_marks(text, end, ParseError::EmptySet);
}

} // verus!
