//! A regular card set reads the same with `\r\n` line endings as with `\n`.
//!
//! The proof walks the grammar: at every rule, the cursor in the text with
//! `\r\n` stands where the cursor in the text with `\n` stands, moved by the
//! number of line breaks before it, and reads the same value. Only a run that
//! raises no diagnostic has to be followed this far; a run that is given up
//! has to be given up in both texts.

use crate::chars::{span, trim};
use crate::model::{Deck, first_card, first_index, Seen};
use crate::set::error::ParseError;
use crate::set::grammar::{
    add_card, add_option, after_comma, any, blank_line, card, card_definitions, card_head,
    card_line, card_lines, character, comma, comment, Cursor, dash_run, document, empty_slot_end,
    exact_char, leading_blank_lines, lemma_add_card, lemma_add_option, lemma_after_comma,
    lemma_blank_line, lemma_card, lemma_card_definitions, lemma_card_head, lemma_card_line,
    lemma_card_lines, lemma_comma, lemma_comment, lemma_dash_run, lemma_flag, lemma_follows_chain,
    lemma_leading_blank_lines, lemma_line_rest, lemma_option, lemma_option_piece, lemma_option_tail,
    lemma_option_ws_run, lemma_options, lemma_options_rest, lemma_plain_run, lemma_plain_skip,
    lemma_quiet_between, lemma_quoted, lemma_quoted_body, lemma_single, lemma_step,
    lemma_third_part, lemma_title, lemma_ws_run, line_rest, newline, option, option_atom,
    option_joint, option_piece, option_tail, option_ws, option_ws_run, options, options_rest,
    plain_char, plain_run, plain_skip, quiet, quoted, quoted_body, third_part, title, ws, ws_run,
};
use std::ops::Range;
use vstd::prelude::*;

verus! {

/// The number of line feeds among the first `pos` characters of `text`.
pub open spec fn line_feeds(text: Seq<char>, pos: int) -> int
    decreases pos,
{
    if pos <= 0 {
        0
    } else {
        line_feeds(text, pos - 1) + if text[pos - 1] == '\n' {
            1int
        } else {
            0int
        }
    }
}

/// Where the position `pos` of `text` lies in `with_crlf(text)`.
pub open spec fn shifted(text: Seq<char>, pos: int) -> int {
    pos + line_feeds(text, pos)
}

/// `text` with a carriage return before every line feed.
pub open spec fn with_crlf(text: Seq<char>) -> Seq<char>
    decreases text.len(),
{
    if text.len() == 0 {
        Seq::empty()
    } else if text.last() == '\n' {
        with_crlf(text.drop_last()).push('\r').push('\n')
    } else {
        with_crlf(text.drop_last()).push(text.last())
    }
}

/// `text` holds no carriage return.
pub open spec fn no_carriage_return(text: Seq<char>) -> bool {
    forall|i: int| 0 <= i < text.len() ==> text[i] != '\r'
}

/// The character at `pos` and the characters that stand for it in `with_crlf(text)`.
pub open spec fn char_mirrored(text: Seq<char>, pos: int) -> bool {
    let wide = with_crlf(text);
    let at = shifted(text, pos);
    &&& 0 <= at <= wide.len()
    &&& (pos == text.len()) == (at == wide.len())
    &&& pos < text.len() ==> if text[pos] == '\n' {
        &&& at + 1 < wide.len()
        &&& wide[at] == '\r'
        &&& wide[at + 1] == '\n'
        &&& shifted(text, pos + 1) == at + 2
    } else {
        &&& wide[at] == text[pos]
        &&& shifted(text, pos + 1) == at + 1
    }
}

/// `line_feeds_prefix` ends inside the text, not before the cursor it starts at, and keeps the
/// diagnostics of that cursor in place.
proof fn lemma_line_feeds_prefix(text: Seq<char>, front: Seq<char>, pos: int)
    requires
        0 <= pos <= front.len() <= text.len(),
        forall|i: int| 0 <= i < front.len() ==> front[i] == text[i],
    ensures
        line_feeds(front, pos) == line_feeds(text, pos),
    decreases pos,
{
    if pos > 0 {
        lemma_line_feeds_prefix(text, front, pos - 1);
    }
}

/// Every position of `text` has its place in `with_crlf(text)`.
pub proof fn lemma_chars_mirrored(text: Seq<char>)
    ensures
        forall|pos: int| 0 <= pos <= text.len() ==> #[trigger] char_mirrored(text, pos),
    decreases text.len(),
{
    if text.len() == 0 {
        assert(char_mirrored(text, 0));
    } else {
        let front = text.drop_last();
        let wide = with_crlf(text);
        let narrow = with_crlf(front);
        lemma_chars_mirrored(front);
        assert forall|pos: int| 0 <= pos <= text.len() implies #[trigger] char_mirrored(
            text,
            pos,
        ) by {
            if pos <= front.len() {
                lemma_line_feeds_prefix(text, front, pos);
                assert(char_mirrored(front, pos));
                if pos < front.len() {
                    lemma_line_feeds_prefix(text, front, pos + 1);
                    assert(char_mirrored(front, pos + 1));
                }
            } else {
                lemma_line_feeds_prefix(text, front, pos - 1);
                assert(char_mirrored(front, pos - 1));
            }
        }
    }
}

/// Positions keep their order.
pub proof fn lemma_shifted_order(text: Seq<char>, from: int, to: int)
    requires
        from <= to,
    ensures
        shifted(text, to) - shifted(text, from) >= to - from,
    decreases to - from,
{
    if from < to {
        lemma_shifted_order(text, from, to - 1);
    }
}

/// The cursor `wide` stands in `with_crlf(text)` where `narrow` stands in `text`.
pub open spec fn mirrors(text: Seq<char>, narrow: Cursor, wide: Cursor) -> bool {
    wide.pos == shifted(text, narrow.pos)
}

/// A step from `from` to `to` in `text` and the step from `wide_from` to `wide_to` in
/// `with_crlf(text)` end at the same place, and where the first flagged nothing, the second
/// flagged nothing.
pub open spec fn same_step(
    text: Seq<char>,
    from: Cursor,
    to: Cursor,
    wide_from: Cursor,
    wide_to: Cursor,
) -> bool {
    mirrors(text, to, wide_to) && (quiet(from, to) ==> wide_to.errors == wide_from.errors)
}

/// Two outcomes of a rule that gives a character, one in each text.
pub open spec fn same_char_step(
    text: Seq<char>,
    from: Cursor,
    wide_from: Cursor,
    narrow: Option<(char, Cursor)>,
    wide: Option<(char, Cursor)>,
) -> bool {
    match (narrow, wide) {
        (Some((ch, to)), Some((wide_ch, wide_to))) => ch == wide_ch && same_step(
            text,
            from,
            to,
            wide_from,
            wide_to,
        ),
        (None, None) => true,
        _ => false,
    }
}

/// Two outcomes of a rule that gives no value, one in each text.
pub open spec fn same_plain_step(
    text: Seq<char>,
    from: Cursor,
    wide_from: Cursor,
    narrow: Option<Cursor>,
    wide: Option<Cursor>,
) -> bool {
    match (narrow, wide) {
        (Some(to), Some(wide_to)) => same_step(text, from, to, wide_from, wide_to),
        (None, None) => true,
        _ => false,
    }
}

/// What stands at the cursor in `text` stands at its mirror in `with_crlf(text)`.
pub proof fn lemma_here(text: Seq<char>, c: Cursor, d: Cursor)
    requires
        no_carriage_return(text),
        c.within(text),
        mirrors(text, c, d),
    ensures
        d.within(with_crlf(text)),
        char_mirrored(text, c.pos),
        c.pos < text.len() ==> char_mirrored(text, c.pos + 1),
        c.pos < text.len() ==> text[c.pos] != '\r',
{
    lemma_chars_mirrored(text);
    assert(char_mirrored(text, c.pos));
    if c.pos < text.len() {
        assert(char_mirrored(text, c.pos + 1));
    }
}

/// `character` reads in the text with `\r\n` what it reads in the text with `\n`.
pub proof fn lemma_character_mirrored(text: Seq<char>, c: Cursor, d: Cursor)
    requires
        no_carriage_return(text),
        c.within(text),
        mirrors(text, c, d),
    ensures
        same_char_step(text, c, d, character(text, c), character(with_crlf(text), d)),
        same_char_step(text, c, d, plain_char(text, c), plain_char(with_crlf(text), d)),
        same_char_step(text, c, d, option_atom(text, c), option_atom(with_crlf(text), d)),
{
    lemma_here(text, c, d);
    let wide = with_crlf(text);
    if c.pos < text.len() {
        let ch = text[c.pos];
        if ch != '\n' {
            assert(wide[d.pos] == ch);
            assert(character(text, c) is Some);
            assert(character(wide, d) is Some);
            let to = character(text, c)->Some_0.1;
            let wide_to = character(wide, d)->Some_0.1;
            assert(mirrors(text, to, wide_to));
            if crate::chars::control(ch) {
                lemma_flag(
                    c,
                    ParseError::UnexpectedControlChar {
                        character: ch,
                        span: span(text, c.pos, c.pos + 1),
                    },
                );
                assert(to.errors.len() == c.errors.len() + 1);
            } else {
                assert(wide_to == d.step());
            }
            assert(same_char_step(text, c, d, character(text, c), character(wide, d)));
        } else {
            assert(character(text, c) is None);
            assert(character(wide, d) is None);
        }
    }
}

/// `option_ws` reads in the text with `\r\n` what it reads in the text with `\n`.
pub proof fn lemma_option_ws_mirrored(text: Seq<char>, c: Cursor, d: Cursor)
    requires
        no_carriage_return(text),
        c.within(text),
        mirrors(text, c, d),
    ensures
        same_char_step(text, c, d, option_ws(text, c), option_ws(with_crlf(text), d)),
{
    lemma_here(text, c, d);
    let wide = with_crlf(text);
    if c.pos < text.len() {
        let ch = text[c.pos];
        if crate::chars::field_space(ch) {
            assert(wide[d.pos] == ch);
            assert(option_ws(text, c) is Some);
            assert(option_ws(wide, d) is Some);
            let to = option_ws(text, c)->Some_0.1;
            let wide_to = option_ws(wide, d)->Some_0.1;
            assert(mirrors(text, to, wide_to));
            if crate::chars::control(ch) {
                lemma_flag(
                    c,
                    ParseError::UnexpectedControlChar {
                        character: ch,
                        span: span(text, c.pos, c.pos + 1),
                    },
                );
                assert(to.errors.len() == c.errors.len() + 1);
            } else {
                assert(wide_to == d.step());
            }
        } else {
            assert(option_ws(text, c) is None);
            assert(option_ws(wide, d) is None);
        }
    }
}

/// `ws` reads in the text with `\r\n` what it reads in the text with `\n`.
pub proof fn lemma_ws_mirrored(text: Seq<char>, c: Cursor, d: Cursor)
    requires
        no_carriage_return(text),
        c.within(text),
        mirrors(text, c, d),
    ensures
        same_plain_step(text, c, d, ws(text, c), ws(with_crlf(text), d)),
{
    lemma_here(text, c, d);
    let wide = with_crlf(text);
    if c.pos < text.len() {
        let ch = text[c.pos];
        assert(wide[d.pos] == ch || ch == '\n');
        if crate::chars::field_space(ch) {
            assert(ch != '\n');
            assert(wide[d.pos] == ch);
            assert(ws(text, c) is Some);
            assert(ws(wide, d) is Some);
            let to = ws(text, c)->Some_0;
            let wide_to = ws(wide, d)->Some_0;
            assert(to.pos == c.pos + 1);
            assert(wide_to.pos == d.pos + 1);
            assert(mirrors(text, to, wide_to));
            if ch == ' ' {
                assert(wide_to == d.step());
            } else {
                lemma_flag(
                    c,
                    ParseError::ExpectedSpace { character: ch, span: span(text, c.pos, c.pos + 1) },
                );
                assert(to.errors.len() == c.errors.len() + 1);
            }
        } else {
            assert(ws(text, c) is None);
            assert(ws(wide, d) is None);
        }
    }
}

/// `newline` reads in the text with `\r\n` what it reads in the text with `\n`.
pub proof fn lemma_newline_mirrored(text: Seq<char>, c: Cursor, d: Cursor)
    requires
        no_carriage_return(text),
        c.within(text),
        mirrors(text, c, d),
    ensures
        same_plain_step(text, c, d, newline(text, c), newline(with_crlf(text), d)),
{
    lemma_here(text, c, d);
}

/// `exact_char` reads in the text with `\r\n` what it reads in the text with `\n`.
pub proof fn lemma_exact_char_mirrored(text: Seq<char>, c: Cursor, d: Cursor, x: char)
    requires
        no_carriage_return(text),
        c.within(text),
        mirrors(text, c, d),
        x != '\r',
        x != '\n',
    ensures
        same_plain_step(text, c, d, exact_char(text, c, x), exact_char(with_crlf(text), d, x)),
{
    lemma_here(text, c, d);
}

/// `ws_run` reads in the text with `\r\n` what it reads in the text with `\n`.
pub proof fn lemma_ws_run_mirrored(text: Seq<char>, c: Cursor, d: Cursor)
    requires
        no_carriage_return(text),
        c.within(text),
        mirrors(text, c, d),
    ensures
        same_step(text, c, ws_run(text, c), d, ws_run(with_crlf(text), d)),
    decreases text.len() - c.pos,
{
    let wide = with_crlf(text);
    lemma_ws_mirrored(text, c, d);
    lemma_single(text, c);
    match ws(text, c) {
        Some(next) => {
            let wide_next = ws(wide, d)->Some_0;
            lemma_ws_run_mirrored(text, next, wide_next);
            lemma_ws_run(text, next);
        },
        None => {},
    }
}

/// `line_rest` reads in the text with `\r\n` what it reads in the text with `\n`.
pub proof fn lemma_line_rest_mirrored(text: Seq<char>, c: Cursor, d: Cursor)
    requires
        no_carriage_return(text),
        c.within(text),
        mirrors(text, c, d),
    ensures
        same_step(text, c, line_rest(text, c), d, line_rest(with_crlf(text), d)),
    decreases text.len() - c.pos,
{
    let wide = with_crlf(text);
    lemma_character_mirrored(text, c, d);
    lemma_single(text, c);
    match character(text, c) {
        Some((_, next)) => {
            let wide_next = character(wide, d)->Some_0.1;
            lemma_line_rest_mirrored(text, next, wide_next);
            lemma_line_rest(text, next);
        },
        None => {},
    }
}

/// `comment` reads in the text with `\r\n` what it reads in the text with `\n`.
pub proof fn lemma_comment_mirrored(text: Seq<char>, c: Cursor, d: Cursor)
    requires
        no_carriage_return(text),
        c.within(text),
        mirrors(text, c, d),
    ensures
        same_step(text, c, comment(text, c), d, comment(with_crlf(text), d)),
{
    let wide = with_crlf(text);
    lemma_exact_char_mirrored(text, c, d, '#');
    lemma_step(c);
    match exact_char(text, c, '#') {
        Some(next) => {
            let wide_next = exact_char(wide, d, '#')->Some_0;
            lemma_line_rest_mirrored(text, next, wide_next);
            lemma_line_rest(text, next);
        },
        None => {},
    }
}

/// `blank_line` reads in the text with `\r\n` what it reads in the text with `\n`.
pub proof fn lemma_blank_line_mirrored(text: Seq<char>, c: Cursor, d: Cursor)
    requires
        no_carriage_return(text),
        c.within(text),
        mirrors(text, c, d),
    ensures
        same_step(text, c, blank_line(text, c), d, blank_line(with_crlf(text), d)),
{
    let wide = with_crlf(text);
    lemma_ws_run_mirrored(text, c, d);
    lemma_ws_run(text, c);
    lemma_comment_mirrored(text, ws_run(text, c), ws_run(wide, d));
    lemma_comment(text, ws_run(text, c));
}

/// `plain_run` reads in the text with `\r\n` what it reads in the text with `\n`.
pub proof fn lemma_plain_run_mirrored(text: Seq<char>, c: Cursor, d: Cursor, acc: Seq<char>)
    requires
        no_carriage_return(text),
        c.within(text),
        mirrors(text, c, d),
    ensures
        plain_run(text, c, acc).0 == plain_run(with_crlf(text), d, acc).0,
        same_step(text, c, plain_run(text, c, acc).1, d, plain_run(with_crlf(text), d, acc).1),
    decreases text.len() - c.pos,
{
    let wide = with_crlf(text);
    lemma_character_mirrored(text, c, d);
    lemma_single(text, c);
    match plain_char(text, c) {
        Some((ch, next)) => {
            let wide_next = plain_char(wide, d)->Some_0.1;
            lemma_plain_run_mirrored(text, next, wide_next, acc.push(ch));
            lemma_plain_run(text, next, acc.push(ch));
        },
        None => {},
    }
}

/// `dash_run` reads in the text with `\r\n` what it reads in the text with `\n`.
pub proof fn lemma_dash_run_mirrored(text: Seq<char>, c: Cursor, d: Cursor, acc: Seq<char>)
    requires
        no_carriage_return(text),
        c.within(text),
        mirrors(text, c, d),
    ensures
        dash_run(text, c, acc).0 == dash_run(with_crlf(text), d, acc).0,
        same_step(text, c, dash_run(text, c, acc).1, d, dash_run(with_crlf(text), d, acc).1),
    decreases text.len() - c.pos,
{
    let wide = with_crlf(text);
    lemma_exact_char_mirrored(text, c, d, '-');
    lemma_single(text, c);
    match exact_char(text, c, '-') {
        Some(next) => {
            let wide_next = exact_char(wide, d, '-')->Some_0;
            lemma_dash_run_mirrored(text, next, wide_next, acc.push('-'));
            lemma_dash_run(text, next, acc.push('-'));
        },
        None => {},
    }
}

/// `option_ws_run` reads in the text with `\r\n` what it reads in the text with `\n`.
pub proof fn lemma_option_ws_run_mirrored(text: Seq<char>, c: Cursor, d: Cursor, acc: Seq<char>)
    requires
        no_carriage_return(text),
        c.within(text),
        mirrors(text, c, d),
    ensures
        option_ws_run(text, c, acc).0 == option_ws_run(with_crlf(text), d, acc).0,
        same_step(
            text,
            c,
            option_ws_run(text, c, acc).1,
            d,
            option_ws_run(with_crlf(text), d, acc).1,
        ),
    decreases text.len() - c.pos,
{
    let wide = with_crlf(text);
    lemma_option_ws_mirrored(text, c, d);
    lemma_single(text, c);
    match option_ws(text, c) {
        Some((ch, next)) => {
            let wide_next = option_ws(wide, d)->Some_0.1;
            lemma_option_ws_run_mirrored(text, next, wide_next, acc.push(ch));
            lemma_option_ws_run(text, next, acc.push(ch));
        },
        None => {},
    }
}

/// `title` reads in the text with `\r\n` what it reads in the text with `\n`.
pub proof fn lemma_title_mirrored(text: Seq<char>, c: Cursor, d: Cursor)
    requires
        no_carriage_return(text),
        c.within(text),
        mirrors(text, c, d),
    ensures
        title(text, c).0 == title(with_crlf(text), d).0,
        same_step(text, c, title(text, c).1, d, title(with_crlf(text), d).1),
{
    let wide = with_crlf(text);
    lemma_plain_run_mirrored(text, c, d, Seq::empty());
    lemma_plain_run(text, c, Seq::empty());
    let (raw, end) = plain_run(text, c, Seq::empty());
    let (wide_raw, wide_end) = plain_run(wide, d, Seq::empty());
    let error = ParseError::NoTitle { line: span(text, c.pos, end.pos) };
    let wide_error = ParseError::NoTitle { line: span(wide, d.pos, wide_end.pos) };
    let flagged = if trim(raw).len() == 0 {
        end.flag(error)
    } else {
        end
    };
    let wide_flagged = if trim(raw).len() == 0 {
        wide_end.flag(wide_error)
    } else {
        wide_end
    };
    lemma_flag(end, error);
    lemma_flag(wide_end, wide_error);
    lemma_comment_mirrored(text, flagged, wide_flagged);
    lemma_comment(text, flagged);
    lemma_follows_chain(c, end, flagged);
    if quiet(c, title(text, c).1) {
        lemma_quiet_between(c, flagged, title(text, c).1);
        lemma_quiet_between(c, end, flagged);
    }
}

/// `quoted_body` reads in the text with `\r\n` what it reads in the text with `\n`.
pub proof fn lemma_quoted_body_mirrored(
    text: Seq<char>,
    c: Cursor,
    d: Cursor,
    start: int,
    wide_start: int,
    acc: Seq<char>,
)
    requires
        no_carriage_return(text),
        c.within(text),
        mirrors(text, c, d),
        quiet(c, quoted_body(text, c, start, acc).1),
    ensures
        quoted_body(with_crlf(text), d, wide_start, acc).0 == quoted_body(text, c, start, acc).0,
        mirrors(
            text,
            quoted_body(text, c, start, acc).1,
            quoted_body(with_crlf(text), d, wide_start, acc).1,
        ),
        quoted_body(with_crlf(text), d, wide_start, acc).1.errors == d.errors,
    decreases text.len() - c.pos,
{
    let wide = with_crlf(text);
    let result = quoted_body(text, c, start, acc).1;
    lemma_character_mirrored(text, c, d);
    lemma_single(text, c);
    match character(text, c) {
        None => {
            lemma_flag(c, ParseError::UnclosedQuote { span: span(text, start, c.pos) });
        },
        Some((ch, next)) => {
            let wide_next = character(wide, d)->Some_0.1;
            if ch == '\\' {
                lemma_here(text, next, wide_next);
                match any(text, next) {
                    Some((escape, after)) => {
                        if escape == '"' || escape == '\\' {
                            let wide_after = wide_next.step();
                            lemma_quoted_body(text, after, start, acc.push(escape));
                            lemma_step(next);
                            lemma_quiet_between(c, next, after);
                            lemma_follows_chain(c, next, after);
                            lemma_quiet_between(c, after, result);
                            lemma_quoted_body_mirrored(
                                text,
                                after,
                                wide_after,
                                start,
                                wide_start,
                                acc.push(escape),
                            );
                        } else {
                            let error = ParseError::UnknownEscape {
                                escape,
                                span: span(text, next.pos, after.pos),
                            };
                            lemma_quoted_body(text, after.flag(error), start, acc);
                            lemma_flag(next, error);
                        }
                    },
                    None => {
                        lemma_quoted_body(text, next, start, acc);
                        lemma_quiet_between(c, next, result);
                        lemma_quoted_body_mirrored(text, next, wide_next, start, wide_start, acc);
                    },
                }
            } else if ch == '"' {
            } else {
                lemma_quoted_body(text, next, start, acc.push(ch));
                lemma_quiet_between(c, next, result);
                lemma_quoted_body_mirrored(
                    text,
                    next,
                    wide_next,
                    start,
                    wide_start,
                    acc.push(ch),
                );
            }
        },
    }
}

/// Two outcomes of a rule that gives a text, one in each text: where the rule fails in
/// `text` it fails in `with_crlf(text)`, and where it succeeds without a flag it succeeds
/// there with the same value and without a flag.
pub open spec fn same_text_step(
    text: Seq<char>,
    from: Cursor,
    wide_from: Cursor,
    narrow: Option<(Seq<char>, Cursor)>,
    wide: Option<(Seq<char>, Cursor)>,
) -> bool {
    match narrow {
        Some((value, to)) => quiet(from, to) ==> match wide {
            Some((wide_value, wide_to)) => {
                &&& wide_value == value
                &&& mirrors(text, to, wide_to)
                &&& wide_to.errors == wide_from.errors
            },
            None => false,
        },
        None => wide is None,
    }
}

/// `quoted` reads in the text with `\r\n` what it reads in the text with `\n`.
pub proof fn lemma_quoted_mirrored(text: Seq<char>, c: Cursor, d: Cursor)
    requires
        no_carriage_return(text),
        c.within(text),
        mirrors(text, c, d),
    ensures
        same_text_step(text, c, d, quoted(text, c), quoted(with_crlf(text), d)),
{
    let wide = with_crlf(text);
    lemma_exact_char_mirrored(text, c, d, '"');
    match exact_char(text, c, '"') {
        Some(next) => {
            let wide_next = exact_char(wide, d, '"')->Some_0;
            let result = quoted_body(text, next, c.pos, Seq::empty()).1;
            lemma_quoted_body(text, next, c.pos, Seq::empty());
            lemma_step(c);
            if quiet(c, result) {
                lemma_quiet_between(c, next, result);
                lemma_quoted_body_mirrored(text, next, wide_next, c.pos, d.pos, Seq::empty());
            }
        },
        None => {},
    }
}

/// `option_joint` reads in the text with `\r\n` what it reads in the text with `\n`.
pub proof fn lemma_option_joint_mirrored(text: Seq<char>, c: Cursor, d: Cursor)
    requires
        no_carriage_return(text),
        c.within(text),
        mirrors(text, c, d),
    ensures
        option_joint(text, c).0 == option_joint(with_crlf(text), d).0,
        same_step(text, c, option_joint(text, c).1, d, option_joint(with_crlf(text), d).1),
{
    lemma_exact_char_mirrored(text, c, d, '-');
    lemma_dash_run_mirrored(text, c, d, Seq::empty());
    lemma_option_ws_run_mirrored(text, c, d, Seq::empty());
}

/// `option_joint` ends inside the text, not before the cursor it starts at, and keeps the
/// diagnostics of that cursor in place.
pub proof fn lemma_option_joint(text: Seq<char>, c: Cursor)
    requires
        c.within(text),
    ensures
        option_joint(text, c).1.within(text),
        option_joint(text, c).1.follows(c),
{
    lemma_dash_run(text, c, Seq::empty());
    lemma_option_ws_run(text, c, Seq::empty());
}

/// `option_piece` reads in the text with `\r\n` what it reads in the text with `\n`.
pub proof fn lemma_option_piece_mirrored(text: Seq<char>, c: Cursor, d: Cursor)
    requires
        no_carriage_return(text),
        c.within(text),
        mirrors(text, c, d),
    ensures
        same_text_step(text, c, d, option_piece(text, c), option_piece(with_crlf(text), d)),
{
    let wide = with_crlf(text);
    lemma_option_joint_mirrored(text, c, d);
    lemma_option_joint(text, c);
    let mid = option_joint(text, c).1;
    let wide_mid = option_joint(wide, d).1;
    lemma_character_mirrored(text, mid, wide_mid);
    lemma_single(text, mid);
    match option_atom(text, mid) {
        Some((_, next)) => {
            if quiet(c, next) {
                lemma_quiet_between(c, mid, next);
            }
        },
        None => {},
    }
}

/// `option_tail` reads in the text with `\r\n` what it reads in the text with `\n`.
pub proof fn lemma_option_tail_mirrored(text: Seq<char>, c: Cursor, d: Cursor, acc: Seq<char>)
    requires
        no_carriage_return(text),
        c.within(text),
        mirrors(text, c, d),
        quiet(c, option_tail(text, c, acc).1),
    ensures
        option_tail(with_crlf(text), d, acc).0 == option_tail(text, c, acc).0,
        mirrors(text, option_tail(text, c, acc).1, option_tail(with_crlf(text), d, acc).1),
        option_tail(with_crlf(text), d, acc).1.errors == d.errors,
    decreases text.len() - c.pos,
{
    let wide = with_crlf(text);
    lemma_here(text, c, d);
    lemma_option_piece_mirrored(text, c, d);
    lemma_option_piece(text, c);
    match option_piece(text, c) {
        Some((piece, next)) => {
            lemma_option_tail(text, next, acc + piece);
            lemma_quiet_between(c, next, option_tail(text, next, acc + piece).1);
            let wide_next = option_piece(wide, d)->Some_0.1;
            lemma_option_tail_mirrored(text, next, wide_next, acc + piece);
        },
        None => {},
    }
}

/// `option` reads in the text with `\r\n` what it reads in the text with `\n`.
pub proof fn lemma_option_mirrored(text: Seq<char>, c: Cursor, d: Cursor)
    requires
        no_carriage_return(text),
        c.within(text),
        mirrors(text, c, d),
    ensures
        same_text_step(text, c, d, option(text, c), option(with_crlf(text), d)),
{
    let wide = with_crlf(text);
    lemma_quoted_mirrored(text, c, d);
    lemma_quoted(text, c);
    lemma_character_mirrored(text, c, d);
    lemma_single(text, c);
    match quoted(text, c) {
        Some((inside, after_quote)) => {
            let (value, end) = option_tail(text, after_quote, inside);
            lemma_option_tail(text, after_quote, inside);
            let error = ParseError::TrailingOptionChars {
                span: span(text, after_quote.pos, end.pos),
            };
            lemma_flag(end, error);
            let result = option(text, c)->Some_0.1;
            if quiet(c, result) {
                lemma_follows_chain(c, after_quote, end);
                lemma_quiet_between(c, end, result);
                lemma_quiet_between(c, after_quote, end);
                let wide_after = quoted(wide, d)->Some_0.1;
                lemma_option_tail_mirrored(text, after_quote, wide_after, inside);
                lemma_option_piece_mirrored(text, after_quote, wide_after);
            }
        },
        None => match option_atom(text, c) {
            Some((ch, next)) => {
                let result = option_tail(text, next, seq![ch]).1;
                lemma_option_tail(text, next, seq![ch]);
                if quiet(c, result) {
                    lemma_quiet_between(c, next, result);
                    let wide_next = option_atom(wide, d)->Some_0.1;
                    lemma_option_tail_mirrored(text, next, wide_next, seq![ch]);
                }
            },
            None => {},
        },
    }
}

/// The options seen in `with_crlf(text)` are those seen in `text`.
pub open spec fn same_seen(narrow: Seen, wide: Seen) -> bool {
    narrow.values == wide.values
}

/// `add_option` reads in the text with `\r\n` what it reads in the text with `\n`.
pub proof fn lemma_add_option_mirrored(
    seen: Seen,
    wide_seen: Seen,
    c: Cursor,
    d: Cursor,
    value: Seq<char>,
    at: Range<usize>,
    wide_at: Range<usize>,
)
    requires
        same_seen(seen, wide_seen),
        quiet(c, add_option(seen, c, value, at).1),
    ensures
        same_seen(add_option(seen, c, value, at).0, add_option(wide_seen, d, value, wide_at).0),
        add_option(wide_seen, d, value, wide_at).1 == d,
        add_option(seen, c, value, at).1 == c,
{
    lemma_flag(c, ParseError::EmptyOption { span: at });
    match first_index(seen.values, value) {
        Some(i) => lemma_flag(
            c,
            ParseError::DuplicateOption { original: seen.spans[i], duplicate: at },
        ),
        None => {},
    }
}

/// `comma` reads in the text with `\r\n` what it reads in the text with `\n`.
pub proof fn lemma_comma_mirrored(text: Seq<char>, c: Cursor, d: Cursor)
    requires
        no_carriage_return(text),
        c.within(text),
        mirrors(text, c, d),
    ensures
        match comma(text, c) {
            Some((_, to)) => match comma(with_crlf(text), d) {
                Some((_, wide_to)) => same_step(text, c, to, d, wide_to),
                None => false,
            },
            None => comma(with_crlf(text), d) is None,
        },
{
    let wide = with_crlf(text);
    lemma_ws_run_mirrored(text, c, d);
    lemma_ws_run(text, c);
    let at = ws_run(text, c);
    let wide_at = ws_run(wide, d);
    lemma_exact_char_mirrored(text, at, wide_at, ',');
    lemma_step(at);
    match exact_char(text, at, ',') {
        Some(next) => {
            if quiet(c, next) {
                lemma_quiet_between(c, at, next);
            }
        },
        None => {},
    }
}

/// `after_comma` reads in the text with `\r\n` what it reads in the text with `\n`.
pub proof fn lemma_after_comma_mirrored(
    text: Seq<char>,
    c: Cursor,
    d: Cursor,
    comma_at: int,
    wide_comma_at: int,
    seen: Seen,
    wide_seen: Seen,
)
    requires
        no_carriage_return(text),
        c.within(text),
        mirrors(text, c, d),
        same_seen(seen, wide_seen),
        quiet(c, after_comma(text, c, comma_at, seen).1),
    ensures
        same_seen(
            after_comma(text, c, comma_at, seen).0,
            after_comma(with_crlf(text), d, wide_comma_at, wide_seen).0,
        ),
        mirrors(
            text,
            after_comma(text, c, comma_at, seen).1,
            after_comma(with_crlf(text), d, wide_comma_at, wide_seen).1,
        ),
        after_comma(with_crlf(text), d, wide_comma_at, wide_seen).1.errors == d.errors,
{
    let wide = with_crlf(text);
    lemma_ws_run_mirrored(text, c, d);
    lemma_ws_run(text, c);
    let at = ws_run(text, c);
    let wide_at = ws_run(wide, d);
    lemma_option_mirrored(text, at, wide_at);
    lemma_option(text, at);
    match option(text, at) {
        Some((value, end)) => {
            let here = span(text, at.pos, end.pos);
            let result = add_option(seen, end, value, here).1;
            lemma_add_option(seen, end, value, here);
            lemma_follows_chain(c, at, end);
            lemma_quiet_between(c, end, result);
            lemma_quiet_between(c, at, end);
            let wide_end = option(wide, wide_at)->Some_0.1;
            lemma_add_option_mirrored(
                seen,
                wide_seen,
                end,
                wide_end,
                value,
                here,
                span(wide, wide_at.pos, wide_end.pos),
            );
        },
        None => {
            lemma_flag(
                c,
                ParseError::EmptyOption { span: span(text, comma_at, empty_slot_end(text, c)) },
            );
        },
    }
}

/// `options_rest` reads in the text with `\r\n` what it reads in the text with `\n`.
pub proof fn lemma_options_rest_mirrored(
    text: Seq<char>,
    c: Cursor,
    d: Cursor,
    seen: Seen,
    wide_seen: Seen,
)
    requires
        no_carriage_return(text),
        c.within(text),
        mirrors(text, c, d),
        same_seen(seen, wide_seen),
        quiet(c, options_rest(text, c, seen).1),
    ensures
        same_seen(options_rest(text, c, seen).0, options_rest(with_crlf(text), d, wide_seen).0),
        mirrors(
            text,
            options_rest(text, c, seen).1,
            options_rest(with_crlf(text), d, wide_seen).1,
        ),
        options_rest(with_crlf(text), d, wide_seen).1.errors == d.errors,
    decreases text.len() - c.pos,
{
    let wide = with_crlf(text);
    lemma_here(text, c, d);
    lemma_comma_mirrored(text, c, d);
    lemma_comma(text, c);
    match comma(text, c) {
        Some((comma_at, next)) => {
            let (wide_comma_at, wide_next) = comma(wide, d)->Some_0;
            let (taken, after) = after_comma(text, next, comma_at, seen);
            lemma_after_comma(text, next, comma_at, seen);
            lemma_options_rest(text, after, taken);
            let result = options_rest(text, after, taken).1;
            lemma_follows_chain(c, next, after);
            lemma_quiet_between(c, after, result);
            lemma_quiet_between(c, next, after);
            lemma_after_comma_mirrored(
                text,
                next,
                wide_next,
                comma_at,
                wide_comma_at,
                seen,
                wide_seen,
            );
            let (wide_taken, wide_after) = after_comma(wide, wide_next, wide_comma_at, wide_seen);
            lemma_options_rest_mirrored(text, after, wide_after, taken, wide_taken);
        },
        None => {},
    }
}

/// Two outcomes of the rule for option lists, one in each text.
pub open spec fn same_list_step(
    text: Seq<char>,
    from: Cursor,
    wide_from: Cursor,
    narrow: Option<(Seq<Seq<char>>, Cursor)>,
    wide: Option<(Seq<Seq<char>>, Cursor)>,
) -> bool {
    match narrow {
        Some((value, to)) => quiet(from, to) ==> match wide {
            Some((wide_value, wide_to)) => {
                &&& wide_value == value
                &&& mirrors(text, to, wide_to)
                &&& wide_to.errors == wide_from.errors
            },
            None => false,
        },
        None => wide is None,
    }
}

/// `options` reads in the text with `\r\n` what it reads in the text with `\n`.
pub proof fn lemma_options_mirrored(text: Seq<char>, c: Cursor, d: Cursor)
    requires
        no_carriage_return(text),
        c.within(text),
        mirrors(text, c, d),
    ensures
        same_list_step(text, c, d, options(text, c), options(with_crlf(text), d)),
{
    let wide = with_crlf(text);
    let nothing = Seen { values: Seq::empty(), spans: Seq::empty() };
    lemma_exact_char_mirrored(text, c, d, ',');
    lemma_options(text, c);
    match exact_char(text, c, ',') {
        Some(next) => {
            let error = ParseError::EmptyOption { span: span(text, c.pos, next.pos) };
            let flagged = next.flag(error);
            lemma_flag(c, error);
            lemma_after_comma(text, flagged, c.pos, nothing);
            let (first, after) = after_comma(text, flagged, c.pos, nothing);
            lemma_options_rest(text, after, first);
            lemma_follows_chain(flagged, after, options_rest(text, after, first).1);
        },
        None => {
            lemma_option_mirrored(text, c, d);
            lemma_option(text, c);
            match option(text, c) {
                Some((value, next)) => {
                    let here = span(text, c.pos, next.pos);
                    let (first, after) = add_option(nothing, next, value, here);
                    lemma_add_option(nothing, next, value, here);
                    lemma_options_rest(text, after, first);
                    let result = options_rest(text, after, first).1;
                    if quiet(c, result) {
                        lemma_follows_chain(c, next, after);
                        lemma_quiet_between(c, after, result);
                        lemma_quiet_between(c, next, after);
                        let wide_next = option(wide, d)->Some_0.1;
                        let wide_here = span(wide, d.pos, wide_next.pos);
                        lemma_add_option_mirrored(
                            nothing,
                            nothing,
                            next,
                            wide_next,
                            value,
                            here,
                            wide_here,
                        );
                        let (wide_first, wide_after) = add_option(
                            nothing,
                            wide_next,
                            value,
                            wide_here,
                        );
                        lemma_options_rest_mirrored(text, after, wide_after, first, wide_first);
                    }
                },
                None => {},
            }
        },
    }
}

/// `card_head` reads in the text with `\r\n` what it reads in the text with `\n`.
pub proof fn lemma_card_head_mirrored(text: Seq<char>, c: Cursor, d: Cursor)
    requires
        no_carriage_return(text),
        c.within(text),
        mirrors(text, c, d),
    ensures
        match card_head(text, c) {
            Some((head, to)) => quiet(c, to) ==> match card_head(with_crlf(text), d) {
                Some((wide_head, wide_to)) => {
                    &&& wide_head == head
                    &&& mirrors(text, to, wide_to)
                    &&& wide_to.errors == d.errors
                },
                None => false,
            },
            None => card_head(with_crlf(text), d) is None,
        },
{
    let wide = with_crlf(text);
    lemma_ws_run_mirrored(text, c, d);
    lemma_ws_run(text, c);
    let lead = ws_run(text, c);
    let wide_lead = ws_run(wide, d);
    lemma_options_mirrored(text, lead, wide_lead);
    lemma_options(text, lead);
    lemma_step(c);
    let terms = options(text, lead);
    let wide_terms = options(wide, wide_lead);
    let after_terms = match terms {
        Some((_, end)) => end,
        None => c,
    };
    let wide_after_terms = match wide_terms {
        Some((_, end)) => end,
        None => d,
    };
    if terms is Some {
        lemma_follows_chain(c, lead, after_terms);
    }
    lemma_ws_run(text, after_terms);
    let at_dash = ws_run(text, after_terms);
    lemma_follows_chain(c, after_terms, at_dash);
    lemma_single(text, at_dash);
    lemma_shifted_order(text, after_terms.pos, at_dash.pos);
    match card_head(text, c) {
        Some((head, to)) => {
            if quiet(c, to) {
                lemma_follows_chain(c, at_dash, to);
                lemma_quiet_between(c, at_dash, to);
                lemma_quiet_between(c, after_terms, at_dash);
                if terms is Some {
                    lemma_quiet_between(c, lead, after_terms);
                }
                lemma_ws_run_mirrored(text, after_terms, wide_after_terms);
                let wide_at_dash = ws_run(wide, wide_after_terms);
                lemma_exact_char_mirrored(text, at_dash, wide_at_dash, '-');
            }
        },
        None => {
            lemma_ws_run_mirrored(text, after_terms, wide_after_terms);
            let wide_at_dash = ws_run(wide, wide_after_terms);
            lemma_exact_char_mirrored(text, at_dash, wide_at_dash, '-');
        },
    }
}

/// `third_part` reads in the text with `\r\n` what it reads in the text with `\n`.
pub proof fn lemma_third_part_mirrored(
    text: Seq<char>,
    c: Cursor,
    d: Cursor,
    card_start: int,
    wide_card_start: int,
)
    requires
        no_carriage_return(text),
        c.within(text),
        mirrors(text, c, d),
        quiet(c, third_part(text, c, card_start)),
    ensures
        third_part(text, c, card_start) == c,
        third_part(with_crlf(text), d, wide_card_start) == d,
{
    lemma_exact_char_mirrored(text, c, d, '-');
    lemma_single(text, c);
    match exact_char(text, c, '-') {
        Some(next) => {
            lemma_plain_skip(text, next);
            let end = plain_skip(text, next);
            lemma_flag(
                end,
                ParseError::ThirdPart {
                    before: span(text, card_start, c.pos),
                    span: span(text, c.pos, end.pos),
                },
            );
        },
        None => {},
    }
}

/// `card_definitions` reads in the text with `\r\n` what it reads in the text with `\n`.
pub proof fn lemma_card_definitions_mirrored(
    text: Seq<char>,
    c: Cursor,
    d: Cursor,
    space_before: bool,
    card_start: int,
    wide_card_start: int,
)
    requires
        no_carriage_return(text),
        c.within(text),
        mirrors(text, c, d),
        quiet(c, card_definitions(text, c, space_before, card_start).1),
    ensures
        card_definitions(with_crlf(text), d, space_before, wide_card_start).0 == card_definitions(
            text,
            c,
            space_before,
            card_start,
        ).0,
        mirrors(
            text,
            card_definitions(text, c, space_before, card_start).1,
            card_definitions(with_crlf(text), d, space_before, wide_card_start).1,
        ),
        card_definitions(with_crlf(text), d, space_before, wide_card_start).1.errors == d.errors,
{
    let wide = with_crlf(text);
    let result = card_definitions(text, c, space_before, card_start).1;
    lemma_card_definitions(text, c, space_before, card_start);
    lemma_ws_run_mirrored(text, c, d);
    lemma_ws_run(text, c);
    let spaced = ws_run(text, c);
    let wide_spaced = ws_run(wide, d);
    let error = ParseError::MissingWhitespaceAroundDash { dash: span(text, c.pos - 1, c.pos) };
    let flagged = if !space_before || !(spaced.pos > c.pos) {
        spaced.flag(error)
    } else {
        spaced
    };
    lemma_flag(spaced, error);
    lemma_follows_chain(c, spaced, flagged);
    lemma_options(text, flagged);
    lemma_here(text, c, d);
    lemma_here(text, spaced, wide_spaced);
    lemma_shifted_order(text, c.pos, spaced.pos);
    match options(text, flagged) {
        Some((_, end)) => {
            lemma_ws_run(text, end);
            let after = ws_run(text, end);
            lemma_third_part(text, after, card_start);
            lemma_follows_chain(c, flagged, end);
            lemma_follows_chain(c, end, after);
            lemma_quiet_between(c, after, result);
            lemma_quiet_between(c, end, after);
            lemma_quiet_between(c, flagged, end);
            lemma_quiet_between(c, spaced, flagged);
            lemma_options_mirrored(text, flagged, wide_spaced);
            let wide_end = options(wide, wide_spaced)->Some_0.1;
            lemma_ws_run_mirrored(text, end, wide_end);
            let wide_after = ws_run(wide, wide_end);
            lemma_third_part_mirrored(text, after, wide_after, card_start, wide_card_start);
        },
        None => {
            lemma_third_part(text, flagged, card_start);
            lemma_quiet_between(c, flagged, result);
            lemma_quiet_between(c, spaced, flagged);
            lemma_options_mirrored(text, flagged, wide_spaced);
            lemma_third_part_mirrored(text, flagged, wide_spaced, card_start, wide_card_start);
        },
    }
}

/// `card` reads in the text with `\r\n` what it reads in the text with `\n`.
pub proof fn lemma_card_mirrored(text: Seq<char>, c: Cursor, d: Cursor)
    requires
        no_carriage_return(text),
        c.within(text),
        mirrors(text, c, d),
    ensures
        match card(text, c) {
            Some((found, to)) => quiet(c, to) ==> match card(with_crlf(text), d) {
                Some((wide_found, wide_to)) => {
                    &&& wide_found == found
                    &&& mirrors(text, to, wide_to)
                    &&& wide_to.errors == d.errors
                },
                None => false,
            },
            None => card(with_crlf(text), d) is None,
        },
{
    let wide = with_crlf(text);
    lemma_card_head_mirrored(text, c, d);
    lemma_card_head(text, c);
    match card_head(text, c) {
        Some((head, next)) => {
            if head.has_dash {
                lemma_card_definitions(text, next, head.space_before, c.pos);
            }
            let (definitions, end) = if head.has_dash {
                card_definitions(text, next, head.space_before, c.pos)
            } else {
                (Seq::empty(), next)
            };
            lemma_step(next);
            lemma_follows_chain(c, next, end);
            let whole = span(text, c.pos, end.pos);
            let first = if head.terms.len() == 0 {
                end.flag(ParseError::NoTerms { card: whole })
            } else {
                end
            };
            lemma_flag(end, ParseError::NoTerms { card: whole });
            lemma_follows_chain(c, end, first);
            let second = if definitions.len() == 0 {
                first.flag(ParseError::NoDefinitions { card: whole })
            } else {
                first
            };
            lemma_flag(first, ParseError::NoDefinitions { card: whole });
            lemma_follows_chain(c, first, second);
            lemma_comment(text, second);
            let to = comment(text, second);
            if quiet(c, to) {
                lemma_quiet_between(c, second, to);
                lemma_quiet_between(c, first, second);
                lemma_quiet_between(c, end, first);
                lemma_quiet_between(c, next, end);
                let wide_next = card_head(wide, d)->Some_0.1;
                if head.has_dash {
                    lemma_card_definitions_mirrored(
                        text,
                        next,
                        wide_next,
                        head.space_before,
                        c.pos,
                        d.pos,
                    );
                }
                let wide_end = if head.has_dash {
                    card_definitions(wide, wide_next, head.space_before, d.pos).1
                } else {
                    wide_next
                };
                lemma_comment_mirrored(text, end, wide_end);
            }
        },
        None => {},
    }
}

/// The cards read in `with_crlf(text)` are those read in `text`.
pub open spec fn same_deck(narrow: Deck, wide: Deck) -> bool {
    narrow.cards == wide.cards
}

/// `card_line` reads in the text with `\r\n` what it reads in the text with `\n`.
pub proof fn lemma_card_line_mirrored(
    text: Seq<char>,
    c: Cursor,
    d: Cursor,
    deck: Deck,
    wide_deck: Deck,
)
    requires
        no_carriage_return(text),
        c.within(text),
        mirrors(text, c, d),
        same_deck(deck, wide_deck),
        quiet(c, card_line(text, c, deck).1),
    ensures
        same_deck(card_line(text, c, deck).0, card_line(with_crlf(text), d, wide_deck).0),
        mirrors(text, card_line(text, c, deck).1, card_line(with_crlf(text), d, wide_deck).1),
        card_line(with_crlf(text), d, wide_deck).1.errors == d.errors,
{
    let wide = with_crlf(text);
    lemma_card_mirrored(text, c, d);
    lemma_card(text, c);
    match card(text, c) {
        Some((found, end)) => {
            let here = span(text, c.pos, end.pos);
            lemma_add_card(deck, end, found, here);
            lemma_quiet_between(c, end, add_card(deck, end, found, here).1);
            match first_card(deck.cards, found) {
                Some(i) => lemma_flag(
                    end,
                    ParseError::DuplicateCard { original: deck.spans[i], duplicate: here },
                ),
                None => {},
            }
        },
        None => {
            lemma_blank_line_mirrored(text, c, d);
        },
    }
}

/// `card_lines` reads in the text with `\r\n` what it reads in the text with `\n`.
pub proof fn lemma_card_lines_mirrored(
    text: Seq<char>,
    c: Cursor,
    d: Cursor,
    deck: Deck,
    wide_deck: Deck,
)
    requires
        no_carriage_return(text),
        c.within(text),
        mirrors(text, c, d),
        same_deck(deck, wide_deck),
        quiet(c, card_lines(text, c, deck).1),
    ensures
        same_deck(card_lines(text, c, deck).0, card_lines(with_crlf(text), d, wide_deck).0),
        mirrors(text, card_lines(text, c, deck).1, card_lines(with_crlf(text), d, wide_deck).1),
        card_lines(with_crlf(text), d, wide_deck).1.errors == d.errors,
    decreases text.len() - c.pos,
{
    let wide = with_crlf(text);
    lemma_here(text, c, d);
    lemma_newline_mirrored(text, c, d);
    lemma_single(text, c);
    match newline(text, c) {
        Some(next) => {
            let wide_next = newline(wide, d)->Some_0;
            let (taken, after) = card_line(text, next, deck);
            lemma_card_line(text, next, deck);
            lemma_card_lines(text, after, taken);
            let result = card_lines(text, after, taken).1;
            lemma_follows_chain(c, next, after);
            lemma_quiet_between(c, after, result);
            lemma_quiet_between(c, next, after);
            lemma_card_line_mirrored(text, next, wide_next, deck, wide_deck);
            let (wide_taken, wide_after) = card_line(wide, wide_next, wide_deck);
            lemma_card_lines_mirrored(text, after, wide_after, taken, wide_taken);
        },
        None => {},
    }
}

/// `leading_blank_lines` reads in the text with `\r\n` what it reads in the text with `\n`.
pub proof fn lemma_leading_blank_lines_mirrored(text: Seq<char>, c: Cursor, d: Cursor)
    requires
        no_carriage_return(text),
        c.within(text),
        mirrors(text, c, d),
        quiet(c, leading_blank_lines(text, c)),
    ensures
        mirrors(text, leading_blank_lines(text, c), leading_blank_lines(with_crlf(text), d)),
        leading_blank_lines(with_crlf(text), d).errors == d.errors,
    decreases text.len() - c.pos,
{
    let wide = with_crlf(text);
    lemma_here(text, c, d);
    lemma_blank_line_mirrored(text, c, d);
    lemma_blank_line(text, c);
    let blank = blank_line(text, c);
    let wide_blank = blank_line(wide, d);
    lemma_newline_mirrored(text, blank, wide_blank);
    lemma_single(text, blank);
    match newline(text, blank) {
        Some(next) => {
            let wide_next = newline(wide, wide_blank)->Some_0;
            lemma_leading_blank_lines(text, next);
            lemma_follows_chain(c, blank, next);
            lemma_quiet_between(c, next, leading_blank_lines(text, next));
            lemma_quiet_between(c, blank, next);
            lemma_leading_blank_lines_mirrored(text, next, wide_next);
        },
        None => {},
    }
}

/// A card set without diagnostics reads the same with `\r\n` line endings: where `text` holds
/// no carriage return and raises no diagnostic, `with_crlf(text)` raises none and gives the
/// same set.
pub proof fn lemma_line_endings(text: Seq<char>)
    requires
        no_carriage_return(text),
        document(text).errors.len() == 0,
    ensures
        document(with_crlf(text)).errors.len() == 0,
        document(with_crlf(text)).set == document(text).set,
{
    let wide = with_crlf(text);
    let c0 = Cursor::start();
    let nothing = Deck { cards: Seq::empty(), spans: Seq::empty() };
    lemma_leading_blank_lines(text, c0);
    let c1 = leading_blank_lines(text, c0);
    lemma_title(text, c1);
    let c2 = title(text, c1).1;
    lemma_card_lines(text, c2, nothing);
    let (deck, c3) = card_lines(text, c2, nothing);
    lemma_flag(c3, ParseError::EmptySet);
    lemma_follows_chain(c0, c1, c2);
    lemma_follows_chain(c0, c2, c3);
    lemma_quiet_between(c0, c2, c3);
    lemma_quiet_between(c0, c1, c2);
    lemma_leading_blank_lines_mirrored(text, c0, c0);
    let d1 = leading_blank_lines(wide, c0);
    lemma_title_mirrored(text, c1, d1);
    let d2 = title(wide, d1).1;
    lemma_card_lines_mirrored(text, c2, d2, nothing, nothing);
}

} // verus!
