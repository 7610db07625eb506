//! A document is read to its end, whatever it holds.
//!
//! Every line ends at a line break or at the end of the text, and the lines are read as long
//! as a line break follows: so nothing is left behind the last line.

use crate::chars::field_space;
use crate::model::{Deck, Seen};
use crate::set::grammar::{
    add_option, after_comma, atom_char, blank_line, card, card_definitions, card_head, card_line,
    card_lines, character, comma, comment, Cursor, document_from, exact_char, leading_blank_lines,
    lemma_card_definitions, lemma_card_head, lemma_card_line, lemma_comma,
    lemma_leading_blank_lines, lemma_option, lemma_option_piece, lemma_options, lemma_plain_run,
    lemma_quoted, lemma_single, lemma_title, lemma_ws_run, line_rest, newline, option, option_atom,
    option_joint, option_piece, option_tail, option_ws, option_ws_run, options, options_rest,
    plain_char, plain_run, plain_skip, quoted, third_part, title, ws, ws_run,
};
use vstd::prelude::*;

verus! {

/// A line ends at `pos`: the text ends there, or a line break stands there.
pub open spec fn line_ends(text: Seq<char>, pos: int) -> bool {
    pos == text.len() || (0 <= pos < text.len() && (text[pos] == '\r' || text[pos] == '\n'))
}

/// The content of a line ends at `pos`: the line ends there, or a comment starts.
pub open spec fn content_ends(text: Seq<char>, pos: int) -> bool {
    line_ends(text, pos) || (0 <= pos < text.len() && text[pos] == '#')
}

/// A section of a card ends at `pos`: the content of the line ends there, or a dash stands
/// there.
pub open spec fn section_ends(text: Seq<char>, pos: int) -> bool {
    content_ends(text, pos) || (0 <= pos < text.len() && text[pos] == '-')
}

/// Nothing that could start or continue an option stands at `pos`.
pub open spec fn no_option_at(text: Seq<char>, pos: int) -> bool {
    pos == text.len() || (0 <= pos < text.len() && !atom_char(text[pos]))
}

/// The position behind the white space at `pos`.
pub open spec fn behind_space(text: Seq<char>, pos: int) -> int {
    ws_run(text, Cursor { pos, errors: Seq::empty() }).pos
}

/// An option has ended at `pos`: behind the white space that follows, a section ends or a
/// comma stands.
pub open spec fn option_ended(text: Seq<char>, pos: int) -> bool {
    let at = behind_space(text, pos);
    section_ends(text, at) || (0 <= at < text.len() && text[at] == ',')
}

/// An option list has ended at `pos`: behind the white space that follows, a section ends.
pub open spec fn list_ended(text: Seq<char>, pos: int) -> bool {
    section_ends(text, behind_space(text, pos))
}

/// Where white space ends does not depend on the diagnostics.
pub proof fn lemma_behind_space(text: Seq<char>, c: Cursor)
    requires
        c.within(text),
    ensures
        ws_run(text, c).pos == behind_space(text, c.pos),
        c.pos <= behind_space(text, c.pos) <= text.len(),
        behind_space(text, c.pos) == text.len() || !field_space(
            text[behind_space(text, c.pos)],
        ),
        behind_space(text, behind_space(text, c.pos)) == behind_space(text, c.pos),
    decreases text.len() - c.pos,
{
    let bare = Cursor { pos: c.pos, errors: Seq::empty() };
    match ws(text, c) {
        Some(next) => {
            let bare_next = ws(text, bare)->Some_0;
            lemma_behind_space(text, next);
            lemma_behind_space(text, bare_next);
        },
        None => {
            assert(ws(text, bare) is None);
        },
    }
}

/// White space inside an option ends where white space between fields ends.
pub proof fn lemma_option_ws_run_ends(text: Seq<char>, c: Cursor, acc: Seq<char>)
    requires
        c.within(text),
    ensures
        option_ws_run(text, c, acc).1.pos == behind_space(text, c.pos),
    decreases text.len() - c.pos,
{
    let bare = Cursor { pos: c.pos, errors: Seq::empty() };
    match option_ws(text, c) {
        Some((ch, next)) => {
            let bare_next = ws(text, bare)->Some_0;
            lemma_option_ws_run_ends(text, next, acc.push(ch));
            lemma_behind_space(text, next);
            lemma_behind_space(text, bare_next);
        },
        None => {
            assert(ws(text, bare) is None);
        },
    }
}

/// Where `line_rest` ends.
pub proof fn lemma_line_rest_ends(text: Seq<char>, c: Cursor)
    requires
        c.within(text),
    ensures
        line_ends(text, line_rest(text, c).pos),
    decreases text.len() - c.pos,
{
    match character(text, c) {
        Some((_, next)) => lemma_line_rest_ends(text, next),
        None => {},
    }
}

/// Where `comment` ends.
pub proof fn lemma_comment_ends(text: Seq<char>, c: Cursor)
    requires
        c.within(text),
        content_ends(text, c.pos),
    ensures
        line_ends(text, comment(text, c).pos),
{
    match exact_char(text, c, '#') {
        Some(next) => lemma_line_rest_ends(text, next),
        None => {},
    }
}

/// Where `plain_skip` ends.
pub proof fn lemma_plain_skip_ends(text: Seq<char>, c: Cursor)
    requires
        c.within(text),
    ensures
        content_ends(text, plain_skip(text, c).pos),
    decreases text.len() - c.pos,
{
    match plain_char(text, c) {
        Some((_, next)) => lemma_plain_skip_ends(text, next),
        None => {},
    }
}

/// Where `plain_run` ends.
pub proof fn lemma_plain_run_ends(text: Seq<char>, c: Cursor, acc: Seq<char>)
    requires
        c.within(text),
    ensures
        content_ends(text, plain_run(text, c, acc).1.pos),
    decreases text.len() - c.pos,
{
    match plain_char(text, c) {
        Some((ch, next)) => lemma_plain_run_ends(text, next, acc.push(ch)),
        None => {},
    }
}

/// Where `title` ends.
pub proof fn lemma_title_ends(text: Seq<char>, c: Cursor)
    requires
        c.within(text),
    ensures
        line_ends(text, title(text, c).1.pos),
{
    lemma_plain_run_ends(text, c, Seq::empty());
    lemma_plain_run(text, c, Seq::empty());
    let end = plain_run(text, c, Seq::empty()).1;
    let flagged = title_flagged(text, c);
    lemma_comment_ends(text, flagged);
}

/// The cursor behind the title text, flagged where the title is empty.
pub open spec fn title_flagged(text: Seq<char>, c: Cursor) -> Cursor {
    let (raw, end) = plain_run(text, c, Seq::empty());
    if crate::chars::trim(raw).len() == 0 {
        end.flag(
            crate::set::error::ParseError::NoTitle {
                line: crate::chars::span(text, c.pos, end.pos),
            },
        )
    } else {
        end
    }
}

/// Where no further piece of an option stands, the option has ended.
pub proof fn lemma_option_piece_ends(text: Seq<char>, c: Cursor)
    requires
        c.within(text),
        option_piece(text, c) is None,
    ensures
        option_ended(text, c.pos),
{
    lemma_behind_space(text, c);
    if exact_char(text, c, '-') is Some {
        assert(ws(text, c) is None);
    } else {
        lemma_option_ws_run_ends(text, c, Seq::empty());
        let mid = option_joint(text, c).1;
        assert(option_atom(text, mid) is None);
    }
}

/// Where `option_tail` ends.
pub proof fn lemma_option_tail_ends(text: Seq<char>, c: Cursor, acc: Seq<char>)
    requires
        c.within(text),
    ensures
        option_ended(text, option_tail(text, c, acc).1.pos),
    decreases text.len() - c.pos,
{
    lemma_option_piece(text, c);
    match option_piece(text, c) {
        Some((piece, next)) => lemma_option_tail_ends(text, next, acc + piece),
        None => lemma_option_piece_ends(text, c),
    }
}

/// Where `option` ends.
pub proof fn lemma_option_ends(text: Seq<char>, c: Cursor)
    requires
        c.within(text),
    ensures
        match option(text, c) {
            Some((_, next)) => option_ended(text, next.pos),
            None => no_option_at(text, c.pos),
        },
{
    lemma_quoted(text, c);
    lemma_single(text, c);
    match quoted(text, c) {
        Some((inside, after_quote)) => lemma_option_tail_ends(text, after_quote, inside),
        None => match option_atom(text, c) {
            Some((ch, next)) => lemma_option_tail_ends(text, next, seq![ch]),
            None => {},
        },
    }
}

/// Where no option stands behind white space, an option has ended before the white space.
pub proof fn lemma_no_option_ends(text: Seq<char>, c: Cursor)
    requires
        c.within(text),
        no_option_at(text, behind_space(text, c.pos)),
    ensures
        option_ended(text, c.pos),
{
    lemma_behind_space(text, c);
}

/// Where `after_comma` ends.
pub proof fn lemma_after_comma_ends(text: Seq<char>, c: Cursor, comma_at: int, seen: Seen)
    requires
        c.within(text),
    ensures
        option_ended(text, after_comma(text, c, comma_at, seen).1.pos),
{
    lemma_ws_run(text, c);
    lemma_behind_space(text, c);
    let at = ws_run(text, c);
    lemma_option_ends(text, at);
    match option(text, at) {
        Some((value, end)) => {},
        None => lemma_no_option_ends(text, c),
    }
}

/// Where `options_rest` ends.
pub proof fn lemma_options_rest_ends(text: Seq<char>, c: Cursor, seen: Seen)
    requires
        c.within(text),
        option_ended(text, c.pos),
    ensures
        list_ended(text, options_rest(text, c, seen).1.pos),
    decreases text.len() - c.pos,
{
    lemma_comma(text, c);
    lemma_behind_space(text, c);
    match comma(text, c) {
        Some((comma_at, next)) => {
            let (taken, after) = after_comma(text, next, comma_at, seen);
            crate::set::grammar::lemma_after_comma(text, next, comma_at, seen);
            lemma_after_comma_ends(text, next, comma_at, seen);
            lemma_options_rest_ends(text, after, taken);
        },
        None => {},
    }
}

/// Where `options` ends.
pub proof fn lemma_options_ends(text: Seq<char>, c: Cursor)
    requires
        c.within(text),
    ensures
        match options(text, c) {
            Some((_, next)) => list_ended(text, next.pos),
            None => no_option_at(text, c.pos) && !(c.pos < text.len() && text[c.pos] == ','),
        },
{
    let nothing = Seen { values: Seq::empty(), spans: Seq::empty() };
    match exact_char(text, c, ',') {
        Some(next) => {
            let flagged = next.flag(
                crate::set::error::ParseError::EmptyOption {
                    span: crate::chars::span(text, c.pos, next.pos),
                },
            );
            crate::set::grammar::lemma_after_comma(text, flagged, c.pos, nothing);
            lemma_after_comma_ends(text, flagged, c.pos, nothing);
            let (first, after) = after_comma(text, flagged, c.pos, nothing);
            lemma_options_rest_ends(text, after, first);
        },
        None => {
            lemma_option(text, c);
            lemma_option_ends(text, c);
            match option(text, c) {
                Some((value, next)) => {
                    let (first, after) = add_option(
                        nothing,
                        next,
                        value,
                        crate::chars::span(text, c.pos, next.pos),
                    );
                    lemma_options_rest_ends(text, after, first);
                },
                None => {},
            }
        },
    }
}

/// Where no option list stands behind white space that ends, a section ends.
pub proof fn lemma_no_list_ends(text: Seq<char>, pos: int)
    requires
        0 <= pos <= text.len(),
        pos == text.len() || !field_space(text[pos]),
        no_option_at(text, pos),
        !(pos < text.len() && text[pos] == ','),
    ensures
        section_ends(text, pos),
{
}

/// Where `third_part` ends.
pub proof fn lemma_third_part_ends(text: Seq<char>, c: Cursor, card_start: int)
    requires
        c.within(text),
        section_ends(text, c.pos),
    ensures
        content_ends(text, third_part(text, c, card_start).pos),
{
    match exact_char(text, c, '-') {
        Some(next) => lemma_plain_skip_ends(text, next),
        None => {},
    }
}

/// Where `card_definitions` ends.
pub proof fn lemma_card_definitions_ends(
    text: Seq<char>,
    c: Cursor,
    space_before: bool,
    card_start: int,
)
    requires
        c.within(text),
    ensures
        content_ends(text, card_definitions(text, c, space_before, card_start).1.pos),
{
    lemma_ws_run(text, c);
    lemma_behind_space(text, c);
    let spaced = ws_run(text, c);
    let flagged = definitions_flagged(text, c, space_before);
    lemma_options(text, flagged);
    lemma_options_ends(text, flagged);
    match options(text, flagged) {
        Some((_, end)) => {
            lemma_ws_run(text, end);
            lemma_behind_space(text, end);
            lemma_third_part_ends(text, ws_run(text, end), card_start);
        },
        None => {
            lemma_no_list_ends(text, flagged.pos);
            lemma_third_part_ends(text, flagged, card_start);
        },
    }
}

/// The cursor behind the white space that follows the dash, flagged where white space is
/// missing on a side of the dash.
pub open spec fn definitions_flagged(text: Seq<char>, c: Cursor, space_before: bool) -> Cursor {
    let spaced = ws_run(text, c);
    if !space_before || !(spaced.pos > c.pos) {
        spaced.flag(
            crate::set::error::ParseError::MissingWhitespaceAroundDash {
                dash: crate::chars::span(text, c.pos - 1, c.pos),
            },
        )
    } else {
        spaced
    }
}

/// Where `card` ends.
pub proof fn lemma_card_ends(text: Seq<char>, c: Cursor)
    requires
        c.within(text),
    ensures
        match card(text, c) {
            Some((_, next)) => line_ends(text, next.pos),
            None => line_ends(text, blank_line(text, c).pos),
        },
{
    lemma_ws_run(text, c);
    lemma_behind_space(text, c);
    let lead = ws_run(text, c);
    lemma_options(text, lead);
    lemma_options_ends(text, lead);
    let terms = options(text, lead);
    let after_terms = match terms {
        Some((_, end)) => end,
        None => c,
    };
    lemma_ws_run(text, after_terms);
    lemma_behind_space(text, after_terms);
    let at_dash = ws_run(text, after_terms);
    lemma_card_head(text, c);
    match card_head(text, c) {
        Some((head, next)) => {
            if head.has_dash {
                lemma_card_definitions(text, next, head.space_before, c.pos);
                lemma_card_definitions_ends(text, next, head.space_before, c.pos);
            } else {
                assert(section_ends(text, at_dash.pos));
            }
            let end = card_end(text, c);
            assert(content_ends(text, end.pos));
            lemma_comment_ends(text, card_flagged(text, c));
        },
        None => {
            lemma_no_list_ends(text, lead.pos);
            lemma_comment_ends(text, lead);
        },
    }
}

/// The cursor behind the sections of the card that starts at `c`.
pub open spec fn card_end(text: Seq<char>, c: Cursor) -> Cursor {
    match card_head(text, c) {
        Some((head, next)) => if head.has_dash {
            card_definitions(text, next, head.space_before, c.pos).1
        } else {
            next
        },
        None => c,
    }
}

/// The cursor behind the sections of the card that starts at `c`, flagged where a side of
/// the card is empty.
pub open spec fn card_flagged(text: Seq<char>, c: Cursor) -> Cursor {
    match card_head(text, c) {
        Some((head, next)) => {
            let (definitions, end) = if head.has_dash {
                card_definitions(text, next, head.space_before, c.pos)
            } else {
                (Seq::empty(), next)
            };
            let whole = crate::chars::span(text, c.pos, end.pos);
            let first = if head.terms.len() == 0 {
                end.flag(crate::set::error::ParseError::NoTerms { card: whole })
            } else {
                end
            };
            if definitions.len() == 0 {
                first.flag(crate::set::error::ParseError::NoDefinitions { card: whole })
            } else {
                first
            }
        },
        None => c,
    }
}

/// Where `card_line` ends.
pub proof fn lemma_card_line_ends(text: Seq<char>, c: Cursor, deck: Deck)
    requires
        c.within(text),
    ensures
        line_ends(text, card_line(text, c, deck).1.pos),
{
    lemma_card_ends(text, c);
}

/// Where `card_lines` ends.
pub proof fn lemma_card_lines_ends(text: Seq<char>, c: Cursor, deck: Deck)
    requires
        c.within(text),
        line_ends(text, c.pos),
    ensures
        card_lines(text, c, deck).1.pos == text.len(),
    decreases text.len() - c.pos,
{
    lemma_single(text, c);
    match newline(text, c) {
        Some(next) => {
            let (taken, after) = card_line(text, next, deck);
            lemma_card_line(text, next, deck);
            lemma_card_line_ends(text, next, deck);
            lemma_card_lines_ends(text, after, taken);
        },
        None => {},
    }
}

/// A document is read to the end of its text.
pub proof fn lemma_whole_input(text: Seq<char>, c: Cursor)
    requires
        c.within(text),
    ensures
        document_from(text, c).1.pos == text.len(),
{
    lemma_leading_blank_lines(text, c);
    let first = leading_blank_lines(text, c);
    lemma_title(text, first);
    lemma_title_ends(text, first);
    let titled = title(text, first).1;
    lemma_card_lines_ends(text, titled, Deck { cards: Seq::empty(), spans: Seq::empty() });
}

} // verus!
