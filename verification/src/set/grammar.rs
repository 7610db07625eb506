//! The grammar of the card set format, as functions on a text and a cursor.
//!
//! A rule takes the text and the cursor it starts at. A rule that can fail
//! gives `None` where nothing of its kind stands at the cursor; otherwise a
//! rule gives the cursor behind what it read, with the diagnostics it raised
//! added to those the cursor already held. A rule that tries an alternative
//! and gives it up falls back to the cursor it started from, so nothing that
//! the alternative read or raised is left.

use crate::chars::{control, field_space, span, trim, white_space};
use crate::model::{CardModel, Deck, first_card, first_index, Seen, SetModel};
use crate::set::error::ParseError;
use std::ops::Range;
use vstd::prelude::*;

verus! {

/// A position in the text, counted in characters, and the diagnostics raised so far.
pub struct Cursor {
    pub pos: int,
    pub errors: Seq<ParseError>,
}

impl Cursor {
    /// The cursor at the start of a text, with no diagnostics.
    pub open spec fn start() -> Cursor {
        Cursor { pos: 0, errors: Seq::empty() }
    }

    /// This cursor, one character further.
    pub open spec fn step(self) -> Cursor {
        Cursor { pos: self.pos + 1, errors: self.errors }
    }

    /// This cursor with one more diagnostic.
    pub open spec fn flag(self, error: ParseError) -> Cursor {
        Cursor { pos: self.pos, errors: self.errors.push(error) }
    }

    /// The cursor lies inside `text` or at its end.
    pub open spec fn within(self, text: Seq<char>) -> bool {
        0 <= self.pos <= text.len()
    }

    /// This cursor is not before `before`, and holds the diagnostics of `before` at its start.
    pub open spec fn follows(self, before: Cursor) -> bool {
        &&& before.pos <= self.pos
        &&& before.errors.len() <= self.errors.len()
        &&& forall|i: int|
            0 <= i < before.errors.len() ==> #[trigger] self.errors[i] == before.errors[i]
    }
}

/// What parsing a whole document gives: the set as far as it could be read, and every diagnostic.
pub struct Outcome {
    pub set: SetModel,
    pub errors: Seq<ParseError>,
}

// ---------------------------------------------------------------------------
// Characters
// ---------------------------------------------------------------------------

/// Any one character.
pub open spec fn any(text: Seq<char>, c: Cursor) -> Option<(char, Cursor)> {
    if 0 <= c.pos < text.len() {
        Some((text[c.pos], c.step()))
    } else {
        None
    }
}

/// The character `expected`.
pub open spec fn exact_char(text: Seq<char>, c: Cursor, expected: char) -> Option<Cursor> {
    match any(text, c) {
        Some((ch, next)) if ch == expected => Some(next),
        _ => None,
    }
}

/// A character of a line: any but a carriage return or a line feed. A control character is
/// flagged, and read all the same.
pub open spec fn character(text: Seq<char>, c: Cursor) -> Option<(char, Cursor)> {
    match any(text, c) {
        Some((ch, next)) if ch != '\r' && ch != '\n' => Some(
            (
                ch,
                if control(ch) {
                    next.flag(
                        ParseError::UnexpectedControlChar {
                            character: ch,
                            span: span(text, c.pos, next.pos),
                        },
                    )
                } else {
                    next
                },
            ),
        ),
        _ => None,
    }
}

/// One character of white space between fields. One that is not the space character is
/// flagged, and separates all the same.
pub open spec fn ws(text: Seq<char>, c: Cursor) -> Option<Cursor> {
    match any(text, c) {
        Some((ch, next)) if field_space(ch) => Some(
            if ch != ' ' {
                next.flag(
                    ParseError::ExpectedSpace { character: ch, span: span(text, c.pos, next.pos) },
                )
            } else {
                next
            },
        ),
        _ => None,
    }
}

/// As much white space between fields as there is.
pub open spec fn ws_run(text: Seq<char>, c: Cursor) -> Cursor
    decreases text.len() - c.pos,
{
    match ws(text, c) {
        Some(next) => ws_run(text, next),
        None => c,
    }
}

/// One character of white space inside an option. A control character is flagged.
pub open spec fn option_ws(text: Seq<char>, c: Cursor) -> Option<(char, Cursor)> {
    match any(text, c) {
        Some((ch, next)) if field_space(ch) => Some(
            (
                ch,
                if control(ch) {
                    next.flag(
                        ParseError::UnexpectedControlChar {
                            character: ch,
                            span: span(text, c.pos, next.pos),
                        },
                    )
                } else {
                    next
                },
            ),
        ),
        _ => None,
    }
}

/// A line break: a line feed, or a carriage return with the line feed that follows it. A
/// carriage return without a line feed is flagged, and breaks the line all the same.
pub open spec fn newline(text: Seq<char>, c: Cursor) -> Option<Cursor> {
    match any(text, c) {
        Some((ch, next)) if ch == '\n' => Some(next),
        Some((ch, next)) if ch == '\r' => match exact_char(text, next, '\n') {
            Some(after) => Some(after),
            None => Some(
                next.flag(ParseError::MissingLineFeed { cr_span: span(text, c.pos, next.pos) }),
            ),
        },
        _ => None,
    }
}

/// The characters up to the end of the line.
pub open spec fn line_rest(text: Seq<char>, c: Cursor) -> Cursor
    decreases text.len() - c.pos,
{
    match character(text, c) {
        Some((_, next)) => line_rest(text, next),
        None => c,
    }
}

/// A comment, if one starts here: from `#` to the end of the line.
pub open spec fn comment(text: Seq<char>, c: Cursor) -> Cursor {
    match exact_char(text, c, '#') {
        Some(next) => line_rest(text, next),
        None => c,
    }
}

/// What a line without content holds: white space, then a comment or nothing.
pub open spec fn blank_line(text: Seq<char>, c: Cursor) -> Cursor {
    comment(text, ws_run(text, c))
}

/// A character of a line that does not start a comment.
pub open spec fn plain_char(text: Seq<char>, c: Cursor) -> Option<(char, Cursor)> {
    match character(text, c) {
        Some((ch, next)) if ch != '#' => Some((ch, next)),
        _ => None,
    }
}

/// The characters up to a comment or the end of the line, added to `acc`.
pub open spec fn plain_run(text: Seq<char>, c: Cursor, acc: Seq<char>) -> (Seq<char>, Cursor)
    decreases text.len() - c.pos,
{
    match plain_char(text, c) {
        Some((ch, next)) => plain_run(text, next, acc.push(ch)),
        None => (acc, c),
    }
}

/// The cursor behind the characters up to a comment or the end of the line.
pub open spec fn plain_skip(text: Seq<char>, c: Cursor) -> Cursor
    decreases text.len() - c.pos,
{
    match plain_char(text, c) {
        Some((_, next)) => plain_skip(text, next),
        None => c,
    }
}

// ---------------------------------------------------------------------------
// Title
// ---------------------------------------------------------------------------

/// The title line: the text up to a comment or the end of the line, without the white space
/// around it. An empty title is flagged with the span of the line.
pub open spec fn title(text: Seq<char>, c: Cursor) -> (Seq<char>, Cursor) {
    let (raw, end) = plain_run(text, c, Seq::empty());
    let name = trim(raw);
    let flagged = if name.len() == 0 {
        end.flag(ParseError::NoTitle { line: span(text, c.pos, end.pos) })
    } else {
        end
    };
    (name, comment(text, flagged))
}

// ---------------------------------------------------------------------------
// Options
// ---------------------------------------------------------------------------

/// A character that can stand in an unquoted option.
pub open spec fn atom_char(ch: char) -> bool {
    ch != ',' && ch != '-' && ch != '#' && !white_space(ch)
}

/// One character of an unquoted option.
pub open spec fn option_atom(text: Seq<char>, c: Cursor) -> Option<(char, Cursor)> {
    match character(text, c) {
        Some((ch, next)) if atom_char(ch) => Some((ch, next)),
        _ => None,
    }
}

/// The inside of a quoted option, from behind the opening quote at `start`, added to `acc`. A
/// backslash keeps a quote or a backslash that follows it; before anything else it is flagged
/// and both characters are dropped. The end of the line before the closing quote is flagged
/// with the span of the open string.
pub open spec fn quoted_body(text: Seq<char>, c: Cursor, start: int, acc: Seq<char>) -> (
    Seq<char>,
    Cursor,
)
    decreases text.len() - c.pos,
{
    match character(text, c) {
        None => (acc, c.flag(ParseError::UnclosedQuote { span: span(text, start, c.pos) })),
        Some((ch, next)) => if ch == '\\' {
            match any(text, next) {
                Some((escape, after)) => if escape == '"' || escape == '\\' {
                    quoted_body(text, after, start, acc.push(escape))
                } else {
                    quoted_body(
                        text,
                        after.flag(
                            ParseError::UnknownEscape {
                                escape,
                                span: span(text, next.pos, after.pos),
                            },
                        ),
                        start,
                        acc,
                    )
                },
                None => quoted_body(text, next, start, acc),
            }
        } else if ch == '"' {
            (acc, next)
        } else {
            quoted_body(text, next, start, acc.push(ch))
        },
    }
}

/// A quoted option.
pub open spec fn quoted(text: Seq<char>, c: Cursor) -> Option<(Seq<char>, Cursor)> {
    match exact_char(text, c, '"') {
        Some(next) => Some(quoted_body(text, next, c.pos, Seq::empty())),
        None => None,
    }
}

/// A run of dashes, added to `acc`.
pub open spec fn dash_run(text: Seq<char>, c: Cursor, acc: Seq<char>) -> (Seq<char>, Cursor)
    decreases text.len() - c.pos,
{
    match exact_char(text, c, '-') {
        Some(next) => dash_run(text, next, acc.push('-')),
        None => (acc, c),
    }
}

/// A run of white space inside an option, added to `acc`.
pub open spec fn option_ws_run(text: Seq<char>, c: Cursor, acc: Seq<char>) -> (Seq<char>, Cursor)
    decreases text.len() - c.pos,
{
    match option_ws(text, c) {
        Some((ch, next)) => option_ws_run(text, next, acc.push(ch)),
        None => (acc, c),
    }
}

/// What joins two parts of an option: a run of dashes where a dash stands, else white space.
pub open spec fn option_joint(text: Seq<char>, c: Cursor) -> (Seq<char>, Cursor) {
    if exact_char(text, c, '-') is Some {
        dash_run(text, c, Seq::empty())
    } else {
        option_ws_run(text, c, Seq::empty())
    }
}

/// One further piece of an option: a joint, then one character of an unquoted option.
pub open spec fn option_piece(text: Seq<char>, c: Cursor) -> Option<(Seq<char>, Cursor)> {
    let (joint, mid) = option_joint(text, c);
    match option_atom(text, mid) {
        Some((ch, next)) => Some((joint.push(ch), next)),
        None => None,
    }
}

/// As many further pieces of an option as there are, added to `acc`.
pub open spec fn option_tail(text: Seq<char>, c: Cursor, acc: Seq<char>) -> (Seq<char>, Cursor)
    decreases text.len() - c.pos,
{
    if c.within(text) {
        match option_piece(text, c) {
            Some((piece, next)) => {
                proof {
                    lemma_option_piece(text, c);
                }
                option_tail(text, next, acc + piece)
            },
            None => (acc, c),
        }
    } else {
        (acc, c)
    }
}

/// One option: a quoted string or one character, then as many further pieces as there are.
/// Pieces behind a closing quote belong to the option and are flagged.
pub open spec fn option(text: Seq<char>, c: Cursor) -> Option<(Seq<char>, Cursor)> {
    match quoted(text, c) {
        Some((inside, after_quote)) => {
            let (value, end) = option_tail(text, after_quote, inside);
            Some(
                (
                    value,
                    if option_piece(text, after_quote) is Some {
                        end.flag(
                            ParseError::TrailingOptionChars {
                                span: span(text, after_quote.pos, end.pos),
                            },
                        )
                    } else {
                        end
                    },
                ),
            )
        },
        None => match option_atom(text, c) {
            Some((ch, next)) => Some(option_tail(text, next, seq![ch])),
            None => None,
        },
    }
}

// ---------------------------------------------------------------------------
// Option lists
// ---------------------------------------------------------------------------

/// Takes the option `value`, read at `at`, into `seen`: an empty one is flagged, one that
/// `seen` holds already is flagged with both spans, and any other is added.
pub open spec fn add_option(seen: Seen, c: Cursor, value: Seq<char>, at: Range<usize>) -> (
    Seen,
    Cursor,
) {
    if value.len() == 0 {
        (seen, c.flag(ParseError::EmptyOption { span: at }))
    } else {
        match first_index(seen.values, value) {
            Some(i) => (
                seen,
                c.flag(ParseError::DuplicateOption { original: seen.spans[i], duplicate: at }),
            ),
            None => (Seen { values: seen.values.push(value), spans: seen.spans.push(at) }, c),
        }
    }
}

/// A comma, after white space: the position of the comma and the cursor behind it.
pub open spec fn comma(text: Seq<char>, c: Cursor) -> Option<(int, Cursor)> {
    let at = ws_run(text, c);
    match exact_char(text, at, ',') {
        Some(next) => Some((at.pos, next)),
        None => None,
    }
}

/// An option after white space, taken into `seen`.
pub open spec fn option_slot(text: Seq<char>, c: Cursor, seen: Seen) -> Option<(Seen, Cursor)> {
    let at = ws_run(text, c);
    match option(text, at) {
        Some((value, end)) => Some(add_option(seen, end, value, span(text, at.pos, end.pos))),
        None => None,
    }
}

/// Where the span of a missing option ends: behind the white space at the cursor, and behind
/// the comma that follows it, if one does.
pub open spec fn empty_slot_end(text: Seq<char>, c: Cursor) -> int {
    let at = ws_run(text, c).pos;
    if 0 <= at < text.len() && text[at] == ',' {
        at + 1
    } else {
        at
    }
}

/// What follows a comma that stands at `comma_at`: an option, or nothing, which is flagged
/// from the comma on and leaves the cursor behind the comma.
pub open spec fn after_comma(text: Seq<char>, c: Cursor, comma_at: int, seen: Seen) -> (
    Seen,
    Cursor,
) {
    match option_slot(text, c, seen) {
        Some(taken) => taken,
        None => (
            seen,
            c.flag(
                ParseError::EmptyOption { span: span(text, comma_at, empty_slot_end(text, c)) },
            ),
        ),
    }
}

/// The rest of an option list: as many commas, each with what follows it, as there are.
pub open spec fn options_rest(text: Seq<char>, c: Cursor, seen: Seen) -> (Seen, Cursor)
    decreases text.len() - c.pos,
{
    if c.within(text) {
        match comma(text, c) {
            Some((comma_at, next)) => {
                let (taken, after) = after_comma(text, next, comma_at, seen);
                proof {
                    lemma_comma(text, c);
                    lemma_after_comma(text, next, comma_at, seen);
                }
                options_rest(text, after, taken)
            },
            None => (seen, c),
        }
    } else {
        (seen, c)
    }
}

/// An option list: options between commas. It starts with an option, or with a comma, which
/// is flagged as an empty option.
pub open spec fn options(text: Seq<char>, c: Cursor) -> Option<(Seq<Seq<char>>, Cursor)> {
    let nothing = Seen { values: Seq::empty(), spans: Seq::empty() };
    match exact_char(text, c, ',') {
        Some(next) => {
            let flagged = next.flag(ParseError::EmptyOption { span: span(text, c.pos, next.pos) });
            let (first, after) = after_comma(text, flagged, c.pos, nothing);
            let (all, end) = options_rest(text, after, first);
            Some((all.values, end))
        },
        None => match option(text, c) {
            Some((value, next)) => {
                let (first, after) = add_option(nothing, next, value, span(text, c.pos, next.pos));
                let (all, end) = options_rest(text, after, first);
                Some((all.values, end))
            },
            None => None,
        },
    }
}

// ---------------------------------------------------------------------------
// Cards
// ---------------------------------------------------------------------------

/// The head of a card line: the terms and the dash.
pub struct CardHead {
    /// The terms, empty where the line starts with the dash.
    pub terms: Seq<Seq<char>>,
    /// White space stands before the dash, or where the dash would be.
    pub space_before: bool,
    /// The line has a dash.
    pub has_dash: bool,
}

/// The head of a card line: terms after white space, then white space and the dash. A line
/// with neither terms nor dash is no card.
pub open spec fn card_head(text: Seq<char>, c: Cursor) -> Option<(CardHead, Cursor)> {
    let terms = options(text, ws_run(text, c));
    let after_terms = match terms {
        Some((_, end)) => end,
        None => c,
    };
    let at_dash = ws_run(text, after_terms);
    let space_before = at_dash.pos > after_terms.pos;
    match (exact_char(text, at_dash, '-'), terms) {
        (Some(next), Some((found, _))) => Some(
            (CardHead { terms: found, space_before, has_dash: true }, next),
        ),
        (Some(next), None) => Some(
            (CardHead { terms: Seq::empty(), space_before, has_dash: true }, next),
        ),
        (None, Some((found, _))) => Some(
            (CardHead { terms: found, space_before, has_dash: false }, at_dash),
        ),
        (None, None) => None,
    }
}

/// A third section, if a dash starts one: it runs to a comment or the end of the line and is
/// flagged, with the span of the card before it.
pub open spec fn third_part(text: Seq<char>, c: Cursor, card_start: int) -> Cursor {
    match exact_char(text, c, '-') {
        Some(next) => {
            let end = plain_skip(text, next);
            end.flag(
                ParseError::ThirdPart {
                    before: span(text, card_start, c.pos),
                    span: span(text, c.pos, end.pos),
                },
            )
        },
        None => c,
    }
}

/// What follows the dash of the card that starts at `card_start`: white space, the
/// definitions, white space, and a third section if there is one. A dash without white space
/// on both sides is flagged.
pub open spec fn card_definitions(
    text: Seq<char>,
    c: Cursor,
    space_before: bool,
    card_start: int,
) -> (Seq<Seq<char>>, Cursor) {
    let spaced = ws_run(text, c);
    let space_after = spaced.pos > c.pos;
    let flagged = if !space_before || !space_after {
        spaced.flag(ParseError::MissingWhitespaceAroundDash { dash: span(text, c.pos - 1, c.pos) })
    } else {
        spaced
    };
    match options(text, flagged) {
        Some((found, end)) => (found, third_part(text, ws_run(text, end), card_start)),
        None => (Seq::empty(), third_part(text, flagged, card_start)),
    }
}

/// One card line: terms, a dash, definitions, perhaps a comment. Missing terms and missing
/// definitions are flagged with the span of the card.
pub open spec fn card(text: Seq<char>, c: Cursor) -> Option<(CardModel, Cursor)> {
    match card_head(text, c) {
        Some((head, next)) => {
            let (definitions, end) = if head.has_dash {
                card_definitions(text, next, head.space_before, c.pos)
            } else {
                (Seq::empty(), next)
            };
            let whole = span(text, c.pos, end.pos);
            let first = if head.terms.len() == 0 {
                end.flag(ParseError::NoTerms { card: whole })
            } else {
                end
            };
            let second = if definitions.len() == 0 {
                first.flag(ParseError::NoDefinitions { card: whole })
            } else {
                first
            };
            Some((CardModel { terms: head.terms, definitions }, comment(text, second)))
        },
        None => None,
    }
}

// ---------------------------------------------------------------------------
// Documents
// ---------------------------------------------------------------------------

/// The lines without content at the start of a document.
pub open spec fn leading_blank_lines(text: Seq<char>, c: Cursor) -> Cursor
    decreases text.len() - c.pos,
{
    if c.within(text) {
        match newline(text, blank_line(text, c)) {
            Some(next) => {
                proof {
                    lemma_blank_line(text, c);
                }
                leading_blank_lines(text, next)
            },
            None => c,
        }
    } else {
        c
    }
}

/// Takes `found`, read at `at`, into `deck`: a card that `deck` holds already is flagged with
/// both spans, and any other is added.
pub open spec fn add_card(deck: Deck, c: Cursor, found: CardModel, at: Range<usize>) -> (
    Deck,
    Cursor,
) {
    match first_card(deck.cards, found) {
        Some(i) => (
            deck,
            c.flag(ParseError::DuplicateCard { original: deck.spans[i], duplicate: at }),
        ),
        None => (Deck { cards: deck.cards.push(found), spans: deck.spans.push(at) }, c),
    }
}

/// One line behind the title: a card, which is taken into `deck`, or a line without content.
pub open spec fn card_line(text: Seq<char>, c: Cursor, deck: Deck) -> (Deck, Cursor) {
    match card(text, c) {
        Some((found, end)) => add_card(deck, end, found, span(text, c.pos, end.pos)),
        None => (deck, blank_line(text, c)),
    }
}

/// The lines behind the title: as many line breaks, each with the line that follows it, as
/// there are.
pub open spec fn card_lines(text: Seq<char>, c: Cursor, deck: Deck) -> (Deck, Cursor)
    decreases text.len() - c.pos,
{
    if c.within(text) {
        match newline(text, c) {
            Some(next) => {
                let (taken, after) = card_line(text, next, deck);
                proof {
                    lemma_card_line(text, next, deck);
                }
                card_lines(text, after, taken)
            },
            None => (deck, c),
        }
    } else {
        (deck, c)
    }
}

/// A document from the cursor on: lines without content, the title line, then the card
/// lines. A set without cards is flagged.
pub open spec fn document_from(text: Seq<char>, c: Cursor) -> (SetModel, Cursor) {
    let (name, titled) = title(text, leading_blank_lines(text, c));
    let (deck, end) = card_lines(
        text,
        titled,
        Deck { cards: Seq::empty(), spans: Seq::empty() },
    );
    let last = if deck.cards.len() == 0 {
        end.flag(ParseError::EmptySet)
    } else {
        end
    };
    (SetModel { title: name, cards: deck.cards }, last)
}

/// A whole document, read from its start.
pub open spec fn document(text: Seq<char>) -> Outcome {
    let (set, end) = document_from(text, Cursor::start());
    Outcome { set, errors: end.errors }
}

// ---------------------------------------------------------------------------
// Every rule moves the cursor forward inside the text and keeps the diagnostics it was given.
// ---------------------------------------------------------------------------

/// Nothing was flagged between `from` and `to`.
pub open spec fn quiet(from: Cursor, to: Cursor) -> bool {
    to.errors.len() == from.errors.len()
}

/// Where nothing was flagged from `from` to `to`, nothing was flagged on either side of a
/// cursor between them.
pub proof fn lemma_quiet_between(from: Cursor, mid: Cursor, to: Cursor)
    requires
        mid.follows(from),
        to.follows(mid),
        quiet(from, to),
    ensures
        quiet(from, mid),
        quiet(mid, to),
{
}

/// Following is transitive.
pub proof fn lemma_follows_chain(first: Cursor, mid: Cursor, last: Cursor)
    requires
        mid.follows(first),
        last.follows(mid),
    ensures
        last.follows(first),
{
    assert forall|i: int| 0 <= i < first.errors.len() implies #[trigger] last.errors[i]
        == first.errors[i] by {
        assert(mid.errors[i] == first.errors[i]);
    }
}

/// Dropping the diagnostics raised since `before` and going back to its position gives
/// `before` again.
pub proof fn lemma_rewind(before: Cursor, now: Cursor)
    requires
        now.follows(before),
    ensures
        (Cursor { pos: before.pos, errors: now.errors.take(before.errors.len() as int) })
            == before,
{
    assert(now.errors.take(before.errors.len() as int) =~= before.errors);
}

/// A step leaves the diagnostics in place.
pub proof fn lemma_step(c: Cursor)
    ensures
        c.follows(c),
        c.step().follows(c),
        quiet(c, c.step()),
{
}

/// A flag leaves the diagnostics before it in place.
pub proof fn lemma_flag(c: Cursor, error: ParseError)
    ensures
        c.flag(error).follows(c),
        c.step().flag(error).follows(c),
        c.step().follows(c),
        c.follows(c),
        c.flag(error).errors.len() == c.errors.len() + 1,
        c.step().flag(error).errors.len() == c.errors.len() + 1,
{
}

/// The rules that read one character, or one line break.
pub proof fn lemma_single(text: Seq<char>, c: Cursor)
    requires
        c.within(text),
    ensures
        match character(text, c) {
            Some((_, next)) => next.within(text) && next.follows(c) && next.pos == c.pos + 1,
            None => true,
        },
        match ws(text, c) {
            Some(next) => next.within(text) && next.follows(c) && next.pos == c.pos + 1,
            None => true,
        },
        match option_ws(text, c) {
            Some((_, next)) => next.within(text) && next.follows(c) && next.pos == c.pos + 1,
            None => true,
        },
        match exact_char(text, c, '-') {
            Some(next) => next.within(text) && next.follows(c) && next.pos == c.pos + 1,
            None => true,
        },
        match newline(text, c) {
            Some(next) => next.within(text) && next.follows(c) && next.pos > c.pos,
            None => true,
        },
{
    if c.pos < text.len() {
        let ch = text[c.pos];
        let here = span(text, c.pos, c.pos + 1);
        lemma_flag(c, ParseError::UnexpectedControlChar { character: ch, span: here });
        lemma_flag(c, ParseError::ExpectedSpace { character: ch, span: here });
        lemma_flag(c, ParseError::MissingLineFeed { cr_span: here });
        lemma_flag(c.step(), ParseError::MissingLineFeed { cr_span: here });
        lemma_follows_chain(c, c.step(), c.step().step());
    }
}

/// `ws_run` ends inside the text, not before the cursor it starts at, and keeps the
/// diagnostics of that cursor in place.
pub proof fn lemma_ws_run(text: Seq<char>, c: Cursor)
    requires
        c.within(text),
    ensures
        ws_run(text, c).within(text),
        ws_run(text, c).follows(c),
    decreases text.len() - c.pos,
{
    lemma_single(text, c);
    match ws(text, c) {
        Some(next) => {
            lemma_ws_run(text, next);
            lemma_follows_chain(c, next, ws_run(text, next));
        },
        None => {},
    }
}

/// `line_rest` ends inside the text, not before the cursor it starts at, and keeps the
/// diagnostics of that cursor in place.
pub proof fn lemma_line_rest(text: Seq<char>, c: Cursor)
    requires
        c.within(text),
    ensures
        line_rest(text, c).within(text),
        line_rest(text, c).follows(c),
    decreases text.len() - c.pos,
{
    lemma_single(text, c);
    match character(text, c) {
        Some((_, next)) => {
            lemma_line_rest(text, next);
            lemma_follows_chain(c, next, line_rest(text, next));
        },
        None => {},
    }
}

/// `comment` ends inside the text, not before the cursor it starts at, and keeps the
/// diagnostics of that cursor in place.
pub proof fn lemma_comment(text: Seq<char>, c: Cursor)
    requires
        c.within(text),
    ensures
        comment(text, c).within(text),
        comment(text, c).follows(c),
{
    match exact_char(text, c, '#') {
        Some(next) => {
            lemma_line_rest(text, next);
            lemma_follows_chain(c, next, line_rest(text, next));
        },
        None => {},
    }
}

/// `blank_line` ends inside the text, not before the cursor it starts at, and keeps the
/// diagnostics of that cursor in place.
pub proof fn lemma_blank_line(text: Seq<char>, c: Cursor)
    requires
        c.within(text),
    ensures
        blank_line(text, c).within(text),
        blank_line(text, c).follows(c),
{
    lemma_ws_run(text, c);
    lemma_comment(text, ws_run(text, c));
    lemma_follows_chain(c, ws_run(text, c), blank_line(text, c));
}

/// `plain_run` ends inside the text, not before the cursor it starts at, and keeps the
/// diagnostics of that cursor in place.
pub proof fn lemma_plain_run(text: Seq<char>, c: Cursor, acc: Seq<char>)
    requires
        c.within(text),
    ensures
        plain_run(text, c, acc).1.within(text),
        plain_run(text, c, acc).1.follows(c),
    decreases text.len() - c.pos,
{
    lemma_single(text, c);
    match plain_char(text, c) {
        Some((ch, next)) => {
            lemma_plain_run(text, next, acc.push(ch));
            lemma_follows_chain(c, next, plain_run(text, next, acc.push(ch)).1);
        },
        None => {},
    }
}

/// `plain_skip` ends inside the text, not before the cursor it starts at, and keeps the
/// diagnostics of that cursor in place.
pub proof fn lemma_plain_skip(text: Seq<char>, c: Cursor)
    requires
        c.within(text),
    ensures
        plain_skip(text, c).within(text),
        plain_skip(text, c).follows(c),
    decreases text.len() - c.pos,
{
    lemma_single(text, c);
    match plain_char(text, c) {
        Some((_, next)) => {
            lemma_plain_skip(text, next);
            lemma_follows_chain(c, next, plain_skip(text, next));
        },
        None => {},
    }
}

/// `title` ends inside the text, not before the cursor it starts at, and keeps the
/// diagnostics of that cursor in place.
pub proof fn lemma_title(text: Seq<char>, c: Cursor)
    requires
        c.within(text),
    ensures
        title(text, c).1.within(text),
        title(text, c).1.follows(c),
{
    lemma_plain_run(text, c, Seq::empty());
    let (raw, end) = plain_run(text, c, Seq::empty());
    let error = ParseError::NoTitle { line: span(text, c.pos, end.pos) };
    let flagged = if trim(raw).len() == 0 {
        end.flag(error)
    } else {
        end
    };
    lemma_flag(end, error);
    lemma_comment(text, flagged);
    lemma_follows_chain(c, end, flagged);
    lemma_follows_chain(c, flagged, comment(text, flagged));
}

/// `quoted_body` ends inside the text, not before the cursor it starts at, and keeps the
/// diagnostics of that cursor in place.
pub proof fn lemma_quoted_body(text: Seq<char>, c: Cursor, start: int, acc: Seq<char>)
    requires
        c.within(text),
    ensures
        quoted_body(text, c, start, acc).1.within(text),
        quoted_body(text, c, start, acc).1.follows(c),
    decreases text.len() - c.pos,
{
    lemma_single(text, c);
    let result = quoted_body(text, c, start, acc).1;
    match character(text, c) {
        None => {
            lemma_flag(c, ParseError::UnclosedQuote { span: span(text, start, c.pos) });
        },
        Some((ch, next)) => if ch == '\\' {
            match any(text, next) {
                Some((escape, after)) => {
                    let error = ParseError::UnknownEscape {
                        escape,
                        span: span(text, next.pos, after.pos),
                    };
                    lemma_flag(next, error);
                    if escape == '"' || escape == '\\' {
                        lemma_quoted_body(text, after, start, acc.push(escape));
                        lemma_follows_chain(next, after, result);
                    } else {
                        lemma_quoted_body(text, after.flag(error), start, acc);
                        lemma_follows_chain(next, after.flag(error), result);
                    }
                    lemma_follows_chain(c, next, result);
                },
                None => {
                    lemma_quoted_body(text, next, start, acc);
                    lemma_follows_chain(c, next, result);
                },
            }
        } else if ch == '"' {
        } else {
            lemma_quoted_body(text, next, start, acc.push(ch));
            lemma_follows_chain(c, next, result);
        },
    }
}

/// `quoted` ends inside the text, not before the cursor it starts at, and keeps the
/// diagnostics of that cursor in place.
pub proof fn lemma_quoted(text: Seq<char>, c: Cursor)
    requires
        c.within(text),
    ensures
        match quoted(text, c) {
            Some((_, next)) => next.within(text) && next.follows(c) && next.pos > c.pos,
            None => true,
        },
{
    match exact_char(text, c, '"') {
        Some(next) => {
            lemma_step(c);
            lemma_quoted_body(text, next, c.pos, Seq::empty());
            lemma_follows_chain(c, next, quoted_body(text, next, c.pos, Seq::empty()).1);
        },
        None => {},
    }
}

/// `dash_run` ends inside the text, not before the cursor it starts at, and keeps the
/// diagnostics of that cursor in place.
pub proof fn lemma_dash_run(text: Seq<char>, c: Cursor, acc: Seq<char>)
    requires
        c.within(text),
    ensures
        dash_run(text, c, acc).1.within(text),
        dash_run(text, c, acc).1.follows(c),
    decreases text.len() - c.pos,
{
    lemma_single(text, c);
    match exact_char(text, c, '-') {
        Some(next) => {
            lemma_dash_run(text, next, acc.push('-'));
            lemma_follows_chain(c, next, dash_run(text, next, acc.push('-')).1);
        },
        None => {},
    }
}

/// `option_ws_run` ends inside the text, not before the cursor it starts at, and keeps the
/// diagnostics of that cursor in place.
pub proof fn lemma_option_ws_run(text: Seq<char>, c: Cursor, acc: Seq<char>)
    requires
        c.within(text),
    ensures
        option_ws_run(text, c, acc).1.within(text),
        option_ws_run(text, c, acc).1.follows(c),
    decreases text.len() - c.pos,
{
    lemma_single(text, c);
    match option_ws(text, c) {
        Some((ch, next)) => {
            lemma_option_ws_run(text, next, acc.push(ch));
            lemma_follows_chain(c, next, option_ws_run(text, next, acc.push(ch)).1);
        },
        None => {},
    }
}

/// `option_piece` ends inside the text, not before the cursor it starts at, and keeps the
/// diagnostics of that cursor in place.
pub proof fn lemma_option_piece(text: Seq<char>, c: Cursor)
    requires
        c.within(text),
    ensures
        match option_piece(text, c) {
            Some((_, next)) => next.within(text) && next.follows(c) && next.pos > c.pos,
            None => true,
        },
{
    lemma_dash_run(text, c, Seq::empty());
    lemma_option_ws_run(text, c, Seq::empty());
    let mid = option_joint(text, c).1;
    lemma_single(text, mid);
    match option_atom(text, mid) {
        Some((_, next)) => lemma_follows_chain(c, mid, next),
        None => {},
    }
}

/// `option_tail` ends inside the text, not before the cursor it starts at, and keeps the
/// diagnostics of that cursor in place.
pub proof fn lemma_option_tail(text: Seq<char>, c: Cursor, acc: Seq<char>)
    requires
        c.within(text),
    ensures
        option_tail(text, c, acc).1.within(text),
        option_tail(text, c, acc).1.follows(c),
    decreases text.len() - c.pos,
{
    lemma_option_piece(text, c);
    match option_piece(text, c) {
        Some((piece, next)) => {
            lemma_option_tail(text, next, acc + piece);
            lemma_follows_chain(c, next, option_tail(text, next, acc + piece).1);
        },
        None => {},
    }
}

/// `option` ends inside the text, not before the cursor it starts at, and keeps the
/// diagnostics of that cursor in place.
pub proof fn lemma_option(text: Seq<char>, c: Cursor)
    requires
        c.within(text),
    ensures
        match option(text, c) {
            Some((_, next)) => next.within(text) && next.follows(c) && next.pos > c.pos,
            None => true,
        },
{
    lemma_quoted(text, c);
    lemma_single(text, c);
    match quoted(text, c) {
        Some((inside, after_quote)) => {
            lemma_option_tail(text, after_quote, inside);
            let end = option_tail(text, after_quote, inside).1;
            let error = ParseError::TrailingOptionChars {
                span: span(text, after_quote.pos, end.pos),
            };
            lemma_flag(end, error);
            lemma_follows_chain(c, after_quote, end);
            lemma_follows_chain(c, end, end.flag(error));
        },
        None => match option_atom(text, c) {
            Some((ch, next)) => {
                lemma_option_tail(text, next, seq![ch]);
                lemma_follows_chain(c, next, option_tail(text, next, seq![ch]).1);
            },
            None => {},
        },
    }
}

/// `add_option` ends inside the text, not before the cursor it starts at, and keeps the
/// diagnostics of that cursor in place.
pub proof fn lemma_add_option(seen: Seen, c: Cursor, value: Seq<char>, at: Range<usize>)
    ensures
        add_option(seen, c, value, at).1.follows(c),
        add_option(seen, c, value, at).1.pos == c.pos,
{
    lemma_flag(c, ParseError::EmptyOption { span: at });
    match first_index(seen.values, value) {
        Some(i) => lemma_flag(
            c,
            ParseError::DuplicateOption { original: seen.spans[i], duplicate: at },
        ),
        None => {},
    }
}

/// `comma` ends inside the text, not before the cursor it starts at, and keeps the
/// diagnostics of that cursor in place.
pub proof fn lemma_comma(text: Seq<char>, c: Cursor)
    requires
        c.within(text),
    ensures
        match comma(text, c) {
            Some((at, next)) => next.within(text) && next.follows(c) && next.pos > c.pos && c.pos
                <= at < next.pos,
            None => true,
        },
{
    lemma_ws_run(text, c);
    let at = ws_run(text, c);
    lemma_step(at);
    match exact_char(text, at, ',') {
        Some(next) => lemma_follows_chain(c, at, next),
        None => {},
    }
}

/// `after_comma` ends inside the text, not before the cursor it starts at, and keeps the
/// diagnostics of that cursor in place.
pub proof fn lemma_after_comma(text: Seq<char>, c: Cursor, comma_at: int, seen: Seen)
    requires
        c.within(text),
    ensures
        after_comma(text, c, comma_at, seen).1.within(text),
        after_comma(text, c, comma_at, seen).1.follows(c),
{
    lemma_ws_run(text, c);
    let at = ws_run(text, c);
    lemma_option(text, at);
    match option(text, at) {
        Some((value, end)) => {
            let here = span(text, at.pos, end.pos);
            lemma_add_option(seen, end, value, here);
            lemma_follows_chain(c, at, end);
            lemma_follows_chain(c, end, add_option(seen, end, value, here).1);
        },
        None => {
            lemma_flag(
                c,
                ParseError::EmptyOption { span: span(text, comma_at, empty_slot_end(text, c)) },
            );
        },
    }
}

/// `options_rest` ends inside the text, not before the cursor it starts at, and keeps the
/// diagnostics of that cursor in place.
pub proof fn lemma_options_rest(text: Seq<char>, c: Cursor, seen: Seen)
    requires
        c.within(text),
    ensures
        options_rest(text, c, seen).1.within(text),
        options_rest(text, c, seen).1.follows(c),
    decreases text.len() - c.pos,
{
    lemma_comma(text, c);
    match comma(text, c) {
        Some((comma_at, next)) => {
            lemma_after_comma(text, next, comma_at, seen);
            let (taken, after) = after_comma(text, next, comma_at, seen);
            lemma_options_rest(text, after, taken);
            lemma_follows_chain(c, next, after);
            lemma_follows_chain(c, after, options_rest(text, after, taken).1);
        },
        None => {},
    }
}

/// `options` ends inside the text, not before the cursor it starts at, and keeps the
/// diagnostics of that cursor in place.
pub proof fn lemma_options(text: Seq<char>, c: Cursor)
    requires
        c.within(text),
    ensures
        match options(text, c) {
            Some((_, next)) => next.within(text) && next.follows(c) && next.pos > c.pos,
            None => true,
        },
{
    let nothing = Seen { values: Seq::empty(), spans: Seq::empty() };
    match exact_char(text, c, ',') {
        Some(next) => {
            let error = ParseError::EmptyOption { span: span(text, c.pos, next.pos) };
            let flagged = next.flag(error);
            lemma_flag(c, error);
            lemma_after_comma(text, flagged, c.pos, nothing);
            let (first, after) = after_comma(text, flagged, c.pos, nothing);
            lemma_options_rest(text, after, first);
            lemma_follows_chain(c, flagged, after);
            lemma_follows_chain(c, after, options_rest(text, after, first).1);
        },
        None => {
            lemma_option(text, c);
            match option(text, c) {
                Some((value, next)) => {
                    let here = span(text, c.pos, next.pos);
                    let (first, after) = add_option(nothing, next, value, here);
                    lemma_add_option(nothing, next, value, here);
                    lemma_options_rest(text, after, first);
                    lemma_follows_chain(c, next, after);
                    lemma_follows_chain(c, after, options_rest(text, after, first).1);
                },
                None => {},
            }
        },
    }
}

/// `card_head` ends inside the text, not before the cursor it starts at, and keeps the
/// diagnostics of that cursor in place.
pub proof fn lemma_card_head(text: Seq<char>, c: Cursor)
    requires
        c.within(text),
    ensures
        match card_head(text, c) {
            Some((_, next)) => next.within(text) && next.follows(c) && next.pos > c.pos,
            None => true,
        },
{
    lemma_ws_run(text, c);
    let lead = ws_run(text, c);
    lemma_options(text, lead);
    lemma_step(c);
    let after_terms = match options(text, lead) {
        Some((_, end)) => end,
        None => c,
    };
    if options(text, lead) is Some {
        lemma_follows_chain(c, lead, after_terms);
    }
    lemma_ws_run(text, after_terms);
    let at_dash = ws_run(text, after_terms);
    lemma_follows_chain(c, after_terms, at_dash);
    lemma_single(text, at_dash);
    match exact_char(text, at_dash, '-') {
        Some(next) => lemma_follows_chain(c, at_dash, next),
        None => {},
    }
}

/// `third_part` ends inside the text, not before the cursor it starts at, and keeps the
/// diagnostics of that cursor in place.
pub proof fn lemma_third_part(text: Seq<char>, c: Cursor, card_start: int)
    requires
        c.within(text),
    ensures
        third_part(text, c, card_start).within(text),
        third_part(text, c, card_start).follows(c),
{
    lemma_single(text, c);
    match exact_char(text, c, '-') {
        Some(next) => {
            lemma_plain_skip(text, next);
            let end = plain_skip(text, next);
            let error = ParseError::ThirdPart {
                before: span(text, card_start, c.pos),
                span: span(text, c.pos, end.pos),
            };
            lemma_flag(end, error);
            lemma_follows_chain(c, next, end);
            lemma_follows_chain(c, end, end.flag(error));
        },
        None => {
            lemma_step(c);
        },
    }
}

/// `card_definitions` ends inside the text, not before the cursor it starts at, and keeps the
/// diagnostics of that cursor in place.
pub proof fn lemma_card_definitions(
    text: Seq<char>,
    c: Cursor,
    space_before: bool,
    card_start: int,
)
    requires
        c.within(text),
    ensures
        card_definitions(text, c, space_before, card_start).1.within(text),
        card_definitions(text, c, space_before, card_start).1.follows(c),
{
    lemma_ws_run(text, c);
    let spaced = ws_run(text, c);
    let error = ParseError::MissingWhitespaceAroundDash { dash: span(text, c.pos - 1, c.pos) };
    let flagged = if !space_before || !(spaced.pos > c.pos) {
        spaced.flag(error)
    } else {
        spaced
    };
    lemma_flag(spaced, error);
    lemma_follows_chain(c, spaced, flagged);
    lemma_options(text, flagged);
    let result = card_definitions(text, c, space_before, card_start).1;
    match options(text, flagged) {
        Some((_, end)) => {
            lemma_ws_run(text, end);
            lemma_third_part(text, ws_run(text, end), card_start);
            lemma_follows_chain(c, flagged, end);
            lemma_follows_chain(c, end, ws_run(text, end));
            lemma_follows_chain(c, ws_run(text, end), result);
        },
        None => {
            lemma_third_part(text, flagged, card_start);
            lemma_follows_chain(c, flagged, result);
        },
    }
}

/// `card` ends inside the text, not before the cursor it starts at, and keeps the
/// diagnostics of that cursor in place.
pub proof fn lemma_card(text: Seq<char>, c: Cursor)
    requires
        c.within(text),
    ensures
        match card(text, c) {
            Some((_, next)) => next.within(text) && next.follows(c) && next.pos > c.pos,
            None => true,
        },
{
    lemma_card_head(text, c);
    match card_head(text, c) {
        Some((head, next)) => {
            if head.has_dash {
                lemma_card_definitions(text, next, head.space_before, c.pos);
            }
            let (definitions, end) = if head.has_dash {
                card_definitions(text, next, head.space_before, c.pos)
            } else {
                (Seq::empty(), next)
            };
            lemma_step(next);
            lemma_follows_chain(c, next, end);
            let whole = span(text, c.pos, end.pos);
            let first = if head.terms.len() == 0 {
                end.flag(ParseError::NoTerms { card: whole })
            } else {
                end
            };
            lemma_flag(end, ParseError::NoTerms { card: whole });
            lemma_follows_chain(c, end, first);
            let second = if definitions.len() == 0 {
                first.flag(ParseError::NoDefinitions { card: whole })
            } else {
                first
            };
            lemma_flag(first, ParseError::NoDefinitions { card: whole });
            lemma_follows_chain(c, first, second);
            lemma_comment(text, second);
            lemma_follows_chain(c, second, comment(text, second));
        },
        None => {},
    }
}

/// `add_card` ends inside the text, not before the cursor it starts at, and keeps the
/// diagnostics of that cursor in place.
pub proof fn lemma_add_card(deck: Deck, c: Cursor, found: CardModel, at: Range<usize>)
    ensures
        add_card(deck, c, found, at).1.follows(c),
        add_card(deck, c, found, at).1.pos == c.pos,
{
    lemma_step(c);
    match first_card(deck.cards, found) {
        Some(i) => lemma_flag(
            c,
            ParseError::DuplicateCard { original: deck.spans[i], duplicate: at },
        ),
        None => {},
    }
}

/// `card_line` ends inside the text, not before the cursor it starts at, and keeps the
/// diagnostics of that cursor in place.
pub proof fn lemma_card_line(text: Seq<char>, c: Cursor, deck: Deck)
    requires
        c.within(text),
    ensures
        card_line(text, c, deck).1.within(text),
        card_line(text, c, deck).1.follows(c),
{
    lemma_card(text, c);
    lemma_blank_line(text, c);
    match card(text, c) {
        Some((found, end)) => {
            let here = span(text, c.pos, end.pos);
            lemma_add_card(deck, end, found, here);
            lemma_follows_chain(c, end, add_card(deck, end, found, here).1);
        },
        None => {},
    }
}

/// `leading_blank_lines` ends inside the text, not before the cursor it starts at, and keeps the
/// diagnostics of that cursor in place.
pub proof fn lemma_leading_blank_lines(text: Seq<char>, c: Cursor)
    requires
        c.within(text),
    ensures
        leading_blank_lines(text, c).within(text),
        leading_blank_lines(text, c).follows(c),
    decreases text.len() - c.pos,
{
    lemma_blank_line(text, c);
    lemma_step(c);
    let blank = blank_line(text, c);
    lemma_single(text, blank);
    match newline(text, blank) {
        Some(next) => {
            lemma_leading_blank_lines(text, next);
            lemma_follows_chain(c, blank, next);
            lemma_follows_chain(c, next, leading_blank_lines(text, next));
        },
        None => {},
    }
}

/// `card_lines` ends inside the text, not before the cursor it starts at, and keeps the
/// diagnostics of that cursor in place.
pub proof fn lemma_card_lines(text: Seq<char>, c: Cursor, deck: Deck)
    requires
        c.within(text),
    ensures
        card_lines(text, c, deck).1.within(text),
        card_lines(text, c, deck).1.follows(c),
    decreases text.len() - c.pos,
{
    lemma_single(text, c);
    lemma_step(c);
    match newline(text, c) {
        Some(next) => {
            lemma_card_line(text, next, deck);
            let (taken, after) = card_line(text, next, deck);
            lemma_card_lines(text, after, taken);
            lemma_follows_chain(c, next, after);
            lemma_follows_chain(c, after, card_lines(text, after, taken).1);
        },
        None => {},
    }
}

} // verus!
