//! The plain card set format, read line by line.
//!
//! The first line that is no comment is the title, the second must be empty,
//! and every further line that is neither empty nor a comment is a card:
//! terms, the separator ` - `, then definitions, each a list of options between
//! commas. Nothing is quoted or escaped, and an option is what stands between
//! two commas, without the white space around it.

use crate::chars::{
    byte_offset, chars_of, is_whitespace, lemma_byte_offset_is_encoded_len,
    lemma_byte_offset_monotonic, len_utf8, span, string_of, white_space,
};
use crate::model::{
    Card, card_models, CardModel, CardSet, Deck, distinct_cards, find_card, first_card, first_index,
    lemma_first_card, lemma_first_index, OptionSet, Seen, SetModel,
};
use std::ops::Range;
use vstd::prelude::*;
use vstd::string::StringSliceAdditionalSpecFns;

verus! {

/// The side of a card on which an option stands.
#[derive(Debug, Clone, Copy, PartialEq, Eq, Structural)]
pub enum CardSide {
    /// The terms, left of the separator.
    Term,
    /// The definitions, right of the separator.
    Definition,
}

impl CardSide {
    /// The name of the side, as a diagnostic writes it.
    pub fn name(&self) -> (name: &'static str)
        ensures
            name@ == match self {
                CardSide::Term => "term"@,
                CardSide::Definition => "definition"@,
            },
    {
        match self {
            CardSide::Term => "term",
            CardSide::Definition => "definition",
        }
    }
}

/// One irregularity in a card set, with the byte spans of the text that it is about.
#[derive(Debug, PartialEq, Eq)]
pub enum ParseError {
    /// The set has no title; with the span of the line that should hold it, if there is one.
    NoTitle(Option<Range<usize>>),
    /// The second line is not empty; with its span.
    SecondLineNotEmpty(Range<usize>),
    /// The set holds no card.
    EmptySet,
    /// An option is empty.
    EmptyOption {
        /// The side of the card.
        side: CardSide,
        /// Where an option was expected.
        span: Range<usize>,
    },
    /// An option occurs twice on one side of a card.
    DuplicateOption {
        /// The side of the card.
        side: CardSide,
        /// The first occurrence.
        original: Range<usize>,
        /// The later occurrence.
        duplicate: Range<usize>,
    },
    /// A card has no separator, and so no definitions; with the span of its line.
    NoDefinitions(Range<usize>),
    /// A card has a third section, after a second separator.
    ThirdPart {
        /// The card up to the second separator.
        before: Range<usize>,
        /// From the second separator to the end of the line.
        span: Range<usize>,
    },
    /// A card occurs twice.
    DuplicateCard {
        /// The first occurrence.
        original: Range<usize>,
        /// The later occurrence.
        duplicate: Range<usize>,
    },
}

/// The characters `text[start..end]` of one line, without its line break.
pub struct Line {
    pub start: int,
    pub end: int,
}

/// What the card lines read so far have given.
pub struct Progress {
    /// The cards, each with the span of its line.
    pub deck: Deck,
    /// A line was a card but for an empty side.
    pub attempted: bool,
    /// The diagnostics.
    pub errors: Seq<ParseError>,
}

/// The position of the first line feed at or behind `pos`, or the end of the text.
pub open spec fn line_stop(text: Seq<char>, pos: int) -> int
    decreases text.len() - pos,
{
    if 0 <= pos < text.len() && text[pos] != '\n' {
        line_stop(text, pos + 1)
    } else {
        pos
    }
}

/// The line that starts at `start`. A carriage return before the line feed is no part of it.
pub open spec fn line_at(text: Seq<char>, start: int) -> Line {
    let stop = line_stop(text, start);
    Line {
        start,
        end: if start < stop < text.len() && text[stop - 1] == '\r' {
            stop - 1
        } else {
            stop
        },
    }
}

/// The position of the first character of `text[from..to]` that is no white space, or `to`.
pub open spec fn space_stop(text: Seq<char>, from: int, to: int) -> int
    decreases to - from,
{
    if 0 <= from < to <= text.len() && white_space(text[from]) {
        space_stop(text, from + 1, to)
    } else {
        from
    }
}

/// The position behind the last character of `text[from..to]` that is no white space, or
/// `from`.
pub open spec fn space_start(text: Seq<char>, from: int, to: int) -> int
    decreases to - from,
{
    if 0 <= from < to <= text.len() && white_space(text[to - 1]) {
        space_start(text, from, to - 1)
    } else {
        to
    }
}

/// The line is a comment: its first character that is no white space is `#`.
pub open spec fn is_comment(text: Seq<char>, line: Line) -> bool {
    let at = space_stop(text, line.start, line.end);
    at < line.end && text[at] == '#'
}

/// The lines of the text from `start` on that are no comments.
pub open spec fn content_lines(text: Seq<char>, start: int) -> Seq<Line>
    decreases text.len() + 1 - start,
{
    if 0 <= start < text.len() {
        let line = line_at(text, start);
        proof {
            lemma_line_stop(text, start);
        }
        let rest = content_lines(text, line_stop(text, start) + 1);
        if is_comment(text, line) {
            rest
        } else {
            seq![line] + rest
        }
    } else {
        Seq::empty()
    }
}

/// The position of the first comma in `text[from..to]`, or `to`.
pub open spec fn comma_stop(text: Seq<char>, from: int, to: int) -> int
    decreases to - from,
{
    if 0 <= from < to <= text.len() && text[from] != ',' {
        comma_stop(text, from + 1, to)
    } else {
        from
    }
}

/// The position of the first separator ` - ` in `text[from..to]`.
pub open spec fn separator(text: Seq<char>, from: int, to: int) -> Option<int>
    decreases to - from,
{
    if 0 <= from && from + 3 <= to <= text.len() {
        if text[from] == ' ' && text[from + 1] == '-' && text[from + 2] == ' ' {
            Some(from)
        } else {
            separator(text, from + 1, to)
        }
    } else {
        None
    }
}

/// The span of an option of which nothing is there, not even white space: the byte before
/// `at` and the byte behind it, as far as they lie in the list `text[from..to]`.
pub open spec fn gap_span(text: Seq<char>, from: int, to: int, at: int) -> Range<usize> {
    let base = byte_offset(text, from);
    let size = byte_offset(text, to) - base;
    let offset = byte_offset(text, at) - base;
    Range {
        start: ((if offset >= 1 {
            offset - 1
        } else {
            0
        }) + base) as usize,
        end: ((if offset + 1 <= size {
            offset + 1
        } else {
            size
        }) + base) as usize,
    }
}

/// Takes the option `text[at..stop]` of the list `text[from..to]` into `seen`: an empty one
/// is flagged, one that `seen` holds already is flagged with both spans, and any other is
/// added without the white space around it.
pub open spec fn take_option(
    text: Seq<char>,
    from: int,
    to: int,
    at: int,
    stop: int,
    side: CardSide,
    seen: Seen,
    errors: Seq<ParseError>,
) -> (Seen, Seq<ParseError>) {
    let first = space_stop(text, at, stop);
    let last = space_start(text, first, stop);
    if first == last {
        let here = if at == stop {
            gap_span(text, from, to, at)
        } else {
            span(text, at, stop)
        };
        (seen, errors.push(ParseError::EmptyOption { side, span: here }))
    } else {
        let value = text.subrange(first, last);
        let here = span(text, first, last);
        match first_index(seen.values, value) {
            Some(i) => (
                seen,
                errors.push(
                    ParseError::DuplicateOption { side, original: seen.spans[i], duplicate: here },
                ),
            ),
            None => (
                Seen { values: seen.values.push(value), spans: seen.spans.push(here) },
                errors,
            ),
        }
    }
}

/// The options of the list `text[from..to]` from `at` on.
pub open spec fn options_from(
    text: Seq<char>,
    from: int,
    to: int,
    at: int,
    side: CardSide,
    seen: Seen,
    errors: Seq<ParseError>,
) -> (Seen, Seq<ParseError>)
    decreases to - at,
{
    if 0 <= at <= to <= text.len() {
        let stop = comma_stop(text, at, to);
        proof {
            lemma_comma_stop(text, at, to);
        }
        let (taken, raised) = take_option(text, from, to, at, stop, side, seen, errors);
        if stop < to {
            options_from(text, from, to, stop + 1, side, taken, raised)
        } else {
            (taken, raised)
        }
    } else {
        (seen, errors)
    }
}

/// The options of the list `text[from..to]`: what stands between its commas.
pub open spec fn options(
    text: Seq<char>,
    from: int,
    to: int,
    side: CardSide,
    errors: Seq<ParseError>,
) -> (Seq<Seq<char>>, Seq<ParseError>) {
    let (seen, raised) = options_from(
        text,
        from,
        to,
        from,
        side,
        Seen { values: Seq::empty(), spans: Seq::empty() },
        errors,
    );
    (seen.values, raised)
}

/// Takes the card of `line` into the deck, unless a side of it is empty or the deck holds
/// it already.
pub open spec fn take_card(
    text: Seq<char>,
    line: Line,
    found: CardModel,
    deck: Deck,
    attempted: bool,
    errors: Seq<ParseError>,
) -> Progress {
    let here = span(text, line.start, line.end);
    if found.terms.len() == 0 || found.definitions.len() == 0 {
        Progress { deck, attempted: true, errors }
    } else {
        match first_card(deck.cards, found) {
            Some(i) => Progress {
                deck,
                attempted,
                errors: errors.push(
                    ParseError::DuplicateCard { original: deck.spans[i], duplicate: here },
                ),
            },
            None => Progress {
                deck: Deck { cards: deck.cards.push(found), spans: deck.spans.push(here) },
                attempted,
                errors,
            },
        }
    }
}

/// One card line. A line without a separator is flagged; what stands behind a second
/// separator is flagged and left out.
pub open spec fn card_line(text: Seq<char>, line: Line, before: Progress) -> Progress {
    match separator(text, line.start, line.end) {
        None => {
            let (_, raised) = options(text, line.start, line.end, CardSide::Term, before.errors);
            Progress {
                deck: before.deck,
                attempted: before.attempted,
                errors: raised.push(
                    ParseError::NoDefinitions(span(text, line.start, line.end)),
                ),
            }
        },
        Some(first) => {
            let (terms, after_terms) = options(
                text,
                line.start,
                first,
                CardSide::Term,
                before.errors,
            );
            let second = separator(text, first + 3, line.end);
            let stop = match second {
                Some(at) => at,
                None => line.end,
            };
            let (definitions, after_definitions) = options(
                text,
                first + 3,
                stop,
                CardSide::Definition,
                after_terms,
            );
            let raised = match second {
                Some(at) => after_definitions.push(
                    ParseError::ThirdPart {
                        before: span(text, line.start, at),
                        span: span(text, at, line.end),
                    },
                ),
                None => after_definitions,
            };
            take_card(
                text,
                line,
                CardModel { terms, definitions },
                before.deck,
                before.attempted,
                raised,
            )
        },
    }
}

/// The card lines `lines[at..]`; empty lines are passed over.
pub open spec fn card_lines(text: Seq<char>, lines: Seq<Line>, at: int, before: Progress) -> Progress
    decreases lines.len() - at,
{
    if 0 <= at < lines.len() {
        let line = lines[at];
        card_lines(
            text,
            lines,
            at + 1,
            if line.start == line.end {
                before
            } else {
                card_line(text, line, before)
            },
        )
    } else {
        before
    }
}

/// The diagnostics of the first two lines: a missing or empty title, and a second line that
/// is not empty.
pub open spec fn head_errors(text: Seq<char>, lines: Seq<Line>) -> Seq<ParseError> {
    let titled = if lines.len() == 0 {
        seq![ParseError::NoTitle(None)]
    } else if lines[0].start == lines[0].end {
        seq![ParseError::NoTitle(Some(span(text, lines[0].start, lines[0].end)))]
    } else {
        Seq::empty()
    };
    if lines.len() > 1 && lines[1].start != lines[1].end {
        titled.push(ParseError::SecondLineNotEmpty(span(text, lines[1].start, lines[1].end)))
    } else {
        titled
    }
}

/// What a whole document gives: the set as far as it could be read, and every diagnostic. A
/// document in which no line was a card, not even one with an empty side, is flagged.
pub open spec fn document(text: Seq<char>) -> (SetModel, Seq<ParseError>) {
    let lines = content_lines(text, 0);
    let read = card_lines(
        text,
        lines,
        2,
        Progress {
            deck: Deck { cards: Seq::empty(), spans: Seq::empty() },
            attempted: false,
            errors: head_errors(text, lines),
        },
    );
    (
        SetModel {
            title: if lines.len() > 0 {
                text.subrange(lines[0].start, lines[0].end)
            } else {
                Seq::empty()
            },
            cards: read.deck.cards,
        },
        if read.deck.cards.len() == 0 && !read.attempted {
            read.errors.push(ParseError::EmptySet)
        } else {
            read.errors
        },
    )
}

/// `line_stop` lies between the position it starts at and the end.
pub proof fn lemma_line_stop(text: Seq<char>, pos: int)
    requires
        0 <= pos <= text.len(),
    ensures
        pos <= line_stop(text, pos) <= text.len(),
    decreases text.len() - pos,
{
    if pos < text.len() && text[pos] != '\n' {
        lemma_line_stop(text, pos + 1);
    }
}

/// `comma_stop` lies between the position it starts at and the end.
pub proof fn lemma_comma_stop(text: Seq<char>, from: int, to: int)
    requires
        0 <= from <= to <= text.len(),
    ensures
        from <= comma_stop(text, from, to) <= to,
    decreases to - from,
{
    if from < to && text[from] != ',' {
        lemma_comma_stop(text, from + 1, to);
    }
}

/// A text with the byte offset of each of its positions.
pub struct Source {
    text: Vec<char>,
    offsets: Vec<usize>,
}

impl View for Source {
    type V = Seq<char>;

    closed spec fn view(&self) -> Seq<char> {
        self.text@
    }
}

impl Source {
    /// Every position has its byte offset.
    pub closed spec fn wf(&self) -> bool {
        &&& self.offsets.len() == self.text.len() + 1
        &&& forall|i: int|
            0 <= i <= self.text.len() ==> #[trigger] self.offsets[i] == byte_offset(self.text@, i)
    }

    /// The source of `input`.
    pub fn new(input: &str) -> (source: Source)
        ensures
            source.wf(),
            source@ == input@,
    {
        let text = chars_of(input);
        let bytes = input.as_bytes();
        let size = bytes.len();
        proof {
            lemma_byte_offset_is_encoded_len(text@, text.len() as int);
            assert(text@.take(text.len() as int) =~= text@);
        }
        let mut offsets: Vec<usize> = Vec::new();
        offsets.push(0);
        let mut offset: usize = 0;
        let mut i: usize = 0;
        while i < text.len()
            invariant
                i <= text.len(),
                offsets.len() == i + 1,
                offset == byte_offset(text@, i as int),
                byte_offset(text@, text.len() as int) <= usize::MAX,
                forall|k: int| 0 <= k <= i ==> #[trigger] offsets[k] == byte_offset(text@, k),
            decreases text.len() - i,
        {
            proof {
                lemma_byte_offset_monotonic(text@, i + 1, text.len() as int);
            }
            offset = offset + len_utf8(text[i]);
            offsets.push(offset);
            i += 1;
        }
        Source { text, offsets }
    }

    /// The number of characters.
    pub fn len(&self) -> (n: usize)
        ensures
            n == self@.len(),
    {
        self.text.len()
    }

    /// The character at `pos`.
    pub fn get(&self, pos: usize) -> (ch: char)
        requires
            pos < self@.len(),
        ensures
            ch == self@[pos as int],
    {
        self.text[pos]
    }

    /// The text `self[from..to]`.
    pub fn slice(&self, from: usize, to: usize) -> (part: String)
        requires
            from <= to <= self@.len(),
        ensures
            part@ == self@.subrange(from as int, to as int),
    {
        string_of(&self.text, from, to)
    }
}

/// The byte offset of the position `pos`.
pub fn offset_of(source: &Source, pos: usize) -> (offset: usize)
    requires
        source.wf(),
        pos <= source@.len(),
    ensures
        offset == byte_offset(source@, pos as int),
{
    source.offsets[pos]
}

/// The byte span of the characters `source[from..to]`.
pub fn range_of(source: &Source, from: usize, to: usize) -> (range: Range<usize>)
    requires
        source.wf(),
        from <= source@.len(),
        to <= source@.len(),
    ensures
        range == span(source@, from as int, to as int),
{
    offset_of(source, from)..offset_of(source, to)
}

/// The lines that the bounds in `bounds` stand for.
pub open spec fn as_lines(bounds: Seq<(usize, usize)>) -> Seq<Line> {
    Seq::new(bounds.len(), |i: int| (Line { start: bounds[i].0 as int, end: bounds[i].1 as int }))
}

/// The lines of `source` that are no comments, each as the bounds of its characters.
pub fn content_lines_of(source: &Source) -> (lines: Vec<(usize, usize)>)
    requires
        source.wf(),
    ensures
        as_lines(lines@) == content_lines(source@, 0),
        forall|i: int| 0 <= i < lines@.len() ==> (#[trigger] lines@[i]).0 <= lines@[i].1 <= source@.len(),
{
    let ghost text = source@;
    let mut lines: Vec<(usize, usize)> = Vec::new();
    let mut start: usize = 0;
    assert(as_lines(lines@) + content_lines(text, 0) =~= content_lines(text, 0));
    while start < source.len()
        invariant
            source.wf(),
            text == source@,
            start <= text.len() + 1,
            content_lines(text, 0) == as_lines(lines@) + content_lines(text, start as int),
            forall|i: int|
                0 <= i < lines@.len() ==> (#[trigger] lines@[i]).0 <= lines@[i].1 <= text.len(),
        decreases text.len() + 1 - start,
    {
        let mut stop = start;
        while stop < source.len() && source.get(stop) != '\n'
            invariant
                source.wf(),
                text == source@,
                start <= stop <= text.len(),
                line_stop(text, stop as int) == line_stop(text, start as int),
            decreases text.len() - stop,
        {
            stop += 1;
        }
        let end = if start < stop && stop < source.len() && source.get(stop - 1) == '\r' {
            stop - 1
        } else {
            stop
        };
        let first = first_content(source, start, end);
        let comment = first < end && source.get(first) == '#';
        let ghost before = as_lines(lines@);
        let ghost rest = content_lines(text, stop + 1);
        if !comment {
            lines.push((start, end));
            assert(as_lines(lines@) =~= before.push(line_at(text, start as int)));
            assert(as_lines(lines@) + rest =~= before + (seq![line_at(text, start as int)] + rest));
        }
        start = stop + 1;
    }
    assert(as_lines(lines@) + content_lines(text, start as int) =~= as_lines(lines@));
    lines
}

/// The position of the first character of `source[from..to]` that is no white space, or `to`.
pub fn first_content(source: &Source, from: usize, to: usize) -> (at: usize)
    requires
        from <= to <= source@.len(),
    ensures
        at == space_stop(source@, from as int, to as int),
        from <= at <= to,
{
    let mut at = from;
    while at < to && is_whitespace(source.get(at))
        invariant
            from <= at <= to <= source@.len(),
            space_stop(source@, at as int, to as int) == space_stop(source@, from as int, to as int),
        decreases to - at,
    {
        at += 1;
    }
    at
}

/// The position behind the last character of `source[from..to]` that is no white space, or
/// `from`.
pub fn last_content(source: &Source, from: usize, to: usize) -> (at: usize)
    requires
        from <= to <= source@.len(),
    ensures
        at == space_start(source@, from as int, to as int),
        from <= at <= to,
{
    let mut at = to;
    while from < at && is_whitespace(source.get(at - 1))
        invariant
            from <= at <= to <= source@.len(),
            space_start(source@, from as int, at as int) == space_start(
                source@,
                from as int,
                to as int,
            ),
        decreases at,
    {
        at -= 1;
    }
    at
}

/// The position of the first separator ` - ` in `source[from..to]`.
pub fn find_separator(source: &Source, from: usize, to: usize) -> (found: Option<usize>)
    requires
        from <= source@.len(),
        to <= source@.len(),
    ensures
        match found {
            Some(at) => separator(source@, from as int, to as int) == Some(at as int) && from <= at
                && at + 3 <= to,
            None => separator(source@, from as int, to as int) is None,
        },
{
    let mut at = from;
    while at < to && to - at >= 3
        invariant
            from <= at,
            at <= source@.len(),
            to <= source@.len(),
            separator(source@, at as int, to as int) == separator(source@, from as int, to as int),
        decreases to - at,
    {
        if source.get(at) == ' ' && source.get(at + 1) == '-' && source.get(at + 2) == ' ' {
            return Some(at);
        }
        at += 1;
    }
    None
}

/// The options read so far in one list, each with the byte span at which it was read.
struct Collected {
    options: OptionSet,
    spans: Vec<(usize, usize)>,
}

impl Collected {
    spec fn model(&self) -> Seen {
        Seen {
            values: self.options@,
            spans: Seq::new(
                self.spans.len() as nat,
                |i: int| (Range { start: self.spans[i].0, end: self.spans[i].1 }),
            ),
        }
    }

    spec fn wf(&self) -> bool {
        self.options.wf() && self.spans.len() == self.options@.len()
    }
}

/// Takes the option `source[at..stop]` of the list `source[from..to]` into `seen`.
fn take_option_of(
    source: &Source,
    from: usize,
    to: usize,
    at: usize,
    stop: usize,
    side: CardSide,
    seen: &mut Collected,
    errors: &mut Vec<ParseError>,
)
    requires
        source.wf(),
        from <= at <= stop <= to <= source@.len(),
        old(seen).wf(),
    ensures
        final(seen).wf(),
        (final(seen).model(), final(errors)@) == take_option(
            source@,
            from as int,
            to as int,
            at as int,
            stop as int,
            side,
            old(seen).model(),
            old(errors)@,
        ),
{
    let first = first_content(source, at, stop);
    let last = last_content(source, first, stop);
    if first == last {
        let here = if at == stop {
            proof {
                lemma_byte_offset_monotonic(source@, from as int, at as int);
                lemma_byte_offset_monotonic(source@, at as int, to as int);
            }
            let base = offset_of(source, from);
            let size = offset_of(source, to) - base;
            let offset = offset_of(source, at) - base;
            let low = if offset >= 1 {
                offset - 1
            } else {
                0
            };
            let high = if offset < size {
                offset + 1
            } else {
                size
            };
            (low + base)..(high + base)
        } else {
            range_of(source, at, stop)
        };
        errors.push(ParseError::EmptyOption { side, span: here });
    } else {
        let value = source.slice(first, last);
        let begin = offset_of(source, first);
        let end = offset_of(source, last);
        proof {
            lemma_first_index(seen.options@, value@);
        }
        match seen.options.position(&value) {
            Some(i) => {
                let original = seen.spans[i];
                errors.push(
                    ParseError::DuplicateOption {
                        side,
                        original: original.0..original.1,
                        duplicate: begin..end,
                    },
                );
            },
            None => {
                let ghost before = seen.model();
                seen.options.insert(value);
                seen.spans.push((begin, end));
                assert(seen.model().spans =~= before.spans.push((Range { start: begin, end })));
            },
        }
    }
}

/// Reads the options of the list `source[from..to]`.
pub fn parse_options(
    source: &Source,
    from: usize,
    to: usize,
    side: CardSide,
    errors: &mut Vec<ParseError>,
) -> (found: OptionSet)
    requires
        source.wf(),
        from <= to <= source@.len(),
    ensures
        found.wf(),
        (found@, final(errors)@) == options(source@, from as int, to as int, side, old(errors)@),
{
    let ghost text = source@;
    let mut seen = Collected { options: OptionSet::new(), spans: Vec::new() };
    assert(seen.model().spans =~= Seq::empty());
    let ghost whole = options_from(
        text,
        from as int,
        to as int,
        from as int,
        side,
        seen.model(),
        errors@,
    );
    let mut at = from;
    loop
        invariant_except_break
            from <= at <= to,
            options_from(text, from as int, to as int, at as int, side, seen.model(), errors@)
                == whole,
        invariant
            source.wf(),
            text == source@,
            from <= to <= text.len(),
            seen.wf(),
        ensures
            (seen.model(), errors@) == whole,
        decreases to - at,
    {
        let mut stop = at;
        while stop < to && source.get(stop) != ','
            invariant
                source.wf(),
                text == source@,
                at <= stop <= to <= text.len(),
                comma_stop(text, stop as int, to as int) == comma_stop(text, at as int, to as int),
            decreases to - stop,
        {
            stop += 1;
        }
        take_option_of(source, from, to, at, stop, side, &mut seen, errors);
        if stop < to {
            at = stop + 1;
        } else {
            break ;
        }
    }
    seen.options
}

/// The cards read so far, each with the byte span of its line.
struct Cards {
    cards: Vec<Card>,
    spans: Vec<(usize, usize)>,
    attempted: bool,
}

impl Cards {
    spec fn model(&self, errors: Seq<ParseError>) -> Progress {
        Progress {
            deck: Deck {
                cards: card_models(self.cards@),
                spans: Seq::new(
                    self.spans.len() as nat,
                    |i: int| (Range { start: self.spans[i].0, end: self.spans[i].1 }),
                ),
            },
            attempted: self.attempted,
            errors,
        }
    }

    spec fn wf(&self) -> bool {
        &&& self.spans.len() == self.cards.len()
        &&& distinct_cards(card_models(self.cards@))
        &&& forall|i: int| 0 <= i < self.cards.len() ==> (#[trigger] self.cards[i]).wf()
    }
}

/// Reads the card line `source[start..end]`.
fn parse_card_line(
    source: &Source,
    start: usize,
    end: usize,
    read: &mut Cards,
    errors: &mut Vec<ParseError>,
)
    requires
        source.wf(),
        start <= end <= source@.len(),
        old(read).wf(),
    ensures
        final(read).wf(),
        final(read).model(final(errors)@) == card_line(
            source@,
            (Line { start: start as int, end: end as int }),
            old(read).model(old(errors)@),
        ),
{
    let first = match find_separator(source, start, end) {
        Some(first) => first,
        None => {
            parse_options(source, start, end, CardSide::Term, errors);
            errors.push(ParseError::NoDefinitions(range_of(source, start, end)));
            return ;
        },
    };
    let terms = parse_options(source, start, first, CardSide::Term, errors);
    let second = find_separator(source, first + 3, end);
    let stop = match second {
        Some(at) => at,
        None => end,
    };
    let definitions = parse_options(source, first + 3, stop, CardSide::Definition, errors);
    match second {
        Some(at) => {
            errors.push(
                ParseError::ThirdPart {
                    before: range_of(source, start, at),
                    span: range_of(source, at, end),
                },
            );
        },
        None => {},
    }
    if terms.is_empty() || definitions.is_empty() {
        read.attempted = true;
        return ;
    }
    let found = Card { terms, definitions };
    proof {
        lemma_first_card(card_models(read.cards@), found@);
    }
    match find_card(&read.cards, &found) {
        Some(i) => {
            let original = read.spans[i];
            errors.push(
                ParseError::DuplicateCard {
                    original: original.0..original.1,
                    duplicate: range_of(source, start, end),
                },
            );
        },
        None => {
            let ghost before = read.model(errors@);
            let begin = offset_of(source, start);
            let finish = offset_of(source, end);
            read.cards.push(found);
            read.spans.push((begin, finish));
            assert(read.model(errors@).deck.cards =~= before.deck.cards.push(found@));
            assert(read.model(errors@).deck.spans =~= before.deck.spans.push(
                (Range { start: begin, end: finish }),
            ));
        },
    }
}

/// Parses a card set in the plain format.
///
/// Gives the set where the text is a regular card set, and otherwise every diagnostic that
/// the text raises, in the order in which they were raised.
pub fn parse(input: &str) -> (res: Result<CardSet, Vec<ParseError>>)
    ensures
        match res {
            Ok(set) => {
                &&& document(input@).1.len() == 0
                &&& set@ == document(input@).0
                &&& set.wf()
            },
            Err(errors) => {
                &&& errors@.len() > 0
                &&& errors@ == document(input@).1
            },
        },
{
    let source = Source::new(input);
    let ghost text = source@;
    let lines = content_lines_of(&source);
    let ghost all = content_lines(text, 0);
    let mut errors: Vec<ParseError> = Vec::new();
    if lines.len() == 0 {
        errors.push(ParseError::NoTitle(None));
    } else if lines[0].0 == lines[0].1 {
        errors.push(ParseError::NoTitle(Some(range_of(&source, lines[0].0, lines[0].1))));
    }
    if lines.len() > 1 && lines[1].0 != lines[1].1 {
        errors.push(ParseError::SecondLineNotEmpty(range_of(&source, lines[1].0, lines[1].1)));
    }
    assert(errors@ =~= head_errors(text, all));
    let mut read = Cards { cards: Vec::new(), spans: Vec::new(), attempted: false };
    assert(read.model(errors@).deck.cards =~= Seq::empty());
    assert(read.model(errors@).deck.spans =~= Seq::empty());
    let ghost whole = card_lines(text, all, 2, read.model(errors@));
    let mut at: usize = 2;
    while at < lines.len()
        invariant
            source.wf(),
            text == source@,
            all == as_lines(lines@),
            2 <= at,
            forall|i: int|
                0 <= i < lines@.len() ==> (#[trigger] lines@[i]).0 <= lines@[i].1 <= text.len(),
            read.wf(),
            card_lines(text, all, at as int, read.model(errors@)) == whole,
        decreases lines.len() - at,
    {
        let line = lines[at];
        assert(all[at as int] == (Line { start: line.0 as int, end: line.1 as int }));
        if line.0 != line.1 {
            parse_card_line(&source, line.0, line.1, &mut read, &mut errors);
        }
        at += 1;
    }
    if read.cards.len() == 0 && !read.attempted {
        errors.push(ParseError::EmptySet);
    }
    if errors.len() == 0 {
        let title = if lines.len() > 0 {
            source.slice(lines[0].0, lines[0].1)
        } else {
            String::new()
        };
        Ok(CardSet { title, cards: read.cards })
    } else {
        Err(errors)
    }
}

} // verus!
