//! The diagnostics of the card set format.

use std::ops::Range;
use vstd::prelude::*;

verus! {

/// A parser found nothing of its kind at the cursor, and left the cursor where it was.
#[derive(Debug, Clone, Copy, PartialEq, Eq)]
pub struct NoMatch;

/// One irregularity in a card set, with the byte spans of the text that it is about.
#[derive(Debug, PartialEq, Eq)]
pub enum ParseError {
    /// The set has no title.
    NoTitle {
        /// The line that should have held the title.
        line: Range<usize>,
    },
    /// The set holds no card.
    EmptySet,
    /// A card occurs twice.
    DuplicateCard {
        /// The first occurrence.
        original: Range<usize>,
        /// The later occurrence.
        duplicate: Range<usize>,
    },
    /// A card has a third section, after a second dash.
    ThirdPart {
        /// The card up to the second dash.
        before: Range<usize>,
        /// From the second dash to the end of the line or the start of a comment.
        span: Range<usize>,
    },
    /// The dash between terms and definitions lacks white space on one side.
    MissingWhitespaceAroundDash {
        /// The dash.
        dash: Range<usize>,
    },
    /// A card has no terms.
    NoTerms {
        /// The card.
        card: Range<usize>,
    },
    /// A card has no definitions.
    NoDefinitions {
        /// The card.
        card: Range<usize>,
    },
    /// An option occurs twice in one list.
    DuplicateOption {
        /// The first occurrence.
        original: Range<usize>,
        /// The later occurrence.
        duplicate: Range<usize>,
    },
    /// An option is empty.
    EmptyOption {
        /// Where an option was expected.
        span: Range<usize>,
    },
    /// Characters follow the closing quote of an option.
    TrailingOptionChars {
        /// The characters after the quote.
        span: Range<usize>,
    },
    /// A backslash in a quoted option is followed by something other than a quote or a backslash.
    UnknownEscape {
        /// The character after the backslash.
        escape: char,
        /// That character's span.
        span: Range<usize>,
    },
    /// A quoted option has no closing quote.
    UnclosedQuote {
        /// The whole open string.
        span: Range<usize>,
    },
    /// A control character stands in a line.
    UnexpectedControlChar {
        /// The control character.
        character: char,
        /// Its span.
        span: Range<usize>,
    },
    /// White space other than the space character separates fields.
    ExpectedSpace {
        /// The white space character.
        character: char,
        /// Its span.
        span: Range<usize>,
    },
    /// A carriage return is not followed by a line feed.
    MissingLineFeed {
        /// The carriage return.
        cr_span: Range<usize>,
    },
}

} // verus!
