//! Flashcard sets: the parser of the card set format, the parser of the answers typed while
//! studying, and what a study program needs around them.
//!
//! - [`set`] reads a card set: a title and cards, each a set of terms and a set of
//!   definitions. It reads a document to its end and raises every diagnostic that the
//!   document gives rise to, each with the byte spans of the text that it is about.
//!   [`set::grammar`] says what a text means; the parsers are proved against it.
//! - [`guess`] reads what a learner types as an answer.
//! - [`laws`] holds what is proved of the card set format as a whole.
//! - [`simple`] reads the plain card set format, line by line.
//! - [`model`] holds option sets, cards and card sets; [`key`] gives a card its identity.
//! - [`knowledge`], [`study`], [`editor`] and [`report`] hold the rules of a study session:
//!   how well a card is known, which card is asked, how a line is typed, and which lines of
//!   a text a report shows.

pub mod chars;
pub mod editor;
pub mod guess;
pub mod key;
pub mod knowledge;
pub mod laws;
pub mod model;
pub mod report;
pub mod set;
pub mod simple;
pub mod study;

pub use crate::guess::parse_guess;
pub use crate::key::CardKey;
pub use crate::knowledge::{Knowledge, KnowledgeLevel};
pub use crate::model::{Card, CardSet, OptionSet};
pub use crate::set::document::parse_set;
pub use crate::set::error::{NoMatch, ParseError};
