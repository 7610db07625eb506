//! The card set format: its diagnostics, its grammar and its parser.

pub mod card;
pub mod context;
pub mod document;
pub mod error;
pub mod grammar;
pub mod lexer;
pub mod option;
