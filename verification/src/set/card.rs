//! The parsers of the title line and of one card line.

use crate::chars::{byte_offset, string_of, trim_bounds};
use crate::model::{Card, OptionSet};
use crate::set::context::ParseContext;
use crate::set::error::{NoMatch, ParseError};
use crate::set::grammar;
use crate::set::lexer::{parse_character, parse_comment, parse_exact_char, skip_ws};
use crate::set::option::parse_options;
use vstd::prelude::*;

verus! {

/// Reads one character of a line that does not start a comment.
pub fn parse_plain_char(cx: &mut ParseContext) -> (res: Result<char, NoMatch>)
    requires
        old(cx).ready(),
    ensures
        final(cx).yields(*old(cx), res, grammar::plain_char(old(cx).text(), old(cx).cursor())),
{
    let ch = match cx.peek() {
        Some(ch) => ch,
        None => return Err(NoMatch),
    };
    if ch == '#' {
        return Err(NoMatch);
    }
    parse_character(cx)
}

/// Reads the title line.
pub fn parse_title(cx: &mut ParseContext) -> (title: String)
    requires
        old(cx).ready(),
    ensures
        final(cx).ready(),
        final(cx).text() == old(cx).text(),
        (title@, final(cx).cursor()) == grammar::title(old(cx).text(), old(cx).cursor()),
{
    let ghost text = cx.text();
    let ghost whole = grammar::plain_run(text, cx.cursor(), Seq::empty());
    let start = cx.offset();
    let mut raw: Vec<char> = Vec::new();
    loop
        invariant
            cx.ready(),
            cx.text() == text,
            grammar::plain_run(text, cx.cursor(), raw@) == whole,
        ensures
            grammar::plain_char(text, cx.cursor()) is None,
        decreases cx.text().len() - cx.cursor().pos,
    {
        match parse_plain_char(cx) {
            Ok(ch) => raw.push(ch),
            Err(_) => break ,
        }
    }
    let bounds = trim_bounds(&raw);
    let title = string_of(&raw, bounds.0, bounds.1);
    if bounds.0 == bounds.1 {
        let end = cx.offset();
        cx.report(ParseError::NoTitle { line: start..end });
    }
    parse_comment(cx);
    title
}

/// The terms and the dash of a card line.
struct Head {
    terms: OptionSet,
    space_before: bool,
    has_dash: bool,
}

/// Reads the head of a card line.
fn parse_card_head(cx: &mut ParseContext) -> (res: Result<Head, NoMatch>)
    requires
        old(cx).ready(),
    ensures
        final(cx).ready(),
        final(cx).text() == old(cx).text(),
        match grammar::card_head(old(cx).text(), old(cx).cursor()) {
            Some((head, next)) => {
                &&& res is Ok
                &&& res->Ok_0.terms@ == head.terms
                &&& res->Ok_0.terms.wf()
                &&& res->Ok_0.space_before == head.space_before
                &&& res->Ok_0.has_dash == head.has_dash
                &&& final(cx).cursor() == next
            },
            None => res is Err && final(cx).cursor() == old(cx).cursor(),
        },
{
    let ghost text = cx.text();
    let ghost from = cx.cursor();
    let mark = cx.checkpoint();
    skip_ws(cx);
    proof {
        grammar::lemma_ws_run(text, from);
        grammar::lemma_options(text, cx.cursor());
        grammar::lemma_rewind(from, cx.cursor());
    }
    let terms = match parse_options(cx) {
        Ok(found) => Some(found),
        Err(_) => {
            cx.rewind(mark);
            None
        },
    };
    let ghost after_terms = cx.cursor();
    let mark_terms = cx.checkpoint();
    let space_before = skip_ws(cx);
    proof {
        grammar::lemma_ws_run(text, after_terms);
        grammar::lemma_rewind(after_terms, cx.cursor());
    }
    let has_dash = parse_exact_char(cx, '-').is_ok();
    match terms {
        Some(found) => Ok(Head { terms: found, space_before, has_dash }),
        None => {
            if has_dash {
                Ok(Head { terms: OptionSet::new(), space_before, has_dash })
            } else {
                cx.rewind(mark_terms);
                Err(NoMatch)
            }
        },
    }
}

/// Reads a third section, if a dash starts one.
fn parse_third_part(cx: &mut ParseContext, card_start: usize, Ghost(card_at): Ghost<int>)
    requires
        old(cx).ready(),
        card_start == byte_offset(old(cx).text(), card_at),
    ensures
        final(cx).reaches(
            *old(cx),
            grammar::third_part(old(cx).text(), old(cx).cursor(), card_at),
        ),
{
    let ghost text = cx.text();
    let at = cx.offset();
    if parse_exact_char(cx, '-').is_ok() {
        let ghost whole = grammar::plain_skip(text, cx.cursor());
        loop
            invariant
                cx.ready(),
                cx.text() == text,
                grammar::plain_skip(text, cx.cursor()) == whole,
            ensures
                grammar::plain_char(text, cx.cursor()) is None,
            decreases cx.text().len() - cx.cursor().pos,
        {
            if parse_plain_char(cx).is_err() {
                break ;
            }
        }
        let end = cx.offset();
        cx.report(ParseError::ThirdPart { before: card_start..at, span: at..end });
    }
}

/// Reads what follows the dash of a card line.
fn parse_card_definitions(
    cx: &mut ParseContext,
    space_before: bool,
    card_start: usize,
    Ghost(card_at): Ghost<int>,
) -> (definitions: OptionSet)
    requires
        old(cx).ready(),
        card_start == byte_offset(old(cx).text(), card_at),
        old(cx).cursor().pos > 0,
        old(cx).text()[old(cx).cursor().pos - 1] == '-',
    ensures
        final(cx).ready(),
        final(cx).text() == old(cx).text(),
        definitions.wf(),
        (definitions@, final(cx).cursor()) == grammar::card_definitions(
            old(cx).text(),
            old(cx).cursor(),
            space_before,
            card_at,
        ),
{
    let dash_end = cx.offset();
    let space_after = skip_ws(cx);
    if !space_before || !space_after {
        cx.report(ParseError::MissingWhitespaceAroundDash { dash: dash_end - 1..dash_end });
    }
    let definitions = match parse_options(cx) {
        Ok(found) => {
            skip_ws(cx);
            found
        },
        Err(_) => OptionSet::new(),
    };
    parse_third_part(cx, card_start, Ghost(card_at));
    definitions
}

/// Reads one card line.
pub fn parse_card(cx: &mut ParseContext) -> (res: Result<Card, NoMatch>)
    requires
        old(cx).ready(),
    ensures
        final(cx).yields_view(*old(cx), res, grammar::card(old(cx).text(), old(cx).cursor())),
        res is Ok ==> res->Ok_0.wf(),
{
    let ghost card_at = cx.cursor().pos;
    let card_start = cx.offset();
    let head = match parse_card_head(cx) {
        Ok(head) => head,
        Err(_) => return Err(NoMatch),
    };
    let definitions = if head.has_dash {
        parse_card_definitions(cx, head.space_before, card_start, Ghost(card_at))
    } else {
        OptionSet::new()
    };
    let end = cx.offset();
    if head.terms.is_empty() {
        cx.report(ParseError::NoTerms { card: card_start..end });
    }
    if definitions.is_empty() {
        cx.report(ParseError::NoDefinitions { card: card_start..end });
    }
    parse_comment(cx);
    Ok(Card { terms: head.terms, definitions })
}

} // verus!
