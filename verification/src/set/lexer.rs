//! The parsers of single characters, of white space, line breaks and comments.

use crate::chars::{is_control, is_field_space, is_line_break};
use crate::set::context::ParseContext;
use crate::set::error::{NoMatch, ParseError};
use crate::set::grammar;
use vstd::prelude::*;

verus! {

/// Reads any one character.
pub fn parse_any(cx: &mut ParseContext) -> (res: Result<char, NoMatch>)
    requires
        old(cx).ready(),
    ensures
        final(cx).yields(*old(cx), res, grammar::any(old(cx).text(), old(cx).cursor())),
{
    match cx.peek() {
        Some(ch) => {
            cx.bump();
            Ok(ch)
        },
        None => Err(NoMatch),
    }
}

/// Reads the character `expected`.
pub fn parse_exact_char(cx: &mut ParseContext, expected: char) -> (res: Result<(), NoMatch>)
    requires
        old(cx).ready(),
    ensures
        final(cx).passes(
            *old(cx),
            res,
            grammar::exact_char(old(cx).text(), old(cx).cursor(), expected),
        ),
{
    match cx.peek() {
        Some(ch) => {
            if ch == expected {
                cx.bump();
                Ok(())
            } else {
                Err(NoMatch)
            }
        },
        None => Err(NoMatch),
    }
}

/// Reads one character of a line, and flags a control character.
pub fn parse_character(cx: &mut ParseContext) -> (res: Result<char, NoMatch>)
    requires
        old(cx).ready(),
    ensures
        final(cx).yields(*old(cx), res, grammar::character(old(cx).text(), old(cx).cursor())),
{
    let ch = match cx.peek() {
        Some(ch) => ch,
        None => return Err(NoMatch),
    };
    if is_line_break(ch) {
        return Err(NoMatch);
    }
    let start = cx.offset();
    cx.bump();
    if is_control(ch) {
        let end = cx.offset();
        cx.report(ParseError::UnexpectedControlChar { character: ch, span: start..end });
    }
    Ok(ch)
}

/// Reads one character of white space between fields, and flags one that is not a space.
pub fn parse_ws(cx: &mut ParseContext) -> (res: Result<(), NoMatch>)
    requires
        old(cx).ready(),
    ensures
        final(cx).passes(*old(cx), res, grammar::ws(old(cx).text(), old(cx).cursor())),
{
    let ch = match cx.peek() {
        Some(ch) => ch,
        None => return Err(NoMatch),
    };
    if !is_field_space(ch) {
        return Err(NoMatch);
    }
    let start = cx.offset();
    cx.bump();
    if ch != ' ' {
        let end = cx.offset();
        cx.report(ParseError::ExpectedSpace { character: ch, span: start..end });
    }
    Ok(())
}

/// Reads as much white space between fields as there is, and says whether there was any.
pub fn skip_ws(cx: &mut ParseContext) -> (any: bool)
    requires
        old(cx).ready(),
    ensures
        final(cx).reaches(*old(cx), grammar::ws_run(old(cx).text(), old(cx).cursor())),
        any == (final(cx).cursor().pos > old(cx).cursor().pos),
{
    let mut any = false;
    loop
        invariant
            cx.ready(),
            cx.text() == old(cx).text(),
            grammar::ws_run(cx.text(), cx.cursor()) == grammar::ws_run(
                old(cx).text(),
                old(cx).cursor(),
            ),
            cx.cursor().pos >= old(cx).cursor().pos,
            any == (cx.cursor().pos > old(cx).cursor().pos),
        ensures
            grammar::ws(cx.text(), cx.cursor()) is None,
        decreases cx.text().len() - cx.cursor().pos,
    {
        if parse_ws(cx).is_err() {
            break ;
        }
        any = true;
    }
    any
}

/// Reads one character of white space inside an option, and flags a control character.
pub fn parse_option_ws(cx: &mut ParseContext) -> (res: Result<char, NoMatch>)
    requires
        old(cx).ready(),
    ensures
        final(cx).yields(*old(cx), res, grammar::option_ws(old(cx).text(), old(cx).cursor())),
{
    let ch = match cx.peek() {
        Some(ch) => ch,
        None => return Err(NoMatch),
    };
    if !is_field_space(ch) {
        return Err(NoMatch);
    }
    let start = cx.offset();
    cx.bump();
    if is_control(ch) {
        let end = cx.offset();
        cx.report(ParseError::UnexpectedControlChar { character: ch, span: start..end });
    }
    Ok(ch)
}

/// Reads a line break, and flags a carriage return without a line feed.
pub fn parse_newline(cx: &mut ParseContext) -> (res: Result<(), NoMatch>)
    requires
        old(cx).ready(),
    ensures
        final(cx).passes(*old(cx), res, grammar::newline(old(cx).text(), old(cx).cursor())),
{
    let ch = match cx.peek() {
        Some(ch) => ch,
        None => return Err(NoMatch),
    };
    if ch == '\n' {
        cx.bump();
        Ok(())
    } else if ch == '\r' {
        let start = cx.offset();
        cx.bump();
        if parse_exact_char(cx, '\n').is_err() {
            let end = cx.offset();
            cx.report(ParseError::MissingLineFeed { cr_span: start..end });
        }
        Ok(())
    } else {
        Err(NoMatch)
    }
}

/// Reads a comment, if one starts at the cursor.
pub fn parse_comment(cx: &mut ParseContext)
    requires
        old(cx).ready(),
    ensures
        final(cx).reaches(*old(cx), grammar::comment(old(cx).text(), old(cx).cursor())),
{
    if parse_exact_char(cx, '#').is_ok() {
        loop
            invariant
                cx.ready(),
                cx.text() == old(cx).text(),
                grammar::line_rest(cx.text(), cx.cursor()) == grammar::comment(
                    old(cx).text(),
                    old(cx).cursor(),
                ),
            ensures
                grammar::character(cx.text(), cx.cursor()) is None,
            decreases cx.text().len() - cx.cursor().pos,
        {
            if parse_character(cx).is_err() {
                break ;
            }
        }
    }
}

/// Reads what a line without content holds: white space and perhaps a comment.
pub fn parse_blank_line(cx: &mut ParseContext)
    requires
        old(cx).ready(),
    ensures
        final(cx).reaches(*old(cx), grammar::blank_line(old(cx).text(), old(cx).cursor())),
{
    skip_ws(cx);
    parse_comment(cx);
}

} // verus!
