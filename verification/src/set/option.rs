//! The parsers of one option and of an option list.

use crate::chars::{byte_offset, is_whitespace, string_of};
use crate::model::{OptionSet, Seen};
use crate::set::context::ParseContext;
use crate::set::error::{NoMatch, ParseError};
use crate::set::grammar;
use crate::set::lexer::{parse_any, parse_character, parse_exact_char, parse_option_ws, skip_ws};
use std::ops::Range;
use vstd::prelude::*;

verus! {

/// Reads one character of an unquoted option.
pub fn parse_option_atom(cx: &mut ParseContext) -> (res: Result<char, NoMatch>)
    requires
        old(cx).ready(),
    ensures
        final(cx).yields(*old(cx), res, grammar::option_atom(old(cx).text(), old(cx).cursor())),
{
    let ch = match cx.peek() {
        Some(ch) => ch,
        None => return Err(NoMatch),
    };
    if ch == ',' || ch == '-' || ch == '#' || is_whitespace(ch) {
        return Err(NoMatch);
    }
    parse_character(cx)
}

/// Reads a quoted option, and gives its characters.
pub fn parse_quoted_chars(cx: &mut ParseContext) -> (res: Result<Vec<char>, NoMatch>)
    requires
        old(cx).ready(),
    ensures
        final(cx).yields_view(*old(cx), res, grammar::quoted(old(cx).text(), old(cx).cursor())),
{
    let ghost text = cx.text();
    let ghost opened = cx.cursor();
    let start = cx.offset();
    if parse_exact_char(cx, '"').is_err() {
        return Err(NoMatch);
    }
    let ghost whole = grammar::quoted_body(text, cx.cursor(), opened.pos, Seq::empty());
    let mut value: Vec<char> = Vec::new();
    loop
        invariant_except_break
            grammar::quoted_body(text, cx.cursor(), opened.pos, value@) == whole,
        invariant
            cx.ready(),
            cx.text() == text,
            start == byte_offset(text, opened.pos),
        ensures
            value@ == whole.0,
            cx.cursor() == whole.1,
        decreases cx.text().len() - cx.cursor().pos,
    {
        match parse_character(cx) {
            Ok(ch) => {
                if ch == '\\' {
                    let escape_at = cx.offset();
                    match parse_any(cx) {
                        Ok(escape) => {
                            if escape == '"' || escape == '\\' {
                                value.push(escape);
                            } else {
                                let end = cx.offset();
                                cx.report(
                                    ParseError::UnknownEscape { escape, span: escape_at..end },
                                );
                            }
                        },
                        Err(_) => {},
                    }
                } else if ch == '"' {
                    break ;
                } else {
                    value.push(ch);
                }
            },
            Err(_) => {
                let end = cx.offset();
                cx.report(ParseError::UnclosedQuote { span: start..end });
                break ;
            },
        }
    }
    Ok(value)
}

/// Reads a quoted option.
pub fn parse_quoted(cx: &mut ParseContext) -> (res: Result<String, NoMatch>)
    requires
        old(cx).ready(),
    ensures
        final(cx).yields_view(*old(cx), res, grammar::quoted(old(cx).text(), old(cx).cursor())),
{
    match parse_quoted_chars(cx) {
        Ok(value) => {
            let text = string_of(&value, 0, value.len());
            assert(value@.subrange(0, value.len() as int) =~= value@);
            Ok(text)
        },
        Err(_) => Err(NoMatch),
    }
}

/// Reads what joins two parts of an option, and gives its characters.
fn parse_option_joint(cx: &mut ParseContext) -> (joint: Vec<char>)
    requires
        old(cx).ready(),
    ensures
        final(cx).ready(),
        final(cx).text() == old(cx).text(),
        (joint@, final(cx).cursor()) == grammar::option_joint(old(cx).text(), old(cx).cursor()),
{
    let ghost text = cx.text();
    let ghost whole = grammar::option_joint(text, cx.cursor());
    let mut joint: Vec<char> = Vec::new();
    let dash = match cx.peek() {
        Some(ch) => ch == '-',
        None => false,
    };
    if dash {
        loop
            invariant
                cx.ready(),
                cx.text() == text,
                grammar::dash_run(text, cx.cursor(), joint@) == whole,
            ensures
                grammar::exact_char(text, cx.cursor(), '-') is None,
            decreases cx.text().len() - cx.cursor().pos,
        {
            if parse_exact_char(cx, '-').is_err() {
                break ;
            }
            joint.push('-');
        }
    } else {
        loop
            invariant
                cx.ready(),
                cx.text() == text,
                grammar::option_ws_run(text, cx.cursor(), joint@) == whole,
            ensures
                grammar::option_ws(text, cx.cursor()) is None,
            decreases cx.text().len() - cx.cursor().pos,
        {
            match parse_option_ws(cx) {
                Ok(ch) => joint.push(ch),
                Err(_) => break ,
            }
        }
    }
    joint
}

/// Reads one further piece of an option and adds it to `value`, or reads nothing.
fn parse_option_piece(cx: &mut ParseContext, value: &mut Vec<char>) -> (found: bool)
    requires
        old(cx).ready(),
    ensures
        final(cx).ready(),
        final(cx).text() == old(cx).text(),
        match grammar::option_piece(old(cx).text(), old(cx).cursor()) {
            Some((piece, next)) => {
                &&& found
                &&& final(value)@ == old(value)@ + piece
                &&& final(cx).cursor() == next
            },
            None => {
                &&& !found
                &&& final(value)@ == old(value)@
                &&& final(cx).cursor() == old(cx).cursor()
            },
        },
{
    let ghost text = cx.text();
    let ghost from = cx.cursor();
    let mark = cx.checkpoint();
    let mut joint = parse_option_joint(cx);
    match parse_option_atom(cx) {
        Ok(ch) => {
            let ghost before = value@;
            let ghost joined = joint@;
            value.append(&mut joint);
            value.push(ch);
            assert(value@ =~= before + joined.push(ch));
            true
        },
        Err(_) => {
            proof {
                grammar::lemma_dash_run(text, from, Seq::empty());
                grammar::lemma_option_ws_run(text, from, Seq::empty());
                grammar::lemma_rewind(from, cx.cursor());
            }
            cx.rewind(mark);
            false
        },
    }
}

/// Reads one option, and gives its characters.
pub fn parse_option_chars(cx: &mut ParseContext) -> (res: Result<Vec<char>, NoMatch>)
    requires
        old(cx).ready(),
    ensures
        final(cx).yields_view(*old(cx), res, grammar::option(old(cx).text(), old(cx).cursor())),
{
    let ghost text = cx.text();
    let mut value: Vec<char>;
    let after_quote: Option<usize>;
    match parse_quoted_chars(cx) {
        Ok(inside) => {
            value = inside;
            after_quote = Some(cx.offset());
        },
        Err(_) => {
            match parse_option_atom(cx) {
                Ok(ch) => {
                    value = Vec::new();
                    value.push(ch);
                    assert(value@ =~= seq![ch]);
                    after_quote = None;
                },
                Err(_) => {
                    return Err(NoMatch);
                },
            }
        },
    }
    let ghost head = cx.cursor();
    let ghost whole = grammar::option_tail(text, head, value@);
    let mut trailing = false;
    loop
        invariant
            cx.ready(),
            cx.text() == text,
            grammar::option_tail(text, cx.cursor(), value@) == whole,
            trailing ==> grammar::option_piece(text, head) is Some,
            !trailing ==> cx.cursor() == head,
        ensures
            grammar::option_piece(text, cx.cursor()) is None,
        decreases cx.text().len() - cx.cursor().pos,
    {
        proof {
            grammar::lemma_option_piece(text, cx.cursor());
        }
        if !parse_option_piece(cx, &mut value) {
            break ;
        }
        trailing = true;
    }
    if trailing {
        match after_quote {
            Some(from) => {
                let to = cx.offset();
                cx.report(ParseError::TrailingOptionChars { span: from..to });
            },
            None => {},
        }
    }
    Ok(value)
}

/// Reads one option.
pub fn parse_option(cx: &mut ParseContext) -> (res: Result<String, NoMatch>)
    requires
        old(cx).ready(),
    ensures
        final(cx).yields_view(*old(cx), res, grammar::option(old(cx).text(), old(cx).cursor())),
{
    match parse_option_chars(cx) {
        Ok(value) => {
            let text = string_of(&value, 0, value.len());
            assert(value@.subrange(0, value.len() as int) =~= value@);
            Ok(text)
        },
        Err(_) => Err(NoMatch),
    }
}

/// The options read so far in one list, each with the byte span at which it was read.
struct Collected {
    options: OptionSet,
    spans: Vec<(usize, usize)>,
}

impl Collected {
    spec fn model(&self) -> Seen {
        Seen {
            values: self.options@,
            spans: Seq::new(
                self.spans.len() as nat,
                |i: int| (Range { start: self.spans[i].0, end: self.spans[i].1 }),
            ),
        }
    }

    spec fn wf(&self) -> bool {
        self.options.wf() && self.spans.len() == self.options@.len()
    }
}

/// Takes an option read at the bytes `from..to` into `seen`.
fn add_option(
    cx: &mut ParseContext,
    seen: &mut Collected,
    value: Vec<char>,
    from: usize,
    to: usize,
)
    requires
        old(cx).ready(),
        old(seen).wf(),
    ensures
        final(cx).ready(),
        final(cx).text() == old(cx).text(),
        final(seen).wf(),
        (final(seen).model(), final(cx).cursor()) == grammar::add_option(
            old(seen).model(),
            old(cx).cursor(),
            value@,
            (Range { start: from, end: to }),
        ),
{
    if value.len() == 0 {
        cx.report(ParseError::EmptyOption { span: from..to });
    } else {
        let text = string_of(&value, 0, value.len());
        assert(value@.subrange(0, value.len() as int) =~= value@);
        proof {
            crate::model::lemma_first_index(seen.options@, value@);
        }
        match seen.options.position(&text) {
            Some(i) => {
                let first = seen.spans[i];
                cx.report(
                    ParseError::DuplicateOption { original: first.0..first.1, duplicate: from..to },
                );
            },
            None => {
                let ghost before = seen.model();
                seen.options.insert(text);
                seen.spans.push((from, to));
                assert(seen.model().spans =~= before.spans.push((Range { start: from, end: to })));
            },
        }
    }
}

/// Reads what follows a comma that starts at the byte `comma_from`.
fn parse_after_comma(
    cx: &mut ParseContext,
    seen: &mut Collected,
    comma_from: usize,
    Ghost(comma_at): Ghost<int>,
)
    requires
        old(cx).ready(),
        old(seen).wf(),
        comma_from == byte_offset(old(cx).text(), comma_at),
    ensures
        final(cx).ready(),
        final(cx).text() == old(cx).text(),
        final(seen).wf(),
        (final(seen).model(), final(cx).cursor()) == grammar::after_comma(
            old(cx).text(),
            old(cx).cursor(),
            comma_at,
            old(seen).model(),
        ),
{
    let ghost text = cx.text();
    let ghost from = cx.cursor();
    let mark = cx.checkpoint();
    skip_ws(cx);
    let at = cx.offset();
    let before_comma = match cx.peek() {
        Some(ch) => ch == ',',
        None => false,
    };
    proof {
        grammar::lemma_ws_run(text, from);
        if before_comma {
            cx.lemma_offsets_fit(cx.cursor().pos + 1);
        }
        grammar::lemma_rewind(from, cx.cursor());
    }
    match parse_option_chars(cx) {
        Ok(value) => {
            let end = cx.offset();
            add_option(cx, seen, value, at, end);
        },
        Err(_) => {
            cx.rewind(mark);
            let end = if before_comma {
                at + 1
            } else {
                at
            };
            cx.report(ParseError::EmptyOption { span: comma_from..end });
        },
    }
}

/// Reads an option list.
pub fn parse_options(cx: &mut ParseContext) -> (res: Result<OptionSet, NoMatch>)
    requires
        old(cx).ready(),
    ensures
        final(cx).yields_view(*old(cx), res, grammar::options(old(cx).text(), old(cx).cursor())),
        res is Ok ==> res->Ok_0.wf(),
{
    let ghost text = cx.text();
    let ghost from = cx.cursor();
    let start = cx.offset();
    let mut seen = Collected { options: OptionSet::new(), spans: Vec::new() };
    assert(seen.model().spans =~= Seq::empty());
    if parse_exact_char(cx, ',').is_ok() {
        let end = cx.offset();
        cx.report(ParseError::EmptyOption { span: start..end });
        parse_after_comma(cx, &mut seen, start, Ghost(from.pos));
    } else {
        match parse_option_chars(cx) {
            Ok(value) => {
                let end = cx.offset();
                add_option(cx, &mut seen, value, start, end);
            },
            Err(_) => {
                return Err(NoMatch);
            },
        }
    }
    let ghost whole = grammar::options_rest(text, cx.cursor(), seen.model());
    loop
        invariant
            cx.ready(),
            cx.text() == text,
            seen.wf(),
            grammar::options_rest(text, cx.cursor(), seen.model()) == whole,
        ensures
            grammar::comma(text, cx.cursor()) is None,
        decreases cx.text().len() - cx.cursor().pos,
    {
        let ghost here = cx.cursor();
        let mark = cx.checkpoint();
        skip_ws(cx);
        let comma_from = cx.offset();
        let ghost comma_at = cx.cursor().pos;
        proof {
            grammar::lemma_ws_run(text, here);
            grammar::lemma_comma(text, here);
            grammar::lemma_rewind(here, cx.cursor());
        }
        if parse_exact_char(cx, ',').is_err() {
            cx.rewind(mark);
            break ;
        }
        proof {
            grammar::lemma_after_comma(text, cx.cursor(), comma_at, seen.model());
        }
        parse_after_comma(cx, &mut seen, comma_from, Ghost(comma_at));
    }
    Ok(seen.options)
}

} // verus!
