//! The answer format: what a learner types as the definitions of a term.
//!
//! An answer is a list of options between commas. An option is a quoted
//! string, or a run of words: characters other than commas and white space,
//! joined by the white space between them. Nothing is diagnosed: an answer
//! that goes wrong somewhere gives the options that were read up to there.

use crate::chars::{chars_of, is_whitespace, string_of, white_space};
use crate::model::OptionSet;
use crate::set::error::NoMatch;
use vstd::prelude::*;

verus! {

/// A character that can stand in an unquoted option.
pub open spec fn atom_char(ch: char) -> bool {
    ch != ',' && !white_space(ch)
}

/// The position behind the white space at `pos`.
pub open spec fn space_end(text: Seq<char>, pos: int) -> int
    decreases text.len() - pos,
{
    if 0 <= pos < text.len() && white_space(text[pos]) {
        space_end(text, pos + 1)
    } else {
        pos
    }
}

/// The white space at `pos`, added to `acc`.
pub open spec fn space_chars(text: Seq<char>, pos: int, acc: Seq<char>) -> Seq<char>
    decreases text.len() - pos,
{
    if 0 <= pos < text.len() && white_space(text[pos]) {
        space_chars(text, pos + 1, acc.push(text[pos]))
    } else {
        acc
    }
}

/// The inside of a quoted option from `pos` on, added to `acc`, and the position behind the
/// closing quote. A backslash keeps a quote or a backslash that follows it; before anything
/// else, both characters are dropped. Where the text ends before the closing quote, what was
/// read is the option.
pub open spec fn quoted_body(text: Seq<char>, pos: int, acc: Seq<char>) -> (Seq<char>, int)
    decreases text.len() - pos,
{
    if 0 <= pos < text.len() {
        let ch = text[pos];
        if ch == '\\' {
            if pos + 1 < text.len() {
                let escape = text[pos + 1];
                if escape == '"' || escape == '\\' {
                    quoted_body(text, pos + 2, acc.push(escape))
                } else {
                    quoted_body(text, pos + 2, acc)
                }
            } else {
                (acc, pos + 1)
            }
        } else if ch == '"' {
            (acc, pos + 1)
        } else {
            quoted_body(text, pos + 1, acc.push(ch))
        }
    } else {
        (acc, pos)
    }
}

/// A quoted option.
pub open spec fn quoted(text: Seq<char>, pos: int) -> Option<(Seq<char>, int)> {
    if 0 <= pos < text.len() && text[pos] == '"' {
        Some(quoted_body(text, pos + 1, Seq::empty()))
    } else {
        None
    }
}

/// One further word character of an option, with the white space before it.
pub open spec fn option_piece(text: Seq<char>, pos: int) -> Option<(Seq<char>, int)> {
    let at = space_end(text, pos);
    if 0 <= at < text.len() && atom_char(text[at]) {
        Some((space_chars(text, pos, Seq::empty()).push(text[at]), at + 1))
    } else {
        None
    }
}

/// As many further pieces of an option as there are, added to `acc`.
pub open spec fn option_tail(text: Seq<char>, pos: int, acc: Seq<char>) -> (Seq<char>, int)
    decreases text.len() - pos,
{
    if 0 <= pos <= text.len() {
        match option_piece(text, pos) {
            Some((piece, next)) => {
                proof {
                    lemma_space_end(text, pos);
                }
                option_tail(text, next, acc + piece)
            },
            None => (acc, pos),
        }
    } else {
        (acc, pos)
    }
}

/// One option: a quoted string, or a run of words.
pub open spec fn option(text: Seq<char>, pos: int) -> Option<(Seq<char>, int)> {
    match quoted(text, pos) {
        Some(found) => Some(found),
        None => if 0 <= pos < text.len() && atom_char(text[pos]) {
            Some(option_tail(text, pos + 1, seq![text[pos]]))
        } else {
            None
        },
    }
}

/// `found` with `value`, unless `found` holds it or it is empty.
pub open spec fn with_option(found: Seq<Seq<char>>, value: Seq<char>) -> Seq<Seq<char>> {
    if value.len() == 0 || found.contains(value) {
        found
    } else {
        found.push(value)
    }
}

/// One position of the list: white space, then an option with the white space behind it, or
/// nothing.
pub open spec fn slot(text: Seq<char>, pos: int, found: Seq<Seq<char>>) -> (Seq<Seq<char>>, int) {
    let at = space_end(text, pos);
    match option(text, at) {
        Some((value, end)) => (with_option(found, value), space_end(text, end)),
        None => (found, at),
    }
}

/// The options from `pos` on, added to `found`, and the position at which the list ends.
pub open spec fn guess_from(text: Seq<char>, pos: int, found: Seq<Seq<char>>) -> (
    Seq<Seq<char>>,
    int,
)
    decreases text.len() - pos,
{
    if 0 <= pos <= text.len() {
        let (taken, at) = slot(text, pos, found);
        proof {
            lemma_slot(text, pos, found);
        }
        if at < text.len() && text[at] == ',' {
            guess_from(text, at + 1, taken)
        } else {
            (taken, at)
        }
    } else {
        (found, pos)
    }
}

/// The options of an answer, in the order of their first occurrence.
pub open spec fn guess(text: Seq<char>) -> Seq<Seq<char>> {
    guess_from(text, 0, Seq::empty()).0
}

/// `space_end` ends inside the text, not before the position it starts at.
pub proof fn lemma_space_end(text: Seq<char>, pos: int)
    requires
        0 <= pos <= text.len(),
    ensures
        pos <= space_end(text, pos) <= text.len(),
    decreases text.len() - pos,
{
    if pos < text.len() && white_space(text[pos]) {
        lemma_space_end(text, pos + 1);
    }
}

/// `quoted_body` ends inside the text, not before the position it starts at.
pub proof fn lemma_quoted_body(text: Seq<char>, pos: int, acc: Seq<char>)
    requires
        0 <= pos <= text.len(),
    ensures
        pos <= quoted_body(text, pos, acc).1 <= text.len(),
    decreases text.len() - pos,
{
    if pos < text.len() {
        let ch = text[pos];
        if ch == '\\' {
            if pos + 1 < text.len() {
                let escape = text[pos + 1];
                if escape == '"' || escape == '\\' {
                    lemma_quoted_body(text, pos + 2, acc.push(escape));
                } else {
                    lemma_quoted_body(text, pos + 2, acc);
                }
            }
        } else if ch == '"' {
        } else {
            lemma_quoted_body(text, pos + 1, acc.push(ch));
        }
    }
}

/// `option_tail` ends inside the text, not before the position it starts at.
pub proof fn lemma_option_tail(text: Seq<char>, pos: int, acc: Seq<char>)
    requires
        0 <= pos <= text.len(),
    ensures
        pos <= option_tail(text, pos, acc).1 <= text.len(),
    decreases text.len() - pos,
{
    lemma_space_end(text, pos);
    match option_piece(text, pos) {
        Some((piece, next)) => lemma_option_tail(text, next, acc + piece),
        None => {},
    }
}

/// `option` ends inside the text, not before the position it starts at.
pub proof fn lemma_option(text: Seq<char>, pos: int)
    requires
        0 <= pos <= text.len(),
    ensures
        match option(text, pos) {
            Some((_, end)) => pos < end <= text.len(),
            None => true,
        },
{
    if pos < text.len() {
        lemma_quoted_body(text, pos + 1, Seq::empty());
        lemma_option_tail(text, pos + 1, seq![text[pos]]);
    }
}

/// `slot` ends inside the text, not before the position it starts at.
pub proof fn lemma_slot(text: Seq<char>, pos: int, found: Seq<Seq<char>>)
    requires
        0 <= pos <= text.len(),
    ensures
        pos <= slot(text, pos, found).1 <= text.len(),
{
    lemma_space_end(text, pos);
    let at = space_end(text, pos);
    lemma_option(text, at);
    match option(text, at) {
        Some((_, end)) => lemma_space_end(text, end),
        None => {},
    }
}

/// None of `options` is empty.
pub open spec fn none_empty(options: Seq<Seq<char>>) -> bool {
    forall|i: int| 0 <= i < options.len() ==> (#[trigger] options[i]).len() > 0
}

/// No option of an answer is empty.
pub proof fn lemma_guess_none_empty(text: Seq<char>, pos: int, found: Seq<Seq<char>>)
    requires
        none_empty(found),
    ensures
        none_empty(guess_from(text, pos, found).0),
    decreases text.len() - pos,
{
    if 0 <= pos <= text.len() {
        let (taken, at) = slot(text, pos, found);
        lemma_slot(text, pos, found);
        let start = space_end(text, pos);
        match option(text, start) {
            Some((value, end)) => {
                assert forall|i: int| 0 <= i < taken.len() implies (#[trigger] taken[i]).len()
                    > 0 by {
                    if i < found.len() {
                        assert(taken[i] == found[i]);
                    }
                }
            },
            None => {},
        }
        if at < text.len() && text[at] == ',' {
            lemma_guess_none_empty(text, at + 1, taken);
        }
    }
}

/// A text and a position in it.
pub struct ParseContext {
    source: Vec<char>,
    pos: usize,
}

impl ParseContext {
    /// The text that is parsed.
    pub closed spec fn text(&self) -> Seq<char> {
        self.source@
    }

    /// The position, counted in characters.
    pub closed spec fn pos(&self) -> int {
        self.pos as int
    }

    /// The position lies inside the text or at its end.
    pub open spec fn ready(&self) -> bool {
        0 <= self.pos() <= self.text().len()
    }

    /// This context came from `before` and stands at `pos`.
    pub open spec fn reaches(&self, before: ParseContext, pos: int) -> bool {
        self.ready() && self.text() == before.text() && self.pos() == pos
    }

    /// A context at the start of `input`.
    pub fn new(input: &str) -> (cx: ParseContext)
        ensures
            cx.ready(),
            cx.text() == input@,
            cx.pos() == 0,
    {
        ParseContext { source: chars_of(input), pos: 0 }
    }

    /// The character at the position, if the text has not ended.
    pub fn peek(&self) -> (next: Option<char>)
        requires
            self.ready(),
        ensures
            next == if self.pos() < self.text().len() {
                Some(self.text()[self.pos()])
            } else {
                None
            },
    {
        if self.pos < self.source.len() {
            Some(self.source[self.pos])
        } else {
            None
        }
    }

    /// Moves over one character.
    pub fn bump(&mut self)
        requires
            old(self).ready(),
            old(self).pos() < old(self).text().len(),
        ensures
            final(self).reaches(*old(self), old(self).pos() + 1),
    {
        let len = self.source.len();
        assert(self.pos < len);
        self.pos = self.pos + 1;
    }

    /// Marks the position.
    pub fn checkpoint(&self) -> (mark: usize)
        requires
            self.ready(),
        ensures
            mark == self.pos(),
    {
        self.pos
    }

    /// Goes back to a marked position.
    pub fn rewind(&mut self, mark: usize)
        requires
            old(self).ready(),
            mark <= old(self).text().len(),
        ensures
            final(self).reaches(*old(self), mark as int),
    {
        self.pos = mark;
    }

    /// The text from the position on.
    pub fn remaining(&self) -> (rest: String)
        requires
            self.ready(),
        ensures
            rest@ == self.text().skip(self.pos()),
    {
        let rest = string_of(&self.source, self.pos, self.source.len());
        assert(self.source@.subrange(self.pos as int, self.source.len() as int) =~= self.source@.skip(
            self.pos as int,
        ));
        rest
    }
}

/// Reads any one character.
pub fn parse_any(cx: &mut ParseContext) -> (res: Result<char, NoMatch>)
    requires
        old(cx).ready(),
    ensures
        final(cx).ready(),
        final(cx).text() == old(cx).text(),
        if old(cx).pos() < old(cx).text().len() {
            res == Ok::<char, NoMatch>(old(cx).text()[old(cx).pos()]) && final(cx).pos() == old(
                cx,
            ).pos() + 1
        } else {
            res is Err && final(cx).pos() == old(cx).pos()
        },
{
    match cx.peek() {
        Some(ch) => {
            cx.bump();
            Ok(ch)
        },
        None => Err(NoMatch),
    }
}

/// Reads the character `expected`.
pub fn parse_exact_char(cx: &mut ParseContext, expected: char) -> (res: Result<(), NoMatch>)
    requires
        old(cx).ready(),
    ensures
        final(cx).ready(),
        final(cx).text() == old(cx).text(),
        if old(cx).pos() < old(cx).text().len() && old(cx).text()[old(cx).pos()] == expected {
            res is Ok && final(cx).pos() == old(cx).pos() + 1
        } else {
            res is Err && final(cx).pos() == old(cx).pos()
        },
{
    match cx.peek() {
        Some(ch) => {
            if ch == expected {
                cx.bump();
                Ok(())
            } else {
                Err(NoMatch)
            }
        },
        None => Err(NoMatch),
    }
}

/// Reads one character of white space.
pub fn parse_whitespace(cx: &mut ParseContext) -> (res: Result<char, NoMatch>)
    requires
        old(cx).ready(),
    ensures
        final(cx).ready(),
        final(cx).text() == old(cx).text(),
        if old(cx).pos() < old(cx).text().len() && white_space(old(cx).text()[old(cx).pos()]) {
            res == Ok::<char, NoMatch>(old(cx).text()[old(cx).pos()]) && final(cx).pos() == old(
                cx,
            ).pos() + 1
        } else {
            res is Err && final(cx).pos() == old(cx).pos()
        },
{
    match cx.peek() {
        Some(ch) => {
            if is_whitespace(ch) {
                cx.bump();
                Ok(ch)
            } else {
                Err(NoMatch)
            }
        },
        None => Err(NoMatch),
    }
}

/// Reads one character of an unquoted option.
pub fn parse_option_atom(cx: &mut ParseContext) -> (res: Result<char, NoMatch>)
    requires
        old(cx).ready(),
    ensures
        final(cx).ready(),
        final(cx).text() == old(cx).text(),
        if old(cx).pos() < old(cx).text().len() && atom_char(old(cx).text()[old(cx).pos()]) {
            res == Ok::<char, NoMatch>(old(cx).text()[old(cx).pos()]) && final(cx).pos() == old(
                cx,
            ).pos() + 1
        } else {
            res is Err && final(cx).pos() == old(cx).pos()
        },
{
    match cx.peek() {
        Some(ch) => {
            if ch != ',' && !is_whitespace(ch) {
                cx.bump();
                Ok(ch)
            } else {
                Err(NoMatch)
            }
        },
        None => Err(NoMatch),
    }
}

/// Reads as much white space as there is.
pub fn skip_whitespace(cx: &mut ParseContext)
    requires
        old(cx).ready(),
    ensures
        final(cx).reaches(*old(cx), space_end(old(cx).text(), old(cx).pos())),
{
    let ghost text = cx.text();
    let ghost whole = space_end(text, cx.pos());
    loop
        invariant
            cx.ready(),
            cx.text() == text,
            space_end(text, cx.pos()) == whole,
        ensures
            !(cx.pos() < text.len() && white_space(text[cx.pos()])),
        decreases cx.text().len() - cx.pos(),
    {
        if parse_whitespace(cx).is_err() {
            break ;
        }
    }
}

/// Reads a quoted option, and gives its characters.
pub fn parse_quoted_chars(cx: &mut ParseContext) -> (res: Result<Vec<char>, NoMatch>)
    requires
        old(cx).ready(),
    ensures
        final(cx).ready(),
        final(cx).text() == old(cx).text(),
        match quoted(old(cx).text(), old(cx).pos()) {
            Some((value, end)) => res is Ok && res->Ok_0@ == value && final(cx).pos() == end,
            None => res is Err && final(cx).pos() == old(cx).pos(),
        },
{
    let ghost text = cx.text();
    if parse_exact_char(cx, '"').is_err() {
        return Err(NoMatch);
    }
    let ghost whole = quoted_body(text, cx.pos(), Seq::empty());
    let mut value: Vec<char> = Vec::new();
    loop
        invariant_except_break
            quoted_body(text, cx.pos(), value@) == whole,
        invariant
            cx.ready(),
            cx.text() == text,
        ensures
            value@ == whole.0,
            cx.pos() == whole.1,
        decreases cx.text().len() - cx.pos(),
    {
        match parse_any(cx) {
            Ok(ch) => {
                if ch == '\\' {
                    match parse_any(cx) {
                        Ok(escape) => {
                            if escape == '"' || escape == '\\' {
                                value.push(escape);
                            }
                        },
                        Err(_) => {
                            break ;
                        },
                    }
                } else if ch == '"' {
                    break ;
                } else {
                    value.push(ch);
                }
            },
            Err(_) => {
                break ;
            },
        }
    }
    Ok(value)
}

/// Reads a quoted option.
pub fn parse_quoted(cx: &mut ParseContext) -> (res: Result<String, NoMatch>)
    requires
        old(cx).ready(),
    ensures
        final(cx).ready(),
        final(cx).text() == old(cx).text(),
        match quoted(old(cx).text(), old(cx).pos()) {
            Some((value, end)) => res is Ok && res->Ok_0@ == value && final(cx).pos() == end,
            None => res is Err && final(cx).pos() == old(cx).pos(),
        },
{
    match parse_quoted_chars(cx) {
        Ok(value) => {
            let text = string_of(&value, 0, value.len());
            assert(value@.subrange(0, value.len() as int) =~= value@);
            Ok(text)
        },
        Err(_) => Err(NoMatch),
    }
}

/// Reads one further piece of an option and adds it to `value`, or reads nothing.
fn parse_option_piece(cx: &mut ParseContext, value: &mut Vec<char>) -> (found: bool)
    requires
        old(cx).ready(),
    ensures
        final(cx).ready(),
        final(cx).text() == old(cx).text(),
        match option_piece(old(cx).text(), old(cx).pos()) {
            Some((piece, next)) => {
                &&& found
                &&& final(value)@ == old(value)@ + piece
                &&& final(cx).pos() == next
            },
            None => {
                &&& !found
                &&& final(value)@ == old(value)@
                &&& final(cx).pos() == old(cx).pos()
            },
        },
{
    let ghost text = cx.text();
    let ghost from = cx.pos();
    let mark = cx.checkpoint();
    let mut spaces: Vec<char> = Vec::new();
    loop
        invariant
            cx.ready(),
            cx.text() == text,
            from <= cx.pos(),
            space_end(text, cx.pos()) == space_end(text, from),
            space_chars(text, cx.pos(), spaces@) == space_chars(text, from, Seq::empty()),
        ensures
            !(cx.pos() < text.len() && white_space(text[cx.pos()])),
        decreases cx.text().len() - cx.pos(),
    {
        match parse_whitespace(cx) {
            Ok(ch) => spaces.push(ch),
            Err(_) => break ,
        }
    }
    match parse_option_atom(cx) {
        Ok(ch) => {
            let ghost before = value@;
            let ghost joint = spaces@;
            value.append(&mut spaces);
            value.push(ch);
            assert(value@ =~= before + joint.push(ch));
            true
        },
        Err(_) => {
            cx.rewind(mark);
            false
        },
    }
}

/// Reads one option, and gives its characters.
pub fn parse_option_chars(cx: &mut ParseContext) -> (res: Result<Vec<char>, NoMatch>)
    requires
        old(cx).ready(),
    ensures
        final(cx).ready(),
        final(cx).text() == old(cx).text(),
        match option(old(cx).text(), old(cx).pos()) {
            Some((value, end)) => res is Ok && res->Ok_0@ == value && final(cx).pos() == end,
            None => res is Err && final(cx).pos() == old(cx).pos(),
        },
{
    let ghost text = cx.text();
    match parse_quoted_chars(cx) {
        Ok(value) => {
            return Ok(value);
        },
        Err(_) => {},
    }
    let mut value: Vec<char> = Vec::new();
    match parse_option_atom(cx) {
        Ok(ch) => {
            value.push(ch);
            assert(value@ =~= seq![ch]);
        },
        Err(_) => {
            return Err(NoMatch);
        },
    }
    let ghost whole = option_tail(text, cx.pos(), value@);
    loop
        invariant
            cx.ready(),
            cx.text() == text,
            option_tail(text, cx.pos(), value@) == whole,
        ensures
            option_piece(text, cx.pos()) is None,
        decreases cx.text().len() - cx.pos(),
    {
        proof {
            lemma_space_end(text, cx.pos());
        }
        if !parse_option_piece(cx, &mut value) {
            break ;
        }
    }
    Ok(value)
}

/// Reads one option.
pub fn parse_option(cx: &mut ParseContext) -> (res: Result<String, NoMatch>)
    requires
        old(cx).ready(),
    ensures
        final(cx).ready(),
        final(cx).text() == old(cx).text(),
        match option(old(cx).text(), old(cx).pos()) {
            Some((value, end)) => res is Ok && res->Ok_0@ == value && final(cx).pos() == end,
            None => res is Err && final(cx).pos() == old(cx).pos(),
        },
{
    match parse_option_chars(cx) {
        Ok(value) => {
            let text = string_of(&value, 0, value.len());
            assert(value@.subrange(0, value.len() as int) =~= value@);
            Ok(text)
        },
        Err(_) => Err(NoMatch),
    }
}

/// Reads an answer from the position on.
pub fn parse_guess_inner(cx: &mut ParseContext) -> (options: OptionSet)
    requires
        old(cx).ready(),
    ensures
        final(cx).ready(),
        final(cx).text() == old(cx).text(),
        (options@, final(cx).pos()) == guess_from(
            old(cx).text(),
            old(cx).pos(),
            Seq::empty(),
        ),
        options.wf(),
{
    let ghost text = cx.text();
    let ghost whole = guess_from(text, cx.pos(), Seq::empty());
    let mut options = OptionSet::new();
    loop
        invariant_except_break
            guess_from(text, cx.pos(), options@) == whole,
        invariant
            cx.ready(),
            cx.text() == text,
            options.wf(),
        ensures
            (options@, cx.pos()) == whole,
        decreases cx.text().len() - cx.pos(),
    {
        proof {
            lemma_slot(text, cx.pos(), options@);
        }
        skip_whitespace(cx);
        match parse_option(cx) {
            Ok(option) => {
                if !option.as_str().is_empty() {
                    options.insert(option);
                }
                skip_whitespace(cx);
            },
            Err(_) => {},
        }
        if parse_exact_char(cx, ',').is_err() {
            break ;
        }
    }
    options
}

/// Parses what a learner typed as the definitions of a term.
pub fn parse_guess(input: &str) -> (options: OptionSet)
    ensures
        options@ == guess(input@),
        options.wf(),
        none_empty(options@),
{
    let mut cx = ParseContext::new(input);
    proof {
        lemma_guess_none_empty(input@, 0, Seq::empty());
    }
    parse_guess_inner(&mut cx)
}

} // verus!
