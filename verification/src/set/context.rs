//! The cursor engine: a text, a position in it with its byte offset, and the
//! diagnostics raised so far. A checkpoint remembers a position and the number
//! of diagnostics, and `rewind` goes back to it.

use crate::chars::{
    byte_offset, chars_of, lemma_byte_offset_is_encoded_len, lemma_byte_offset_monotonic, len_utf8,
    string_of,
};
use crate::set::error::{NoMatch, ParseError};
use crate::set::grammar::Cursor;
use vstd::prelude::*;
use vstd::string::StringSliceAdditionalSpecFns;

verus! {

/// The state of one parse.
pub struct ParseContext {
    source: Vec<char>,
    pos: usize,
    offset: usize,
    errors: Vec<ParseError>,
}

/// A place to go back to.
pub struct Checkpoint {
    pos: usize,
    offset: usize,
    errors: usize,
}

impl Checkpoint {
    /// The position that was marked.
    pub closed spec fn pos(&self) -> int {
        self.pos as int
    }

    /// The number of diagnostics at the time.
    pub closed spec fn errors(&self) -> int {
        self.errors as int
    }

    /// The checkpoint marks a position of `text`.
    pub closed spec fn taken_in(&self, text: Seq<char>) -> bool {
        self.pos <= text.len() && self.offset == byte_offset(text, self.pos as int)
    }

    /// The checkpoint was taken in `text` at `c`.
    pub open spec fn marks(&self, text: Seq<char>, c: Cursor) -> bool {
        self.taken_in(text) && self.pos() == c.pos && self.errors() == c.errors.len()
    }
}

impl ParseContext {
    /// The text that is parsed.
    pub closed spec fn text(&self) -> Seq<char> {
        self.source@
    }

    /// The position and the diagnostics.
    pub closed spec fn cursor(&self) -> Cursor {
        Cursor { pos: self.pos as int, errors: self.errors@ }
    }

    /// The byte offset is that of the position, and every byte offset of the text fits a
    /// `usize`.
    pub closed spec fn wf(&self) -> bool {
        &&& self.pos <= self.source.len()
        &&& self.offset == byte_offset(self.source@, self.pos as int)
        &&& byte_offset(self.source@, self.source.len() as int) <= usize::MAX
    }

    /// The context is well formed, with its cursor inside the text.
    pub open spec fn ready(&self) -> bool {
        self.wf() && self.cursor().within(self.text())
    }

    /// This context came from `before` by a rule that cannot fail and gives `rule`.
    pub open spec fn reaches(&self, before: ParseContext, rule: Cursor) -> bool {
        self.ready() && self.text() == before.text() && self.cursor() == rule
    }

    /// This context came from `before` by a rule that gives `rule`, with the result `res`:
    /// where the rule fails, nothing has changed.
    pub open spec fn passes(
        &self,
        before: ParseContext,
        res: Result<(), NoMatch>,
        rule: Option<Cursor>,
    ) -> bool {
        &&& self.ready()
        &&& self.text() == before.text()
        &&& match rule {
            Some(next) => res is Ok && self.cursor() == next,
            None => res is Err && self.cursor() == before.cursor(),
        }
    }

    /// As `passes`, for a rule that gives a value.
    pub open spec fn yields<T>(
        &self,
        before: ParseContext,
        res: Result<T, NoMatch>,
        rule: Option<(T, Cursor)>,
    ) -> bool {
        &&& self.ready()
        &&& self.text() == before.text()
        &&& match rule {
            Some((value, next)) => res == Ok::<T, NoMatch>(value) && self.cursor() == next,
            None => res is Err && self.cursor() == before.cursor(),
        }
    }

    /// As `yields`, for a rule whose value is the view of what the parser hands out.
    pub open spec fn yields_view<T: View>(
        &self,
        before: ParseContext,
        res: Result<T, NoMatch>,
        rule: Option<(T::V, Cursor)>,
    ) -> bool {
        &&& self.ready()
        &&& self.text() == before.text()
        &&& match rule {
            Some((value, next)) => res is Ok && res->Ok_0@ == value && self.cursor() == next,
            None => res is Err && self.cursor() == before.cursor(),
        }
    }

    /// Every byte offset of the text fits a `usize`.
    pub proof fn lemma_offsets_fit(&self, pos: int)
        requires
            self.ready(),
            0 <= pos <= self.text().len(),
        ensures
            byte_offset(self.text(), pos) <= usize::MAX,
    {
        lemma_byte_offset_monotonic(self.source@, pos, self.source.len() as int);
    }

    /// A context at the start of `input`, without diagnostics.
    pub fn new(input: &str) -> (cx: ParseContext)
        ensures
            cx.ready(),
            cx.text() == input@,
            cx.cursor() == Cursor::start(),
    {
        let source = chars_of(input);
        let bytes = input.as_bytes();
        let size = bytes.len();
        proof {
            lemma_byte_offset_is_encoded_len(source@, source.len() as int);
            assert(source@.take(source.len() as int) =~= source@);
            assert(bytes@ == input.spec_bytes());
        }
        ParseContext { source, pos: 0, offset: 0, errors: Vec::new() }
    }

    /// The byte offset of the cursor.
    pub fn offset(&self) -> (at: usize)
        requires
            self.ready(),
        ensures
            at == byte_offset(self.text(), self.cursor().pos),
    {
        self.offset
    }

    /// The character at the cursor, if the text has not ended.
    pub fn peek(&self) -> (next: Option<char>)
        requires
            self.ready(),
        ensures
            next == if self.cursor().pos < self.text().len() {
                Some(self.text()[self.cursor().pos])
            } else {
                None
            },
    {
        if self.pos < self.source.len() {
            Some(self.source[self.pos])
        } else {
            None
        }
    }

    /// Moves the cursor over one character.
    pub fn bump(&mut self)
        requires
            old(self).ready(),
            old(self).cursor().pos < old(self).text().len(),
        ensures
            final(self).reaches(*old(self), old(self).cursor().step()),
    {
        let width = len_utf8(self.source[self.pos]);
        proof {
            lemma_byte_offset_monotonic(self.source@, self.pos + 1, self.source.len() as int);
        }
        self.offset = self.offset + width;
        self.pos = self.pos + 1;
    }

    /// Adds a diagnostic.
    pub fn report(&mut self, error: ParseError)
        requires
            old(self).ready(),
        ensures
            final(self).reaches(*old(self), old(self).cursor().flag(error)),
    {
        self.errors.push(error);
    }

    /// Marks the cursor and the number of diagnostics.
    pub fn checkpoint(&self) -> (mark: Checkpoint)
        requires
            self.ready(),
        ensures
            mark.marks(self.text(), self.cursor()),
    {
        Checkpoint { pos: self.pos, offset: self.offset, errors: self.errors.len() }
    }

    /// Goes back to `mark`: the cursor returns to the marked position, and the diagnostics
    /// raised since are dropped.
    pub fn rewind(&mut self, mark: Checkpoint)
        requires
            old(self).ready(),
            mark.taken_in(old(self).text()),
            mark.errors() <= old(self).cursor().errors.len(),
        ensures
            final(self).reaches(
                *old(self),
                (Cursor {
                    pos: mark.pos(),
                    errors: old(self).cursor().errors.take(mark.errors()),
                }),
            ),
    {
        self.pos = mark.pos;
        self.offset = mark.offset;
        self.errors.truncate(mark.errors);
    }

    /// The text from the cursor on.
    pub fn remaining(&self) -> (rest: String)
        requires
            self.ready(),
        ensures
            rest@ == self.text().skip(self.cursor().pos),
    {
        let rest = string_of(&self.source, self.pos, self.source.len());
        assert(self.source@.subrange(self.pos as int, self.source.len() as int) =~= self.source@.skip(
            self.pos as int,
        ));
        rest
    }

    /// The cursor stands at the end of the text.
    pub fn at_end(&self) -> (end: bool)
        requires
            self.ready(),
        ensures
            end == (self.cursor().pos == self.text().len()),
    {
        self.pos == self.source.len()
    }

    /// The number of diagnostics raised so far.
    pub fn error_count(&self) -> (n: usize)
        ensures
            n == self.cursor().errors.len(),
    {
        self.errors.len()
    }

    /// The diagnostics raised so far.
    pub fn errors(&self) -> (errors: &Vec<ParseError>)
        ensures
            errors@ == self.cursor().errors,
    {
        &self.errors
    }

    /// Ends the parse and hands out the diagnostics.
    pub fn into_errors(self) -> (errors: Vec<ParseError>)
        ensures
            errors@ == self.cursor().errors,
    {
        self.errors
    }
}

} // verus!
