//! The line that a learner types an answer into.
//!
//! The editor holds the characters typed so far and a cursor between them. A
//! key that was pressed is first classified, then applied: the editor is a
//! state machine, and whoever reads the keys and draws the line only has to
//! hand the keys in and show what comes out.

use crate::chars::{byte_offset, chars_of, is_whitespace, len_utf8, string_of, white_space};
use unicode_width::UnicodeWidthStr;
use vstd::prelude::*;

verus! {

/// The key of a key press, as far as the editor tells keys apart.
#[derive(Debug, Clone, Copy, PartialEq, Eq, Structural)]
pub enum Code {
    Char(char),
    Backspace,
    Delete,
    Left,
    Right,
    Up,
    Down,
    Home,
    End,
    Enter,
    Other,
}

/// The modifier keys held during a key press.
#[derive(Debug, Clone, Copy, PartialEq, Eq, Structural)]
pub enum Modifier {
    /// No modifier key.
    Plain,
    /// The shift key alone.
    Shift,
    /// The control key alone.
    Control,
    /// Any other modifier key, or more than one.
    Other,
}

/// What a key press asks of the editor.
#[derive(Debug, Clone, Copy, PartialEq, Eq, Structural)]
pub enum Key {
    /// Put a character in at the cursor.
    Insert(char),
    /// Take out the character before the cursor.
    Backspace,
    /// Take out the word before the cursor.
    DeleteWord,
    /// Take out the whole line.
    Clear,
    /// Take out the character at the cursor.
    Delete,
    /// Move the cursor one character to the left.
    Left,
    /// Move the cursor one character to the right.
    Right,
    /// Move the cursor to the start of the line.
    Start,
    /// Move the cursor to the end of the line.
    End,
    /// Hand the line in.
    Submit,
    /// Give up.
    Quit,
    /// Nothing.
    Ignore,
}

/// What a key press asks of the editor. Control with `c` or `q` gives up; a character without
/// control is typed; control with `h`, `w` and `u` takes out a character, a word and the line.
pub open spec fn key_of(code: Code, modifier: Modifier) -> Key {
    match (code, modifier) {
        (Code::Char(c), Modifier::Control) => if c == 'c' || c == 'q' {
            Key::Quit
        } else if c == 'h' {
            Key::Backspace
        } else if c == 'w' {
            Key::DeleteWord
        } else if c == 'u' {
            Key::Clear
        } else {
            Key::Ignore
        },
        (Code::Char(c), Modifier::Plain) => Key::Insert(c),
        (Code::Char(c), Modifier::Shift) => Key::Insert(c),
        (Code::Char(_), Modifier::Other) => Key::Ignore,
        (Code::Backspace, _) => Key::Backspace,
        (Code::Delete, _) => Key::Delete,
        (Code::Left, _) => Key::Left,
        (Code::Right, _) => Key::Right,
        (Code::Up, _) => Key::Start,
        (Code::Home, _) => Key::Start,
        (Code::Down, _) => Key::End,
        (Code::End, _) => Key::End,
        (Code::Enter, _) => Key::Submit,
        (Code::Other, _) => Key::Ignore,
    }
}

/// Classifies a key press.
pub fn classify(code: Code, modifier: Modifier) -> (key: Key)
    ensures
        key == key_of(code, modifier),
{
    match code {
        Code::Char(c) => match modifier {
            Modifier::Control => {
                if c == 'c' || c == 'q' {
                    Key::Quit
                } else if c == 'h' {
                    Key::Backspace
                } else if c == 'w' {
                    Key::DeleteWord
                } else if c == 'u' {
                    Key::Clear
                } else {
                    Key::Ignore
                }
            },
            Modifier::Plain => Key::Insert(c),
            Modifier::Shift => Key::Insert(c),
            Modifier::Other => Key::Ignore,
        },
        Code::Backspace => Key::Backspace,
        Code::Delete => Key::Delete,
        Code::Left => Key::Left,
        Code::Right => Key::Right,
        Code::Up => Key::Start,
        Code::Home => Key::Start,
        Code::Down => Key::End,
        Code::End => Key::End,
        Code::Enter => Key::Submit,
        Code::Other => Key::Ignore,
    }
}

/// The position behind the last character of `text` that is no white space, or 0.
pub open spec fn content_end(text: Seq<char>) -> int
    decreases text.len(),
{
    if text.len() > 0 && white_space(text.last()) {
        content_end(text.drop_last())
    } else {
        text.len() as int
    }
}

/// The start of the run of characters other than white space that ends at `pos`.
pub open spec fn word_begin(text: Seq<char>, pos: int) -> int
    decreases pos,
{
    if 0 < pos <= text.len() && !white_space(text[pos - 1]) {
        word_begin(text, pos - 1)
    } else {
        pos
    }
}

/// The start of the last word of `text`, or 0 where `text` holds no word.
pub open spec fn word_start(text: Seq<char>) -> int {
    word_begin(text, content_end(text))
}

/// The start of the last word in the first `upto` characters of `text`.
pub fn word_start_of(text: &Vec<char>, upto: usize) -> (start: usize)
    requires
        upto <= text.len(),
    ensures
        start == word_start(text@.take(upto as int)),
        start <= upto,
{
    let ghost part = text@.take(upto as int);
    let mut end = upto;
    assert(part.take(upto as int) =~= part);
    while end > 0 && is_whitespace(text[end - 1])
        invariant
            end <= upto <= text.len(),
            part == text@.take(upto as int),
            content_end(part.take(end as int)) == content_end(part),
        decreases end,
    {
        assert(part.take(end as int).drop_last() =~= part.take(end - 1));
        end -= 1;
    }
    assert(content_end(part) == end) by {
        if end > 0 {
            assert(part.take(end as int).last() == text@[end - 1]);
        }
    }
    let mut start = end;
    while start > 0 && !is_whitespace(text[start - 1])
        invariant
            start <= end <= upto <= text.len(),
            part == text@.take(upto as int),
            word_begin(part, start as int) == word_begin(part, end as int),
        decreases start,
    {
        start -= 1;
    }
    start
}

/// The byte at which the last word of `s` starts, or 0 where `s` holds no word.
pub fn last_word_start(s: &str) -> (start: usize)
    ensures
        start == byte_offset(s@, word_start(s@)),
{
    let text = chars_of(s);
    let size = s.as_bytes().len();
    let chars = word_start_of(&text, text.len());
    assert(text@.take(text.len() as int) =~= text@);
    proof {
        crate::chars::lemma_byte_offset_is_encoded_len(text@, text.len() as int);
    }
    let mut start: usize = 0;
    let mut i: usize = 0;
    while i < chars
        invariant
            i <= chars <= text.len(),
            start == byte_offset(text@, i as int),
            byte_offset(text@, text.len() as int) <= usize::MAX,
        decreases chars - i,
    {
        proof {
            crate::chars::lemma_byte_offset_monotonic(text@, i + 1, text.len() as int);
        }
        start = start + len_utf8(text[i]);
        i += 1;
    }
    start
}

/// A line and a cursor in it, as mathematical values.
pub struct LineModel {
    pub text: Seq<char>,
    pub cursor: int,
}

/// The line after a key press.
pub open spec fn pressed(line: LineModel, key: Key) -> LineModel {
    match key {
        Key::Insert(c) => LineModel {
            text: line.text.insert(line.cursor, c),
            cursor: line.cursor + 1,
        },
        Key::Backspace => if line.cursor > 0 {
            LineModel { text: line.text.remove(line.cursor - 1), cursor: line.cursor - 1 }
        } else {
            line
        },
        Key::DeleteWord => {
            let from = word_start(line.text.take(line.cursor));
            LineModel { text: line.text.take(from) + line.text.skip(line.cursor), cursor: from }
        },
        Key::Clear => LineModel { text: Seq::empty(), cursor: 0 },
        Key::Delete => if line.cursor < line.text.len() {
            LineModel { text: line.text.remove(line.cursor), cursor: line.cursor }
        } else {
            line
        },
        Key::Left => if line.cursor > 0 {
            LineModel { text: line.text, cursor: line.cursor - 1 }
        } else {
            line
        },
        Key::Right => if line.cursor < line.text.len() {
            LineModel { text: line.text, cursor: line.cursor + 1 }
        } else {
            line
        },
        Key::Start => LineModel { text: line.text, cursor: 0 },
        Key::End => LineModel { text: line.text, cursor: line.text.len() as int },
        Key::Submit => line,
        Key::Quit => line,
        Key::Ignore => line,
    }
}

/// What the editor asks for after a key press.
#[derive(Debug, Clone, Copy, PartialEq, Eq, Structural)]
pub enum Step {
    /// Show the line and read the next key.
    Continue,
    /// The line is finished.
    Submit,
    /// The learner gave up.
    Quit,
}

/// What the editor asks for after a key press.
pub open spec fn step_of(key: Key) -> Step {
    match key {
        Key::Submit => Step::Submit,
        Key::Quit => Step::Quit,
        _ => Step::Continue,
    }
}

/// The line that is typed.
#[derive(Debug)]
pub struct LineEditor {
    chars: Vec<char>,
    cursor: usize,
}

impl View for LineEditor {
    type V = LineModel;

    closed spec fn view(&self) -> LineModel {
        LineModel { text: self.chars@, cursor: self.cursor as int }
    }
}

impl LineEditor {
    /// The cursor stands inside the line or at its end.
    pub open spec fn wf(&self) -> bool {
        0 <= self@.cursor <= self@.text.len()
    }

    /// An empty line.
    pub fn new() -> (editor: LineEditor)
        ensures
            editor.wf(),
            editor@.text == Seq::<char>::empty(),
            editor@.cursor == 0,
    {
        LineEditor { chars: Vec::new(), cursor: 0 }
    }

    /// Applies a key press.
    pub fn press(&mut self, key: Key) -> (step: Step)
        requires
            old(self).wf(),
        ensures
            final(self).wf(),
            final(self)@ == pressed(old(self)@, key),
            step == step_of(key),
    {
        match key {
            Key::Insert(c) => {
                self.chars.insert(self.cursor, c);
                let len = self.chars.len();
                assert(self.cursor < len);
                self.cursor = self.cursor + 1;
                Step::Continue
            },
            Key::Backspace => {
                if self.cursor > 0 {
                    self.cursor = self.cursor - 1;
                    self.chars.remove(self.cursor);
                }
                Step::Continue
            },
            Key::DeleteWord => {
                let from = word_start_of(&self.chars, self.cursor);
                let ghost before = self.chars@;
                let mut rest = self.chars.split_off(self.cursor);
                self.chars.truncate(from);
                self.chars.append(&mut rest);
                assert(self.chars@ =~= before.take(from as int) + before.skip(self.cursor as int));
                self.cursor = from;
                Step::Continue
            },
            Key::Clear => {
                self.chars.clear();
                self.cursor = 0;
                Step::Continue
            },
            Key::Delete => {
                if self.cursor < self.chars.len() {
                    self.chars.remove(self.cursor);
                }
                Step::Continue
            },
            Key::Left => {
                if self.cursor > 0 {
                    self.cursor = self.cursor - 1;
                }
                Step::Continue
            },
            Key::Right => {
                if self.cursor < self.chars.len() {
                    self.cursor = self.cursor + 1;
                }
                Step::Continue
            },
            Key::Start => {
                self.cursor = 0;
                Step::Continue
            },
            Key::End => {
                self.cursor = self.chars.len();
                Step::Continue
            },
            Key::Submit => Step::Submit,
            Key::Quit => Step::Quit,
            Key::Ignore => Step::Continue,
        }
    }

    /// The line.
    pub fn line(&self) -> (text: String)
        requires
            self.wf(),
        ensures
            text@ == self@.text,
    {
        let text = string_of(&self.chars, 0, self.chars.len());
        assert(self.chars@.subrange(0, self.chars.len() as int) =~= self.chars@);
        text
    }

    /// The part of the line before the cursor.
    pub fn before_cursor(&self) -> (text: String)
        requires
            self.wf(),
        ensures
            text@ == self@.text.take(self@.cursor),
    {
        string_of(&self.chars, 0, self.cursor)
    }
}

/// The number of terminal columns that `text` takes.
pub uninterp spec fn columns(text: Seq<char>) -> nat;

/// Measures a text with `unicode_width::UnicodeWidthStr::width`. The contract claims that the
/// width is a function of the characters alone, and names that function.
#[verifier::external_body]
fn display_width(text: &str) -> (width: usize)
    ensures
        width == columns(text@),
{
    UnicodeWidthStr::width(text)
}

/// The cell of the terminal at which the cursor stands, where the line starts at the cell
/// `(start_x, start_y)`, the text before the cursor takes `width` columns, and a row has
/// `row` columns: the text runs on from row to row. There is no such cell where a row has no
/// columns, or where the cell would lie beyond what a `u16` counts.
pub open spec fn cell_of(start_x: int, start_y: int, width: int, row: int) -> Option<(int, int)> {
    let x = start_x + width;
    if row > 0 && x <= u16::MAX && start_y + x / row <= u16::MAX {
        Some((x % row, start_y + x / row))
    } else {
        None
    }
}

/// The cell of the terminal at which the cursor stands.
pub fn cursor_cell(start_x: u16, start_y: u16, width: usize, row: u16) -> (cell: Option<(u16, u16)>)
    ensures
        match cell_of(start_x as int, start_y as int, width as int, row as int) {
            Some((x, y)) => cell == Some((x as u16, y as u16)),
            None => cell is None,
        },
{
    if row == 0 || width > 0xFFFF {
        return None;
    }
    let x: u32 = start_x as u32 + width as u32;
    if x > 0xFFFF {
        return None;
    }
    let down: u32 = x / (row as u32);
    let y: u32 = start_y as u32 + down;
    if y > 0xFFFF {
        return None;
    }
    Some(((x % (row as u32)) as u16, y as u16))
}

impl LineEditor {
    /// The number of columns that the part of the line before the cursor takes.
    pub fn cursor_column(&self) -> (width: usize)
        requires
            self.wf(),
        ensures
            width == columns(self@.text.take(self@.cursor)),
    {
        let before = self.before_cursor();
        display_width(before.as_str())
    }

    /// The number of columns that the line takes.
    pub fn line_width(&self) -> (width: usize)
        requires
            self.wf(),
        ensures
            width == columns(self@.text),
    {
        let line = self.line();
        display_width(line.as_str())
    }
}

} // verus!
