//! Character classes and UTF-8 byte arithmetic.
//!
//! Positions inside a text are counted in characters; the spans that a
//! diagnostic carries are byte offsets into the UTF-8 form of the same text.
//! `byte_offset` gives the byte offset of a position.

use std::ops::Range;
use vstd::prelude::*;
use vstd::utf8::*;

verus! {

/// The characters with the Unicode property `White_Space`.
pub open spec fn white_space(c: char) -> bool {
    let n = c as u32;
    ||| 0x09 <= n <= 0x0D
    ||| n == 0x20
    ||| n == 0x85
    ||| n == 0xA0
    ||| n == 0x1680
    ||| 0x2000 <= n <= 0x200A
    ||| n == 0x2028
    ||| n == 0x2029
    ||| n == 0x202F
    ||| n == 0x205F
    ||| n == 0x3000
}

/// The characters of the Unicode general category `Cc`.
pub open spec fn control(c: char) -> bool {
    let n = c as u32;
    n <= 0x1F || 0x7F <= n <= 0x9F
}

/// A carriage return or a line feed.
pub open spec fn line_break(c: char) -> bool {
    c == '\r' || c == '\n'
}

/// White space that separates fields inside one line.
pub open spec fn field_space(c: char) -> bool {
    white_space(c) && !line_break(c)
}

/// The number of bytes that `c` takes in UTF-8.
pub open spec fn utf8_width(c: char) -> nat {
    let n = c as u32;
    if n < 0x80 {
        1
    } else if n < 0x800 {
        2
    } else if n < 0x10000 {
        3
    } else {
        4
    }
}

/// The number of bytes that the first `pos` characters of `text` take in UTF-8.
pub open spec fn byte_offset(text: Seq<char>, pos: int) -> nat
    decreases pos,
{
    if pos <= 0 {
        0
    } else {
        byte_offset(text, pos - 1) + utf8_width(text[pos - 1])
    }
}

/// The byte span of the characters `text[from..to]`.
pub open spec fn span(text: Seq<char>, from: int, to: int) -> Range<usize> {
    Range { start: byte_offset(text, from) as usize, end: byte_offset(text, to) as usize }
}

/// `text` without the white space at its start.
pub open spec fn trim_start(text: Seq<char>) -> Seq<char>
    decreases text.len(),
{
    if text.len() > 0 && white_space(text[0]) {
        trim_start(text.drop_first())
    } else {
        text
    }
}

/// `text` without the white space at its end.
pub open spec fn trim_end(text: Seq<char>) -> Seq<char>
    decreases text.len(),
{
    if text.len() > 0 && white_space(text.last()) {
        trim_end(text.drop_last())
    } else {
        text
    }
}

/// `text` without the white space at either end.
pub open spec fn trim(text: Seq<char>) -> Seq<char> {
    trim_end(trim_start(text))
}

/// `utf8_width` is the length of the encoding that vstd gives a scalar value.
pub proof fn lemma_width_is_encoded_len(c: char)
    ensures
        utf8_width(c) == encode_scalar(c as u32).len(),
        1 <= utf8_width(c) <= 4,
{
    char_is_scalar(c);
}

/// Encoding a text that ends in `c` takes the bytes of the text before it and those of `c`.
pub proof fn lemma_encode_push(text: Seq<char>, c: char)
    ensures
        encode_utf8(text.push(c)).len() == encode_utf8(text).len() + utf8_width(c),
    decreases text.len(),
{
    lemma_width_is_encoded_len(c);
    if text.len() == 0 {
        assert(text.push(c).drop_first() =~= Seq::<char>::empty());
        assert(encode_utf8(text.push(c).drop_first()) =~= Seq::<u8>::empty());
    } else {
        assert(text.push(c).drop_first() =~= text.drop_first().push(c));
        lemma_encode_push(text.drop_first(), c);
    }
}

/// A byte offset is the length of the UTF-8 encoding of the characters before it.
pub proof fn lemma_byte_offset_is_encoded_len(text: Seq<char>, pos: int)
    requires
        0 <= pos <= text.len(),
    ensures
        byte_offset(text, pos) == encode_utf8(text.take(pos)).len(),
    decreases pos,
{
    if pos > 0 {
        lemma_byte_offset_is_encoded_len(text, pos - 1);
        assert(text.take(pos) =~= text.take(pos - 1).push(text[pos - 1]));
        lemma_encode_push(text.take(pos - 1), text[pos - 1]);
    } else {
        assert(text.take(pos) =~= Seq::<char>::empty());
    }
}

/// Byte offsets grow with the position.
pub proof fn lemma_byte_offset_monotonic(text: Seq<char>, from: int, to: int)
    requires
        from <= to,
    ensures
        byte_offset(text, from) <= byte_offset(text, to),
    decreases to - from,
{
    if from < to {
        lemma_byte_offset_monotonic(text, from, to - 1);
    }
}

/// `c` has the Unicode property `White_Space`.
pub fn is_whitespace(c: char) -> (b: bool)
    ensures
        b == white_space(c),
{
    let n: u32 = c as u32;
    (0x09 <= n && n <= 0x0D) || n == 0x20 || n == 0x85 || n == 0xA0 || n == 0x1680 || (0x2000 <= n
        && n <= 0x200A) || n == 0x2028 || n == 0x2029 || n == 0x202F || n == 0x205F || n == 0x3000
}

/// `c` is of the Unicode general category `Cc`.
pub fn is_control(c: char) -> (b: bool)
    ensures
        b == control(c),
{
    let n: u32 = c as u32;
    n <= 0x1F || (0x7F <= n && n <= 0x9F)
}

/// `c` is a carriage return or a line feed.
pub fn is_line_break(c: char) -> (b: bool)
    ensures
        b == line_break(c),
{
    c == '\r' || c == '\n'
}

/// `c` is white space that separates fields inside one line.
pub fn is_field_space(c: char) -> (b: bool)
    ensures
        b == field_space(c),
{
    is_whitespace(c) && !is_line_break(c)
}

/// The number of bytes that `c` takes in UTF-8.
pub fn len_utf8(c: char) -> (n: usize)
    ensures
        n == utf8_width(c),
        1 <= n <= 4,
{
    let v: u32 = c as u32;
    if v < 0x80 {
        1
    } else if v < 0x800 {
        2
    } else if v < 0x10000 {
        3
    } else {
        4
    }
}

/// The characters of `s`, one by one.
pub fn chars_of(s: &str) -> (v: Vec<char>)
    ensures
        v@ == s@,
{
    let mut v: Vec<char> = Vec::new();
    for c in it: s.chars()
        invariant
            v@ == it.seq().take(it.index() as int),
    {
        v.push(c);
    }
    v
}

/// `String::push` of the standard library: the string afterwards holds the characters it held
/// before, and behind them `c`.
pub assume_specification[ String::push ](s: &mut String, c: char)
    ensures
        final(s)@ == old(s)@.push(c),
;

/// The string made of the characters `v[from..to]`.
pub fn string_of(v: &Vec<char>, from: usize, to: usize) -> (s: String)
    requires
        from <= to <= v.len(),
    ensures
        s@ == v@.subrange(from as int, to as int),
{
    let mut s = String::new();
    let mut i: usize = from;
    while i < to
        invariant
            from <= i <= to <= v.len(),
            s@ == v@.subrange(from as int, i as int),
        decreases to - i,
    {
        s.push(v[i]);
        i += 1;
        assert(v@.subrange(from as int, i as int) =~= v@.subrange(from as int, i - 1).push(
            v@[i - 1],
        ));
    }
    assert(v@.subrange(from as int, from as int) =~= Seq::<char>::empty());
    s
}

/// The bounds of `v` without the white space at either end.
pub fn trim_bounds(v: &Vec<char>) -> (r: (usize, usize))
    ensures
        r.0 <= r.1 <= v.len(),
        v@.subrange(r.0 as int, r.1 as int) == trim(v@),
{
    let mut from: usize = 0;
    assert(v@.skip(0) =~= v@);
    while from < v.len() && is_whitespace(v[from])
        invariant
            from <= v.len(),
            trim_start(v@) == trim_start(v@.skip(from as int)),
        decreases v.len() - from,
    {
        assert(v@.skip(from as int).drop_first() =~= v@.skip(from + 1));
        from += 1;
    }
    assert(v@.skip(from as int) =~= v@.subrange(from as int, v.len() as int));
    let mut to: usize = v.len();
    while to > from && is_whitespace(v[to - 1])
        invariant
            from <= to <= v.len(),
            trim_start(v@) == v@.skip(from as int),
            trim(v@) == trim_end(v@.subrange(from as int, to as int)),
        decreases to,
    {
        assert(v@.subrange(from as int, to as int).drop_last() =~= v@.subrange(
            from as int,
            to - 1,
        ));
        to -= 1;
    }
    (from, to)
}

} // verus!
