//! Where a span lies in a text: the lines that hold it, for a report to show, and its place
//! counted in characters.

use std::ops::Range;
use vstd::prelude::*;
use vstd::string::StringSliceAdditionalSpecFns;
use vstd::utf8::is_continuation_byte;

verus! {

/// A line starts at the byte `pos`: at the start of a text that is not empty, and behind each
/// line feed that does not end the text.
pub open spec fn is_line_start(bytes: Seq<u8>, pos: int) -> bool {
    0 <= pos < bytes.len() && (pos == 0 || bytes[pos - 1] == 0x0A)
}

/// The last line start at or before `upto`, or 0.
pub open spec fn line_start_before(bytes: Seq<u8>, upto: int) -> int
    decreases upto,
{
    if upto <= 0 {
        0
    } else if is_line_start(bytes, upto) {
        upto
    } else {
        line_start_before(bytes, upto - 1)
    }
}

/// The number of line starts at or before `upto`.
pub open spec fn line_starts_upto(bytes: Seq<u8>, upto: int) -> nat
    decreases upto + 1,
{
    if upto < 0 {
        0
    } else {
        line_starts_upto(bytes, upto - 1) + if is_line_start(bytes, upto) {
            1nat
        } else {
            0nat
        }
    }
}

/// The first line start at or behind `from`, or the end of the text.
pub open spec fn line_start_from(bytes: Seq<u8>, from: int) -> int
    decreases bytes.len() - from,
{
    if from >= bytes.len() {
        bytes.len() as int
    } else if is_line_start(bytes, from) {
        from
    } else {
        line_start_from(bytes, from + 1)
    }
}

/// `at`, or the length of the text where `at` lies behind its end.
pub open spec fn clamped(bytes: Seq<u8>, at: int) -> int {
    if at <= bytes.len() {
        at
    } else {
        bytes.len() as int
    }
}

/// The start of the lines that hold the bytes `start..end`: the start of the line in which
/// `start` lies.
pub open spec fn context_start(bytes: Seq<u8>, start: int) -> int {
    line_start_before(bytes, clamped(bytes, start))
}

/// The end of the lines that hold the bytes `start..end`: the first line start at or behind
/// `end`, or, for an empty span, behind it.
pub open spec fn context_end(bytes: Seq<u8>, start: int, end: int) -> int {
    line_start_from(
        bytes,
        if end == start {
            clamped(bytes, end) + 1
        } else {
            clamped(bytes, end)
        },
    )
}

/// The number of the line in which `start` lies, counted from 1.
pub open spec fn context_line(bytes: Seq<u8>, start: int) -> int {
    let lines = line_starts_upto(bytes, clamped(bytes, start));
    if lines == 0 {
        1
    } else {
        lines as int
    }
}

/// The number of characters that start in the first `upto` bytes.
pub open spec fn chars_before(bytes: Seq<u8>, upto: int) -> nat
    decreases upto,
{
    if upto <= 0 {
        0
    } else {
        chars_before(bytes, upto - 1) + if is_continuation_byte(bytes[upto - 1]) {
            0nat
        } else {
            1nat
        }
    }
}

/// No more lines start up to a byte than there are bytes up to it.
pub proof fn lemma_line_starts_bound(bytes: Seq<u8>, upto: int)
    requires
        -1 <= upto < bytes.len(),
    ensures
        line_starts_upto(bytes, upto) <= upto + 1,
    decreases upto + 1,
{
    if upto >= 0 {
        lemma_line_starts_bound(bytes, upto - 1);
    }
}

/// No line starts at the end of the text.
pub proof fn lemma_line_starts_end(bytes: Seq<u8>)
    ensures
        line_starts_upto(bytes, bytes.len() as int) == line_starts_upto(bytes, bytes.len() - 1),
        line_starts_upto(bytes, bytes.len() as int) <= bytes.len(),
{
    lemma_line_starts_bound(bytes, bytes.len() - 1);
}

/// A line starts at the byte `pos`.
fn starts_line(bytes: &[u8], pos: usize) -> (starts: bool)
    ensures
        starts == is_line_start(bytes@, pos as int),
{
    pos < bytes.len() && (pos == 0 || bytes[pos - 1] == 0x0Au8)
}

/// The lines of `s` that hold `span`, as a byte span, and the number of the first of them.
pub fn context_to(span: Range<usize>, s: &str) -> (context: (Range<usize>, usize))
    ensures
        context.0.start == context_start(s.spec_bytes(), span.start as int),
        context.0.end == context_end(s.spec_bytes(), span.start as int, span.end as int),
        context.1 == context_line(s.spec_bytes(), span.start as int),
{
    let bytes = s.as_bytes();
    let len = bytes.len();
    let start = if span.start <= len {
        span.start
    } else {
        len
    };
    let mut first = start;
    while first > 0 && !starts_line(bytes, first)
        invariant
            first <= start <= len,
            len == bytes@.len(),
            line_start_before(bytes@, first as int) == line_start_before(bytes@, start as int),
        decreases first,
    {
        first -= 1;
    }
    let mut lines: usize = 0;
    let mut at: usize = 0;
    while at < len && at <= start
        invariant
            at <= len,
            at <= start + 1,
            start <= len,
            len == bytes@.len(),
            lines == line_starts_upto(bytes@, at - 1),
            lines <= at,
        decreases len - at,
    {
        if starts_line(bytes, at) {
            lines += 1;
        }
        at += 1;
    }
    proof {
        if start == len {
            lemma_line_starts_end(bytes@);
        }
    }
    let line = if lines == 0 {
        1
    } else {
        lines
    };
    let end = if span.end <= len {
        span.end
    } else {
        len
    };
    let mut last = if span.end == span.start && end < len {
        end + 1
    } else {
        end
    };
    while last < len && !starts_line(bytes, last)
        invariant
            last <= len,
            len == bytes@.len(),
            line_start_from(bytes@, last as int) == context_end(
                bytes@,
                span.start as int,
                span.end as int,
            ),
        decreases len - last,
    {
        last += 1;
    }
    (first..last, line)
}

/// The number of characters of `s` that lie before the byte `bytes`.
pub fn bytes_to_chars(s: &str, bytes: usize) -> (chars: usize)
    requires
        bytes <= s.spec_bytes().len(),
    ensures
        chars == chars_before(s.spec_bytes(), bytes as int),
{
    let text = s.as_bytes();
    let mut chars: usize = 0;
    let mut at: usize = 0;
    while at < bytes
        invariant
            at <= bytes <= text@.len(),
            chars == chars_before(text@, at as int),
            chars <= at,
        decreases bytes - at,
    {
        let byte = text[at];
        if !(0x80 <= byte && byte <= 0xbf) {
            chars += 1;
        }
        at += 1;
    }
    chars
}

/// The end of the text without the line break at its end.
pub open spec fn text_end(bytes: Seq<u8>) -> int {
    let len = bytes.len() as int;
    if len >= 2 && bytes[len - 2] == 0x0D && bytes[len - 1] == 0x0A {
        len - 2
    } else if len >= 1 && bytes[len - 1] == 0x0A {
        len - 1
    } else {
        len
    }
}

/// The span of the whole text, without the line break at its end.
pub fn whole_span(s: &str) -> (span: Range<usize>)
    ensures
        span.start == 0,
        span.end == text_end(s.spec_bytes()),
{
    let bytes = s.as_bytes();
    let len = bytes.len();
    let end = if len >= 2 && bytes[len - 2] == 0x0Du8 && bytes[len - 1] == 0x0Au8 {
        len - 2
    } else if len >= 1 && bytes[len - 1] == 0x0Au8 {
        len - 1
    } else {
        len
    };
    0..end
}

/// The number of characters that start in the bytes `from..to`.
pub open spec fn chars_between(bytes: Seq<u8>, from: int, to: int) -> nat
    decreases to - from,
{
    if from >= to {
        0
    } else {
        chars_between(bytes, from, to - 1) + if is_continuation_byte(bytes[to - 1]) {
            0nat
        } else {
            1nat
        }
    }
}

/// The least start among the first `upto` of `spans`, or `least` where that is less.
pub open spec fn least_start(spans: Seq<Range<usize>>, upto: int, least: int) -> int
    decreases upto,
{
    if upto <= 0 {
        least
    } else {
        let before = least_start(spans, upto - 1, least);
        if spans[upto - 1].start < before {
            spans[upto - 1].start as int
        } else {
            before
        }
    }
}

/// The greatest end among the first `upto` of `spans`, or `greatest` where that is greater.
pub open spec fn greatest_end(spans: Seq<Range<usize>>, upto: int, greatest: int) -> int
    decreases upto,
{
    if upto <= 0 {
        greatest
    } else {
        let before = greatest_end(spans, upto - 1, greatest);
        if spans[upto - 1].end > before {
            spans[upto - 1].end as int
        } else {
            before
        }
    }
}

/// Every span lies in the text, start before end.
pub open spec fn spans_fit(spans: Seq<Range<usize>>, len: int) -> bool {
    forall|i: int| 0 <= i < spans.len() ==> (#[trigger] spans[i]).start <= spans[i].end <= len
}

/// The part of a text that a report shows for some spans.
#[derive(Debug, PartialEq, Eq)]
pub struct Excerpt {
    /// The lines that hold the spans, as a byte span.
    pub context: Range<usize>,
    /// The number of the first of these lines, counted from 1.
    pub line: usize,
    /// For each span, its start and its end, counted in characters from the start of the
    /// context.
    pub marks: Vec<(usize, usize)>,
}

/// The span from the least start to the greatest end of `spans`.
pub open spec fn hull(spans: Seq<Range<usize>>) -> (int, int) {
    (
        least_start(spans, spans.len() as int, spans[0].start as int),
        greatest_end(spans, spans.len() as int, spans[0].end as int),
    )
}

/// The excerpt of `s` is the right one for `spans`.
pub open spec fn excerpt_of(s: Seq<u8>, spans: Seq<Range<usize>>, excerpt: Excerpt) -> bool {
    let (low, high) = hull(spans);
    &&& excerpt.context.start == context_start(s, low)
    &&& excerpt.context.end == context_end(s, low, high)
    &&& excerpt.line == context_line(s, low)
    &&& excerpt.marks@.len() == spans.len()
    &&& forall|i: int|
        0 <= i < spans.len() ==> (#[trigger] excerpt.marks@[i]) == (
            chars_between(s, context_start(s, low), spans[i].start as int) as usize,
            chars_between(s, context_start(s, low), spans[i].end as int) as usize,
        )
}

/// A line that holds a byte does not start behind it.
pub proof fn lemma_context_start_bound(bytes: Seq<u8>, upto: int)
    ensures
        0 <= line_start_before(bytes, upto),
        upto >= 0 ==> line_start_before(bytes, upto) <= upto,
    decreases upto,
{
    if upto > 0 && !is_line_start(bytes, upto) {
        lemma_context_start_bound(bytes, upto - 1);
    }
}

/// The least start lies at or before every start.
pub proof fn lemma_hull(spans: Seq<Range<usize>>, upto: int)
    requires
        0 <= upto <= spans.len(),
        spans.len() > 0,
    ensures
        forall|i: int|
            0 <= i < upto ==> least_start(spans, upto, spans[0].start as int) <= (
            #[trigger] spans[i]).start,
        least_start(spans, upto, spans[0].start as int) <= spans[0].start,
        0 <= least_start(spans, upto, spans[0].start as int),
    decreases upto,
{
    if upto > 0 {
        lemma_hull(spans, upto - 1);
    }
}

/// The number of characters that start in the bytes `from..to` of `bytes`.
fn count_chars(bytes: &[u8], from: usize, to: usize) -> (chars: usize)
    requires
        from <= to <= bytes@.len(),
    ensures
        chars == chars_between(bytes@, from as int, to as int),
{
    let mut chars: usize = 0;
    let mut at: usize = from;
    while at < to
        invariant
            from <= at <= to <= bytes@.len(),
            chars == chars_between(bytes@, from as int, at as int),
            chars <= at - from,
        decreases to - at,
    {
        let byte = bytes[at];
        if !(0x80 <= byte && byte <= 0xbf) {
            chars += 1;
        }
        at += 1;
    }
    chars
}

/// The part of `s` to show for `spans`: the lines that hold them, and where each span lies
/// in these lines, counted in characters. There is none where there are no spans, or where
/// a span does not lie in the text.
pub fn excerpt(s: &str, spans: &Vec<Range<usize>>) -> (found: Option<Excerpt>)
    ensures
        match found {
            Some(excerpt) => {
                &&& spans@.len() > 0
                &&& spans_fit(spans@, s.spec_bytes().len() as int)
                &&& excerpt_of(s.spec_bytes(), spans@, excerpt)
            },
            None => spans@.len() == 0 || !spans_fit(spans@, s.spec_bytes().len() as int),
        },
{
    let bytes = s.as_bytes();
    let len = bytes.len();
    if spans.len() == 0 {
        return None;
    }
    let mut low = spans[0].start;
    let mut high = spans[0].end;
    let mut i: usize = 0;
    while i < spans.len()
        invariant
            i <= spans.len(),
            spans.len() > 0,
            len == bytes@.len(),
            bytes@ == s.spec_bytes(),
            low == least_start(spans@, i as int, spans@[0].start as int),
            high == greatest_end(spans@, i as int, spans@[0].end as int),
            forall|k: int| 0 <= k < i ==> (#[trigger] spans@[k]).start <= spans@[k].end <= len,
        decreases spans.len() - i,
    {
        if spans[i].start > spans[i].end || spans[i].end > len {
            assert(!(spans@[i as int].start <= spans@[i as int].end <= len));
            return None;
        }
        if spans[i].start < low {
            low = spans[i].start;
        }
        if spans[i].end > high {
            high = spans[i].end;
        }
        i += 1;
    }
    let context = context_to(low..high, s);
    let start = context.0.start;
    proof {
        lemma_hull(spans@, spans.len() as int);
        lemma_context_start_bound(bytes@, clamped(bytes@, low as int));
    }
    let mut marks: Vec<(usize, usize)> = Vec::new();
    let mut k: usize = 0;
    while k < spans.len()
        invariant
            k <= spans.len(),
            len == bytes@.len(),
            marks@.len() == k,
            spans_fit(spans@, len as int),
            forall|j: int| 0 <= j < spans.len() ==> start <= (#[trigger] spans@[j]).start,
            forall|j: int|
                0 <= j < k ==> (#[trigger] marks@[j]) == (
                    chars_between(bytes@, start as int, spans@[j].start as int) as usize,
                    chars_between(bytes@, start as int, spans@[j].end as int) as usize,
                ),
        decreases spans.len() - k,
    {
        let first = count_chars(bytes, start, spans[k].start);
        let last = count_chars(bytes, start, spans[k].end);
        marks.push((first, last));
        k += 1;
    }
    Some(Excerpt { context: context.0, line: context.1, marks })
}

} // verus!
