//! How a card set is written out as a document, and that it is read back as it was written.
//!
//! `rendered` writes a set as a document: the title, then one line for each card. The
//! options are written in quotes, or as they are. An option in quotes is read back whatever
//! it holds; an option written as it is must be one that is read as itself.

use crate::chars::{control, span, trim, trim_end, trim_start, white_space};
use crate::model::{
    CardModel, Deck, distinct_cards, distinct_options, lemma_first_card, lemma_first_index,
    printable, regular_option, regular_title, same_card, Seen, SetModel,
};
use crate::set::error::ParseError;
use crate::set::grammar::{
    add_option, after_comma, atom_char, card, card_definitions, card_head, card_line, card_lines,
    CardHead, character, comma, comment, Cursor, dash_run, document, exact_char,
    leading_blank_lines, lemma_dash_run, lemma_flag, lemma_option_piece, lemma_option_tail,
    lemma_option_ws_run, lemma_quiet_between, lemma_single, newline, option, option_atom,
    option_joint, option_piece, option_tail, option_ws, option_ws_run, options, options_rest,
    Outcome, plain_char, plain_run, quiet, quoted, quoted_body, third_part, title, ws, ws_run,
};
use vstd::prelude::*;

verus! {

/// `value` with a backslash before every quote and every backslash.
pub open spec fn escaped(value: Seq<char>) -> Seq<char>
    decreases value.len(),
{
    if value.len() == 0 {
        Seq::empty()
    } else if value[0] == '"' || value[0] == '\\' {
        seq!['\\', value[0]] + escaped(value.drop_first())
    } else {
        seq![value[0]] + escaped(value.drop_first())
    }
}

/// `value` as a quoted option.
pub open spec fn quoted_option(value: Seq<char>) -> Seq<char> {
    seq!['"'] + escaped(value).push('"')
}

/// How the options of a rendering are written.
pub enum Style {
    /// Every option in quotes, with quotes and backslashes escaped.
    Quoted,
    /// Every option as it is.
    Bare,
}

/// `value` as an option of a rendering.
pub open spec fn written(value: Seq<char>, style: Style) -> Seq<char> {
    match style {
        Style::Quoted => quoted_option(value),
        Style::Bare => value,
    }
}

/// `value` is read as itself where it stands alone: it is an option without quotes, from its
/// first character to its last, and raises no diagnostic.
pub open spec fn bare(value: Seq<char>) -> bool {
    &&& value.len() > 0
    &&& value[0] != '"'
    &&& option(value, Cursor::start()) == Some(
        (value, Cursor { pos: value.len() as int, errors: Seq::empty() }),
    )
}

/// `value` can be written in `style` and read back: in quotes, every regular option can; as
/// it is, an option that is read as itself can.
pub open spec fn fits(value: Seq<char>, style: Style) -> bool {
    match style {
        Style::Quoted => regular_option(value),
        Style::Bare => bare(value),
    }
}

/// Each of `values` as an option behind a comma.
pub open spec fn list_tail(values: Seq<Seq<char>>, style: Style) -> Seq<char>
    decreases values.len(),
{
    if values.len() == 0 {
        Seq::empty()
    } else {
        seq![','] + written(values[0], style) + list_tail(values.drop_first(), style)
    }
}

/// `values` as an option list: options between commas.
pub open spec fn option_list(values: Seq<Seq<char>>, style: Style) -> Seq<char> {
    if values.len() == 0 {
        Seq::empty()
    } else {
        written(values[0], style) + list_tail(values.drop_first(), style)
    }
}

/// `card` as a card line: terms, the dash between spaces, definitions.
pub open spec fn card_text(card: CardModel, style: Style) -> Seq<char> {
    option_list(card.terms, style) + seq![' ', '-', ' '] + option_list(card.definitions, style)
}

/// Each of `cards` as a card line behind a line feed.
pub open spec fn cards_text(cards: Seq<CardModel>, style: Style) -> Seq<char>
    decreases cards.len(),
{
    if cards.len() == 0 {
        Seq::empty()
    } else {
        seq!['\n'] + card_text(cards[0], style) + cards_text(cards.drop_first(), style)
    }
}

/// `set` as a document: the title line, then the card lines.
pub open spec fn rendered(set: SetModel, style: Style) -> Seq<char> {
    set.title + cards_text(set.cards, style)
}

/// An option list that can be written in `style` and read back: not empty, of options that
/// fit the style, none twice.
pub open spec fn writable_options(values: Seq<Seq<char>>, style: Style) -> bool {
    &&& values.len() > 0
    &&& distinct_options(values)
    &&& forall|i: int| 0 <= i < values.len() ==> fits(#[trigger] values[i], style)
}

/// A card that can be written in `style` and read back.
pub open spec fn writable_card(card: CardModel, style: Style) -> bool {
    writable_options(card.terms, style) && writable_options(card.definitions, style)
}

/// A set that can be written in `style` and read back.
pub open spec fn writable_set(set: SetModel, style: Style) -> bool {
    &&& regular_title(set.title)
    &&& set.cards.len() > 0
    &&& distinct_cards(set.cards)
    &&& forall|i: int| 0 <= i < set.cards.len() ==> writable_card(#[trigger] set.cards[i], style)
}

/// The characters of `piece` stand in `text` from `pos` on.
pub open spec fn stands_at(text: Seq<char>, pos: int, piece: Seq<char>) -> bool {
    &&& 0 <= pos
    &&& pos + piece.len() <= text.len()
    &&& forall|i: int| 0 <= i < piece.len() ==> text[pos + i] == #[trigger] piece[i]
}

/// `c`, moved over `count` characters.
pub open spec fn moved(c: Cursor, count: nat) -> Cursor {
    Cursor { pos: c.pos + count, errors: c.errors }
}

/// Where two pieces stand one behind the other, each stands at its place.
pub proof fn lemma_stands_split(text: Seq<char>, pos: int, first: Seq<char>, second: Seq<char>)
    requires
        stands_at(text, pos, first + second),
    ensures
        stands_at(text, pos, first),
        stands_at(text, pos + first.len(), second),
{
    let both = first + second;
    assert forall|i: int| 0 <= i < first.len() implies text[pos + i] == #[trigger] first[i] by {
        assert(both[i] == first[i]);
    }
    assert forall|i: int| 0 <= i < second.len() implies text[pos + first.len() + i]
        == #[trigger] second[i] by {
        assert(both[first.len() + i] == second[i]);
    }
}

/// The first character of a piece that stands at `pos` stands at `pos`.
pub proof fn lemma_stands_first(text: Seq<char>, pos: int, piece: Seq<char>)
    requires
        stands_at(text, pos, piece),
        piece.len() > 0,
    ensures
        pos < text.len(),
        text[pos] == piece[0],
{
    assert(text[pos + 0] == piece[0]);
}

/// A quoted string is read back as the value that was written.
pub proof fn lemma_quoted_body_read(
    text: Seq<char>,
    c: Cursor,
    start: int,
    acc: Seq<char>,
    value: Seq<char>,
)
    requires
        stands_at(text, c.pos, escaped(value).push('"')),
        printable(value),
    ensures
        quoted_body(text, c, start, acc) == (acc + value, moved(c, escaped(value).len() + 1)),
    decreases value.len(),
{
    let piece = escaped(value).push('"');
    lemma_stands_first(text, c.pos, piece);
    if value.len() == 0 {
        assert(acc + value =~= acc);
    } else {
        let ch = value[0];
        let rest = value.drop_first();
        assert(!control(ch));
        assert forall|i: int| 0 <= i < rest.len() implies !control(#[trigger] rest[i]) by {
            assert(rest[i] == value[i + 1]);
        }
        assert(acc.push(ch) + rest =~= acc + value);
        if ch == '"' || ch == '\\' {
            let head = seq!['\\', ch];
            assert(piece =~= head + escaped(rest).push('"'));
            lemma_stands_split(text, c.pos, head, escaped(rest).push('"'));
            assert(text[c.pos + 0] == head[0]);
            assert(text[c.pos + 1] == head[1]);
            lemma_quoted_body_read(text, c.step().step(), start, acc.push(ch), rest);
        } else {
            let head = seq![ch];
            assert(piece =~= head + escaped(rest).push('"'));
            lemma_stands_split(text, c.pos, head, escaped(rest).push('"'));
            assert(text[c.pos + 0] == head[0]);
            lemma_quoted_body_read(text, c.step(), start, acc.push(ch), rest);
        }
    }
}

/// What can stand behind an option in a rendering: the end of the text, a comma, a line
/// feed, or the space before the dash.
pub open spec fn option_ends(text: Seq<char>, pos: int) -> bool {
    ||| pos == text.len()
    ||| 0 <= pos < text.len() && (text[pos] == ',' || text[pos] == '\n')
    ||| 0 <= pos && pos + 1 < text.len() && text[pos] == ' ' && text[pos + 1] == '-'
}

/// No further piece of an option stands where an option ends.
pub proof fn lemma_option_ends(text: Seq<char>, c: Cursor)
    requires
        0 <= c.pos,
        option_ends(text, c.pos),
    ensures
        option_piece(text, c) is None,
{
    if c.pos < text.len() && text[c.pos] == ' ' {
        let next = c.step();
        assert(option_ws(text, c) == Some((' ', next)));
        assert(option_ws(text, next) is None);
        assert(option_ws_run(text, next, seq![' ']) == (seq![' '], next));
        assert(Seq::<char>::empty().push(' ') =~= seq![' ']);
        assert(option_joint(text, c) == (seq![' '], next));
    } else {
        assert(option_ws(text, c) is None);
        assert(option_joint(text, c) == (Seq::<char>::empty(), c));
    }
}

/// A quoted option is read back as the value that was written.
pub proof fn lemma_quoted_option_read(text: Seq<char>, c: Cursor, value: Seq<char>)
    requires
        stands_at(text, c.pos, quoted_option(value)),
        printable(value),
        option_ends(text, c.pos + quoted_option(value).len()),
    ensures
        option(text, c) == Some((value, moved(c, quoted_option(value).len()))),
{
    lemma_stands_split(text, c.pos, seq!['"'], escaped(value).push('"'));
    lemma_stands_first(text, c.pos, seq!['"']);
    let next = c.step();
    lemma_quoted_body_read(text, next, c.pos, Seq::empty(), value);
    assert(Seq::<char>::empty() + value =~= value);
    let after = moved(next, escaped(value).len() + 1);
    assert(after == moved(c, quoted_option(value).len()));
    lemma_option_ends(text, after);
}

/// What one rule reads in a text that stands alone and what it reads where the text stands
/// inside another, at `shift`: the same character, with the cursor the same way further, and
/// no diagnostic in the other text where there was none in the text alone.
pub open spec fn same_reading(
    shift: int,
    from: Cursor,
    wide_from: Cursor,
    alone: Option<(char, Cursor)>,
    inside: Option<(char, Cursor)>,
) -> bool {
    match (alone, inside) {
        (Some((ch, to)), Some((wide_ch, wide_to))) => {
            &&& ch == wide_ch
            &&& wide_to.pos == to.pos + shift
            &&& (quiet(from, to) ==> wide_to.errors == wide_from.errors)
        },
        (None, None) => true,
        _ => false,
    }
}

/// Inside the text that stands alone, the rules that read one character read the same in
/// both texts.
pub proof fn lemma_single_framed(alone: Seq<char>, text: Seq<char>, a: Cursor, b: Cursor)
    requires
        stands_at(text, b.pos - a.pos, alone),
        0 <= a.pos < alone.len(),
    ensures
        same_reading(b.pos - a.pos, a, b, character(alone, a), character(text, b)),
        same_reading(b.pos - a.pos, a, b, option_atom(alone, a), option_atom(text, b)),
        same_reading(b.pos - a.pos, a, b, option_ws(alone, a), option_ws(text, b)),
        exact_char(alone, a, '-') is Some <==> exact_char(text, b, '-') is Some,
        exact_char(alone, a, '"') is Some <==> exact_char(text, b, '"') is Some,
{
    let shift = b.pos - a.pos;
    let ch = alone[a.pos];
    assert(text[shift + a.pos] == alone[a.pos]);
    let error = ParseError::UnexpectedControlChar { character: ch, span: span(alone, a.pos, a.pos + 1) };
    lemma_flag(a, error);
    if ch != '\r' && ch != '\n' {
        assert(character(alone, a) is Some);
        assert(character(text, b) is Some);
        if !control(ch) {
            assert(character(text, b)->Some_0.1 == b.step());
        }
    } else {
        assert(character(alone, a) is None);
        assert(character(text, b) is None);
    }
    if crate::chars::field_space(ch) {
        assert(option_ws(alone, a) is Some);
        assert(option_ws(text, b) is Some);
        if !control(ch) {
            assert(option_ws(text, b)->Some_0.1 == b.step());
        }
    } else {
        assert(option_ws(alone, a) is None);
        assert(option_ws(text, b) is None);
    }
}

/// A run of dashes that ends inside the text that stands alone is the same run in both
/// texts.
pub proof fn lemma_dash_run_framed(
    alone: Seq<char>,
    text: Seq<char>,
    a: Cursor,
    b: Cursor,
    acc: Seq<char>,
)
    requires
        stands_at(text, b.pos - a.pos, alone),
        0 <= a.pos,
        dash_run(alone, a, acc).1.pos < alone.len(),
    ensures
        dash_run(text, b, acc).0 == dash_run(alone, a, acc).0,
        dash_run(text, b, acc).1.pos == dash_run(alone, a, acc).1.pos + (b.pos - a.pos),
        dash_run(text, b, acc).1.errors == b.errors,
        dash_run(alone, a, acc).1.errors == a.errors,
    decreases alone.len() - a.pos,
{
    if a.pos < alone.len() {
        lemma_single_framed(alone, text, a, b);
        match exact_char(alone, a, '-') {
            Some(next) => {
                lemma_dash_run_framed(alone, text, next, b.step(), acc.push('-'));
            },
            None => {},
        }
    } else {
        lemma_dash_run(alone, a, acc);
    }
}

/// A run of white space that ends inside the text that stands alone is the same run in both
/// texts.
pub proof fn lemma_option_ws_run_framed(
    alone: Seq<char>,
    text: Seq<char>,
    a: Cursor,
    b: Cursor,
    acc: Seq<char>,
)
    requires
        stands_at(text, b.pos - a.pos, alone),
        0 <= a.pos,
        option_ws_run(alone, a, acc).1.pos < alone.len(),
    ensures
        option_ws_run(text, b, acc).0 == option_ws_run(alone, a, acc).0,
        option_ws_run(text, b, acc).1.pos == option_ws_run(alone, a, acc).1.pos + (b.pos
            - a.pos),
        quiet(a, option_ws_run(alone, a, acc).1) ==> option_ws_run(text, b, acc).1.errors
            == b.errors,
    decreases alone.len() - a.pos,
{
    if a.pos < alone.len() {
        lemma_single_framed(alone, text, a, b);
        lemma_single(alone, a);
        match option_ws(alone, a) {
            Some((ch, next)) => {
                let wide_next = option_ws(text, b)->Some_0.1;
                lemma_option_ws_run(alone, next, acc.push(ch));
                lemma_option_ws_run_framed(alone, text, next, wide_next, acc.push(ch));
                if quiet(a, option_ws_run(alone, a, acc).1) {
                    lemma_quiet_between(a, next, option_ws_run(alone, next, acc.push(ch)).1);
                }
            },
            None => {},
        }
    } else {
        lemma_option_ws_run(alone, a, acc);
    }
}

/// A further piece of an option in the text that stands alone is the same piece in both
/// texts.
pub proof fn lemma_option_piece_framed(alone: Seq<char>, text: Seq<char>, a: Cursor, b: Cursor)
    requires
        stands_at(text, b.pos - a.pos, alone),
        0 <= a.pos <= alone.len(),
        option_piece(alone, a) is Some,
        quiet(a, option_piece(alone, a)->Some_0.1),
    ensures
        option_piece(text, b) is Some,
        option_piece(text, b)->Some_0.0 == option_piece(alone, a)->Some_0.0,
        option_piece(text, b)->Some_0.1.pos == option_piece(alone, a)->Some_0.1.pos + (b.pos
            - a.pos),
        option_piece(text, b)->Some_0.1.errors == b.errors,
{
    let nothing = Seq::<char>::empty();
    let (joint, mid) = option_joint(alone, a);
    let next = option_piece(alone, a)->Some_0.1;
    lemma_dash_run(alone, a, nothing);
    lemma_option_ws_run(alone, a, nothing);
    lemma_single(alone, mid);
    lemma_quiet_between(a, mid, next);
    assert(mid.pos < alone.len());
    lemma_single_framed(alone, text, a, b);
    if exact_char(alone, a, '-') is Some {
        lemma_dash_run_framed(alone, text, a, b, nothing);
    } else {
        lemma_option_ws_run_framed(alone, text, a, b, nothing);
    }
    let wide_mid = option_joint(text, b).1;
    lemma_single_framed(alone, text, mid, wide_mid);
}

/// The further pieces of an option that fill the text that stands alone are the same pieces
/// in both texts, where the option ends behind them.
pub proof fn lemma_option_tail_framed(
    alone: Seq<char>,
    text: Seq<char>,
    a: Cursor,
    b: Cursor,
    acc: Seq<char>,
)
    requires
        stands_at(text, b.pos - a.pos, alone),
        0 <= a.pos <= alone.len(),
        option_tail(alone, a, acc).1.pos == alone.len(),
        quiet(a, option_tail(alone, a, acc).1),
        option_ends(text, b.pos - a.pos + alone.len()),
    ensures
        option_tail(text, b, acc).0 == option_tail(alone, a, acc).0,
        option_tail(text, b, acc).1 == (Cursor {
            pos: b.pos - a.pos + alone.len(),
            errors: b.errors,
        }),
    decreases alone.len() - a.pos,
{
    lemma_option_piece(alone, a);
    match option_piece(alone, a) {
        Some((piece, next)) => {
            lemma_option_tail(alone, next, acc + piece);
            lemma_quiet_between(a, next, option_tail(alone, next, acc + piece).1);
            lemma_option_piece_framed(alone, text, a, b);
            let wide_next = option_piece(text, b)->Some_0.1;
            lemma_option_tail_framed(alone, text, next, wide_next, acc + piece);
        },
        None => {
            lemma_option_ends(text, b);
        },
    }
}

/// An option that is read as itself where it stands alone is read as itself where an option
/// ends behind it.
pub proof fn lemma_bare_option_read(text: Seq<char>, c: Cursor, value: Seq<char>)
    requires
        stands_at(text, c.pos, value),
        bare(value),
        option_ends(text, c.pos + value.len()),
    ensures
        option(text, c) == Some((value, moved(c, value.len()))),
        atom_char(value[0]),
{
    let start = Cursor::start();
    lemma_single_framed(value, text, start, c);
    lemma_single(value, start);
    assert(quoted(value, start) is None);
    assert(quoted(text, c) is None);
    match option_atom(value, start) {
        Some((ch, next)) => {
            let wide_next = option_atom(text, c)->Some_0.1;
            lemma_option_tail(value, next, seq![ch]);
            lemma_quiet_between(start, next, option_tail(value, next, seq![ch]).1);
            lemma_option_tail_framed(value, text, next, wide_next, seq![ch]);
        },
        None => {},
    }
}

/// An option that fits its style is read back as the value that was written.
pub proof fn lemma_option_read(text: Seq<char>, c: Cursor, value: Seq<char>, style: Style)
    requires
        stands_at(text, c.pos, written(value, style)),
        fits(value, style),
        option_ends(text, c.pos + written(value, style).len()),
    ensures
        option(text, c) == Some((value, moved(c, written(value, style).len()))),
        written(value, style).len() > 0,
        atom_char(written(value, style)[0]),
{
    match style {
        Style::Quoted => lemma_quoted_option_read(text, c, value),
        Style::Bare => lemma_bare_option_read(text, c, value),
    }
}

/// What can stand behind an option list in a rendering: the end of the text, a line feed, or
/// the space before the dash.
pub open spec fn list_ends(text: Seq<char>, pos: int) -> bool {
    ||| pos == text.len()
    ||| 0 <= pos < text.len() && text[pos] == '\n'
    ||| 0 <= pos && pos + 1 < text.len() && text[pos] == ' ' && text[pos + 1] == '-'
}

/// What can stand behind a line in a rendering: the end of the text, or a line feed.
pub open spec fn line_ends(text: Seq<char>, pos: int) -> bool {
    pos == text.len() || (0 <= pos < text.len() && text[pos] == '\n')
}

/// White space between fields that is one space.
pub proof fn lemma_one_space(text: Seq<char>, c: Cursor)
    requires
        0 <= c.pos,
        c.pos + 1 < text.len(),
        text[c.pos] == ' ',
        !white_space(text[c.pos + 1]),
    ensures
        ws_run(text, c) == c.step(),
{
    assert(ws(text, c) == Some(c.step()));
    assert(ws(text, c.step()) is None);
    assert(ws_run(text, c.step()) == c.step());
}

/// The further options of a list are read back as they were written.
pub proof fn lemma_list_tail_read(
    text: Seq<char>,
    c: Cursor,
    seen: Seen,
    rest: Seq<Seq<char>>,
    style: Style,
)
    requires
        stands_at(text, c.pos, list_tail(rest, style)),
        list_ends(text, c.pos + list_tail(rest, style).len()),
        distinct_options(seen.values + rest),
        forall|i: int| 0 <= i < rest.len() ==> fits(#[trigger] rest[i], style),
    ensures
        options_rest(text, c, seen).0.values == seen.values + rest,
        options_rest(text, c, seen).1 == moved(c, list_tail(rest, style).len()),
    decreases rest.len(),
{
    if rest.len() == 0 {
        assert(seen.values + rest =~= seen.values);
        if c.pos < text.len() && text[c.pos] == ' ' {
            lemma_one_space(text, c);
        } else {
            assert(ws(text, c) is None);
        }
        assert(comma(text, c) is None);
    } else {
        let value = rest[0];
        let others = rest.drop_first();
        let piece = written(value, style);
        assert(fits(value, style));
        assert(list_tail(rest, style) =~= seq![','] + (piece + list_tail(others, style)));
        lemma_stands_split(text, c.pos, seq![','], piece + list_tail(others, style));
        lemma_stands_first(text, c.pos, seq![',']);
        let next = c.step();
        lemma_stands_split(text, next.pos, piece, list_tail(others, style));
        let end = moved(next, piece.len());
        if others.len() > 0 {
            lemma_stands_first(text, end.pos, list_tail(others, style));
        }
        lemma_option_read(text, next, value, style);
        lemma_stands_first(text, next.pos, piece);
        assert(ws(text, c) is None);
        assert(comma(text, c) == Some((c.pos, next)));
        assert(ws(text, next) is None);
        assert(seen.values.len() + 0 < (seen.values + rest).len());
        assert((seen.values + rest)[seen.values.len() as int] == value);
        assert forall|j: int| 0 <= j < seen.values.len() implies seen.values[j] != value by {
            assert((seen.values + rest)[j] == seen.values[j]);
        }
        lemma_first_index(seen.values, value);
        let taken = after_comma(text, next, c.pos, seen).0;
        assert(after_comma(text, next, c.pos, seen).1 == end);
        assert(taken.values == seen.values.push(value));
        assert(taken.values + others =~= seen.values + rest);
        assert forall|i: int| 0 <= i < others.len() implies fits(#[trigger] others[i], style) by {
            assert(others[i] == rest[i + 1]);
        }
        lemma_list_tail_read(text, end, taken, others, style);
    }
}

/// An option list is read back as it was written.
pub proof fn lemma_options_read(
    text: Seq<char>,
    c: Cursor,
    values: Seq<Seq<char>>,
    style: Style,
)
    requires
        stands_at(text, c.pos, option_list(values, style)),
        list_ends(text, c.pos + option_list(values, style).len()),
        writable_options(values, style),
    ensures
        options(text, c) == Some((values, moved(c, option_list(values, style).len()))),
        option_list(values, style).len() > 0,
        atom_char(option_list(values, style)[0]),
{
    let value = values[0];
    let others = values.drop_first();
    let piece = written(value, style);
    let nothing = Seen { values: Seq::empty(), spans: Seq::empty() };
    assert(fits(value, style));
    lemma_stands_split(text, c.pos, piece, list_tail(others, style));
    let end = moved(c, piece.len());
    if others.len() > 0 {
        lemma_stands_first(text, end.pos, list_tail(others, style));
    }
    lemma_option_read(text, c, value, style);
    lemma_stands_first(text, c.pos, piece);
    let first = add_option(
        nothing,
        end,
        value,
        crate::chars::span(text, c.pos, end.pos),
    ).0;
    assert(first.values =~= seq![value]);
    assert(first.values + others =~= values);
    assert forall|i: int| 0 <= i < others.len() implies fits(#[trigger] others[i], style) by {
        assert(others[i] == values[i + 1]);
    }
    lemma_list_tail_read(text, end, first, others, style);
}

/// The head of a card line is read back as it was written: the terms, then the dash behind
/// one space.
pub proof fn lemma_card_head_read(
    text: Seq<char>,
    c: Cursor,
    terms: Seq<Seq<char>>,
    style: Style,
)
    requires
        stands_at(text, c.pos, option_list(terms, style) + seq![' ', '-']),
        writable_options(terms, style),
    ensures
        card_head(text, c) == Some(
            (
                CardHead { terms, space_before: true, has_dash: true },
                moved(c, option_list(terms, style).len() + 2),
            ),
        ),
{
    let list = option_list(terms, style);
    let dash = seq![' ', '-'];
    lemma_stands_split(text, c.pos, list, dash);
    let after_terms = moved(c, list.len());
    assert(text[after_terms.pos + 0] == dash[0]);
    assert(text[after_terms.pos + 1] == dash[1]);
    lemma_options_read(text, c, terms, style);
    lemma_stands_first(text, c.pos, list);
    assert(ws(text, c) is None);
    assert(ws_run(text, c) == c);
    lemma_one_space(text, after_terms);
    let at_dash = after_terms.step();
    assert(exact_char(text, at_dash, '-') == Some(at_dash.step()));
}

/// What follows the dash of a card line is read back as it was written: one space, then the
/// definitions, to the end of the line.
pub proof fn lemma_card_definitions_read(
    text: Seq<char>,
    c: Cursor,
    definitions: Seq<Seq<char>>,
    style: Style,
    card_start: int,
)
    requires
        stands_at(text, c.pos, seq![' '] + option_list(definitions, style)),
        line_ends(text, c.pos + 1 + option_list(definitions, style).len()),
        writable_options(definitions, style),
    ensures
        card_definitions(text, c, true, card_start) == (
            definitions,
            moved(c, 1 + option_list(definitions, style).len()),
        ),
{
    let list = option_list(definitions, style);
    lemma_stands_split(text, c.pos, seq![' '], list);
    lemma_stands_first(text, c.pos, seq![' ']);
    let spaced = c.step();
    lemma_options_read(text, spaced, definitions, style);
    lemma_stands_first(text, spaced.pos, list);
    lemma_one_space(text, c);
    let end = moved(spaced, list.len());
    assert(ws(text, end) is None);
    assert(ws_run(text, end) == end);
    assert(exact_char(text, end, '-') is None);
    assert(third_part(text, end, card_start) == end);
}

/// A card line is read back as it was written.
pub proof fn lemma_card_read(text: Seq<char>, c: Cursor, found: CardModel, style: Style)
    requires
        stands_at(text, c.pos, card_text(found, style)),
        line_ends(text, c.pos + card_text(found, style).len()),
        writable_card(found, style),
    ensures
        card(text, c) == Some((found, moved(c, card_text(found, style).len()))),
{
    let terms = option_list(found.terms, style);
    let definitions = option_list(found.definitions, style);
    assert(card_text(found, style) =~= (terms + seq![' ', '-']) + (seq![' '] + definitions));
    lemma_stands_split(text, c.pos, terms + seq![' ', '-'], seq![' '] + definitions);
    lemma_card_head_read(text, c, found.terms, style);
    let after_dash = moved(c, terms.len() + 2);
    lemma_card_definitions_read(text, after_dash, found.definitions, style, c.pos);
    let end = moved(after_dash, 1 + definitions.len());
    assert(exact_char(text, end, '#') is None);
    assert(comment(text, end) == end);
    assert(end == moved(c, card_text(found, style).len()));
}

/// A card line that the deck does not hold yet is read back as it was written, and taken
/// into the deck.
pub proof fn lemma_card_line_read(
    text: Seq<char>,
    c: Cursor,
    deck: Deck,
    found: CardModel,
    style: Style,
)
    requires
        stands_at(text, c.pos, card_text(found, style)),
        line_ends(text, c.pos + card_text(found, style).len()),
        writable_card(found, style),
        forall|j: int| 0 <= j < deck.cards.len() ==> !same_card(#[trigger] deck.cards[j], found),
    ensures
        card_line(text, c, deck).0.cards == deck.cards.push(found),
        card_line(text, c, deck).1 == moved(c, card_text(found, style).len()),
{
    lemma_card_read(text, c, found, style);
    lemma_first_card(deck.cards, found);
}

/// The card lines are read back as they were written.
pub proof fn lemma_cards_read(
    text: Seq<char>,
    c: Cursor,
    deck: Deck,
    cards: Seq<CardModel>,
    style: Style,
)
    requires
        stands_at(text, c.pos, cards_text(cards, style)),
        c.pos + cards_text(cards, style).len() == text.len(),
        distinct_cards(deck.cards + cards),
        forall|i: int| 0 <= i < cards.len() ==> writable_card(#[trigger] cards[i], style),
    ensures
        card_lines(text, c, deck).0.cards == deck.cards + cards,
        card_lines(text, c, deck).1 == moved(c, cards_text(cards, style).len()),
    decreases cards.len(),
{
    if cards.len() == 0 {
        assert(deck.cards + cards =~= deck.cards);
        assert(newline(text, c) is None);
    } else {
        let found = cards[0];
        let others = cards.drop_first();
        let line = card_text(found, style);
        let rest = cards_text(others, style);
        assert(writable_card(found, style));
        assert(cards_text(cards, style) =~= seq!['\n'] + (line + rest));
        lemma_stands_split(text, c.pos, seq!['\n'], line + rest);
        lemma_stands_first(text, c.pos, seq!['\n']);
        let next = c.step();
        lemma_stands_split(text, next.pos, line, rest);
        let end = moved(next, line.len());
        if others.len() > 0 {
            lemma_stands_first(text, end.pos, rest);
        }
        assert(newline(text, c) == Some(next));
        assert((deck.cards + cards)[deck.cards.len() as int] == found);
        assert forall|j: int| 0 <= j < deck.cards.len() implies !same_card(
            #[trigger] deck.cards[j],
            found,
        ) by {
            assert((deck.cards + cards)[j] == deck.cards[j]);
        }
        lemma_card_line_read(text, next, deck, found, style);
        let taken = card_line(text, next, deck).0;
        assert(taken.cards + others =~= deck.cards + cards);
        assert forall|i: int| 0 <= i < others.len() implies writable_card(
            #[trigger] others[i],
            style,
        ) by {
            assert(others[i] == cards[i + 1]);
        }
        lemma_cards_read(text, end, taken, others, style);
    }
}

/// The characters of a title are read back as they were written.
pub proof fn lemma_plain_run_read(text: Seq<char>, c: Cursor, acc: Seq<char>, piece: Seq<char>)
    requires
        stands_at(text, c.pos, piece),
        line_ends(text, c.pos + piece.len()),
        forall|i: int| 0 <= i < piece.len() ==> !control(#[trigger] piece[i]) && piece[i] != '#',
    ensures
        plain_run(text, c, acc) == (acc + piece, moved(c, piece.len())),
    decreases piece.len(),
{
    if piece.len() == 0 {
        assert(acc + piece =~= acc);
        assert(plain_char(text, c) is None);
    } else {
        let ch = piece[0];
        let rest = piece.drop_first();
        assert(!control(ch) && ch != '#');
        assert(piece =~= seq![ch] + rest);
        lemma_stands_split(text, c.pos, seq![ch], rest);
        lemma_stands_first(text, c.pos, seq![ch]);
        assert(plain_char(text, c) == Some((ch, c.step())));
        assert(acc.push(ch) + rest =~= acc + piece);
        assert forall|i: int| 0 <= i < rest.len() implies !control(#[trigger] rest[i]) && rest[i]
            != '#' by {
            assert(rest[i] == piece[i + 1]);
        }
        lemma_plain_run_read(text, c.step(), acc.push(ch), rest);
    }
}

/// The title line is read back as it was written.
pub proof fn lemma_title_read(text: Seq<char>, c: Cursor, name: Seq<char>)
    requires
        stands_at(text, c.pos, name),
        line_ends(text, c.pos + name.len()),
        regular_title(name),
    ensures
        title(text, c) == (name, moved(c, name.len())),
{
    lemma_plain_run_read(text, c, Seq::empty(), name);
    assert(Seq::<char>::empty() + name =~= name);
    assert(trim_start(name) == name);
    assert(trim_end(name) == name);
    assert(trim(name) == name);
    let end = moved(c, name.len());
    assert(comment(text, end) == end);
}

/// A set that can be written in `style` is read back from its rendering as it is, without
/// diagnostics.
pub proof fn lemma_rendering_read(set: SetModel, style: Style)
    requires
        writable_set(set, style),
    ensures
        document(rendered(set, style)) == (Outcome { set, errors: Seq::empty() }),
{
    let text = rendered(set, style);
    let start = Cursor::start();
    let nothing = Deck { cards: Seq::empty(), spans: Seq::empty() };
    assert(stands_at(text, 0, set.title + cards_text(set.cards, style)));
    lemma_stands_split(text, 0, set.title, cards_text(set.cards, style));
    lemma_stands_first(text, 0, set.title);
    assert(!control(set.title[0]) && set.title[0] != '#');
    assert(ws(text, start) is None);
    assert(ws_run(text, start) == start);
    assert(comment(text, start) == start);
    assert(newline(text, start) is None);
    assert(leading_blank_lines(text, start) == start);
    let titled = moved(start, set.title.len());
    lemma_stands_first(text, titled.pos, cards_text(set.cards, style));
    lemma_title_read(text, start, set.title);
    assert(nothing.cards + set.cards =~= set.cards);
    lemma_cards_read(text, titled, nothing, set.cards, style);
    let read = card_lines(text, titled, nothing);
    assert(read.0.cards == set.cards);
    assert(read.1.errors == Seq::<crate::set::error::ParseError>::empty());
    assert(document(text).set == set);
    assert(document(text).errors =~= Seq::<crate::set::error::ParseError>::empty());
}

} // verus!
