//! The parser of a whole document.

use crate::laws::regular::lemma_read_is_regular;
use crate::laws::spans::{errors_mark_text, lemma_spans_mark_text};
use crate::laws::whole_input::lemma_whole_input;
use crate::model::{
    Card, card_models, CardSet, Deck, distinct_cards, find_card, lemma_first_card, regular_set,
};
use crate::set::card::{parse_card, parse_title};
use crate::set::context::ParseContext;
use crate::set::error::ParseError;
use crate::set::grammar;
use crate::set::lexer::{parse_blank_line, parse_newline};
use std::ops::Range;
use vstd::prelude::*;

verus! {

/// The cards read so far, each with the byte span at which it was read.
struct Collected {
    cards: Vec<Card>,
    spans: Vec<(usize, usize)>,
}

impl Collected {
    spec fn model(&self) -> Deck {
        Deck {
            cards: card_models(self.cards@),
            spans: Seq::new(
                self.spans.len() as nat,
                |i: int| (Range { start: self.spans[i].0, end: self.spans[i].1 }),
            ),
        }
    }

    spec fn wf(&self) -> bool {
        &&& self.spans.len() == self.cards.len()
        &&& distinct_cards(card_models(self.cards@))
        &&& forall|i: int| 0 <= i < self.cards.len() ==> (#[trigger] self.cards[i]).wf()
    }
}

/// Takes a card read at the bytes `from..to` into `deck`.
fn add_card(cx: &mut ParseContext, deck: &mut Collected, found: Card, from: usize, to: usize)
    requires
        old(cx).ready(),
        old(deck).wf(),
        found.wf(),
    ensures
        final(cx).ready(),
        final(cx).text() == old(cx).text(),
        final(deck).wf(),
        (final(deck).model(), final(cx).cursor()) == grammar::add_card(
            old(deck).model(),
            old(cx).cursor(),
            found@,
            (Range { start: from, end: to }),
        ),
{
    proof {
        lemma_first_card(card_models(deck.cards@), found@);
    }
    match find_card(&deck.cards, &found) {
        Some(i) => {
            let first = deck.spans[i];
            cx.report(
                ParseError::DuplicateCard { original: first.0..first.1, duplicate: from..to },
            );
        },
        None => {
            let ghost before = deck.model();
            deck.cards.push(found);
            deck.spans.push((from, to));
            assert(deck.model().cards =~= before.cards.push(found@));
            assert(deck.model().spans =~= before.spans.push((Range { start: from, end: to })));
        },
    }
}

/// Reads the lines without content at the start of a document.
fn parse_leading_blank_lines(cx: &mut ParseContext)
    requires
        old(cx).ready(),
    ensures
        final(cx).reaches(
            *old(cx),
            grammar::leading_blank_lines(old(cx).text(), old(cx).cursor()),
        ),
{
    let ghost text = cx.text();
    let ghost whole = grammar::leading_blank_lines(text, cx.cursor());
    loop
        invariant
            cx.ready(),
            cx.text() == text,
            grammar::leading_blank_lines(text, cx.cursor()) == whole,
        ensures
            grammar::newline(text, grammar::blank_line(text, cx.cursor())) is None,
        decreases cx.text().len() - cx.cursor().pos,
    {
        let ghost here = cx.cursor();
        let mark = cx.checkpoint();
        parse_blank_line(cx);
        proof {
            grammar::lemma_blank_line(text, here);
            grammar::lemma_rewind(here, cx.cursor());
        }
        if parse_newline(cx).is_err() {
            cx.rewind(mark);
            break ;
        }
    }
}

/// Reads one line behind the title.
fn parse_card_line(cx: &mut ParseContext, deck: &mut Collected)
    requires
        old(cx).ready(),
        old(deck).wf(),
    ensures
        final(cx).ready(),
        final(cx).text() == old(cx).text(),
        final(deck).wf(),
        (final(deck).model(), final(cx).cursor()) == grammar::card_line(
            old(cx).text(),
            old(cx).cursor(),
            old(deck).model(),
        ),
{
    let from = cx.offset();
    match parse_card(cx) {
        Ok(found) => {
            let to = cx.offset();
            add_card(cx, deck, found, from, to);
        },
        Err(_) => {
            parse_blank_line(cx);
        },
    }
}

/// Reads a document from the cursor on.
pub fn parse_set_inner(cx: &mut ParseContext) -> (set: CardSet)
    requires
        old(cx).ready(),
    ensures
        final(cx).ready(),
        final(cx).text() == old(cx).text(),
        (set@, final(cx).cursor()) == grammar::document_from(old(cx).text(), old(cx).cursor()),
        final(cx).cursor().pos == final(cx).text().len(),
        set.wf(),
{
    let ghost text = cx.text();
    proof {
        lemma_whole_input(text, cx.cursor());
    }
    parse_leading_blank_lines(cx);
    let title = parse_title(cx);
    let mut deck = Collected { cards: Vec::new(), spans: Vec::new() };
    assert(deck.model().cards =~= Seq::empty());
    assert(deck.model().spans =~= Seq::empty());
    let ghost whole = grammar::card_lines(text, cx.cursor(), deck.model());
    loop
        invariant
            cx.ready(),
            cx.text() == text,
            deck.wf(),
            grammar::card_lines(text, cx.cursor(), deck.model()) == whole,
        ensures
            grammar::newline(text, cx.cursor()) is None,
        decreases cx.text().len() - cx.cursor().pos,
    {
        proof {
            grammar::lemma_single(text, cx.cursor());
        }
        if parse_newline(cx).is_err() {
            break ;
        }
        proof {
            grammar::lemma_card_line(text, cx.cursor(), deck.model());
        }
        parse_card_line(cx, &mut deck);
    }
    if deck.cards.len() == 0 {
        cx.report(ParseError::EmptySet);
    }
    CardSet { title, cards: deck.cards }
}

/// Parses a card set.
///
/// Gives the set where the text is a regular card set, and otherwise every diagnostic that
/// the text raises, in the order in which they were raised.
pub fn parse_set(input: &str) -> (res: Result<CardSet, Vec<ParseError>>)
    ensures
        match res {
            Ok(set) => {
                &&& grammar::document(input@).errors.len() == 0
                &&& set@ == grammar::document(input@).set
                &&& set.wf()
                &&& regular_set(set@)
            },
            Err(errors) => {
                &&& errors@.len() > 0
                &&& errors@ == grammar::document(input@).errors
                &&& errors_mark_text(input@, errors@)
            },
        },
{
    let mut cx = ParseContext::new(input);
    let set = parse_set_inner(&mut cx);
    if cx.error_count() == 0 {
        proof {
            lemma_read_is_regular(input@);
        }
        Ok(set)
    } else {
        proof {
            lemma_spans_mark_text(input@);
        }
        Err(cx.into_errors())
    }
}

} // verus!
