//! Option sets, cards and card sets, and what they are as mathematical values.
//!
//! An option set holds its strings in the order in which they were first added,
//! and no string twice. Two option sets are equal when they hold the same
//! strings, in whatever order; two cards are equal when their terms are equal
//! and their definitions are equal. Where a card stands in a text is no part
//! of the card.

use crate::chars::{control, white_space};
use std::ops::Range;
use vstd::prelude::*;

verus! {

/// A card: its terms and its definitions, each in the order of first occurrence.
pub struct CardModel {
    pub terms: Seq<Seq<char>>,
    pub definitions: Seq<Seq<char>>,
}

/// A card set: its title and its cards in the order of first occurrence.
pub struct SetModel {
    pub title: Seq<char>,
    pub cards: Seq<CardModel>,
}

/// The options of one list in the order of their first occurrence, each with its span.
pub struct Seen {
    pub values: Seq<Seq<char>>,
    pub spans: Seq<Range<usize>>,
}

/// The cards of a set in the order of their first occurrence, each with its span.
pub struct Deck {
    pub cards: Seq<CardModel>,
    pub spans: Seq<Range<usize>>,
}

/// The index of the first element of `items` that equals `item`.
pub open spec fn first_index(items: Seq<Seq<char>>, item: Seq<char>) -> Option<int>
    decreases items.len(),
{
    if items.len() == 0 {
        None
    } else if items.last() == item {
        match first_index(items.drop_last(), item) {
            Some(i) => Some(i),
            None => Some(items.len() - 1),
        }
    } else {
        first_index(items.drop_last(), item)
    }
}

/// Every option of `a` is an option of `b`.
pub open spec fn options_within(a: Seq<Seq<char>>, b: Seq<Seq<char>>) -> bool {
    forall|i: int| 0 <= i < a.len() ==> b.contains(#[trigger] a[i])
}

/// Two option lists hold the same options, in whatever order.
pub open spec fn same_options(a: Seq<Seq<char>>, b: Seq<Seq<char>>) -> bool {
    options_within(a, b) && options_within(b, a)
}

/// Two cards are the same card: the same terms and the same definitions, as sets.
pub open spec fn same_card(a: CardModel, b: CardModel) -> bool {
    same_options(a.terms, b.terms) && same_options(a.definitions, b.definitions)
}

/// The index of the first card of `cards` that is the same card as `card`.
pub open spec fn first_card(cards: Seq<CardModel>, card: CardModel) -> Option<int>
    decreases cards.len(),
{
    if cards.len() == 0 {
        None
    } else if same_card(cards.last(), card) {
        match first_card(cards.drop_last(), card) {
            Some(i) => Some(i),
            None => Some(cards.len() - 1),
        }
    } else {
        first_card(cards.drop_last(), card)
    }
}

/// One of `cards` is the same card as `card`.
pub open spec fn card_among(card: CardModel, cards: Seq<CardModel>) -> bool {
    exists|j: int| 0 <= j < cards.len() && same_card(card, #[trigger] cards[j])
}

/// Every card of `a` is the same card as one of `b`.
pub open spec fn cards_within(a: Seq<CardModel>, b: Seq<CardModel>) -> bool {
    forall|i: int| 0 <= i < a.len() ==> card_among(#[trigger] a[i], b)
}

/// Two card sets are the same set: the same title and the same cards, in whatever order.
pub open spec fn same_set(a: SetModel, b: SetModel) -> bool {
    a.title == b.title && cards_within(a.cards, b.cards) && cards_within(b.cards, a.cards)
}

/// No option occurs twice.
pub open spec fn distinct_options(items: Seq<Seq<char>>) -> bool {
    forall|i: int, j: int| 0 <= i < j < items.len() ==> items[i] != items[j]
}

/// No card occurs twice.
pub open spec fn distinct_cards(cards: Seq<CardModel>) -> bool {
    forall|i: int, j: int| 0 <= i < j < cards.len() ==> !same_card(cards[i], cards[j])
}

/// No character of `value` is a control character.
pub open spec fn printable(value: Seq<char>) -> bool {
    forall|i: int| 0 <= i < value.len() ==> !control(#[trigger] value[i])
}

/// An option that a regular document can hold: not empty, and without control characters.
pub open spec fn regular_option(value: Seq<char>) -> bool {
    value.len() > 0 && printable(value)
}

/// An option list that a regular document can hold: not empty, of regular options, none
/// twice.
pub open spec fn regular_options(values: Seq<Seq<char>>) -> bool {
    &&& values.len() > 0
    &&& distinct_options(values)
    &&& forall|i: int| 0 <= i < values.len() ==> regular_option(#[trigger] values[i])
}

/// A card that a regular document can hold.
pub open spec fn regular_card(card: CardModel) -> bool {
    regular_options(card.terms) && regular_options(card.definitions)
}

/// A title that a regular document can hold: not empty, with no white space at either end,
/// and without control characters and `#`.
pub open spec fn regular_title(name: Seq<char>) -> bool {
    &&& name.len() > 0
    &&& !white_space(name[0])
    &&& !white_space(name.last())
    &&& forall|i: int| 0 <= i < name.len() ==> !control(#[trigger] name[i]) && name[i] != '#'
}

/// A set that a regular document can hold.
pub open spec fn regular_set(set: SetModel) -> bool {
    &&& regular_title(set.title)
    &&& set.cards.len() > 0
    &&& distinct_cards(set.cards)
    &&& forall|i: int| 0 <= i < set.cards.len() ==> regular_card(#[trigger] set.cards[i])
}

/// `first_index` gives the least index at which `item` stands, and `None` where it stands
/// nowhere.
pub proof fn lemma_first_index(items: Seq<Seq<char>>, item: Seq<char>)
    ensures
        match first_index(items, item) {
            Some(i) => 0 <= i < items.len() && items[i] == item && forall|j: int|
                0 <= j < i ==> items[j] != item,
            None => forall|j: int| 0 <= j < items.len() ==> items[j] != item,
        },
    decreases items.len(),
{
    if items.len() > 0 {
        let front = items.drop_last();
        lemma_first_index(front, item);
        assert(forall|j: int| 0 <= j < front.len() ==> front[j] == items[j]);
    }
}

/// `first_card` gives the least index at which the same card stands, and `None` where it
/// stands nowhere.
pub proof fn lemma_first_card(cards: Seq<CardModel>, card: CardModel)
    ensures
        match first_card(cards, card) {
            Some(i) => 0 <= i < cards.len() && same_card(cards[i], card) && forall|j: int|
                0 <= j < i ==> !same_card(cards[j], card),
            None => forall|j: int| 0 <= j < cards.len() ==> !same_card(cards[j], card),
        },
    decreases cards.len(),
{
    if cards.len() > 0 {
        let front = cards.drop_last();
        lemma_first_card(front, card);
        assert(forall|j: int| 0 <= j < front.len() ==> front[j] == cards[j]);
    }
}

/// A set of strings, in the order in which they were first added.
#[derive(Debug, Clone)]
pub struct OptionSet {
    items: Vec<String>,
}

impl View for OptionSet {
    type V = Seq<Seq<char>>;

    closed spec fn view(&self) -> Seq<Seq<char>> {
        Seq::new(self.items.len() as nat, |i: int| self.items[i]@)
    }
}

impl OptionSet {
    /// No string occurs twice.
    pub open spec fn wf(&self) -> bool {
        distinct_options(self@)
    }

    /// The empty set.
    pub fn new() -> (set: OptionSet)
        ensures
            set@ == Seq::<Seq<char>>::empty(),
            set.wf(),
    {
        let set = OptionSet { items: Vec::new() };
        assert(set@ =~= Seq::<Seq<char>>::empty());
        set
    }

    /// The number of strings.
    pub fn len(&self) -> (n: usize)
        ensures
            n == self@.len(),
    {
        self.items.len()
    }

    /// The set holds no string.
    pub fn is_empty(&self) -> (empty: bool)
        ensures
            empty == (self@.len() == 0),
    {
        self.items.len() == 0
    }

    /// The string at `index`, in the order of first addition.
    pub fn get(&self, index: usize) -> (item: &String)
        requires
            index < self@.len(),
        ensures
            item@ == self@[index as int],
    {
        &self.items[index]
    }

    /// The place of `value` in the set.
    pub fn position(&self, value: &String) -> (found: Option<usize>)
        ensures
            match found {
                Some(i) => first_index(self@, value@) == Some(i as int),
                None => first_index(self@, value@) is None,
            },
    {
        let mut i: usize = 0;
        while i < self.items.len()
            invariant
                i <= self.items.len(),
                forall|j: int| 0 <= j < i ==> self@[j] != value@,
            decreases self.items.len() - i,
        {
            if self.items[i] == *value {
                proof {
                    lemma_first_index(self@, value@);
                    assert(self@[i as int] == value@);
                }
                return Some(i);
            }
            i += 1;
        }
        proof {
            lemma_first_index(self@, value@);
        }
        None
    }

    /// The set holds `value`.
    pub fn contains(&self, value: &String) -> (found: bool)
        ensures
            found == self@.contains(value@),
    {
        proof {
            lemma_first_index(self@, value@);
        }
        self.position(value).is_some()
    }

    /// Adds `value` unless the set holds it, and says whether it was added.
    pub fn insert(&mut self, value: String) -> (added: bool)
        ensures
            added == !old(self)@.contains(value@),
            final(self)@ == if added {
                old(self)@.push(value@)
            } else {
                old(self)@
            },
            old(self).wf() ==> final(self).wf(),
    {
        if self.contains(&value) {
            false
        } else {
            let ghost before = self@;
            self.items.push(value);
            assert(self@ =~= before.push(value@));
            true
        }
    }

    /// Every string of `other` is in this set.
    pub fn includes(&self, other: &OptionSet) -> (all: bool)
        ensures
            all == options_within(other@, self@),
    {
        let mut i: usize = 0;
        while i < other.items.len()
            invariant
                i <= other.items.len(),
                forall|j: int| 0 <= j < i ==> self@.contains(#[trigger] other@[j]),
            decreases other.items.len() - i,
        {
            if !self.contains(&other.items[i]) {
                assert(!self@.contains(other@[i as int]));
                return false;
            }
            i += 1;
        }
        true
    }
}

impl PartialEq for OptionSet {
    fn eq(&self, other: &OptionSet) -> (equal: bool) {
        other.includes(self) && self.includes(other)
    }
}

impl vstd::std_specs::cmp::PartialEqSpecImpl for OptionSet {
    open spec fn obeys_eq_spec() -> bool {
        true
    }

    open spec fn eq_spec(&self, other: &OptionSet) -> bool {
        same_options(self@, other@)
    }
}

/// One card: a set of terms and a set of definitions.
#[derive(Debug, Clone)]
pub struct Card {
    /// The terms of the card.
    pub terms: OptionSet,
    /// The definitions of those terms.
    pub definitions: OptionSet,
}

impl View for Card {
    type V = CardModel;

    open spec fn view(&self) -> CardModel {
        CardModel { terms: self.terms@, definitions: self.definitions@ }
    }
}

impl Card {
    /// Neither side holds a string twice.
    pub open spec fn wf(&self) -> bool {
        self.terms.wf() && self.definitions.wf()
    }
}

impl PartialEq for Card {
    fn eq(&self, other: &Card) -> (equal: bool) {
        self.terms == other.terms && self.definitions == other.definitions
    }
}

impl vstd::std_specs::cmp::PartialEqSpecImpl for Card {
    open spec fn obeys_eq_spec() -> bool {
        true
    }

    open spec fn eq_spec(&self, other: &Card) -> bool {
        same_card(self@, other@)
    }
}

/// The cards of `cards` as mathematical values.
pub open spec fn card_models(cards: Seq<Card>) -> Seq<CardModel> {
    Seq::new(cards.len(), |i: int| cards[i]@)
}

/// The place of the first card of `cards` that is the same card as `card`.
pub fn find_card(cards: &Vec<Card>, card: &Card) -> (found: Option<usize>)
    ensures
        match found {
            Some(i) => first_card(card_models(cards@), card@) == Some(i as int),
            None => first_card(card_models(cards@), card@) is None,
        },
{
    let mut i: usize = 0;
    while i < cards.len()
        invariant
            i <= cards.len(),
            forall|j: int| 0 <= j < i ==> !same_card(card_models(cards@)[j], card@),
        decreases cards.len() - i,
    {
        if cards[i] == *card {
            proof {
                lemma_first_card(card_models(cards@), card@);
                assert(same_card(card_models(cards@)[i as int], card@));
            }
            return Some(i);
        }
        i += 1;
    }
    proof {
        lemma_first_card(card_models(cards@), card@);
    }
    None
}

/// Every card of `a` is the same card as one of `b`.
pub fn cards_included(a: &Vec<Card>, b: &Vec<Card>) -> (all: bool)
    ensures
        all == cards_within(card_models(a@), card_models(b@)),
{
    let ghost am = card_models(a@);
    let ghost bm = card_models(b@);
    let mut i: usize = 0;
    while i < a.len()
        invariant
            i <= a.len(),
            am == card_models(a@),
            bm == card_models(b@),
            am.len() == a.len(),
            forall|k: int| 0 <= k < i ==> card_among(#[trigger] am[k], bm),
        decreases a.len() - i,
    {
        let found = find_card(b, &a[i]);
        proof {
            lemma_first_card(bm, am[i as int]);
        }
        match found {
            Some(j) => {
                assert(same_card(am[i as int], bm[j as int]));
            },
            None => {
                assert(!cards_within(am, bm)) by {
                    if card_among(am[i as int], bm) {
                        let j = choose|j: int|
                            0 <= j < bm.len() && same_card(am[i as int], #[trigger] bm[j]);
                        assert(same_card(bm[j], am[i as int]));
                    }
                }
                return false;
            },
        }
        i += 1;
    }
    true
}

/// Being the same card is an equivalence: every card is the same card as itself, and the
/// relation is symmetric and transitive.
pub proof fn lemma_same_card_equivalence(a: CardModel, b: CardModel, c: CardModel)
    ensures
        same_card(a, a),
        same_card(a, b) == same_card(b, a),
        same_card(a, b) && same_card(b, c) ==> same_card(a, c),
{
    assert forall|i: int| 0 <= i < a.terms.len() implies a.terms.contains(
        #[trigger] a.terms[i],
    ) by {}
    assert forall|i: int| 0 <= i < a.definitions.len() implies a.definitions.contains(
        #[trigger] a.definitions[i],
    ) by {}
    if same_card(a, b) && same_card(b, c) {
        lemma_options_within_chain(a.terms, b.terms, c.terms);
        lemma_options_within_chain(c.terms, b.terms, a.terms);
        lemma_options_within_chain(a.definitions, b.definitions, c.definitions);
        lemma_options_within_chain(c.definitions, b.definitions, a.definitions);
    }
}

/// Where every option of `a` is one of `b`, and every option of `b` one of `c`, every option
/// of `a` is one of `c`.
pub proof fn lemma_options_within_chain(a: Seq<Seq<char>>, b: Seq<Seq<char>>, c: Seq<Seq<char>>)
    requires
        options_within(a, b),
        options_within(b, c),
    ensures
        options_within(a, c),
{
    assert forall|i: int| 0 <= i < a.len() implies c.contains(#[trigger] a[i]) by {
        assert(b.contains(a[i]));
        let j = choose|j: int| 0 <= j < b.len() && b[j] == a[i];
        assert(c.contains(b[j]));
    }
}

/// A card set: a title and cards, in the order in which they were first read.
#[derive(Debug)]
pub struct CardSet {
    /// The title of the set.
    pub title: String,
    /// The cards of the set.
    pub cards: Vec<Card>,
}

impl View for CardSet {
    type V = SetModel;

    open spec fn view(&self) -> SetModel {
        SetModel { title: self.title@, cards: card_models(self.cards@) }
    }
}

impl CardSet {
    /// No card occurs twice, and no card holds a string twice on one side.
    pub open spec fn wf(&self) -> bool {
        &&& distinct_cards(self@.cards)
        &&& forall|i: int| 0 <= i < self.cards.len() ==> (#[trigger] self.cards[i]).wf()
    }
}

impl PartialEq for CardSet {
    fn eq(&self, other: &CardSet) -> (equal: bool) {
        self.title == other.title && cards_included(&self.cards, &other.cards) && cards_included(
            &other.cards,
            &self.cards,
        )
    }
}

impl vstd::std_specs::cmp::PartialEqSpecImpl for CardSet {
    open spec fn obeys_eq_spec() -> bool {
        true
    }

    open spec fn eq_spec(&self, other: &CardSet) -> bool {
        same_set(self@, other@)
    }
}

} // verus!
