//! The identity of a card: a key of bytes made of its terms and its definitions.
//!
//! The key is the encoding of the two sets, each as the list of its strings in
//! the order of their bytes. So the key depends on what the sets hold and not
//! on the order in which it was added, and two cards that are equal have the
//! same key.

use bincode::Options;
use crate::model::{CardModel, distinct_options, OptionSet, same_options};
use vstd::prelude::*;
use vstd::string::StrSliceExecFns;
use vstd::utf8::{encode_utf8, encode_utf8_decode_utf8};

verus! {

/// `a` stands before `b` in the order of byte strings: at the first place where they differ
/// `a` holds the smaller byte, or `a` ends there and `b` does not.
pub open spec fn bytes_before(a: Seq<u8>, b: Seq<u8>) -> bool
    decreases a.len(),
{
    if b.len() == 0 {
        false
    } else if a.len() == 0 {
        true
    } else if a[0] != b[0] {
        a[0] < b[0]
    } else {
        bytes_before(a.drop_first(), b.drop_first())
    }
}

/// The place of `item` in the sorted list `sorted`, at or behind `from`: before the first
/// string that does not stand before it.
pub open spec fn place_of(sorted: Seq<Seq<u8>>, item: Seq<u8>, from: int) -> int
    decreases sorted.len() - from,
{
    if 0 <= from < sorted.len() && bytes_before(sorted[from], item) {
        place_of(sorted, item, from + 1)
    } else {
        from
    }
}

/// `items` in the order of byte strings.
pub open spec fn in_order(items: Seq<Seq<u8>>) -> Seq<Seq<u8>>
    decreases items.len(),
{
    if items.len() == 0 {
        Seq::empty()
    } else {
        let front = in_order(items.drop_last());
        front.insert(place_of(front, items.last(), 0), items.last())
    }
}

/// Each of `values` as the bytes of its UTF-8 encoding.
pub open spec fn as_bytes(values: Seq<Seq<char>>) -> Seq<Seq<u8>> {
    Seq::new(values.len(), |i: int| encode_utf8(values[i]))
}

/// What `bincode`, with its default options, makes of a pair of lists of byte strings: the
/// bytes, or nothing where it gives an error.
pub uninterp spec fn encoded_pair(terms: Seq<Seq<u8>>, definitions: Seq<Seq<u8>>) -> Option<
    Seq<u8>,
>;

/// The key of a card, where its two sets can be encoded.
pub open spec fn card_key(card: CardModel) -> Option<Seq<u8>> {
    encoded_pair(in_order(as_bytes(card.terms)), in_order(as_bytes(card.definitions)))
}

/// The byte strings that `items` holds.
pub open spec fn byte_views(items: Seq<Vec<u8>>) -> Seq<Seq<u8>> {
    Seq::new(items.len(), |i: int| items[i]@)
}

/// Serialises a pair of lists of byte strings with `bincode::Options::serialize`, on
/// `bincode::DefaultOptions`. The contract claims that what comes back, the bytes or the
/// failure, is a function of the two lists alone, and names that function; it does not claim
/// that the call succeeds.
#[verifier::external_body]
fn encode_pair(terms: &Vec<Vec<u8>>, definitions: &Vec<Vec<u8>>) -> (encoded: Option<Vec<u8>>)
    ensures
        match encoded {
            Some(bytes) => encoded_pair(byte_views(terms@), byte_views(definitions@)) == Some(
                bytes@,
            ),
            None => encoded_pair(byte_views(terms@), byte_views(definitions@)) is None,
        },
{
    bincode::DefaultOptions::new().serialize(&(terms, definitions)).ok()
}

/// `a` stands before `b` in the order of byte strings.
pub fn is_before(a: &Vec<u8>, b: &Vec<u8>) -> (before: bool)
    ensures
        before == bytes_before(a@, b@),
{
    let mut i: usize = 0;
    assert(a@.skip(0) =~= a@);
    assert(b@.skip(0) =~= b@);
    while i < a.len() && i < b.len()
        invariant
            i <= a.len(),
            i <= b.len(),
            bytes_before(a@.skip(i as int), b@.skip(i as int)) == bytes_before(a@, b@),
        decreases a.len() - i,
    {
        assert(a@.skip(i as int).drop_first() =~= a@.skip(i + 1));
        assert(b@.skip(i as int).drop_first() =~= b@.skip(i + 1));
        if a[i] != b[i] {
            return a[i] < b[i];
        }
        i += 1;
    }
    i < b.len()
}

/// The byte strings of `options`, in the order of byte strings.
pub fn sorted_bytes(options: &OptionSet) -> (sorted: Vec<Vec<u8>>)
    ensures
        byte_views(sorted@) == in_order(as_bytes(options@)),
{
    let ghost all = as_bytes(options@);
    let mut sorted: Vec<Vec<u8>> = Vec::new();
    let mut i: usize = 0;
    assert(all.take(0) =~= Seq::empty());
    assert(byte_views(sorted@) =~= Seq::empty());
    while i < options.len()
        invariant
            i <= options@.len(),
            all == as_bytes(options@),
            byte_views(sorted@) == in_order(all.take(i as int)),
        decreases options@.len() - i,
    {
        let item = options.get(i).as_str().as_bytes_vec();
        let ghost front = byte_views(sorted@);
        let mut at: usize = 0;
        while at < sorted.len() && is_before(&sorted[at], &item)
            invariant
                at <= sorted.len(),
                front == byte_views(sorted@),
                place_of(front, item@, at as int) == place_of(front, item@, 0),
            decreases sorted.len() - at,
        {
            at += 1;
        }
        assert(all.take(i + 1).drop_last() =~= all.take(i as int));
        assert(all.take(i + 1).last() == item@);
        sorted.insert(at, item);
        assert(byte_views(sorted@) =~= front.insert(at as int, item@));
        i += 1;
    }
    assert(all.take(options@.len() as int) =~= all);
    sorted
}

/// The identity of a card.
#[derive(Debug, Clone, PartialEq, Eq, Hash)]
pub struct CardKey {
    bytes: Vec<u8>,
}

impl View for CardKey {
    type V = Seq<u8>;

    closed spec fn view(&self) -> Seq<u8> {
        self.bytes@
    }
}

impl CardKey {
    /// The key of the card with the given terms and definitions: the encoding of the two
    /// sets, each as the list of its strings in the order of their bytes. There is a key
    /// exactly where there is such an encoding.
    pub fn new(terms: &OptionSet, definitions: &OptionSet) -> (key: Option<CardKey>)
        requires
            terms@.len() > 0,
            definitions@.len() > 0,
        ensures
            match card_key((CardModel { terms: terms@, definitions: definitions@ })) {
                Some(bytes) => key is Some && key->Some_0@ == bytes,
                None => key is None,
            },
    {
        let first = sorted_bytes(terms);
        let second = sorted_bytes(definitions);
        CardKey::from_encoded(encode_pair(&first, &second))
    }

    /// The key that an encoding stands for: the key of its bytes, and none where there is
    /// no encoding.
    pub fn from_encoded(encoded: Option<Vec<u8>>) -> (key: Option<CardKey>)
        ensures
            match encoded {
                Some(bytes) => key is Some && key->Some_0@ == bytes@,
                None => key is None,
            },
    {
        match encoded {
            Some(bytes) => Some(CardKey::from_bytes(bytes)),
            None => None,
        }
    }

    /// The key that is stored as `bytes`.
    pub fn from_bytes(bytes: Vec<u8>) -> (key: CardKey)
        ensures
            key@ == bytes@,
    {
        CardKey { bytes }
    }

    /// The bytes to store the key as.
    pub fn as_bytes(&self) -> (bytes: &Vec<u8>)
        ensures
            bytes@ == self@,
    {
        &self.bytes
    }
}

/// Every string of `items` stands before every later one.
pub open spec fn strictly_ordered(items: Seq<Seq<u8>>) -> bool {
    forall|i: int, j: int| 0 <= i < j < items.len() ==> bytes_before(items[i], items[j])
}

/// Two lists hold the same strings.
pub open spec fn same_strings(a: Seq<Seq<u8>>, b: Seq<Seq<u8>>) -> bool {
    forall|x: Seq<u8>| a.contains(x) <==> b.contains(x)
}

/// No string stands before itself.
pub proof fn lemma_before_irreflexive(a: Seq<u8>)
    ensures
        !bytes_before(a, a),
    decreases a.len(),
{
    if a.len() > 0 {
        lemma_before_irreflexive(a.drop_first());
    }
}

/// Of two different strings, one stands before the other.
pub proof fn lemma_before_total(a: Seq<u8>, b: Seq<u8>)
    requires
        a != b,
    ensures
        bytes_before(a, b) || bytes_before(b, a),
    decreases a.len(),
{
    if a.len() > 0 && b.len() > 0 && a[0] == b[0] {
        if a.drop_first() == b.drop_first() {
            assert(a =~= seq![a[0]] + a.drop_first());
            assert(b =~= seq![b[0]] + b.drop_first());
        }
        lemma_before_total(a.drop_first(), b.drop_first());
    } else if a.len() == 0 && b.len() == 0 {
        assert(a =~= b);
    }
}

/// Standing before is transitive.
pub proof fn lemma_before_transitive(a: Seq<u8>, b: Seq<u8>, c: Seq<u8>)
    requires
        bytes_before(a, b),
        bytes_before(b, c),
    ensures
        bytes_before(a, c),
    decreases a.len(),
{
    if a.len() > 0 && b.len() > 0 && c.len() > 0 && a[0] == b[0] && b[0] == c[0] {
        lemma_before_transitive(a.drop_first(), b.drop_first(), c.drop_first());
    }
}

/// No two strings stand before each other.
pub proof fn lemma_before_one_way(a: Seq<u8>, b: Seq<u8>)
    requires
        bytes_before(a, b),
    ensures
        !bytes_before(b, a),
{
    if bytes_before(b, a) {
        lemma_before_transitive(a, b, a);
        lemma_before_irreflexive(a);
    }
}

/// The place of a string in an ordered list lies behind the strings that stand before it.
pub proof fn lemma_place_of(sorted: Seq<Seq<u8>>, item: Seq<u8>, from: int)
    requires
        0 <= from <= sorted.len(),
    ensures
        from <= place_of(sorted, item, from) <= sorted.len(),
        forall|k: int|
            from <= k < place_of(sorted, item, from) ==> bytes_before(#[trigger] sorted[k], item),
        place_of(sorted, item, from) < sorted.len() ==> !bytes_before(
            sorted[place_of(sorted, item, from)],
            item,
        ),
    decreases sorted.len() - from,
{
    if from < sorted.len() && bytes_before(sorted[from], item) {
        lemma_place_of(sorted, item, from + 1);
    }
}

/// A string put at its place in an ordered list that does not hold it leaves the list
/// ordered.
pub proof fn lemma_insert_ordered(sorted: Seq<Seq<u8>>, item: Seq<u8>)
    requires
        strictly_ordered(sorted),
        !sorted.contains(item),
    ensures
        strictly_ordered(sorted.insert(place_of(sorted, item, 0), item)),
{
    let place = place_of(sorted, item, 0);
    let after = sorted.insert(place, item);
    lemma_place_of(sorted, item, 0);
    assert forall|i: int, j: int| 0 <= i < j < after.len() implies bytes_before(
        after[i],
        after[j],
    ) by {
        if j == place {
            assert(after[i] == sorted[i]);
        } else if i == place {
            assert(after[j] == sorted[j - 1]);
            assert(sorted.contains(sorted[place]));
            lemma_before_total(sorted[place], item);
            if j - 1 > place {
                assert(bytes_before(sorted[place], sorted[j - 1]));
                lemma_before_transitive(item, sorted[place], sorted[j - 1]);
            }
        } else {
            let low = if i < place {
                i
            } else {
                i - 1
            };
            let high = if j < place {
                j
            } else {
                j - 1
            };
            assert(after[i] == sorted[low]);
            assert(after[j] == sorted[high]);
        }
    }
}

/// A list in order is strictly ordered and holds the strings of the list, where the list
/// holds none twice.
pub proof fn lemma_in_order(items: Seq<Seq<u8>>)
    requires
        items.no_duplicates(),
    ensures
        strictly_ordered(in_order(items)),
        same_strings(in_order(items), items),
        in_order(items).len() == items.len(),
    decreases items.len(),
{
    if items.len() > 0 {
        let front_items = items.drop_last();
        let item = items.last();
        let front = in_order(front_items);
        lemma_in_order(front_items);
        lemma_place_of(front, item, 0);
        let place = place_of(front, item, 0);
        if front.contains(item) {
            assert(front_items.contains(item));
            let k = choose|k: int| 0 <= k < front_items.len() && front_items[k] == item;
            assert(items[k] == items[items.len() - 1]);
        }
        lemma_insert_ordered(front, item);
        let after = front.insert(place, item);
        assert forall|x: Seq<u8>| after.contains(x) <==> items.contains(x) by {
            if after.contains(x) {
                let k = choose|k: int| 0 <= k < after.len() && after[k] == x;
                if k == place {
                    assert(items[items.len() - 1] == x);
                } else {
                    let low = if k < place {
                        k
                    } else {
                        k - 1
                    };
                    assert(front[low] == x);
                    assert(front.contains(x));
                    assert(front_items.contains(x));
                    let m = choose|m: int| 0 <= m < front_items.len() && front_items[m] == x;
                    assert(items[m] == x);
                }
            }
            if items.contains(x) {
                let k = choose|k: int| 0 <= k < items.len() && items[k] == x;
                if k == items.len() - 1 {
                    assert(after[place] == x);
                } else {
                    assert(front_items[k] == x);
                    assert(front_items.contains(x));
                    assert(front.contains(x));
                    let m = choose|m: int| 0 <= m < front.len() && front[m] == x;
                    if m < place {
                        assert(after[m] == x);
                    } else {
                        assert(after[m + 1] == x);
                    }
                }
            }
        }
    }
}

/// Two strictly ordered lists that hold the same strings are the same list.
pub proof fn lemma_ordered_unique(a: Seq<Seq<u8>>, b: Seq<Seq<u8>>)
    requires
        strictly_ordered(a),
        strictly_ordered(b),
        same_strings(a, b),
    ensures
        a == b,
    decreases a.len(),
{
    if a.len() == 0 {
        if b.len() > 0 {
            assert(b.contains(b[0]));
            assert(a.contains(b[0]));
        }
        assert(a =~= b);
    } else {
        assert(a.contains(a[0]));
        assert(b.contains(a[0]));
        let j = choose|j: int| 0 <= j < b.len() && b[j] == a[0];
        assert(b.contains(b[0]));
        assert(a.contains(b[0]));
        let i = choose|i: int| 0 <= i < a.len() && a[i] == b[0];
        if i > 0 && j > 0 {
            assert(bytes_before(a[0], a[i]));
            assert(bytes_before(b[0], b[j]));
            lemma_before_one_way(a[0], b[0]);
        }
        assert(a[0] == b[0]);
        let rest_a = a.drop_first();
        let rest_b = b.drop_first();
        lemma_before_irreflexive(a[0]);
        assert forall|x: Seq<u8>| rest_a.contains(x) <==> rest_b.contains(x) by {
            if rest_a.contains(x) {
                let k = choose|k: int| 0 <= k < rest_a.len() && rest_a[k] == x;
                assert(a[k + 1] == x);
                assert(bytes_before(a[0], a[k + 1]));
                assert(a.contains(x));
                assert(b.contains(x));
                let m = choose|m: int| 0 <= m < b.len() && b[m] == x;
                assert(m > 0);
                assert(rest_b[m - 1] == x);
            }
            if rest_b.contains(x) {
                let k = choose|k: int| 0 <= k < rest_b.len() && rest_b[k] == x;
                assert(b[k + 1] == x);
                assert(bytes_before(b[0], b[k + 1]));
                assert(b.contains(x));
                assert(a.contains(x));
                let m = choose|m: int| 0 <= m < a.len() && a[m] == x;
                assert(m > 0);
                assert(rest_a[m - 1] == x);
            }
        }
        assert forall|i: int, j: int| 0 <= i < j < rest_a.len() implies bytes_before(
            rest_a[i],
            rest_a[j],
        ) by {
            assert(bytes_before(a[i + 1], a[j + 1]));
        }
        assert forall|i: int, j: int| 0 <= i < j < rest_b.len() implies bytes_before(
            rest_b[i],
            rest_b[j],
        ) by {
            assert(bytes_before(b[i + 1], b[j + 1]));
        }
        lemma_ordered_unique(rest_a, rest_b);
        assert(a =~= seq![a[0]] + rest_a);
        assert(b =~= seq![b[0]] + rest_b);
    }
}

/// Lists that hold the same options hold the same byte strings, and a list that holds no
/// option twice holds no byte string twice.
pub proof fn lemma_as_bytes(a: Seq<Seq<char>>, b: Seq<Seq<char>>)
    requires
        same_options(a, b),
        distinct_options(a),
    ensures
        same_strings(as_bytes(a), as_bytes(b)),
        as_bytes(a).no_duplicates(),
{
    let bytes_a = as_bytes(a);
    let bytes_b = as_bytes(b);
    assert forall|x: Seq<u8>| bytes_a.contains(x) <==> bytes_b.contains(x) by {
        if bytes_a.contains(x) {
            let k = choose|k: int| 0 <= k < bytes_a.len() && bytes_a[k] == x;
            assert(b.contains(a[k]));
            let m = choose|m: int| 0 <= m < b.len() && b[m] == a[k];
            assert(bytes_b[m] == x);
        }
        if bytes_b.contains(x) {
            let k = choose|k: int| 0 <= k < bytes_b.len() && bytes_b[k] == x;
            assert(a.contains(b[k]));
            let m = choose|m: int| 0 <= m < a.len() && a[m] == b[k];
            assert(bytes_a[m] == x);
        }
    }
    assert forall|i: int, j: int| 0 <= i < bytes_a.len() && 0 <= j < bytes_a.len() && i
        != j implies bytes_a[i] != bytes_a[j] by {
        encode_utf8_decode_utf8(a[i]);
        encode_utf8_decode_utf8(a[j]);
        if i < j {
            assert(a[i] != a[j]);
        } else {
            assert(a[j] != a[i]);
        }
    }
}

/// Equal cards have equal keys: the key depends on the terms and the definitions as sets.
pub proof fn lemma_equal_cards_equal_keys(a: CardModel, b: CardModel)
    requires
        crate::model::same_card(a, b),
        distinct_options(a.terms),
        distinct_options(a.definitions),
        distinct_options(b.terms),
        distinct_options(b.definitions),
    ensures
        card_key(a) == card_key(b),
{
    lemma_as_bytes(a.terms, b.terms);
    lemma_as_bytes(b.terms, a.terms);
    lemma_as_bytes(a.definitions, b.definitions);
    lemma_as_bytes(b.definitions, a.definitions);
    lemma_in_order(as_bytes(a.terms));
    lemma_in_order(as_bytes(b.terms));
    lemma_in_order(as_bytes(a.definitions));
    lemma_in_order(as_bytes(b.definitions));
    lemma_ordered_unique(in_order(as_bytes(a.terms)), in_order(as_bytes(b.terms)));
    lemma_ordered_unique(in_order(as_bytes(a.definitions)), in_order(as_bytes(b.definitions)));
}

} // verus!
