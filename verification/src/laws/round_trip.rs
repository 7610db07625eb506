//! A card set that was read without diagnostics can be written out and read again, and is
//! the same set.

use crate::laws::regular::lemma_read_is_regular;
use crate::laws::rendering::{
    bare, fits, lemma_rendering_read, rendered, Style, writable_card, writable_set,
};
use crate::model::{regular_card, regular_option, regular_set, SetModel};
use crate::set::grammar::document;
use vstd::prelude::*;

verus! {

/// A set that a regular document can hold can be written in quotes.
pub proof fn lemma_regular_is_writable(set: SetModel)
    requires
        regular_set(set),
    ensures
        writable_set(set, Style::Quoted),
{
    assert forall|i: int| 0 <= i < set.cards.len() implies writable_card(
        #[trigger] set.cards[i],
        Style::Quoted,
    ) by {
        let found = set.cards[i];
        assert(regular_card(found));
        assert forall|k: int| 0 <= k < found.terms.len() implies fits(
            #[trigger] found.terms[k],
            Style::Quoted,
        ) by {
            assert(regular_option(found.terms[k]));
        }
        assert forall|k: int| 0 <= k < found.definitions.len() implies fits(
            #[trigger] found.definitions[k],
            Style::Quoted,
        ) by {
            assert(regular_option(found.definitions[k]));
        }
    }
}

/// Every option of `set` is read as itself where it stands alone.
pub open spec fn bare_set(set: SetModel) -> bool {
    forall|i: int|
        0 <= i < set.cards.len() ==> {
            &&& forall|k: int|
                0 <= k < (#[trigger] set.cards[i]).terms.len() ==> bare(
                    #[trigger] set.cards[i].terms[k],
                )
            &&& forall|k: int|
                0 <= k < set.cards[i].definitions.len() ==> bare(
                    #[trigger] set.cards[i].definitions[k],
                )
        }
}

/// Reading is idempotent: the set that a document gives without diagnostics, written out
/// with its options in quotes, is read again as the same set, without diagnostics.
pub proof fn lemma_round_trip(text: Seq<char>)
    requires
        document(text).errors.len() == 0,
    ensures
        document(rendered(document(text).set, Style::Quoted)) == document(text),
{
    lemma_read_is_regular(text);
    lemma_regular_is_writable(document(text).set);
    lemma_rendering_read(document(text).set, Style::Quoted);
    assert(document(text).errors =~= Seq::empty());
}

/// The same holds where the options are written as they are, for a set of which every
/// option is read as itself where it stands alone.
pub proof fn lemma_round_trip_bare(text: Seq<char>)
    requires
        document(text).errors.len() == 0,
        bare_set(document(text).set),
    ensures
        document(rendered(document(text).set, Style::Bare)) == document(text),
{
    let set = document(text).set;
    lemma_read_is_regular(text);
    assert forall|i: int| 0 <= i < set.cards.len() implies writable_card(
        #[trigger] set.cards[i],
        Style::Bare,
    ) by {
        let found = set.cards[i];
        assert(regular_card(found));
        assert forall|k: int| 0 <= k < found.terms.len() implies fits(
            #[trigger] found.terms[k],
            Style::Bare,
        ) by {
            assert(bare(set.cards[i].terms[k]));
        }
        assert forall|k: int| 0 <= k < found.definitions.len() implies fits(
            #[trigger] found.definitions[k],
            Style::Bare,
        ) by {
            assert(bare(set.cards[i].definitions[k]));
        }
    }
    lemma_rendering_read(set, Style::Bare);
    assert(document(text).errors =~= Seq::empty());
}

} // verus!
