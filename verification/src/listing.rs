//! The unit listing: the file that names every unit of an index to the pages.

use vstd::prelude::*;
use vstd::string::StringSliceAdditionalSpecFns;
use crate::bytes::{COMMA, QUOTE};
use crate::entries::names_of;
use crate::index::SearchIndex;

verus! {

/// The text before the first name.
pub const LISTING_OPENING: &'static str = "window.ALL_CRATES = [";

/// The text behind the last name.
pub const LISTING_CLOSING: &'static str = "];";

/// A name between double quotes.
pub open spec fn quoted(name: Seq<u8>) -> Seq<u8> {
    seq![QUOTE] + name + seq![QUOTE]
}

/// The quoted names, in order, with a comma between each two.
pub open spec fn joined_names(names: Seq<Seq<u8>>) -> Seq<u8>
    decreases names.len(),
{
    if names.len() == 0 {
        Seq::empty()
    } else if names.len() == 1 {
        quoted(names[0])
    } else {
        joined_names(names.drop_last()) + seq![COMMA] + quoted(names.last())
    }
}

/// The listing of `names`, in that order: one assignment of the quoted names.
pub open spec fn listing_text(names: Seq<Seq<u8>>) -> Seq<u8> {
    LISTING_OPENING.spec_bytes() + joined_names(names) + LISTING_CLOSING.spec_bytes()
}

/// Writes the unit listing of `index`: its names in ascending order.
pub fn listing(index: &SearchIndex) -> (text: Vec<u8>)
    ensures
        text@ == listing_text(names_of(index@)),
{
    let entries = index.entries();
    let ghost names = names_of(index@);
    let mut text: Vec<u8> = Vec::new();
    text.extend_from_slice(LISTING_OPENING.as_bytes());
    let mut i: usize = 0;
    while i < entries.len()
        invariant
            i <= entries.len(),
            names == names_of(index@),
            entries@.len() == index@.len(),
            forall|j: int| 0 <= j < entries@.len() ==> (#[trigger] entries@[j])@ == index@[j],
            text@ == LISTING_OPENING.spec_bytes() + joined_names(names.take(i as int)),
        decreases entries.len() - i,
    {
        if i > 0 {
            text.push(COMMA);
        }
        text.push(QUOTE);
        text.extend_from_slice(entries[i].name.as_slice());
        text.push(QUOTE);
        proof {
            assert(names.take(i + 1).drop_last() =~= names.take(i as int));
        }
        i += 1;
    }
    assert(names.take(i as int) =~= names);
    text.extend_from_slice(LISTING_CLOSING.as_bytes());
    text
}

} // verus!
