//! Merging: the indexes of the sources are laid over the index that the destination
//! already has, in the order in which the sources are given, so that for every name
//! the last record given stays.

use vstd::prelude::*;
use crate::index::SearchIndex;

verus! {

/// The mapping that results when the `sources` are laid over `base` one after the
/// other: a name has the record of the last source that holds it, or that of `base`
/// where no source holds it.
pub open spec fn merged(
    base: Map<Seq<u8>, Seq<u8>>,
    sources: Seq<Map<Seq<u8>, Seq<u8>>>,
) -> Map<Seq<u8>, Seq<u8>>
    decreases sources.len(),
{
    if sources.len() == 0 {
        base
    } else {
        merged(base, sources.drop_last()).union_prefer_right(sources.last())
    }
}

/// Whether a merge has enough to work on: two sources or more, or one source
/// together with the index that the destination already has.
pub open spec fn enough_sources(has_destination: bool, sources: nat) -> bool {
    sources >= 2 || (has_destination && sources == 1)
}

/// The mappings of a list of indexes.
pub open spec fn maps_of(indexes: Seq<SearchIndex>) -> Seq<Map<Seq<u8>, Seq<u8>>> {
    Seq::new(indexes.len(), |i: int| indexes[i].as_map())
}

/// The mapping of the index that the destination has: empty where it has none.
pub open spec fn base_of(existing: Option<SearchIndex>) -> Map<Seq<u8>, Seq<u8>> {
    match existing {
        Some(index) => index.as_map(),
        None => Map::empty(),
    }
}

/// Tells whether a merge has enough to work on.
pub fn has_enough_sources(has_destination: bool, sources: usize) -> (r: bool)
    ensures
        r == enough_sources(has_destination, sources as nat),
{
    sources >= 2 || (has_destination && sources == 1)
}

/// Merges the indexes of the sources into the index of the destination, if it has
/// one. Later sources take precedence over earlier ones, and every source over the
/// destination. Returns `None` where there is not enough to merge.
pub fn merge_indexes(existing: Option<SearchIndex>, sources: &Vec<SearchIndex>) -> (r: Option<
    SearchIndex,
>)
    requires
        existing matches Some(index) ==> index.wf(),
        forall|i: int| 0 <= i < sources@.len() ==> (#[trigger] sources@[i]).wf(),
    ensures
        r is Some <==> enough_sources(existing is Some, sources@.len()),
        r matches Some(index) ==> index.wf() && index.as_map() == merged(
            base_of(existing),
            maps_of(sources@),
        ),
{
    if !has_enough_sources(existing.is_some(), sources.len()) {
        return None;
    }
    let ghost base = base_of(existing);
    let ghost maps = maps_of(sources@);
    let mut index = match existing {
        Some(index) => index,
        None => SearchIndex::new(),
    };
    let mut i: usize = 0;
    while i < sources.len()
        invariant
            i <= sources.len(),
            maps == maps_of(sources@),
            forall|j: int| 0 <= j < sources@.len() ==> (#[trigger] sources@[j]).wf(),
            index.wf(),
            index.as_map() == merged(base, maps.take(i as int)),
        decreases sources.len() - i,
    {
        proof {
            let next = maps.take(i + 1);
            assert(next.drop_last() =~= maps.take(i as int));
        }
        index.overlay(&sources[i]);
        i += 1;
    }
    assert(maps.take(i as int) =~= maps);
    Some(index)
}

} // verus!
