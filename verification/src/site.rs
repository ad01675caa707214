//! One run of the merge, from the files as they were read to the files to write.
//!
//! Everything that can fail is decided here before anything is written: the caller
//! reads the search-index files, asks for the merged site, and only then copies
//! pages and writes the two generated files.

use vstd::prelude::*;
use crate::entries::{collect, names_of};
use crate::format::{
    artifact_text, decode, encode, entries_of, format_fault, is_artifact, FormatError,
};
use crate::index::SearchIndex;
use crate::listing::{listing, listing_text};
use crate::merge::{
    base_of, enough_sources, has_enough_sources, maps_of, merge_indexes, merged,
};
use crate::tree::{landing_page, landing_page_of};

verus! {

/// The name of the search-index file below the root of a site.
pub const SEARCH_INDEX_FILE: &'static str = "search-index.js";

/// The name of the unit listing below the root of a site.
pub const LISTING_FILE: &'static str = "crates.js";

/// Why a run was given up.
#[derive(Clone, Copy, Debug, PartialEq, Eq)]
pub enum MergeError {
    /// There is not enough to merge: fewer than two sources, and no destination
    /// index that a single source could be merged into.
    TooFewSources,
    /// The search-index file of the destination is no search-index file.
    MalformedDestination(FormatError),
    /// The search-index file of the source at this place in the list, counted
    /// from 0, is no search-index file.
    MalformedSource(usize, FormatError),
    /// The unit chosen for the entry point is not among the merged units.
    UnknownEntryUnit,
}

/// What a run leaves at the destination, besides the copied pages.
#[derive(Debug)]
pub struct MergedSite {
    /// The merged index.
    pub index: SearchIndex,
    /// The search-index file of the merged index.
    pub search_index: Vec<u8>,
    /// The unit listing of the merged index.
    pub listing: Vec<u8>,
    /// Where the entry point of the site leads: the landing page of the chosen unit,
    /// as a path below the root. `None` where no unit was chosen.
    pub landing_page: Option<Vec<u8>>,
}

/// The mapping that the search-index file `text` holds.
pub open spec fn decoded(text: Seq<u8>) -> Map<Seq<u8>, Seq<u8>> {
    collect(entries_of(text))
}

/// The mappings that the search-index files `texts` hold.
pub open spec fn decoded_all(texts: Seq<Seq<u8>>) -> Seq<Map<Seq<u8>, Seq<u8>>> {
    Seq::new(texts.len(), |i: int| decoded(texts[i]))
}

/// The mapping that the destination starts from: that of its search-index file, or
/// the empty one where it has none.
pub open spec fn decoded_base(existing: Option<Seq<u8>>) -> Map<Seq<u8>, Seq<u8>> {
    match existing {
        Some(text) => decoded(text),
        None => Map::empty(),
    }
}

/// The merged mapping of a run on the destination file `existing`, if there is one,
/// and the source files `texts`.
pub open spec fn merged_site(existing: Option<Seq<u8>>, texts: Seq<Seq<u8>>) -> Map<
    Seq<u8>,
    Seq<u8>,
> {
    merged(decoded_base(existing), decoded_all(texts))
}

/// The bytes of each of `texts`.
pub open spec fn texts_of(texts: Seq<Vec<u8>>) -> Seq<Seq<u8>> {
    Seq::new(texts.len(), |i: int| texts[i]@)
}

/// The bytes of `text`, if there is one.
pub open spec fn text_of(text: Option<&[u8]>) -> Option<Seq<u8>> {
    match text {
        Some(t) => Some(t@),
        None => None,
    }
}

/// Merges the search-index files of the sources into that of the destination.
///
/// `existing` is the search-index file that the destination has, if any; `sources`
/// are the search-index files of the sources, in the order in which they take
/// precedence (the last one wins); `entry_unit` is the unit whose landing page the
/// entry point of the site shall lead to, if one is wanted.
///
/// The run is given up, in this order, where there is not enough to merge, where
/// the file of the destination is malformed, at the first malformed source, and
/// where the unit chosen for the entry point is not among the merged units.
pub fn merge_site(
    existing: Option<&[u8]>,
    sources: &Vec<Vec<u8>>,
    entry_unit: Option<&[u8]>,
) -> (r: Result<MergedSite, MergeError>)
    ensures
        match r {
            Ok(site) => {
                &&& enough_sources(existing is Some, sources@.len())
                &&& existing matches Some(text) ==> is_artifact(text@)
                &&& forall|i: int| 0 <= i < sources@.len() ==> is_artifact(#[trigger] sources@[i]@)
                &&& site.index.wf()
                &&& site.index.as_map() == merged_site(text_of(existing), texts_of(sources@))
                &&& entry_unit matches Some(unit) ==> site.index.as_map().dom().contains(unit@)
                &&& site.search_index@ == artifact_text(site.index@)
                &&& site.listing@ == listing_text(names_of(site.index@))
                &&& match entry_unit {
                    Some(unit) => site.landing_page matches Some(path) && path@
                        == landing_page_of(unit@),
                    None => site.landing_page is None,
                }
            },
            Err(MergeError::TooFewSources) => !enough_sources(existing is Some, sources@.len()),
            Err(MergeError::MalformedDestination(fault)) => {
                &&& enough_sources(existing is Some, sources@.len())
                &&& existing matches Some(text) && format_fault(text@) == Some(fault)
            },
            Err(MergeError::MalformedSource(at, fault)) => {
                &&& enough_sources(existing is Some, sources@.len())
                &&& existing matches Some(text) ==> is_artifact(text@)
                &&& at < sources@.len()
                &&& forall|i: int| 0 <= i < at ==> is_artifact(#[trigger] sources@[i]@)
                &&& format_fault(sources@[at as int]@) == Some(fault)
            },
            Err(MergeError::UnknownEntryUnit) => {
                &&& enough_sources(existing is Some, sources@.len())
                &&& existing matches Some(text) ==> is_artifact(text@)
                &&& forall|i: int| 0 <= i < sources@.len() ==> is_artifact(#[trigger] sources@[i]@)
                &&& entry_unit matches Some(unit) && !merged_site(
                    text_of(existing),
                    texts_of(sources@),
                ).dom().contains(unit@)
            },
        },
{
    if !has_enough_sources(existing.is_some(), sources.len()) {
        return Err(MergeError::TooFewSources);
    }
    let base: Option<SearchIndex> = match existing {
        Some(text) => match decode(text) {
            Ok(index) => Some(index),
            Err(fault) => {
                return Err(MergeError::MalformedDestination(fault));
            },
        },
        None => None,
    };
    let mut indexes: Vec<SearchIndex> = Vec::new();
    let mut i: usize = 0;
    while i < sources.len()
        invariant
            i <= sources.len(),
            indexes@.len() == i,
            enough_sources(existing is Some, sources@.len()),
            existing matches Some(text) ==> is_artifact(text@),
            base matches Some(index) ==> index.wf(),
            base_of(base) == decoded_base(text_of(existing)),
            forall|j: int| 0 <= j < i ==> is_artifact(#[trigger] sources@[j]@),
            forall|j: int|
                0 <= j < i ==> (#[trigger] indexes@[j]).wf() && indexes@[j].as_map() == decoded(
                    sources@[j]@,
                ),
        decreases sources.len() - i,
    {
        match decode(sources[i].as_slice()) {
            Ok(index) => {
                indexes.push(index);
            },
            Err(fault) => {
                return Err(MergeError::MalformedSource(i, fault));
            },
        }
        i += 1;
    }
    proof {
        assert(maps_of(indexes@) =~= decoded_all(texts_of(sources@)));
    }
    let index = match merge_indexes(base, &indexes) {
        Some(index) => index,
        None => {
            return Err(MergeError::TooFewSources);
        },
    };
    let path: Option<Vec<u8>> = match entry_unit {
        Some(unit) => {
            if !index.contains(unit) {
                return Err(MergeError::UnknownEntryUnit);
            }
            Some(landing_page(unit))
        },
        None => None,
    };
    let search_index = encode(&index);
    let names = listing(&index);
    Ok(MergedSite { index, search_index, listing: names, landing_page: path })
}

} // verus!
