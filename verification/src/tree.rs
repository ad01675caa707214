//! The page trees: what is copied from the root of a unit's pages into the merged
//! site, and where the entry point of the site leads.

use vstd::prelude::*;
use vstd::string::StringSliceAdditionalSpecFns;
use crate::bytes::{ends_with, has_suffix};

verus! {

/// The ending of the name of a rendered page.
pub const PAGE_SUFFIX: &'static str = ".html";

/// The name of the entry point at the root of the site.
pub const ENTRY_POINT: &'static str = "index.html";

/// Where the landing page of a unit stands below the unit's name.
pub const LANDING_PAGE: &'static str = "/index.html";

/// What becomes of one child of the root of a unit's pages.
#[derive(Clone, Copy, Debug, PartialEq, Eq, Structural)]
pub enum CopyAction {
    /// A directory: it is copied with all that it holds, over what is there.
    Tree,
    /// A rendered page: the file is copied, over the one that is there.
    Page,
    /// A generated data file or anything else: it is not copied.
    Skip,
}

/// What becomes of the child `name`: a directory is copied as a tree, a file whose
/// name ends like a rendered page is copied as a page, any other file is left out.
pub open spec fn copy_action_of(name: Seq<u8>, is_dir: bool) -> CopyAction {
    if is_dir {
        CopyAction::Tree
    } else if ends_with(name, PAGE_SUFFIX.spec_bytes()) {
        CopyAction::Page
    } else {
        CopyAction::Skip
    }
}

/// Decides what becomes of the child `name` of the root of a unit's pages.
pub fn copy_action(name: &[u8], is_dir: bool) -> (r: CopyAction)
    ensures
        r == copy_action_of(name@, is_dir),
{
    if is_dir {
        CopyAction::Tree
    } else if has_suffix(name, PAGE_SUFFIX.as_bytes()) {
        CopyAction::Page
    } else {
        CopyAction::Skip
    }
}

/// The landing page of `unit`, as a path below the root of the site.
pub open spec fn landing_page_of(unit: Seq<u8>) -> Seq<u8> {
    unit + LANDING_PAGE.spec_bytes()
}

/// The path, below the root of the site, of the landing page of `unit`: where the
/// entry point leads when `unit` is chosen for it.
pub fn landing_page(unit: &[u8]) -> (path: Vec<u8>)
    ensures
        path@ == landing_page_of(unit@),
{
    let mut path: Vec<u8> = Vec::new();
    path.extend_from_slice(unit);
    path.extend_from_slice(LANDING_PAGE.as_bytes());
    path
}

/// Why a run cannot start.
#[derive(Clone, Copy, Debug, PartialEq, Eq, Structural)]
pub enum RootError {
    /// The root of the source at this place in the list, counted from 0, is no
    /// directory.
    MissingSource(usize),
    /// The root of the destination is no directory, and it shall not be created.
    MissingDestination,
}

/// Whether every root of the first `n` sources is there.
pub open spec fn sources_present(present: Seq<bool>, n: int) -> bool {
    forall|i: int| 0 <= i < n ==> #[trigger] present[i]
}

/// Decides whether a run can start, from what was found on disk: `present` tells of
/// each source root whether it is a directory, `destination_present` tells the same
/// of the destination root, and `create_destination` whether a missing destination
/// root shall be created.
///
/// The first missing source root is an error. A missing destination root is an
/// error unless it shall be created; nothing is created unasked. Otherwise the
/// result tells whether the destination root has to be created before the run
/// writes anything.
pub fn inspect_roots(
    present: &[bool],
    destination_present: bool,
    create_destination: bool,
) -> (r: Result<bool, RootError>)
    ensures
        match r {
            Ok(create) => {
                &&& sources_present(present@, present@.len() as int)
                &&& destination_present || create_destination
                &&& create == !destination_present
            },
            Err(RootError::MissingSource(at)) => {
                &&& at < present@.len()
                &&& sources_present(present@, at as int)
                &&& !present@[at as int]
            },
            Err(RootError::MissingDestination) => {
                &&& sources_present(present@, present@.len() as int)
                &&& !destination_present
                &&& !create_destination
            },
        },
{
    let mut i: usize = 0;
    while i < present.len()
        invariant
            i <= present.len(),
            sources_present(present@, i as int),
        decreases present.len() - i,
    {
        if !present[i] {
            return Err(RootError::MissingSource(i));
        }
        i += 1;
    }
    if !destination_present && !create_destination {
        return Err(RootError::MissingDestination);
    }
    Ok(!destination_present)
}

} // verus!
