//! Merging of generated documentation sites.
//!
//! Every documented unit comes with a search index of its own. This library folds the
//! indexes of several sources, and the index that the destination already has, into
//! one index with one record for each unit name, and writes from it the search-index
//! file and the unit listing of the merged site.
//!
//! - [`name`], [`order`] and [`bytes`]: unit names, their order, and byte strings.
//! - [`entries`] and [`index`]: the index, as a list of pairs and as a mapping.
//! - [`format`] and [`listing`]: the two generated files.
//! - [`merge`] and [`site`]: the merge, and one whole run.
//! - [`tree`]: what is copied of the page trees, and where the entry point leads.
//! - [`laws`]: what holds of every merge.

pub mod bytes;
pub mod name;
pub mod order;
pub mod entries;
pub mod index;
pub mod format;
pub mod listing;
pub mod merge;
pub mod site;
pub mod tree;
pub mod laws;
