use doc_merge::format::{decode, encode, FormatError, CLOSING, OPENING};
use doc_merge::index::SearchIndex;
use doc_merge::merge::{has_enough_sources, merge_indexes};
use doc_merge::site::{merge_site, MergeError, MergedSite, LISTING_FILE, SEARCH_INDEX_FILE};

fn index_of(pairs: &[(&str, &str)]) -> SearchIndex {
    let mut index = SearchIndex::new();
    for (name, record) in pairs {
        assert_eq!(index.insert(name.as_bytes().to_vec(), record.as_bytes().to_vec()), Ok(()));
    }
    index
}

fn file_of(pairs: &[(&str, &str)]) -> Vec<u8> {
    let lines: Vec<String> =
        pairs.iter().map(|(name, record)| format!("\"{}\":{}", name, record)).collect();
    format!("{}{}{}", OPENING, lines.join(",\\\n"), CLOSING).into_bytes()
}

fn pairs_of(index: &SearchIndex) -> Vec<(String, String)> {
    index
        .entries()
        .iter()
        .map(|e| {
            (String::from_utf8(e.name.clone()).unwrap(), String::from_utf8(e.record.clone()).unwrap())
        })
        .collect()
}

fn pair(name: &str, record: &str) -> (String, String) {
    (name.to_string(), record.to_string())
}

fn run(existing: Option<&[u8]>, sources: &[Vec<u8>], unit: Option<&str>) -> Result<MergedSite, MergeError> {
    merge_site(existing, &sources.to_vec(), unit.map(|u| u.as_bytes()))
}

const REC1: &str = "{\"doc\":\"one\"}";
const REC2: &str = "{\"doc\":\"two\"}";
const REC3: &str = "{\"doc\":\"three\"}";
const REC4: &str = "{\"doc\":\"four\"}";

#[test]
fn enough_sources_means_two_or_one_with_a_destination() {
    assert!(!has_enough_sources(false, 0));
    assert!(!has_enough_sources(false, 1));
    assert!(has_enough_sources(false, 2));
    assert!(has_enough_sources(false, 3));
    assert!(!has_enough_sources(true, 0));
    assert!(has_enough_sources(true, 1));
    assert!(has_enough_sources(true, 2));
    assert!(has_enough_sources(true, 7));
}

#[test]
fn merge_indexes_needs_enough_sources() {
    assert!(merge_indexes(None, &vec![]).is_none());
    assert!(merge_indexes(None, &vec![index_of(&[("alpha", REC1)])]).is_none());
    assert!(merge_indexes(Some(index_of(&[("alpha", REC1)])), &vec![]).is_none());
    assert!(merge_indexes(Some(SearchIndex::new()), &vec![SearchIndex::new()]).is_some());
    assert!(merge_indexes(None, &vec![SearchIndex::new(), SearchIndex::new()]).is_some());
}

#[test]
fn merge_indexes_lets_the_later_source_win() {
    let first = index_of(&[("foo", REC1), ("bar", REC2)]);
    let second = index_of(&[("foo", REC3)]);
    let merged = merge_indexes(None, &vec![first, second]).unwrap();
    assert_eq!(pairs_of(&merged), [pair("bar", REC2), pair("foo", REC3)]);

    let first = index_of(&[("foo", REC3)]);
    let second = index_of(&[("foo", REC1), ("bar", REC2)]);
    let merged = merge_indexes(None, &vec![first, second]).unwrap();
    assert_eq!(pairs_of(&merged), [pair("bar", REC2), pair("foo", REC1)]);
}

#[test]
fn merge_indexes_lets_any_source_win_over_the_destination() {
    let destination = index_of(&[("foo", REC1), ("old", REC4)]);
    let source = index_of(&[("foo", REC2)]);
    let merged = merge_indexes(Some(destination), &vec![source]).unwrap();
    assert_eq!(pairs_of(&merged), [pair("foo", REC2), pair("old", REC4)]);
}

#[test]
fn merge_indexes_of_three_sources_keeps_the_last_record_of_each_name() {
    let a = index_of(&[("x", "a"), ("y", "a"), ("z", "a")]);
    let b = index_of(&[("y", "b"), ("z", "b")]);
    let c = index_of(&[("z", "c"), ("w", "c")]);
    let merged = merge_indexes(None, &vec![a, b, c]).unwrap();
    assert_eq!(pairs_of(&merged), [pair("w", "c"), pair("x", "a"), pair("y", "b"), pair("z", "c")]);
}

#[test]
fn two_sources_without_destination() {
    let a = file_of(&[("alpha", REC1)]);
    let b = file_of(&[("beta", REC2), ("alpha", REC3)]);
    let site = run(None, &[a, b], None).unwrap();
    assert_eq!(pairs_of(&site.index), [pair("alpha", REC3), pair("beta", REC2)]);
    assert_eq!(
        String::from_utf8(site.listing).unwrap(),
        "window.ALL_CRATES = [\"alpha\",\"beta\"];"
    );
    assert_eq!(site.search_index, file_of(&[("alpha", REC3), ("beta", REC2)]));
    assert_eq!(site.landing_page, None);
}

#[test]
fn an_unknown_entry_unit_fails_the_run() {
    let a = file_of(&[("beta", REC1)]);
    let b = file_of(&[("gamma", REC2)]);
    assert_eq!(run(None, &[a, b], Some("alpha")).unwrap_err(), MergeError::UnknownEntryUnit);
}

#[test]
fn an_entry_unit_that_is_no_unit_name_is_unknown() {
    let a = file_of(&[("beta", REC1)]);
    let b = file_of(&[("gamma", REC2)]);
    assert_eq!(run(None, &[a.clone(), b.clone()], Some("")).unwrap_err(), MergeError::UnknownEntryUnit);
    assert_eq!(run(None, &[a, b], Some("Beta")).unwrap_err(), MergeError::UnknownEntryUnit);
}

#[test]
fn a_known_entry_unit_gives_its_landing_page() {
    let a = file_of(&[("alpha", REC1)]);
    let b = file_of(&[("beta", REC2)]);
    let site = run(None, &[a.clone(), b.clone()], Some("beta")).unwrap();
    assert_eq!(site.landing_page, Some(b"beta/index.html".to_vec()));
    let site = run(None, &[a, b], Some("alpha")).unwrap();
    assert_eq!(site.landing_page, Some(b"alpha/index.html".to_vec()));
}

#[test]
fn the_entry_unit_may_come_from_the_destination() {
    let destination = file_of(&[("alpha", REC1)]);
    let b = file_of(&[("beta", REC2)]);
    let site = run(Some(&destination), &[b], Some("alpha")).unwrap();
    assert_eq!(site.landing_page, Some(b"alpha/index.html".to_vec()));
}

#[test]
fn a_further_source_is_added_to_the_merged_destination() {
    let a = file_of(&[("alpha", REC1)]);
    let b = file_of(&[("beta", REC2), ("alpha", REC3)]);
    let c = file_of(&[("gamma", REC4)]);
    let first = run(None, &[a.clone(), b.clone()], None).unwrap();
    let second = run(Some(&first.search_index), &[a, b, c], None).unwrap();
    assert_eq!(
        pairs_of(&second.index),
        [pair("alpha", REC3), pair("beta", REC2), pair("gamma", REC4)]
    );
    assert_eq!(second.index.get(b"alpha"), first.index.get(b"alpha"));
    assert_eq!(second.index.get(b"beta"), first.index.get(b"beta"));
    assert_eq!(
        String::from_utf8(second.listing).unwrap(),
        "window.ALL_CRATES = [\"alpha\",\"beta\",\"gamma\"];"
    );
}

#[test]
fn running_again_writes_the_same_files() {
    let a = file_of(&[("alpha", REC1), ("delta", "{\"doc\":\"it\\'s\"}")]);
    let b = file_of(&[("beta", REC2), ("alpha", REC3)]);
    let c = file_of(&[("gamma", REC4), ("beta", "{}")]);
    let sources = [a, b, c];
    let first = run(None, &sources, Some("gamma")).unwrap();
    let second = run(Some(&first.search_index), &sources, Some("gamma")).unwrap();
    assert_eq!(second.search_index, first.search_index);
    assert_eq!(second.listing, first.listing);
    assert_eq!(second.landing_page, first.landing_page);
    let third = run(Some(&second.search_index), &sources, Some("gamma")).unwrap();
    assert_eq!(third.search_index, first.search_index);
    assert_eq!(third.listing, first.listing);
}

#[test]
fn running_again_on_a_destination_that_had_an_index_writes_the_same_files() {
    let destination = file_of(&[("old", REC4), ("alpha", "{\"doc\":\"stale\"}")]);
    let sources = [file_of(&[("alpha", REC1)]), file_of(&[("beta", REC2)])];
    let first = run(Some(&destination), &sources, None).unwrap();
    assert_eq!(pairs_of(&first.index), [pair("alpha", REC1), pair("beta", REC2), pair("old", REC4)]);
    let second = run(Some(&first.search_index), &sources, None).unwrap();
    assert_eq!(second.search_index, first.search_index);
    assert_eq!(second.listing, first.listing);
}

#[test]
fn running_a_part_of_the_sources_again_writes_the_same_files() {
    let a = file_of(&[("alpha", REC1)]);
    let b = file_of(&[("beta", REC2)]);
    let first = run(None, &[a, b.clone()], None).unwrap();
    let second = run(Some(&first.search_index), &[b], None).unwrap();
    assert_eq!(second.search_index, first.search_index);
    assert_eq!(second.listing, first.listing);
}

#[test]
fn one_updated_source_replaces_its_record_at_the_destination() {
    let destination = file_of(&[("alpha", REC1), ("beta", REC2)]);
    let update = file_of(&[("alpha", REC3)]);
    let site = run(Some(&destination), &[update], None).unwrap();
    assert_eq!(site.search_index, file_of(&[("alpha", REC3), ("beta", REC2)]));
}

#[test]
fn the_order_of_the_sources_decides_collisions_only() {
    let a = file_of(&[("alpha", REC1), ("zeta", REC4)]);
    let b = file_of(&[("beta", REC2), ("alpha", REC3)]);
    let ab = run(None, &[a.clone(), b.clone()], None).unwrap();
    let ba = run(None, &[b, a], None).unwrap();
    assert_eq!(ab.listing, ba.listing);
    assert_eq!(ab.index.get(b"alpha").unwrap(), REC3.as_bytes());
    assert_eq!(ba.index.get(b"alpha").unwrap(), REC1.as_bytes());
    assert_eq!(ab.index.get(b"beta"), ba.index.get(b"beta"));
    assert_eq!(ab.index.get(b"zeta"), ba.index.get(b"zeta"));
}

#[test]
fn too_few_sources_fail_the_run() {
    let a = file_of(&[("alpha", REC1)]);
    assert_eq!(run(None, &[], None).unwrap_err(), MergeError::TooFewSources);
    assert_eq!(run(None, &[a.clone()], None).unwrap_err(), MergeError::TooFewSources);
    assert_eq!(run(Some(&a), &[], None).unwrap_err(), MergeError::TooFewSources);
}

#[test]
fn too_few_sources_are_reported_before_anything_is_read() {
    assert_eq!(run(None, &[b"not an index".to_vec()], Some("x")).unwrap_err(), MergeError::TooFewSources);
    assert_eq!(run(Some(b"not an index"), &[], None).unwrap_err(), MergeError::TooFewSources);
}

#[test]
fn a_malformed_destination_fails_the_run() {
    let a = file_of(&[("alpha", REC1)]);
    assert_eq!(
        run(Some(b"window.searchIndex = {};"), &[a.clone()], None).unwrap_err(),
        MergeError::MalformedDestination(FormatError::MissingOpening)
    );
    assert_eq!(
        run(Some(OPENING.as_bytes()), &[a.clone()], None).unwrap_err(),
        MergeError::MalformedDestination(FormatError::MissingClosing)
    );
    let bad = format!("{}\"alpha\"{}", OPENING, CLOSING);
    assert_eq!(
        run(Some(bad.as_bytes()), &[a, b"also bad".to_vec()], None).unwrap_err(),
        MergeError::MalformedDestination(FormatError::MalformedRecords)
    );
}

#[test]
fn the_first_malformed_source_fails_the_run() {
    let a = file_of(&[("alpha", REC1)]);
    let bad_records = format!("{}alpha{}", OPENING, CLOSING).into_bytes();
    let no_closing = format!("{}\"alpha\":{{}}", OPENING).into_bytes();
    assert_eq!(
        run(None, &[a.clone(), bad_records.clone()], None).unwrap_err(),
        MergeError::MalformedSource(1, FormatError::MalformedRecords)
    );
    assert_eq!(
        run(None, &[no_closing.clone(), a.clone(), bad_records.clone()], None).unwrap_err(),
        MergeError::MalformedSource(0, FormatError::MissingClosing)
    );
    assert_eq!(
        run(Some(&a), &[a.clone(), a.clone(), Vec::new(), no_closing], Some("nobody")).unwrap_err(),
        MergeError::MalformedSource(2, FormatError::MissingOpening)
    );
}

#[test]
fn sources_without_units_merge_to_an_empty_site() {
    let empty = file_of(&[]);
    let site = run(None, &[empty.clone(), empty.clone()], None).unwrap();
    assert!(site.index.is_empty());
    assert_eq!(site.search_index, empty);
    assert_eq!(site.listing, b"window.ALL_CRATES = [];".to_vec());
    assert_eq!(run(None, &[empty.clone(), empty], Some("alpha")).unwrap_err(), MergeError::UnknownEntryUnit);
}

#[test]
fn the_merged_file_reads_back_as_the_merged_index() {
    let a = file_of(&[("alpha", REC1), ("beta", "{\"doc\":\"\\\\\\'\"}")]);
    let b = file_of(&[("gamma", ",\\")]);
    let site = run(None, &[a, b], None).unwrap();
    let back = decode(&site.search_index).unwrap();
    assert_eq!(pairs_of(&back), pairs_of(&site.index));
    assert_eq!(encode(&back), site.search_index);
}

#[test]
fn the_well_known_file_names() {
    assert_eq!(SEARCH_INDEX_FILE, "search-index.js");
    assert_eq!(LISTING_FILE, "crates.js");
}
