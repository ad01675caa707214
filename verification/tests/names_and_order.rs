use doc_merge::bytes::{copy_bytes, has_prefix, has_suffix, matches_at};
use doc_merge::name::{name_byte, valid_name, valid_record};
use doc_merge::order::{rank, Rank};

#[test]
fn name_bytes_are_lower_case_letters_digits_and_underscore() {
    for b in 0u8..=255 {
        let expected = b.is_ascii_lowercase() || b.is_ascii_digit() || b == b'_';
        assert_eq!(name_byte(b), expected, "byte {}", b);
    }
}

#[test]
fn unit_names_are_accepted() {
    assert!(valid_name(b"alpha"));
    assert!(valid_name(b"a"));
    assert!(valid_name(b"serde_json"));
    assert!(valid_name(b"base64"));
    assert!(valid_name(b"_"));
    assert!(valid_name(b"0"));
}

#[test]
fn other_names_are_refused() {
    assert!(!valid_name(b""));
    assert!(!valid_name(b"Alpha"));
    assert!(!valid_name(b"doc-merge"));
    assert!(!valid_name(b"a b"));
    assert!(!valid_name(b"a\""));
    assert!(!valid_name(b"alpha\n"));
    assert!(!valid_name("caf\u{e9}".as_bytes()));
}

#[test]
fn a_record_is_any_text_on_one_line() {
    assert!(valid_record(b""));
    assert!(valid_record(b"{\"doc\":\"it\\'s\",\"t\":[1,2]}"));
    assert!(valid_record(b"\\\\n,\\"));
    assert!(valid_record(b"\r"));
    assert!(!valid_record(b"\n"));
    assert!(!valid_record(b"{\"doc\":\n\"\"}"));
}

#[test]
fn rank_orders_names_as_byte_strings() {
    assert_eq!(rank(b"alpha", b"beta"), Rank::Before);
    assert_eq!(rank(b"beta", b"alpha"), Rank::After);
    assert_eq!(rank(b"alpha", b"alpha"), Rank::Same);
    assert_eq!(rank(b"", b""), Rank::Same);
    assert_eq!(rank(b"", b"a"), Rank::Before);
    assert_eq!(rank(b"a", b""), Rank::After);
    assert_eq!(rank(b"a", b"a_b"), Rank::Before);
    assert_eq!(rank(b"a_b", b"a"), Rank::After);
    assert_eq!(rank(b"a1", b"a_"), Rank::Before);
    assert_eq!(rank(b"a_", b"aa"), Rank::Before);
    assert_eq!(rank(b"z", b"aa"), Rank::After);
}

#[test]
fn rank_agrees_with_the_order_of_byte_slices() {
    let names: [&[u8]; 8] = [b"", b"a", b"a_", b"a_b", b"ab", b"b", b"b0", b"zz9"];
    for x in names {
        for y in names {
            let expected = if x < y {
                Rank::Before
            } else if x == y {
                Rank::Same
            } else {
                Rank::After
            };
            assert_eq!(rank(x, y), expected);
        }
    }
}

#[test]
fn prefixes_and_suffixes() {
    assert!(has_prefix(b"index.html", b"index"));
    assert!(has_prefix(b"index.html", b""));
    assert!(has_prefix(b"index.html", b"index.html"));
    assert!(!has_prefix(b"index.html", b"index.html5"));
    assert!(!has_prefix(b"index.html", b"ndex"));
    assert!(has_suffix(b"index.html", b".html"));
    assert!(has_suffix(b"index.html", b""));
    assert!(has_suffix(b".html", b".html"));
    assert!(!has_suffix(b"html", b".html"));
    assert!(!has_suffix(b"index.htm", b".html"));
    assert!(!has_suffix(b"index.html.js", b".html"));
}

#[test]
fn matches_at_looks_at_the_given_place() {
    assert!(matches_at(b"abcdef", 2, b"cd"));
    assert!(matches_at(b"abcdef", 6, b""));
    assert!(matches_at(b"abcdef", 0, b"abcdef"));
    assert!(!matches_at(b"abcdef", 2, b"ce"));
    assert!(!matches_at(b"abcdef", 4, b"efg"));
    assert!(!matches_at(b"abcdef", 6, b"f"));
}

#[test]
fn copy_bytes_copies() {
    assert_eq!(copy_bytes(b"search"), b"search".to_vec());
    assert_eq!(copy_bytes(b""), Vec::<u8>::new());
}
