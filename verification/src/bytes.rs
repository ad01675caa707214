//! Byte strings: the bytes that the file formats are built from, and tests on how a
//! byte string begins and ends.

use vstd::prelude::*;

verus! {

/// The line feed, which ends a line.
pub const LINE_FEED: u8 = 0x0a;

/// The double quote, which encloses a unit name.
pub const QUOTE: u8 = 0x22;

/// The comma, which stands between two items.
pub const COMMA: u8 = 0x2c;

/// The colon, which stands between a unit name and its record.
pub const COLON: u8 = 0x3a;

/// The backslash, which continues a line of the search-index file on the next.
pub const BACKSLASH: u8 = 0x5c;

/// Whether `text` begins with `prefix`.
pub open spec fn starts_with(text: Seq<u8>, prefix: Seq<u8>) -> bool {
    prefix.len() <= text.len() && text.subrange(0, prefix.len() as int) == prefix
}

/// Whether `text` ends with `suffix`.
pub open spec fn ends_with(text: Seq<u8>, suffix: Seq<u8>) -> bool {
    suffix.len() <= text.len() && text.subrange(text.len() - suffix.len(), text.len() as int)
        == suffix
}

/// A copy of `s`.
pub fn copy_bytes(s: &[u8]) -> (r: Vec<u8>)
    ensures
        r@ == s@,
{
    let mut r: Vec<u8> = Vec::new();
    r.extend_from_slice(s);
    r
}

/// Tells whether the bytes of `text` from `at` on begin with `part`.
pub fn matches_at(text: &[u8], at: usize, part: &[u8]) -> (r: bool)
    requires
        at <= text.len(),
    ensures
        r == starts_with(text@.skip(at as int), part@),
{
    if text.len() - at < part.len() {
        return false;
    }
    let ghost rest = text@.skip(at as int);
    let mut i: usize = 0;
    while i < part.len()
        invariant
            i <= part.len(),
            at + part.len() <= text.len(),
            rest == text@.skip(at as int),
            forall|j: int| 0 <= j < i ==> text@[at + j] == part@[j],
        decreases part.len() - i,
    {
        if text[at + i] != part[i] {
            return false;
        }
        i += 1;
    }
    assert(rest.subrange(0, part@.len() as int) =~= part@);
    true
}

/// Tells whether `text` begins with `prefix`.
pub fn has_prefix(text: &[u8], prefix: &[u8]) -> (r: bool)
    ensures
        r == starts_with(text@, prefix@),
{
    assert(text@.skip(0) =~= text@);
    matches_at(text, 0, prefix)
}

/// Tells whether `text` ends with `suffix`.
pub fn has_suffix(text: &[u8], suffix: &[u8]) -> (r: bool)
    ensures
        r == ends_with(text@, suffix@),
{
    if text.len() < suffix.len() {
        return false;
    }
    let at: usize = text.len() - suffix.len();
    assert(text@.skip(at as int).subrange(0, suffix@.len() as int) =~= text@.subrange(
        text@.len() - suffix@.len(),
        text@.len() as int,
    ));
    matches_at(text, at, suffix)
}

} // verus!
