//! Unit names and index records as byte strings.

use vstd::prelude::*;
use crate::bytes::LINE_FEED;

verus! {

/// Whether `b` may occur in a unit name: a lower-case letter, a digit or an underscore.
pub open spec fn is_name_byte(b: u8) -> bool {
    (0x61 <= b <= 0x7a) || (0x30 <= b <= 0x39) || b == 0x5f
}

/// Whether `s` is a unit name: one or more name bytes.
pub open spec fn is_unit_name(s: Seq<u8>) -> bool {
    s.len() > 0 && forall|i: int| 0 <= i < s.len() ==> is_name_byte(#[trigger] s[i])
}

/// Whether `s` can be stored as a record: any bytes that stay on one line.
pub open spec fn is_record(s: Seq<u8>) -> bool {
    forall|i: int| 0 <= i < s.len() ==> #[trigger] s[i] != LINE_FEED
}

/// Tells whether `b` may occur in a unit name.
pub fn name_byte(b: u8) -> (r: bool)
    ensures
        r == is_name_byte(b),
{
    (0x61 <= b && b <= 0x7a) || (0x30 <= b && b <= 0x39) || b == 0x5f
}

/// Tells whether `s` is a unit name.
pub fn valid_name(s: &[u8]) -> (r: bool)
    ensures
        r == is_unit_name(s@),
{
    if s.len() == 0 {
        return false;
    }
    let mut i: usize = 0;
    while i < s.len()
        invariant
            i <= s.len(),
            forall|j: int| 0 <= j < i ==> is_name_byte(#[trigger] s@[j]),
        decreases s.len() - i,
    {
        if !name_byte(s[i]) {
            return false;
        }
        i += 1;
    }
    true
}

/// Tells whether `s` can be stored as a record.
pub fn valid_record(s: &[u8]) -> (r: bool)
    ensures
        r == is_record(s@),
{
    let mut i: usize = 0;
    while i < s.len()
        invariant
            i <= s.len(),
            forall|j: int| 0 <= j < i ==> #[trigger] s@[j] != LINE_FEED,
        decreases s.len() - i,
    {
        if s[i] == LINE_FEED {
            return false;
        }
        i += 1;
    }
    true
}

} // verus!
