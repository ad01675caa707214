//! The search-index file: the text that encloses the records of an index, and the way
//! from such a text to its records and back.
//!
//! The file is one call of the search loader on a quoted mapping. Each record stands
//! on a line of its own, behind its quoted name and a colon; a comma and a backslash
//! end every such line but the last:
//!
//! ```text
//! var searchIndex = JSON.parse('{\
//! "alpha":{...},\
//! "beta":{...}\
//! }');
//! ```
//!
//! followed by the two lines that hand the index to the page or to the module system.

use vstd::prelude::*;
use vstd::string::StringSliceAdditionalSpecFns;
use crate::bytes::{
    copy_bytes, ends_with, has_prefix, matches_at, starts_with, BACKSLASH, COLON, COMMA,
    LINE_FEED, QUOTE,
};
use crate::entries::{collect, is_entry, is_entry_list};
use crate::index::{Entry, SearchIndex};
use crate::name::{is_name_byte, is_record, is_unit_name, name_byte};

verus! {

/// The text before the first record.
pub const OPENING: &'static str = "var searchIndex = JSON.parse('{\\\n";

/// The text behind the last record.
pub const CLOSING: &'static str =
    "\\\n}');\nif (typeof window !== 'undefined' && window.initSearch) {window.initSearch(searchIndex)};\nif (typeof exports !== 'undefined') {exports.searchIndex = searchIndex};\n";

/// The bytes of [`OPENING`].
pub open spec fn opening() -> Seq<u8> {
    OPENING.spec_bytes()
}

/// The bytes of [`CLOSING`].
pub open spec fn closing() -> Seq<u8> {
    CLOSING.spec_bytes()
}

/// What stands between two records: a comma, a backslash and a line feed.
pub open spec fn separator() -> Seq<u8> {
    seq![COMMA, BACKSLASH, LINE_FEED]
}

/// The line of one record: the quoted name, a colon and the record as it is.
pub open spec fn record_line(e: (Seq<u8>, Seq<u8>)) -> Seq<u8> {
    seq![QUOTE] + e.0 + seq![QUOTE, COLON] + e.1
}

/// The lines of `es`, in order, with a separator between each two.
pub open spec fn joined_lines(es: Seq<(Seq<u8>, Seq<u8>)>) -> Seq<u8>
    decreases es.len(),
{
    if es.len() == 0 {
        Seq::empty()
    } else if es.len() == 1 {
        record_line(es[0])
    } else {
        joined_lines(es.drop_last()) + separator() + record_line(es.last())
    }
}

/// The search-index file that holds the records `es`, in that order.
pub open spec fn artifact_text(es: Seq<(Seq<u8>, Seq<u8>)>) -> Seq<u8> {
    opening() + joined_lines(es) + closing()
}

/// Whether `text` is the search-index file of the records `es`.
pub open spec fn is_artifact_of(text: Seq<u8>, es: Seq<(Seq<u8>, Seq<u8>)>) -> bool {
    is_entry_list(es) && artifact_text(es) == text
}

/// Whether `text` is a search-index file.
pub open spec fn is_artifact(text: Seq<u8>) -> bool {
    exists|es: Seq<(Seq<u8>, Seq<u8>)>| is_artifact_of(text, es)
}

/// The records of the search-index file `text`, in the order in which it holds them.
/// A search-index file has one list of records only, see [`lemma_artifact_unique`].
pub open spec fn entries_of(text: Seq<u8>) -> Seq<(Seq<u8>, Seq<u8>)> {
    choose|es: Seq<(Seq<u8>, Seq<u8>)>| is_artifact_of(text, es)
}

/// Whether `text` has the opening and, behind it, ends with the closing.
pub open spec fn is_framed(text: Seq<u8>) -> bool {
    starts_with(text, opening()) && ends_with(text.skip(opening().len() as int), closing())
}

/// What a framed `text` holds between the opening and the closing.
pub open spec fn body_of(text: Seq<u8>) -> Seq<u8> {
    text.subrange(opening().len() as int, text.len() - closing().len())
}

// ---------------------------------------------------------------------------------
// Reading, as a function of the text
// ---------------------------------------------------------------------------------

spec fn name_bytes() -> spec_fn(u8) -> bool {
    |b: u8| is_name_byte(b)
}

spec fn line_bytes() -> spec_fn(u8) -> bool {
    |b: u8| b != LINE_FEED
}

/// The first place at or behind `from` whose byte `keep` refuses, or the end of `s`.
spec fn run_end(s: Seq<u8>, from: int, keep: spec_fn(u8) -> bool) -> int
    decreases s.len() - from,
{
    if 0 <= from < s.len() && keep(s[from]) {
        run_end(s, from + 1, keep)
    } else {
        from
    }
}

proof fn lemma_run_end(s: Seq<u8>, from: int, keep: spec_fn(u8) -> bool)
    requires
        0 <= from <= s.len(),
    ensures
        from <= run_end(s, from, keep) <= s.len(),
        forall|j: int| from <= j < run_end(s, from, keep) ==> keep(#[trigger] s[j]),
        run_end(s, from, keep) < s.len() ==> !keep(s[run_end(s, from, keep)]),
    decreases s.len() - from,
{
    if from < s.len() && keep(s[from]) {
        lemma_run_end(s, from + 1, keep);
    }
}

proof fn lemma_run_end_is(s: Seq<u8>, from: int, to: int, keep: spec_fn(u8) -> bool)
    requires
        0 <= from <= to <= s.len(),
        forall|j: int| from <= j < to ==> keep(#[trigger] s[j]),
        to < s.len() ==> !keep(s[to]),
    ensures
        run_end(s, from, keep) == to,
    decreases to - from,
{
    if from < to {
        lemma_run_end_is(s, from + 1, to, keep);
    }
}

/// The pair that the line `line` holds, if it is the line of a record.
spec fn parse_record(line: Seq<u8>) -> Option<(Seq<u8>, Seq<u8>)> {
    let n = run_end(line, 1, name_bytes());
    if line.len() >= 1 && line[0] == QUOTE && 1 < n && n + 1 < line.len() && line[n] == QUOTE
        && line[n + 1] == COLON {
        Some((line.subrange(1, n), line.subrange(n + 2, line.len() as int)))
    } else {
        None
    }
}

proof fn lemma_parse_record_sound(line: Seq<u8>)
    requires
        parse_record(line) is Some,
    ensures
        is_unit_name(parse_record(line).unwrap().0),
        record_line(parse_record(line).unwrap()) == line,
        is_record(line) ==> is_record(parse_record(line).unwrap().1),
{
    let e = parse_record(line).unwrap();
    lemma_run_end(line, 1, name_bytes());
    assert forall|i: int| 0 <= i < e.0.len() implies is_name_byte(#[trigger] e.0[i]) by {}
    if is_record(line) {
        assert forall|i: int| 0 <= i < e.1.len() implies #[trigger] e.1[i] != LINE_FEED by {}
    }
}

proof fn lemma_parse_record_complete(e: (Seq<u8>, Seq<u8>))
    requires
        is_unit_name(e.0),
    ensures
        parse_record(record_line(e)) == Some(e),
{
    let line = record_line(e);
    let n: int = e.0.len() as int + 1;
    assert forall|j: int| 1 <= j < n implies name_bytes()(#[trigger] line[j]) by {}
    lemma_run_end_is(line, 1, n, name_bytes());
}

/// The pairs that the lines of `body` hold, if each is the line of a record and a
/// separator stands between each two.
spec fn parse_lines(body: Seq<u8>) -> Option<Seq<(Seq<u8>, Seq<u8>)>>
    decreases body.len(),
{
    let q = run_end(body, 0, line_bytes());
    if q < 0 || q >= body.len() {
        match parse_record(body) {
            Some(e) => Some(seq![e]),
            None => None,
        }
    } else if q >= 2 && body[q - 2] == COMMA && body[q - 1] == BACKSLASH {
        match parse_record(body.subrange(0, q - 2)) {
            Some(e) => match parse_lines(body.skip(q + 1)) {
                Some(rest) => Some(seq![e] + rest),
                None => None,
            },
            None => None,
        }
    } else {
        None
    }
}

/// The pairs that `body` holds: none where it is empty.
spec fn parse_body(body: Seq<u8>) -> Option<Seq<(Seq<u8>, Seq<u8>)>> {
    if body.len() == 0 {
        Some(Seq::empty())
    } else {
        parse_lines(body)
    }
}

/// The lines of a list that begins with `e` are the line of `e`, a separator and the
/// lines of the rest.
proof fn lemma_joined_lines_front(e: (Seq<u8>, Seq<u8>), rest: Seq<(Seq<u8>, Seq<u8>)>)
    requires
        rest.len() > 0,
    ensures
        joined_lines(seq![e] + rest) == record_line(e) + separator() + joined_lines(rest),
    decreases rest.len(),
{
    let es = seq![e] + rest;
    assert(es.drop_last() =~= seq![e] + rest.drop_last());
    if rest.len() == 1 {
        assert(joined_lines(es.drop_last()) == record_line(e));
    } else {
        lemma_joined_lines_front(e, rest.drop_last());
    }
}

proof fn lemma_parse_lines_sound(body: Seq<u8>)
    requires
        parse_lines(body) is Some,
    ensures
        parse_lines(body).unwrap().len() > 0,
        is_entry_list(parse_lines(body).unwrap()),
        joined_lines(parse_lines(body).unwrap()) == body,
    decreases body.len(),
{
    let es = parse_lines(body).unwrap();
    let q = run_end(body, 0, line_bytes());
    lemma_run_end(body, 0, line_bytes());
    assert forall|j: int| 0 <= j < q implies #[trigger] body[j] != LINE_FEED by {}
    if q >= body.len() {
        lemma_parse_record_sound(body);
    } else {
        let piece = body.subrange(0, q - 2);
        let tail = body.skip(q + 1);
        let e = parse_record(piece).unwrap();
        let rest = parse_lines(tail).unwrap();
        assert(is_record(piece)) by {
            assert forall|j: int| 0 <= j < piece.len() implies #[trigger] piece[j]
                != LINE_FEED by {}
        }
        lemma_parse_record_sound(piece);
        lemma_parse_lines_sound(tail);
        lemma_joined_lines_front(e, rest);
        assert forall|i: int| 0 <= i < es.len() implies is_entry(#[trigger] es[i]) by {}
    }
}

proof fn lemma_parse_lines_complete(es: Seq<(Seq<u8>, Seq<u8>)>)
    requires
        es.len() > 0,
        is_entry_list(es),
    ensures
        parse_lines(joined_lines(es)) == Some(es),
    decreases es.len(),
{
    let e = es[0];
    let body = joined_lines(es);
    let line = record_line(e);
    lemma_parse_record_complete(e);
    if es.len() == 1 {
        assert forall|j: int| 0 <= j < body.len() implies line_bytes()(#[trigger] body[j]) by {}
        lemma_run_end_is(body, 0, body.len() as int, line_bytes());
    } else {
        let rest = es.drop_first();
        assert(es =~= seq![e] + rest);
        lemma_joined_lines_front(e, rest);
        let q: int = line.len() as int + 2;
        assert forall|j: int| 0 <= j < q implies line_bytes()(#[trigger] body[j]) by {}
        lemma_run_end_is(body, 0, q, line_bytes());
        assert(body.subrange(0, q - 2) =~= line);
        assert(body.skip(q + 1) =~= joined_lines(rest));
        assert forall|i: int| 0 <= i < rest.len() implies is_entry(#[trigger] rest[i]) by {}
        lemma_parse_lines_complete(rest);
    }
}

/// The pairs that the search-index file `text` holds, if it is one.
spec fn parse_artifact(text: Seq<u8>) -> Option<Seq<(Seq<u8>, Seq<u8>)>> {
    if is_framed(text) {
        parse_body(body_of(text))
    } else {
        None
    }
}

proof fn lemma_parse_artifact_sound(text: Seq<u8>)
    requires
        parse_artifact(text) is Some,
    ensures
        is_artifact_of(text, parse_artifact(text).unwrap()),
{
    let body = body_of(text);
    if body.len() > 0 {
        lemma_parse_lines_sound(body);
    }
    assert(opening() + body + closing() =~= text);
}

proof fn lemma_parse_artifact_complete(es: Seq<(Seq<u8>, Seq<u8>)>)
    requires
        is_entry_list(es),
    ensures
        is_framed(artifact_text(es)),
        body_of(artifact_text(es)) == joined_lines(es),
        parse_artifact(artifact_text(es)) == Some(es),
{
    let text = artifact_text(es);
    let body = joined_lines(es);
    assert(text.subrange(0, opening().len() as int) =~= opening());
    assert(text.skip(opening().len() as int) =~= body + closing());
    assert((body + closing()).subrange(body.len() as int, (body + closing()).len() as int)
        =~= closing());
    if es.len() > 0 {
        lemma_parse_lines_complete(es);
        lemma_parse_lines_sound(body);
    }
}

/// A search-index file holds one list of records only.
pub proof fn lemma_artifact_unique(
    text: Seq<u8>,
    a: Seq<(Seq<u8>, Seq<u8>)>,
    b: Seq<(Seq<u8>, Seq<u8>)>,
)
    requires
        is_artifact_of(text, a),
        is_artifact_of(text, b),
    ensures
        a == b,
{
    lemma_parse_artifact_complete(a);
    lemma_parse_artifact_complete(b);
}

/// Reading the search-index file of a list of records gives that list back.
pub proof fn lemma_entries_of_artifact(es: Seq<(Seq<u8>, Seq<u8>)>)
    requires
        is_entry_list(es),
    ensures
        is_artifact(artifact_text(es)),
        entries_of(artifact_text(es)) == es,
{
    let text = artifact_text(es);
    assert(is_artifact_of(text, es));
    lemma_artifact_unique(text, es, entries_of(text));
}

// ---------------------------------------------------------------------------------
// Writing and reading
// ---------------------------------------------------------------------------------

/// Why a text was not read as a search-index file.
#[derive(Clone, Copy, Debug, PartialEq, Eq, Structural)]
pub enum FormatError {
    /// The text does not begin with the opening.
    MissingOpening,
    /// The text has the opening, and what follows it does not end with the closing.
    MissingClosing,
    /// Between the opening and the closing stands something else than the lines of
    /// records with a separator between each two.
    MalformedRecords,
}

/// Writes the search-index file of `index`: its records in ascending order of name,
/// each byte for byte as it was stored.
pub fn encode(index: &SearchIndex) -> (text: Vec<u8>)
    ensures
        text@ == artifact_text(index@),
{
    let entries = index.entries();
    let mut text: Vec<u8> = Vec::new();
    text.extend_from_slice(OPENING.as_bytes());
    let mut i: usize = 0;
    while i < entries.len()
        invariant
            i <= entries.len(),
            entries@.len() == index@.len(),
            forall|j: int| 0 <= j < entries@.len() ==> (#[trigger] entries@[j])@ == index@[j],
            text@ == opening() + joined_lines(index@.take(i as int)),
        decreases entries.len() - i,
    {
        if i > 0 {
            text.push(COMMA);
            text.push(BACKSLASH);
            text.push(LINE_FEED);
        }
        text.push(QUOTE);
        text.extend_from_slice(entries[i].name.as_slice());
        text.push(QUOTE);
        text.push(COLON);
        text.extend_from_slice(entries[i].record.as_slice());
        proof {
            assert(index@.take(i + 1).drop_last() =~= index@.take(i as int));
        }
        i += 1;
    }
    assert(index@.take(i as int) =~= index@);
    text.extend_from_slice(CLOSING.as_bytes());
    text
}

/// Reads the pair that the bytes of `text` from `from` up to `to` hold, if they are
/// the line of a record.
fn read_record(text: &[u8], from: usize, to: usize) -> (r: Option<Entry>)
    requires
        from <= to <= text.len(),
        is_record(text@.subrange(from as int, to as int)),
    ensures
        match r {
            Some(e) => parse_record(text@.subrange(from as int, to as int)) == Some(e@)
                && is_entry(e@),
            None => parse_record(text@.subrange(from as int, to as int)) is None,
        },
{
    let ghost line = text@.subrange(from as int, to as int);
    if to - from < 1 || text[from] != QUOTE {
        return None;
    }
    let mut n: usize = from + 1;
    while n < to && name_byte(text[n])
        invariant
            from < n <= to <= text.len(),
            line == text@.subrange(from as int, to as int),
            forall|j: int| 1 <= j < n - from ==> name_bytes()(#[trigger] line[j]),
        decreases to - n,
    {
        n += 1;
    }
    proof {
        lemma_run_end_is(line, 1, n - from, name_bytes());
    }
    if n == from + 1 || to - n < 2 {
        return None;
    }
    if text[n] != QUOTE || text[n + 1] != COLON {
        return None;
    }
    let name = copy_bytes(vstd::slice::slice_subrange(text, from + 1, n));
    let record = copy_bytes(vstd::slice::slice_subrange(text, n + 2, to));
    let e = Entry { name, record };
    proof {
        lemma_parse_record_sound(line);
    }
    Some(e)
}

/// Reads the records that stand in `text` from `start` up to `end`.
fn read_body(text: &[u8], start: usize, end: usize) -> (r: Option<SearchIndex>)
    requires
        start <= end <= text.len(),
    ensures
        match r {
            Some(index) => {
                &&& index.wf()
                &&& parse_body(text@.subrange(start as int, end as int)) is Some
                &&& index.as_map() == collect(
                    parse_body(text@.subrange(start as int, end as int)).unwrap(),
                )
            },
            None => parse_body(text@.subrange(start as int, end as int)) is None,
        },
{
    let ghost body = text@.subrange(start as int, end as int);
    let mut index = SearchIndex::new();
    if start == end {
        return Some(index);
    }
    let ghost mut done: Seq<(Seq<u8>, Seq<u8>)> = Seq::empty();
    let mut p: usize = start;
    assert(body.skip(0) =~= body);
    assert forall|rest: Seq<(Seq<u8>, Seq<u8>)>| done + rest == rest by {}
    loop
        invariant
            start <= p <= end <= text.len(),
            start < end,
            body == text@.subrange(start as int, end as int),
            index.wf(),
            index.as_map() == collect(done),
            parse_lines(body) == (match parse_lines(body.skip(p - start)) {
                Some(rest) => Some(done + rest),
                None => None,
            }),
        decreases end - p,
    {
        let ghost tail = body.skip(p - start);
        let mut q: usize = p;
        while q < end && text[q] != LINE_FEED
            invariant
                p <= q <= end <= text.len(),
                start <= p,
                body == text@.subrange(start as int, end as int),
                tail == body.skip(p - start),
                forall|j: int| 0 <= j < q - p ==> line_bytes()(#[trigger] tail[j]),
            decreases end - q,
        {
            q += 1;
        }
        proof {
            lemma_run_end_is(tail, 0, q - p, line_bytes());
        }
        if q == end {
            assert(text@.subrange(p as int, end as int) =~= tail);
            assert(is_record(tail)) by {
                assert forall|j: int| 0 <= j < tail.len() implies #[trigger] tail[j]
                    != LINE_FEED by {}
            }
            match read_record(text, p, end) {
                Some(e) => {
                    proof {
                        assert(done + seq![e@] =~= done.push(e@));
                        assert(done.push(e@).drop_last() =~= done);
                    }
                    index.put(e.name, e.record);
                    return Some(index);
                },
                None => {
                    return None;
                },
            }
        }
        if q - p < 2 || text[q - 2] != COMMA || text[q - 1] != BACKSLASH {
            return None;
        }
        let ghost piece = tail.subrange(0, q - p - 2);
        proof {
            assert(text@.subrange(p as int, q - 2) =~= piece);
            assert(is_record(piece)) by {
                assert forall|j: int| 0 <= j < piece.len() implies #[trigger] piece[j]
                    != LINE_FEED by {}
            }
            assert(tail.skip(q - p + 1) =~= body.skip(q + 1 - start));
        }
        match read_record(text, p, q - 2) {
            Some(e) => {
                proof {
                    let pair = e@;
                    assert(done.push(pair).drop_last() =~= done);
                    assert forall|rest: Seq<(Seq<u8>, Seq<u8>)>| done + (seq![pair] + rest)
                        == #[trigger] (done.push(pair) + rest) by {}
                    done = done.push(pair);
                }
                index.put(e.name, e.record);
                p = q + 1;
            },
            None => {
                return None;
            },
        }
    }
}

/// Why `text` is no search-index file, if it is none: the first of the three faults
/// that it shows.
pub open spec fn format_fault(text: Seq<u8>) -> Option<FormatError> {
    if !starts_with(text, opening()) {
        Some(FormatError::MissingOpening)
    } else if !is_framed(text) {
        Some(FormatError::MissingClosing)
    } else if !is_artifact(text) {
        Some(FormatError::MalformedRecords)
    } else {
        None
    }
}

/// Reads a search-index file into an index. The records may stand in any order; where
/// a name occurs more than once, its last record stays. A text that is no
/// search-index file is refused with its fault.
pub fn decode(text: &[u8]) -> (r: Result<SearchIndex, FormatError>)
    ensures
        r is Ok <==> is_artifact(text@),
        match r {
            Ok(index) => index.wf() && index.as_map() == collect(entries_of(text@)),
            Err(fault) => format_fault(text@) == Some(fault),
        },
{
    let open = OPENING.as_bytes();
    let close = CLOSING.as_bytes();
    proof {
        if is_artifact(text@) {
            lemma_parse_artifact_complete(entries_of(text@));
        }
    }
    if !has_prefix(text, open) {
        return Err(FormatError::MissingOpening);
    }
    let start: usize = open.len();
    if text.len() - start < close.len() {
        return Err(FormatError::MissingClosing);
    }
    let end: usize = text.len() - close.len();
    proof {
        let rest = text@.skip(start as int);
        assert(rest.subrange(rest.len() - close@.len(), rest.len() as int) =~= text@.skip(
            end as int,
        ).subrange(0, close@.len() as int));
    }
    if !matches_at(text, end, close) {
        return Err(FormatError::MissingClosing);
    }
    match read_body(text, start, end) {
        Some(index) => {
            proof {
                lemma_parse_artifact_sound(text@);
            }
            Ok(index)
        },
        None => Err(FormatError::MalformedRecords),
    }
}

} // verus!
