//! What holds of every merge: the laws that the index, the two files and the merge
//! obey together.

use vstd::prelude::*;
use crate::entries::{
    collect, has_name, is_ascending, is_entry_list, lemma_ascending_distinct,
    lemma_ascending_unique, lemma_collect_at, lemma_collect_dom, lemma_collect_is, names_of,
};
use crate::format::{artifact_text, entries_of, is_artifact, lemma_entries_of_artifact};
use crate::index::SearchIndex;
use crate::listing::listing_text;
use crate::merge::merged;
use crate::order::precedes;
use crate::site::{decoded, merged_site};

verus! {

/// No unit name stands twice in an index, and so on no two lines of its
/// search-index file and at no two places of its listing.
pub proof fn lemma_names_are_unique(index: SearchIndex, i: int, j: int)
    requires
        index.wf(),
        0 <= i < index@.len(),
        0 <= j < index@.len(),
        i != j,
    ensures
        names_of(index@)[i] != names_of(index@)[j],
{
    lemma_ascending_distinct(index@, i, j);
}

/// Merging is decided name by name: where two bases agree on a name, the results of
/// laying the same sources over them agree on it too.
pub proof fn lemma_merged_pointwise(
    a: Map<Seq<u8>, Seq<u8>>,
    b: Map<Seq<u8>, Seq<u8>>,
    sources: Seq<Map<Seq<u8>, Seq<u8>>>,
    k: Seq<u8>,
)
    requires
        a.dom().contains(k) == b.dom().contains(k),
        a.dom().contains(k) ==> a[k] == b[k],
    ensures
        merged(a, sources).dom().contains(k) == merged(b, sources).dom().contains(k),
        merged(a, sources).dom().contains(k) ==> merged(a, sources)[k] == merged(b, sources)[k],
    decreases sources.len(),
{
    if sources.len() > 0 {
        lemma_merged_pointwise(a, b, sources.drop_last(), k);
    }
}

/// The last source wins: a name that the source at `j` holds, and no later source,
/// has in the merged index the record that this source gives it, whatever the
/// destination and the earlier sources hold for it.
pub proof fn lemma_last_source_wins(
    base: Map<Seq<u8>, Seq<u8>>,
    sources: Seq<Map<Seq<u8>, Seq<u8>>>,
    j: int,
    k: Seq<u8>,
)
    requires
        0 <= j < sources.len(),
        sources[j].dom().contains(k),
        forall|i: int| j < i < sources.len() ==> !(#[trigger] sources[i]).dom().contains(k),
    ensures
        merged(base, sources).dom().contains(k),
        merged(base, sources)[k] == sources[j][k],
    decreases sources.len(),
{
    if j < sources.len() - 1 {
        let front = sources.drop_last();
        assert forall|i: int| j < i < front.len() implies !(#[trigger] front[i]).dom().contains(
            k,
        ) by {}
        lemma_last_source_wins(base, front, j, k);
    }
}

/// A name that no source holds stays as the destination has it: with the same
/// record, or absent.
pub proof fn lemma_untouched_name_stays(
    base: Map<Seq<u8>, Seq<u8>>,
    sources: Seq<Map<Seq<u8>, Seq<u8>>>,
    k: Seq<u8>,
)
    requires
        forall|i: int| 0 <= i < sources.len() ==> !(#[trigger] sources[i]).dom().contains(k),
    ensures
        merged(base, sources).dom().contains(k) == base.dom().contains(k),
        base.dom().contains(k) ==> merged(base, sources)[k] == base[k],
    decreases sources.len(),
{
    if sources.len() > 0 {
        let front = sources.drop_last();
        assert forall|i: int| 0 <= i < front.len() implies !(#[trigger] front[i]).dom().contains(
            k,
        ) by {}
        lemma_untouched_name_stays(base, front, k);
    }
}

/// The merged index holds the names of the destination and of every source, and no
/// others.
pub proof fn lemma_merged_names(
    base: Map<Seq<u8>, Seq<u8>>,
    sources: Seq<Map<Seq<u8>, Seq<u8>>>,
    k: Seq<u8>,
)
    ensures
        merged(base, sources).dom().contains(k) <==> (base.dom().contains(k) || exists|i: int|
            0 <= i < sources.len() && (#[trigger] sources[i]).dom().contains(k)),
    decreases sources.len(),
{
    if sources.len() > 0 {
        let front = sources.drop_last();
        lemma_merged_names(base, front, k);
        if exists|i: int| 0 <= i < front.len() && (#[trigger] front[i]).dom().contains(k) {
            let i = choose|i: int| 0 <= i < front.len() && (#[trigger] front[i]).dom().contains(k);
            assert(sources[i].dom().contains(k));
        }
        if sources.last().dom().contains(k) {
            assert(sources[sources.len() - 1].dom().contains(k));
        }
        if exists|i: int| 0 <= i < sources.len() && (#[trigger] sources[i]).dom().contains(k) {
            let i = choose|i: int|
                0 <= i < sources.len() && (#[trigger] sources[i]).dom().contains(k);
            if i < sources.len() - 1 {
                assert(front[i].dom().contains(k));
            }
        }
    }
}

/// Laying the last sources of a merge once more over its result changes nothing:
/// what they hold is what the result already has from them.
pub proof fn lemma_remerge_last_sources(
    base: Map<Seq<u8>, Seq<u8>>,
    sources: Seq<Map<Seq<u8>, Seq<u8>>>,
    from: int,
)
    requires
        0 <= from <= sources.len(),
    ensures
        merged(merged(base, sources), sources.skip(from)) == merged(base, sources),
    decreases sources.len(),
{
    let once = merged(base, sources);
    let again = sources.skip(from);
    if from < sources.len() {
        let front = sources.drop_last();
        let inner = merged(base, front);
        let twice = merged(once, again);
        lemma_remerge_last_sources(base, front, from);
        assert(again.drop_last() =~= front.skip(from));
        assert forall|k: Seq<u8>| #[trigger] twice.dom().contains(k) == once.dom().contains(k) by {
            if !sources.last().dom().contains(k) {
                lemma_merged_pointwise(once, inner, front.skip(from), k);
            }
        }
        assert forall|k: Seq<u8>| #[trigger] twice.dom().contains(k) implies twice[k] == once[k] by {
            if !sources.last().dom().contains(k) {
                lemma_merged_pointwise(once, inner, front.skip(from), k);
            }
        }
    }
}

/// Merging is idempotent: laying the same sources once more over the result of a
/// merge changes nothing.
pub proof fn lemma_remerge_changes_nothing(
    base: Map<Seq<u8>, Seq<u8>>,
    sources: Seq<Map<Seq<u8>, Seq<u8>>>,
)
    ensures
        merged(merged(base, sources), sources) == merged(base, sources),
{
    lemma_remerge_last_sources(base, sources, 0);
    assert(sources.skip(0) =~= sources);
}

/// Merging an index with itself changes nothing.
pub proof fn lemma_merge_with_itself(m: Map<Seq<u8>, Seq<u8>>)
    ensures
        merged(m, seq![m]) == m,
{
    let none = Seq::<Map<Seq<u8>, Seq<u8>>>::empty();
    assert(seq![m].drop_last() =~= none);
    assert(merged(m, none) == m);
}

/// The names of an index stand in its listing in ascending order, so two indexes
/// with the same set of names have the same listing, whatever their records are and
/// in whatever order the units came in.
pub proof fn lemma_listing_depends_on_names(
    a: Seq<(Seq<u8>, Seq<u8>)>,
    b: Seq<(Seq<u8>, Seq<u8>)>,
)
    requires
        is_ascending(a),
        is_ascending(b),
        collect(a).dom() == collect(b).dom(),
    ensures
        forall|i: int, j: int|
            0 <= i < j < a.len() ==> precedes(#[trigger] names_of(a)[i], #[trigger] names_of(a)[j]),
        names_of(a) == names_of(b),
        listing_text(names_of(a)) == listing_text(names_of(b)),
{
    // `b` with the records that `a` has for its names denotes the mapping of `a`.
    let m = collect(a);
    let c = Seq::new(b.len(), |i: int| (b[i].0, m[b[i].0]));
    assert forall|i: int| 0 <= i < c.len() implies m.dom().contains((#[trigger] c[i]).0)
        && m[c[i].0] == c[i].1 by {
        lemma_collect_at(b, i);
    }
    assert forall|k: Seq<u8>| m.dom().contains(k) implies has_name(c, k) by {
        lemma_collect_dom(b, k);
        let i = choose|i: int| 0 <= i < b.len() && (#[trigger] b[i]).0 == k;
        assert(c[i].0 == k);
    }
    assert(is_ascending(c)) by {
        assert forall|i: int, j: int| 0 <= i < j < c.len() implies precedes(
            (#[trigger] c[i]).0,
            (#[trigger] c[j]).0,
        ) by {}
    }
    lemma_collect_is(c, m);
    lemma_ascending_unique(a, c);
    assert forall|i: int, j: int| 0 <= i < j < a.len() implies precedes(
        #[trigger] names_of(a)[i],
        #[trigger] names_of(a)[j],
    ) by {}
}

/// Reading the search-index file of an index gives back its records, and writing
/// what was read gives back the file, byte for byte.
pub proof fn lemma_round_trip(es: Seq<(Seq<u8>, Seq<u8>)>, back: Seq<(Seq<u8>, Seq<u8>)>)
    requires
        is_entry_list(es),
        is_ascending(es),
        is_ascending(back),
        collect(back) == decoded(artifact_text(es)),
    ensures
        is_artifact(artifact_text(es)),
        entries_of(artifact_text(es)) == es,
        back == es,
        artifact_text(back) == artifact_text(es),
{
    lemma_entries_of_artifact(es);
    lemma_ascending_unique(back, es);
}

/// A run is idempotent: when the sources of a run are merged once more into the
/// destination that the run left, the second run starts from the index that the
/// first one wrote, arrives at the same index, and so writes the same search-index
/// file and the same listing, byte for byte.
pub proof fn lemma_rerun_reproduces_files(
    existing: Option<Seq<u8>>,
    texts: Seq<Seq<u8>>,
    first: Seq<(Seq<u8>, Seq<u8>)>,
    second: Seq<(Seq<u8>, Seq<u8>)>,
)
    requires
        is_entry_list(first),
        is_ascending(first),
        collect(first) == merged_site(existing, texts),
        is_ascending(second),
        collect(second) == merged_site(Some(artifact_text(first)), texts),
    ensures
        is_artifact(artifact_text(first)),
        decoded(artifact_text(first)) == collect(first),
        merged_site(Some(artifact_text(first)), texts) == merged_site(existing, texts),
        second == first,
        artifact_text(second) == artifact_text(first),
        listing_text(names_of(second)) == listing_text(names_of(first)),
{
    lemma_entries_of_artifact(first);
    lemma_remerge_changes_nothing(
        crate::site::decoded_base(existing),
        crate::site::decoded_all(texts),
    );
    lemma_ascending_unique(second, first);
}

} // verus!
