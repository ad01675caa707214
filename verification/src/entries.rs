//! The mathematical model of an index: lists of `(name, record)` pairs and the mapping
//! that such a list denotes.

use vstd::prelude::*;
use crate::name::{is_record, is_unit_name};
use crate::order::{lemma_precedes_asymmetric, precedes};

verus! {

/// Whether `e` can stand in an index: a unit name with a record that stays on one line.
pub open spec fn is_entry(e: (Seq<u8>, Seq<u8>)) -> bool {
    is_unit_name(e.0) && is_record(e.1)
}

/// Whether every pair of `es` can stand in an index.
pub open spec fn is_entry_list(es: Seq<(Seq<u8>, Seq<u8>)>) -> bool {
    forall|i: int| 0 <= i < es.len() ==> is_entry(#[trigger] es[i])
}

/// Whether the names of `es` grow strictly from each pair to the next.
pub open spec fn is_ascending(es: Seq<(Seq<u8>, Seq<u8>)>) -> bool {
    forall|i: int, j: int| 0 <= i < j < es.len() ==> precedes((#[trigger] es[i]).0, (#[trigger] es[j]).0)
}

/// Whether some pair of `es` carries the name `k`.
pub open spec fn has_name(es: Seq<(Seq<u8>, Seq<u8>)>, k: Seq<u8>) -> bool {
    exists|i: int| 0 <= i < es.len() && (#[trigger] es[i]).0 == k
}

/// The mapping that `es` denotes when its pairs are applied in order: where a name occurs
/// more than once, the last record given for it stays.
pub open spec fn collect(es: Seq<(Seq<u8>, Seq<u8>)>) -> Map<Seq<u8>, Seq<u8>>
    decreases es.len(),
{
    if es.len() == 0 {
        Map::empty()
    } else {
        collect(es.drop_last()).insert(es.last().0, es.last().1)
    }
}

/// The names of `es`, in its order.
pub open spec fn names_of(es: Seq<(Seq<u8>, Seq<u8>)>) -> Seq<Seq<u8>> {
    Seq::new(es.len(), |i: int| es[i].0)
}

/// The mapping of a list is defined on exactly the names that occur in the list.
pub proof fn lemma_collect_dom(es: Seq<(Seq<u8>, Seq<u8>)>, k: Seq<u8>)
    ensures
        collect(es).dom().contains(k) <==> has_name(es, k),
    decreases es.len(),
{
    if es.len() > 0 {
        let front = es.drop_last();
        lemma_collect_dom(front, k);
        if has_name(front, k) {
            let i = choose|i: int| 0 <= i < front.len() && (#[trigger] front[i]).0 == k;
            assert(es[i].0 == k);
        }
        if has_name(es, k) {
            let i = choose|i: int| 0 <= i < es.len() && (#[trigger] es[i]).0 == k;
            if i < es.len() - 1 {
                assert(front[i].0 == k);
            }
        }
    }
}

/// In an ascending list no name occurs twice.
pub proof fn lemma_ascending_distinct(es: Seq<(Seq<u8>, Seq<u8>)>, i: int, j: int)
    requires
        is_ascending(es),
        0 <= i < es.len(),
        0 <= j < es.len(),
        i != j,
    ensures
        es[i].0 != es[j].0,
{
    if i < j {
        lemma_precedes_asymmetric(es[i].0, es[j].0);
    } else {
        lemma_precedes_asymmetric(es[j].0, es[i].0);
    }
}

/// The mapping of an ascending list gives each of its names the record beside it.
pub proof fn lemma_collect_at(es: Seq<(Seq<u8>, Seq<u8>)>, i: int)
    requires
        is_ascending(es),
        0 <= i < es.len(),
    ensures
        collect(es).dom().contains(es[i].0),
        collect(es)[es[i].0] == es[i].1,
    decreases es.len(),
{
    if i < es.len() - 1 {
        let front = es.drop_last();
        lemma_collect_at(front, i);
        lemma_ascending_distinct(es, i, es.len() - 1);
    }
}

/// An ascending list denotes `m` when `m` holds each of its pairs and nothing else.
pub proof fn lemma_collect_is(es: Seq<(Seq<u8>, Seq<u8>)>, m: Map<Seq<u8>, Seq<u8>>)
    requires
        is_ascending(es),
        forall|i: int| 0 <= i < es.len() ==> m.dom().contains((#[trigger] es[i]).0) && m[es[i].0] == es[i].1,
        forall|k: Seq<u8>| m.dom().contains(k) ==> has_name(es, k),
    ensures
        collect(es) == m,
{
    assert forall|k: Seq<u8>| collect(es).dom().contains(k) <==> m.dom().contains(k) by {
        lemma_collect_dom(es, k);
    }
    assert forall|k: Seq<u8>| collect(es).dom().contains(k) implies collect(es)[k] == m[k] by {
        lemma_collect_dom(es, k);
        let i = choose|i: int| 0 <= i < es.len() && (#[trigger] es[i]).0 == k;
        lemma_collect_at(es, i);
    }
}

/// Two ascending lists that denote the same mapping are the same list: an index has
/// one ascending form only.
pub proof fn lemma_ascending_unique(a: Seq<(Seq<u8>, Seq<u8>)>, b: Seq<(Seq<u8>, Seq<u8>)>)
    requires
        is_ascending(a),
        is_ascending(b),
        collect(a) == collect(b),
    ensures
        a == b,
    decreases a.len(),
{
    if a.len() == 0 {
        if b.len() > 0 {
            lemma_collect_at(b, 0);
        }
    } else if b.len() == 0 {
        lemma_collect_at(a, 0);
    } else {
        let la = a.len() - 1;
        let lb = b.len() - 1;
        // The last name of each list is the greatest of the common domain.
        lemma_collect_at(b, lb);
        lemma_collect_dom(b, a[la].0);
        lemma_collect_dom(a, b[lb].0);
        let ib = choose|i: int| 0 <= i < b.len() && (#[trigger] b[i]).0 == a[la].0;
        let ia = choose|i: int| 0 <= i < a.len() && (#[trigger] a[i]).0 == b[lb].0;
        if ib < lb {
            // a.last < b.last, and b.last sits in a at ia <= la.
            if ia < la {
                crate::order::lemma_precedes_transitive(a[ia].0, a[la].0, b[lb].0);
                crate::order::lemma_precedes_irreflexive(b[lb].0);
            }
        }
        lemma_collect_front(a);
        lemma_collect_front(b);
        lemma_ascending_unique(a.drop_last(), b.drop_last());
        assert(b =~= b.drop_last().push(b[lb]));
    }
}

/// Without its last pair an ascending list denotes the same mapping without the last name.
pub proof fn lemma_collect_front(es: Seq<(Seq<u8>, Seq<u8>)>)
    requires
        is_ascending(es),
        es.len() > 0,
    ensures
        is_ascending(es.drop_last()),
        collect(es.drop_last()) == collect(es).remove(es.last().0),
{
    let front = es.drop_last();
    assert forall|i: int, j: int| 0 <= i < j < front.len() implies precedes(
        (#[trigger] front[i]).0,
        (#[trigger] front[j]).0,
    ) by {
        assert(front[i] == es[i] && front[j] == es[j]);
    }
    lemma_collect_dom(front, es.last().0);
    if has_name(front, es.last().0) {
        let i = choose|i: int| 0 <= i < front.len() && (#[trigger] front[i]).0 == es.last().0;
        lemma_ascending_distinct(es, i, es.len() - 1);
    }
}

} // verus!
