//! The search index: one record for each unit name, kept in ascending order of name.

use vstd::prelude::*;
use crate::bytes::copy_bytes;
use crate::entries::{
    collect, has_name, is_ascending, is_entry, is_entry_list, lemma_collect_at,
    lemma_collect_dom, lemma_collect_is, names_of,
};
use crate::name::{is_record, is_unit_name, valid_name, valid_record};
use crate::order::{
    lemma_precedes_asymmetric, lemma_precedes_irreflexive, lemma_precedes_total,
    lemma_precedes_transitive, precedes, rank, Rank,
};

verus! {

/// One unit of an index: its name and the record that the search reads for it.
#[derive(Debug)]
pub struct Entry {
    /// The name of the unit.
    pub name: Vec<u8>,
    /// The record of the unit, kept byte for byte.
    pub record: Vec<u8>,
}

impl View for Entry {
    type V = (Seq<u8>, Seq<u8>);

    open spec fn view(&self) -> (Seq<u8>, Seq<u8>) {
        (self.name@, self.record@)
    }
}

/// Why a pair was not taken into an index.
#[derive(Clone, Copy, Debug, PartialEq, Eq, Structural)]
pub enum EntryError {
    /// The name is empty or holds a byte that is no lower-case letter, digit or underscore.
    InvalidName,
    /// The record holds a line feed.
    InvalidRecord,
}

/// A mapping from unit names to records, stored in ascending order of name.
#[derive(Debug)]
pub struct SearchIndex {
    entries: Vec<Entry>,
}

impl View for SearchIndex {
    type V = Seq<(Seq<u8>, Seq<u8>)>;

    /// The pairs of the index in the order in which they are stored and written.
    closed spec fn view(&self) -> Seq<(Seq<u8>, Seq<u8>)> {
        self.entries@.map_values(|e: Entry| e@)
    }
}

impl SearchIndex {
    /// The invariant of an index: every pair can stand in it, and the names ascend
    /// strictly, so that none occurs twice.
    pub open spec fn wf(&self) -> bool {
        is_entry_list(self@) && is_ascending(self@)
    }

    /// The index as a mapping from names to records.
    pub open spec fn as_map(&self) -> Map<Seq<u8>, Seq<u8>> {
        collect(self@)
    }

    /// The index without any unit.
    pub fn new() -> (r: SearchIndex)
        ensures
            r.wf(),
            r@ == Seq::<(Seq<u8>, Seq<u8>)>::empty(),
            r.as_map() == Map::<Seq<u8>, Seq<u8>>::empty(),
    {
        let r = SearchIndex { entries: Vec::new() };
        r
    }

    /// The number of units.
    pub fn len(&self) -> (n: usize)
        ensures
            n == self@.len(),
    {
        self.entries.len()
    }

    /// Whether the index holds no unit.
    pub fn is_empty(&self) -> (r: bool)
        ensures
            r == (self@.len() == 0),
    {
        self.entries.len() == 0
    }

    /// The pairs in ascending order of name.
    pub fn entries(&self) -> (r: &[Entry])
        ensures
            r@.len() == self@.len(),
            forall|i: int| 0 <= i < r@.len() ==> (#[trigger] r@[i])@ == self@[i],
    {
        self.entries.as_slice()
    }

    /// The `i`-th pair in ascending order of name, if there are that many.
    pub fn entry(&self, i: usize) -> (r: Option<&Entry>)
        ensures
            match r {
                Some(e) => i < self@.len() && e@ == self@[i as int],
                None => i >= self@.len(),
            },
    {
        if i < self.entries.len() {
            Some(&self.entries[i])
        } else {
            None
        }
    }

    /// Finds the place of `name`: the number of stored names that come before it, and
    /// whether the name stored at that place is `name` itself.
    fn locate(&self, name: &[u8]) -> (r: (usize, bool))
        requires
            self.wf(),
        ensures
            r.0 <= self@.len(),
            forall|j: int| 0 <= j < r.0 ==> precedes((#[trigger] self@[j]).0, name@),
            forall|j: int| r.0 <= j < self@.len() ==> !precedes((#[trigger] self@[j]).0, name@),
            r.1 <==> (r.0 < self@.len() && self@[r.0 as int].0 == name@),
            r.1 <==> has_name(self@, name@),
    {
        let mut lo: usize = 0;
        let mut hi: usize = self.entries.len();
        while lo < hi
            invariant
                self.wf(),
                lo <= hi <= self.entries.len(),
                self.entries.len() == self@.len(),
                forall|j: int| 0 <= j < lo ==> precedes((#[trigger] self@[j]).0, name@),
                forall|j: int| hi <= j < self@.len() ==> !precedes((#[trigger] self@[j]).0, name@),
            decreases hi - lo,
        {
            let mid: usize = lo + (hi - lo) / 2;
            let r = rank(self.entries[mid].name.as_slice(), name);
            match r {
                Rank::Before => {
                    assert forall|j: int| 0 <= j < mid + 1 implies precedes(
                        (#[trigger] self@[j]).0,
                        name@,
                    ) by {
                        if j < mid {
                            lemma_precedes_transitive(self@[j].0, self@[mid as int].0, name@);
                        }
                    }
                    lo = mid + 1;
                },
                _ => {
                    assert forall|j: int| mid <= j < self@.len() implies !precedes(
                        (#[trigger] self@[j]).0,
                        name@,
                    ) by {
                        if j > mid && precedes(self@[j].0, name@) {
                            lemma_precedes_transitive(self@[mid as int].0, self@[j].0, name@);
                        }
                    }
                    hi = mid;
                },
            }
        }
        let found = if lo < self.entries.len() {
            match rank(self.entries[lo].name.as_slice(), name) {
                Rank::Same => true,
                _ => false,
            }
        } else {
            false
        };
        proof {
            if has_name(self@, name@) {
                let i = choose|i: int| 0 <= i < self@.len() && (#[trigger] self@[i]).0 == name@;
                lemma_precedes_irreflexive(name@);
                if i > lo {
                    lemma_precedes_total(self@[lo as int].0, name@);
                    lemma_precedes_asymmetric(self@[lo as int].0, self@[i].0);
                }
            }
        }
        (lo, found)
    }

    /// Whether the index has a record for `name`.
    pub fn contains(&self, name: &[u8]) -> (r: bool)
        requires
            self.wf(),
        ensures
            r == self.as_map().dom().contains(name@),
    {
        let (_, found) = self.locate(name);
        proof {
            lemma_collect_dom(self@, name@);
        }
        found
    }

    /// The record stored for `name`, if there is one.
    pub fn get(&self, name: &[u8]) -> (r: Option<&Vec<u8>>)
        requires
            self.wf(),
        ensures
            match r {
                Some(record) => self.as_map().dom().contains(name@) && record@
                    == self.as_map()[name@],
                None => !self.as_map().dom().contains(name@),
            },
    {
        let (at, found) = self.locate(name);
        proof {
            lemma_collect_dom(self@, name@);
        }
        if found {
            proof {
                lemma_collect_at(self@, at as int);
            }
            Some(&self.entries[at].record)
        } else {
            None
        }
    }

    /// Stores `record` for `name`, in place of the record that the name had, if any.
    /// Both must already be known to be fit for an index.
    pub(crate) fn put(&mut self, name: Vec<u8>, record: Vec<u8>)
        requires
            old(self).wf(),
            is_unit_name(name@),
            is_record(record@),
        ensures
            final(self).wf(),
            final(self).as_map() == old(self).as_map().insert(name@, record@),
    {
        let (at, found) = self.locate(name.as_slice());
        let ghost before = self@;
        let ghost pair = (name@, record@);
        let entry = Entry { name, record };
        if found {
            self.entries.set(at, entry);
            proof {
                assert(self@ =~= before.update(at as int, pair));
                assert forall|i: int, j: int| 0 <= i < j < self@.len() implies precedes(
                    (#[trigger] self@[i]).0,
                    (#[trigger] self@[j]).0,
                ) by {}
                let target = collect(before).insert(pair.0, pair.1);
                assert forall|i: int| 0 <= i < self@.len() implies target.dom().contains(
                    (#[trigger] self@[i]).0,
                ) && target[self@[i].0] == self@[i].1 by {
                    if i != at {
                        lemma_collect_at(before, i);
                    }
                }
                assert forall|k: Seq<u8>| target.dom().contains(k) implies has_name(self@, k) by {
                    if k == pair.0 {
                        assert(self@[at as int].0 == k);
                    } else {
                        lemma_collect_dom(before, k);
                        let i = choose|i: int| 0 <= i < before.len() && (#[trigger] before[i]).0 == k;
                        assert(self@[i].0 == k);
                    }
                }
                lemma_collect_is(self@, target);
            }
        } else {
            self.entries.insert(at, entry);
            proof {
                assert(self@ =~= before.insert(at as int, pair));
                assert forall|j: int| at <= j < before.len() implies precedes(
                    pair.0,
                    (#[trigger] before[j]).0,
                ) by {
                    lemma_precedes_total(before[at as int].0, pair.0);
                    if j > at {
                        lemma_precedes_transitive(pair.0, before[at as int].0, before[j].0);
                    }
                }
                assert forall|i: int, j: int| 0 <= i < j < self@.len() implies precedes(
                    (#[trigger] self@[i]).0,
                    (#[trigger] self@[j]).0,
                ) by {}
                let target = collect(before).insert(pair.0, pair.1);
                assert forall|i: int| 0 <= i < self@.len() implies target.dom().contains(
                    (#[trigger] self@[i]).0,
                ) && target[self@[i].0] == self@[i].1 by {
                    if i != at {
                        let o = if i < at { i } else { i - 1 };
                        lemma_collect_at(before, o);
                    }
                }
                assert forall|k: Seq<u8>| target.dom().contains(k) implies has_name(self@, k) by {
                    if k == pair.0 {
                        assert(self@[at as int].0 == k);
                    } else {
                        lemma_collect_dom(before, k);
                        let i = choose|i: int| 0 <= i < before.len() && (#[trigger] before[i]).0 == k;
                        let n = if i < at { i } else { i + 1 };
                        assert(self@[n].0 == k);
                    }
                }
                lemma_collect_is(self@, target);
            }
        }
    }

    /// Stores `record` for `name`, in place of the record that the name had, if any.
    /// A name that is no unit name, or a record that holds a line feed, is refused and
    /// the index stays as it was.
    pub fn insert(&mut self, name: Vec<u8>, record: Vec<u8>) -> (r: Result<(), EntryError>)
        requires
            old(self).wf(),
        ensures
            final(self).wf(),
            match r {
                Ok(_) => is_entry((name@, record@)) && final(self).as_map() == old(
                    self,
                ).as_map().insert(name@, record@),
                Err(EntryError::InvalidName) => !is_unit_name(name@) && final(self)@ == old(self)@,
                Err(EntryError::InvalidRecord) => is_unit_name(name@) && !is_record(record@)
                    && final(self)@ == old(self)@,
            },
    {
        if !valid_name(name.as_slice()) {
            return Err(EntryError::InvalidName);
        }
        if !valid_record(record.as_slice()) {
            return Err(EntryError::InvalidRecord);
        }
        self.put(name, record);
        Ok(())
    }

    /// Lays `other` over this index: every unit of `other` is stored, in place of the
    /// record that its name had here, if any; the other units stay.
    pub fn overlay(&mut self, other: &SearchIndex)
        requires
            old(self).wf(),
            other.wf(),
        ensures
            final(self).wf(),
            final(self).as_map() == old(self).as_map().union_prefer_right(other.as_map()),
    {
        let ghost base = self.as_map();
        let mut i: usize = 0;
        while i < other.entries.len()
            invariant
                self.wf(),
                other.wf(),
                i <= other.entries.len(),
                other.entries.len() == other@.len(),
                self.as_map() == base.union_prefer_right(collect(other@.take(i as int))),
            decreases other.entries.len() - i,
        {
            let name = copy_bytes(other.entries[i].name.as_slice());
            let record = copy_bytes(other.entries[i].record.as_slice());
            proof {
                let done = other@.take(i as int);
                let next = other@.take(i + 1);
                assert(next.drop_last() =~= done);
                assert(base.union_prefer_right(collect(done)).insert(name@, record@)
                    =~= base.union_prefer_right(collect(next)));
            }
            self.put(name, record);
            i += 1;
        }
        assert(other@.take(i as int) =~= other@);
    }

    /// The unit names in ascending order.
    pub fn names(&self) -> (r: Vec<Vec<u8>>)
        ensures
            r@.map_values(|v: Vec<u8>| v@) == names_of(self@),
    {
        let mut r: Vec<Vec<u8>> = Vec::new();
        let mut i: usize = 0;
        while i < self.entries.len()
            invariant
                i <= self.entries.len(),
                self.entries.len() == self@.len(),
                r.len() == i,
                forall|j: int| 0 <= j < i ==> (#[trigger] r[j])@ == self@[j].0,
            decreases self.entries.len() - i,
        {
            r.push(copy_bytes(self.entries[i].name.as_slice()));
            i += 1;
        }
        r
    }
}

} // verus!
