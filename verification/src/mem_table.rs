//! The in-memory write buffer: an ordered map from key to timestamped
//! value. Insertion overwrites; draining takes the whole contents at once
//! and leaves the buffer empty, yielding entries in ascending key order.

use vstd::prelude::*;

use crate::sorted_map::{SortedMap, assoc_get, keys_sorted};
use crate::value::{TimeStampedValue, TsvView, pairs_view};

verus! {

pub struct MemTable {
    table: SortedMap<TimeStampedValue>,
}

impl MemTable {
    /// The buffer's entries, in ascending key order.
    pub closed spec fn entries_view(&self) -> Seq<(Seq<char>, TsvView)> {
        self.table.entries_view()
    }

    pub open spec fn wf(&self) -> bool {
        keys_sorted(self.entries_view())
    }

    /// The lookup function the buffer denotes.
    pub open spec fn spec_get(&self, k: Seq<char>) -> Option<TsvView> {
        assoc_get(self.entries_view(), k)
    }

    pub fn new() -> (r: Self)
        ensures
            r.wf(),
            r.entries_view() == Seq::<(Seq<char>, TsvView)>::empty(),
    {
        MemTable { table: SortedMap::new() }
    }

    /// Binds key to value, overwriting any earlier binding.
    pub fn set(&mut self, key: &str, value: TimeStampedValue)
        requires
            old(self).wf(),
        ensures
            final(self).wf(),
            final(self).spec_get(key@) == Some(value@),
            forall|k: Seq<char>|
                k != key@ ==> final(self).spec_get(k) == old(self).spec_get(k),
            old(self).spec_get(key@) is Some ==> final(self).entries_view().len() == old(
                self,
            ).entries_view().len(),
            old(self).spec_get(key@) is None ==> final(self).entries_view().len() == old(
                self,
            ).entries_view().len() + 1,
            forall|e: (Seq<char>, TsvView)|
                final(self).entries_view().contains(e) ==> e == (key@, value@) || old(
                    self,
                ).entries_view().contains(e),
    {
        let ghost vv = value@;
        self.table.insert(key, value);
        proof {
            assert(self.table.spec_get(key@) == Some(vv));
            assert forall|k: Seq<char>|
                k != key@ implies self.spec_get(k) == old(self).spec_get(k) by {
                assert(self.table.spec_get(k) == old(self).table.spec_get(k));
            }
        }
    }

    /// Reads the value bound to key, if any.
    pub fn get(&self, key: &str) -> (r: Option<TimeStampedValue>)
        requires
            self.wf(),
        ensures
            match r {
                Some(v) => self.spec_get(key@) == Some(v@),
                None => self.spec_get(key@) is None,
            },
    {
        match self.table.get(key) {
            Some(v) => Some(v.duplicate()),
            None => None,
        }
    }

    /// Takes the whole contents, leaving the buffer empty. The entries come
    /// back in ascending key order.
    pub fn flush(&mut self) -> (r: Vec<(String, TimeStampedValue)>)
        ensures
            final(self).wf(),
            final(self).entries_view() == Seq::<(Seq<char>, TsvView)>::empty(),
            pairs_view(r@) == old(self).entries_view(),
    {
        let r = self.table.take_all();
        proof {
            assert(pairs_view(r@) =~= old(self).entries_view());
        }
        r
    }

    /// How many keys the buffer holds.
    pub fn size(&self) -> (r: usize)
        ensures
            r == self.entries_view().len(),
    {
        self.table.len()
    }
}

} // verus!
