//! The memtable: the in-memory sorted buffer of recent writes.  Insertion
//! updates in place; the buffer is authoritative for its keys until it is
//! flushed to an SSTable.

use vstd::prelude::*;

use subway::skiplist::SkipList;

use crate::skip_list::{
    find_key, keys_strictly_sorted, lemma_find_key_absent, lemma_insert_distinct,
    lemma_insert_lookup, lemma_removed_still_sorted, mem_collect, mem_get, mem_new, mem_upsert,
    memtable_entries, remove_first_key,
};
use crate::storage::block::{TableValue, ValueSpec};

verus! {

/// The value recorded for a key in an entry sequence, as a mathematical
/// value.
pub open spec fn view_lookup(es: Seq<(u64, TableValue)>, key: u64) -> Option<ValueSpec> {
    match find_key(es, key) {
        Some(v) => Some(v@),
        None => None,
    }
}

/// An in-memory ordered map from keys to values, with upsert semantics.
pub struct Memtable {
    data: SkipList<u64, TableValue>,
}

impl Memtable {
    /// The entries, sorted by key.
    pub closed spec fn entries(self) -> Seq<(u64, TableValue)> {
        memtable_entries(self.data)
    }

    /// The keys are sorted and distinct.
    pub open spec fn wf(self) -> bool {
        keys_strictly_sorted(self.entries())
    }

    /// The value recorded for a key.
    pub open spec fn lookup(self, key: u64) -> Option<ValueSpec> {
        view_lookup(self.entries(), key)
    }

    pub fn new() -> (r: Memtable)
        ensures
            r.wf(),
            r.entries() == Seq::<(u64, TableValue)>::empty(),
    {
        Memtable { data: mem_new() }
    }

    /// Associate the value with the key, replacing any value stored before.
    pub fn insert(&mut self, key: u64, value: TableValue)
        requires
            old(self).wf(),
        ensures
            final(self).wf(),
            final(self).lookup(key) == Some(value@),
            forall|k2: u64| k2 != key ==> final(self).lookup(k2) == old(self).lookup(k2),
            final(self).entries().len() <= old(self).entries().len() + 1,
            forall|i: int|
                0 <= i < final(self).entries().len() ==> (#[trigger] final(self).entries()[i]) == (
                key,
                value,
            ) || exists|j: int|
                0 <= j < old(self).entries().len() && old(self).entries()[j]
                    == final(self).entries()[i],
    {
        let ghost es0 = self.entries();
        let ghost mid = remove_first_key(es0, key);
        proof {
            if exists|i: int| 0 <= i < es0.len() && (#[trigger] es0[i]).0 == key {
                let i = choose|i: int| 0 <= i < es0.len() && (#[trigger] es0[i]).0 == key;
                crate::skip_list::lemma_remove_present(es0, key, i);
                crate::skip_list::lemma_remove_lookup(es0, key, i);
            } else {
                crate::skip_list::lemma_remove_absent(es0, key);
            }
            lemma_removed_still_sorted(es0, key, mid);
            assert forall|i: int| 0 <= i < mid.len() implies (#[trigger] mid[i]).0 != key by {
                if exists|j: int| 0 <= j < es0.len() && (#[trigger] es0[j]).0 == key {
                    assert(mid.len() == es0.len() - 1);
                    assert(mid != es0);
                }
            }
        }
        mem_upsert(&mut self.data, key, value);
        proof {
            lemma_insert_distinct(mid, key, value, self.entries());
            lemma_insert_lookup(mid, key, value, self.entries());
            assert forall|i: int|
                0 <= i < self.entries().len() implies (#[trigger] self.entries()[i]) == (
                key,
                value,
            ) || exists|j: int|
                0 <= j < es0.len() && es0[j] == self.entries()[i] by {
                let ub = crate::skip_list::upper_bound_idx(mid, key);
                crate::skip_list::lemma_upper_bound_idx(mid, key);
                let nes = self.entries();
                if i < ub {
                    assert(nes[i] == mid[i]);
                    crate::skip_list::lemma_removed_membership(es0, key, mid, i);
                } else if i == ub {
                    assert(nes[i] == (key, value));
                } else {
                    assert(nes[i] == mid[i - 1]);
                    crate::skip_list::lemma_removed_membership(es0, key, mid, i - 1);
                }
            }
        }
    }

    /// Get the value associated with a key, if any.
    pub fn get(&mut self, key: &u64) -> (r: Option<TableValue>)
        requires
            old(self).wf(),
        ensures
            final(self).entries() == old(self).entries(),
            final(self).wf(),
            match r {
                Some(v) => old(self).lookup(*key) == Some(v@),
                None => old(self).lookup(*key) is None,
            },
    {
        let ghost es = self.entries();
        let r = mem_get(&mut self.data, key);
        proof {
            match &r {
                Some(v) => {
                    let i = choose|i: int|
                        0 <= i < es.len() && (#[trigger] es[i]).0 == *key && es[i].1@ == v@;
                    crate::skip_list::lemma_find_key_at(es, i);
                },
                None => {
                    lemma_find_key_absent(es, *key);
                },
            }
        }
        r
    }

    /// All entries in ascending key order.
    pub fn collect(&self) -> (r: Vec<(u64, TableValue)>)
        ensures
            r@.len() == self.entries().len(),
            forall|i: int|
                0 <= i < r@.len() ==> (#[trigger] r@[i]).0 == self.entries()[i].0 && r@[i].1@
                    == self.entries()[i].1@,
    {
        mem_collect(&self.data)
    }

    /// The number of entries held.
    pub fn len(&self) -> (r: usize)
        ensures
            r == self.entries().len(),
    {
        let collected = mem_collect(&self.data);
        collected.len()
    }
}

} // verus!
