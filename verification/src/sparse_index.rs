//! The sparse index: an in-memory ordered map from sampled keys to the place
//! in an SSTable where the entry with that key begins.

use vstd::prelude::*;

use subway::skiplist::SkipList;

use crate::skip_list::{
    find_key, idx_bisect, idx_get, idx_new, idx_upsert, index_entries, keys_strictly_sorted,
    lemma_find_key_at, lemma_insert_distinct, lemma_insert_lookup, lemma_removed_membership,
    lemma_removed_still_sorted, lemma_upper_bound_idx, remove_first_key, upper_bound_idx,
};

verus! {

/// The location of a key within an SSTable: the number of the table and the
/// byte offset at which the record holding the key starts.
#[derive(Clone, Copy, Debug, PartialEq, Eq, Structural)]
pub struct TableAddress {
    /// The number of the SSTable in which the key is stored: its position in
    /// the chronological order of the tables, which also names its file.
    pub table: usize,
    /// The byte offset into the SSTable at which to start reading for the
    /// target key: the first byte of the record header of the entry.
    pub offset: usize,
}

impl TableAddress {
    pub fn new(table: usize, offset: usize) -> (r: TableAddress)
        ensures
            r == (TableAddress { table, offset }),
    {
        TableAddress { table, offset }
    }
}

/// An ordered map from sampled keys to table addresses.
pub struct SparseIndex {
    data: SkipList<u64, TableAddress>,
}

impl SparseIndex {
    /// The index's entries, sorted by key.
    pub closed spec fn entries(self) -> Seq<(u64, TableAddress)> {
        index_entries(self.data)
    }

    /// The keys of the index are sorted and distinct.
    pub open spec fn wf(self) -> bool {
        keys_strictly_sorted(self.entries())
    }

    /// The address stored under a key.
    pub open spec fn lookup(self, key: u64) -> Option<TableAddress> {
        find_key(self.entries(), key)
    }

    pub fn new() -> (r: SparseIndex)
        ensures
            r.wf(),
            r.entries() == Seq::<(u64, TableAddress)>::empty(),
    {
        SparseIndex { data: idx_new() }
    }

    /// Empty the index.
    pub fn reset(&mut self)
        ensures
            final(self).wf(),
            final(self).entries() == Seq::<(u64, TableAddress)>::empty(),
    {
        self.data = idx_new();
    }

    /// Add or update the address associated with the given key.
    #[verifier::rlimit(30)]
    pub fn update(&mut self, key: u64, address: TableAddress)
        requires
            old(self).wf(),
        ensures
            final(self).wf(),
            final(self).lookup(key) == Some(address),
            forall|k2: u64| k2 != key ==> final(self).lookup(k2) == old(self).lookup(k2),
            forall|i: int|
                0 <= i < final(self).entries().len() ==> (#[trigger] final(self).entries()[i]) == (
                key,
                address,
            ) || exists|j: int|
                0 <= j < old(self).entries().len() && old(self).entries()[j]
                    == final(self).entries()[i],
    {
        let ghost es0 = self.entries();
        let ghost mid = remove_first_key(es0, key);
        proof {
            if exists|i: int| 0 <= i < es0.len() && (#[trigger] es0[i]).0 == key {
                let i = choose|i: int| 0 <= i < es0.len() && (#[trigger] es0[i]).0 == key;
                crate::skip_list::lemma_remove_present(es0, key, i);
                crate::skip_list::lemma_remove_lookup(es0, key, i);
            } else {
                crate::skip_list::lemma_remove_absent(es0, key);
            }
            lemma_removed_still_sorted(es0, key, mid);
            assert forall|i: int| 0 <= i < mid.len() implies (#[trigger] mid[i]).0 != key by {
                if exists|j: int| 0 <= j < es0.len() && (#[trigger] es0[j]).0 == key {
                    assert(mid.len() == es0.len() - 1);
                    assert(mid != es0);
                }
            }
        }
        idx_upsert(&mut self.data, key, address);
        proof {
            lemma_insert_distinct(mid, key, address, self.entries());
            lemma_insert_lookup(mid, key, address, self.entries());
            assert forall|i: int|
                0 <= i < self.entries().len() implies (#[trigger] self.entries()[i]) == (
                key,
                address,
            ) || exists|j: int|
                0 <= j < es0.len() && es0[j] == self.entries()[i] by {
                let ub = upper_bound_idx(mid, key);
                lemma_upper_bound_idx(mid, key);
                let nes = self.entries();
                if i < ub {
                    assert(nes[i] == mid[i]);
                    lemma_removed_membership(es0, key, mid, i);
                } else if i == ub {
                    assert(nes[i] == (key, address));
                } else {
                    assert(nes[i] == mid[i - 1]);
                    lemma_removed_membership(es0, key, mid, i - 1);
                }
            }
        }
    }

    /// The address of the greatest indexed key at most the target key: the
    /// place from which a scan is sure to pass the target if it is stored.
    pub fn get_nearest_address(&mut self, key: &u64) -> (r: Option<TableAddress>)
        requires
            old(self).wf(),
        ensures
            final(self).wf(),
            final(self).entries() == old(self).entries(),
            match r {
                Some(address) => exists|i: int|
                    {
                        &&& 0 <= i < old(self).entries().len()
                        &&& (#[trigger] old(self).entries()[i]).0 <= *key
                        &&& old(self).entries()[i].1 == address
                        &&& forall|j: int|
                            0 <= j < old(self).entries().len() && (#[trigger] old(
                                self,
                            ).entries()[j]).0 <= *key ==> old(self).entries()[j].0 <= old(
                                self,
                            ).entries()[i].0
                    },
                None => forall|i: int|
                    0 <= i < old(self).entries().len() ==> (#[trigger] old(self).entries()[i]).0
                        > *key,
            },
    {
        let maybe_nearest_key = idx_bisect(&mut self.data, key);
        match maybe_nearest_key {
            Some(nearest_key) => {
                let found = idx_get(&mut self.data, &nearest_key);
                proof {
                    let es = old(self).entries();
                    let i = choose|i: int| 0 <= i < es.len() && (#[trigger] es[i]).0 == nearest_key;
                    lemma_find_key_at(es, i);
                    assert(found == Some(es[i].1));
                }
                found
            },
            None => None,
        }
    }
}

} // verus!
