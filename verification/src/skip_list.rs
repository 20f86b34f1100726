//! The in-memory ordered map behind the memtable and the sparse index: the
//! skip list of the `subway` crate, held behind trusted declarations.
//!
//! The skip list keeps its entries sorted by key in its bottom level.  The
//! models below name the bottom-level entry sequence of a list; every
//! contract speaks of that sequence.  Contracts that depend on the order of
//! the entries hold of lists built by the operations declared here - a fresh
//! list grown by upserts - with the bottom level sorted and distinct, which
//! is how every list in this crate is used.
//!
//! Removal is exposed only fused with the re-insertion of the same key
//! (`mem_upsert` / `idx_upsert`): subway's removal of a level's first node
//! leaves that level's new head with a stale back-link, and only the paired
//! re-insert of the removed key restores it.  A lone removal would leave a
//! list on which a later search could miss a present key.

use vstd::prelude::*;

use subway::skiplist::SkipList;

use crate::sparse_index::TableAddress;
use crate::storage::block::TableValue;

verus! {

#[verifier::external_type_specification]
#[verifier::external_body]
#[verifier::reject_recursive_types(K)]
#[verifier::reject_recursive_types(V)]
pub struct ExSkipList<K, V>(SkipList<K, V>);

/// The bottom-level entries, in list order, of a skip list used as the
/// memtable.
pub uninterp spec fn memtable_entries(s: SkipList<u64, TableValue>) -> Seq<(u64, TableValue)>;

/// The bottom-level entries, in list order, of a skip list used as the
/// sparse index.
pub uninterp spec fn index_entries(s: SkipList<u64, TableAddress>) -> Seq<(u64, TableAddress)>;

/// Keys are in non-decreasing order.
pub open spec fn keys_sorted<V>(es: Seq<(u64, V)>) -> bool {
    forall|a: int, b: int| 0 <= a < b < es.len() ==> es[a].0 <= es[b].0
}

/// Keys are in strictly increasing order: sorted and distinct.
pub open spec fn keys_strictly_sorted<V>(es: Seq<(u64, V)>) -> bool {
    forall|a: int, b: int| 0 <= a < b < es.len() ==> es[a].0 < es[b].0
}

/// The number of leading entries whose key is at most `key`; in a sorted
/// sequence, the position after which an entry with key `key` is inserted.
pub open spec fn upper_bound_idx<V>(es: Seq<(u64, V)>, key: u64) -> int
    decreases es.len(),
{
    if es.len() == 0 {
        0
    } else if es[0].0 <= key {
        1 + upper_bound_idx(es.skip(1), key)
    } else {
        0
    }
}

/// The value of the first entry with the given key.
pub open spec fn find_key<V>(es: Seq<(u64, V)>, key: u64) -> Option<V>
    decreases es.len(),
{
    if es.len() == 0 {
        None
    } else if es[0].0 == key {
        Some(es[0].1)
    } else {
        find_key(es.skip(1), key)
    }
}

/// The sequence with the first entry of the given key removed.
pub open spec fn remove_first_key<V>(es: Seq<(u64, V)>, key: u64) -> Seq<(u64, V)>
    decreases es.len(),
{
    if es.len() == 0 {
        es
    } else if es[0].0 == key {
        es.skip(1)
    } else {
        seq![es[0]] + remove_first_key(es.skip(1), key)
    }
}

// ---------------------------------------------------------------------------
// Facts about the entry-sequence functions.
// ---------------------------------------------------------------------------

/// In a sorted sequence, the upper-bound position splits the keys at `key`.
pub proof fn lemma_upper_bound_idx<V>(es: Seq<(u64, V)>, key: u64)
    requires
        keys_sorted(es),
    ensures
        0 <= upper_bound_idx(es, key) <= es.len(),
        forall|i: int| 0 <= i < upper_bound_idx(es, key) ==> (#[trigger] es[i]).0 <= key,
        forall|i: int| upper_bound_idx(es, key) <= i < es.len() ==> (#[trigger] es[i]).0 > key,
    decreases es.len(),
{
    if es.len() > 0 {
        let rest = es.skip(1);
        assert(forall|i: int| 0 <= i < rest.len() ==> rest[i] == es[i + 1]);
        assert(keys_sorted(rest));
        lemma_upper_bound_idx(rest, key);
        if es[0].0 <= key {
            let ub = upper_bound_idx(es, key);
            assert(ub == 1 + upper_bound_idx(rest, key));
            assert forall|i: int| 0 <= i < ub implies (#[trigger] es[i]).0 <= key by {
                if i > 0 {
                    assert(es[i] == rest[i - 1]);
                }
            }
            assert forall|i: int| ub <= i < es.len() implies (#[trigger] es[i]).0 > key by {
                assert(es[i] == rest[i - 1]);
            }
        } else {
            assert(forall|i: int| 0 <= i < es.len() ==> (#[trigger] es[i]).0 >= es[0].0);
        }
    }
}

/// Looking a key up in a concatenation: the first part wins when it has the
/// key.
pub proof fn lemma_find_key_append<V>(a: Seq<(u64, V)>, b: Seq<(u64, V)>, key: u64)
    ensures
        find_key(a + b, key) == if find_key(a, key) is Some {
            find_key(a, key)
        } else {
            find_key(b, key)
        },
    decreases a.len(),
{
    if a.len() == 0 {
        assert(a + b =~= b);
    } else {
        assert((a + b).skip(1) =~= a.skip(1) + b);
        lemma_find_key_append(a.skip(1), b, key);
    }
}

/// A key that appears nowhere is not found.
pub proof fn lemma_find_key_absent<V>(es: Seq<(u64, V)>, key: u64)
    requires
        forall|i: int| 0 <= i < es.len() ==> (#[trigger] es[i]).0 != key,
    ensures
        find_key(es, key) is None,
    decreases es.len(),
{
    if es.len() > 0 {
        let rest = es.skip(1);
        assert(forall|i: int| 0 <= i < rest.len() ==> rest[i] == es[i + 1]);
        lemma_find_key_absent(rest, key);
    }
}

/// With distinct keys, looking up the key of an entry finds that entry.
pub proof fn lemma_find_key_at<V>(es: Seq<(u64, V)>, i: int)
    requires
        keys_strictly_sorted(es),
        0 <= i < es.len(),
    ensures
        find_key(es, es[i].0) == Some(es[i].1),
    decreases i,
{
    if i == 0 {
    } else {
        let rest = es.skip(1);
        assert(forall|k: int| 0 <= k < rest.len() ==> rest[k] == es[k + 1]);
        assert(es[0].0 < es[i].0);
        lemma_find_key_at(rest, i - 1);
    }
}

/// Removing an absent key changes nothing.
pub proof fn lemma_remove_absent<V>(es: Seq<(u64, V)>, key: u64)
    requires
        forall|i: int| 0 <= i < es.len() ==> (#[trigger] es[i]).0 != key,
    ensures
        remove_first_key(es, key) == es,
    decreases es.len(),
{
    if es.len() > 0 {
        let rest = es.skip(1);
        assert(forall|i: int| 0 <= i < rest.len() ==> rest[i] == es[i + 1]);
        lemma_remove_absent(rest, key);
        assert(seq![es[0]] + rest =~= es);
    }
}

/// With distinct keys, removing the key of entry `i` removes exactly that
/// entry.
pub proof fn lemma_remove_present<V>(es: Seq<(u64, V)>, key: u64, i: int)
    requires
        keys_strictly_sorted(es),
        0 <= i < es.len(),
        es[i].0 == key,
    ensures
        remove_first_key(es, key) == es.take(i) + es.skip(i + 1),
    decreases i,
{
    if i == 0 {
        assert(es.take(0) + es.skip(1) =~= es.skip(1));
    } else {
        let rest = es.skip(1);
        assert(forall|k: int| 0 <= k < rest.len() ==> rest[k] == es[k + 1]);
        assert(es[0].0 < es[i].0);
        lemma_remove_present(rest, key, i - 1);
        assert(seq![es[0]] + (rest.take(i - 1) + rest.skip(i)) =~= es.take(i) + es.skip(i + 1));
    }
}

/// If a key is found, an entry with that key is present.
pub proof fn lemma_find_key_some_means_present<V>(es: Seq<(u64, V)>, key: u64)
    requires
        find_key(es, key) is Some,
    ensures
        exists|i: int| 0 <= i < es.len() && (#[trigger] es[i]).0 == key,
    decreases es.len(),
{
    if es.len() > 0 {
        if es[0].0 == key {
            assert(es[0].0 == key);
        } else {
            lemma_find_key_some_means_present(es.skip(1), key);
            let i = choose|i: int|
                0 <= i < es.skip(1).len() && (#[trigger] es.skip(1)[i]).0 == key;
            assert(es[i + 1].0 == key);
        }
    }
}

/// Removing a key from a sorted-distinct sequence keeps it sorted and
/// distinct, drops the key, and keeps other lookups; `removed` names the
/// result.
pub proof fn lemma_removed_still_sorted<V>(es: Seq<(u64, V)>, key: u64, removed: Seq<(u64, V)>)
    requires
        keys_strictly_sorted(es),
        removed == remove_first_key(es, key) || removed == es,
    ensures
        keys_strictly_sorted(removed),
        forall|i: int| 0 <= i < removed.len() ==> (#[trigger] removed[i]).0 != key || removed == es,
        forall|i: int|
            0 <= i < removed.len() ==> exists|j: int| 0 <= j < es.len() && es[j] == #[trigger] removed[i],
{
    if removed == es {
        assert(forall|i: int|
            0 <= i < removed.len() ==> es[i] == #[trigger] removed[i]);
    } else {
        if exists|i: int| 0 <= i < es.len() && (#[trigger] es[i]).0 == key {
            let i = choose|i: int| 0 <= i < es.len() && (#[trigger] es[i]).0 == key;
            lemma_remove_present(es, key, i);
            assert forall|a: int| 0 <= a < removed.len() implies (#[trigger] removed[a]).0
                != key && exists|j: int| 0 <= j < es.len() && es[j] == removed[a] by {
                if a < i {
                    assert(removed[a] == es[a]);
                } else {
                    assert(removed[a] == es[a + 1]);
                }
            }
            assert forall|a: int, b: int|
                0 <= a < b < removed.len() implies (#[trigger] removed[a]).0 < (
                #[trigger] removed[b]).0 by {
                let ea: int = if a < i {
                    a
                } else {
                    a + 1
                };
                let eb: int = if b < i {
                    b
                } else {
                    b + 1
                };
                assert(removed[a] == es[ea]);
                assert(removed[b] == es[eb]);
            }
        } else {
            lemma_remove_absent(es, key);
            assert(forall|i: int|
                0 <= i < removed.len() ==> es[i] == #[trigger] removed[i]);
        }
    }
}

/// An entry of the sequence after a removal came from the original sequence.
pub proof fn lemma_removed_membership<V>(es: Seq<(u64, V)>, key: u64, removed: Seq<(u64, V)>, i: int)
    requires
        keys_strictly_sorted(es),
        removed == remove_first_key(es, key) || removed == es,
        0 <= i < removed.len(),
    ensures
        exists|j: int| 0 <= j < es.len() && es[j] == removed[i],
{
    lemma_removed_still_sorted(es, key, removed);
}

/// Inserting a fresh key at its upper bound keeps the keys sorted and
/// distinct.
pub proof fn lemma_insert_distinct<V>(es: Seq<(u64, V)>, key: u64, value: V, inserted: Seq<(u64, V)>)
    requires
        keys_strictly_sorted(es),
        forall|i: int| 0 <= i < es.len() ==> (#[trigger] es[i]).0 != key,
        inserted == es.take(upper_bound_idx(es, key)) + seq![(key, value)] + es.skip(
            upper_bound_idx(es, key),
        ),
    ensures
        keys_strictly_sorted(inserted),
        inserted.len() == es.len() + 1,
        forall|i: int| 0 <= i < upper_bound_idx(es, key) ==> #[trigger] inserted[i] == es[i],
        inserted[upper_bound_idx(es, key)] == (key, value),
        forall|i: int|
            upper_bound_idx(es, key) < i < inserted.len() ==> #[trigger] inserted[i] == es[i - 1],
    {
    let ub = upper_bound_idx(es, key);
    lemma_upper_bound_idx(es, key);
    assert(inserted.len() == es.len() + 1);
    assert forall|i: int| 0 <= i < ub implies #[trigger] inserted[i] == es[i] by {
        assert(inserted[i] == es.take(ub)[i]);
    }
    assert(inserted[ub] == (key, value));
    assert forall|i: int| ub < i < inserted.len() implies #[trigger] inserted[i] == es[i - 1] by {
        assert(inserted[i] == es.skip(ub)[i - ub - 1]);
    }
    assert forall|a: int, b: int|
        0 <= a < b < inserted.len() implies (#[trigger] inserted[a]).0 < (
    #[trigger] inserted[b]).0 by {
        if a < ub {
            assert(inserted[a] == es[a]);
        } else if a == ub {
            assert(inserted[a] == (key, value));
        } else {
            assert(inserted[a] == es[a - 1]);
        }
        if b < ub {
            assert(inserted[b] == es[b]);
        } else if b == ub {
            assert(inserted[b] == (key, value));
        } else {
            assert(inserted[b] == es[b - 1]);
        }
    }
}

/// Inserting a fresh key at its upper bound makes it found and leaves the
/// other keys' lookups unchanged.
pub proof fn lemma_insert_lookup<V>(es: Seq<(u64, V)>, key: u64, value: V, inserted: Seq<(u64, V)>)
    requires
        keys_strictly_sorted(es),
        forall|i: int| 0 <= i < es.len() ==> (#[trigger] es[i]).0 != key,
        inserted == es.take(upper_bound_idx(es, key)) + seq![(key, value)] + es.skip(
            upper_bound_idx(es, key),
        ),
    ensures
        find_key(inserted, key) == Some(value),
        forall|k2: u64| k2 != key ==> find_key(inserted, k2) == find_key(es, k2),
{
    let ub = upper_bound_idx(es, key);
    lemma_upper_bound_idx(es, key);
    let pre = es.take(ub);
    let post = es.skip(ub);
    lemma_find_key_append(pre, seq![(key, value)], key);
    lemma_find_key_append(pre + seq![(key, value)], post, key);
    assert(forall|i: int| 0 <= i < pre.len() ==> (#[trigger] pre[i]).0 != key);
    lemma_find_key_absent(pre, key);
    assert(seq![(key, value)][0] == (key, value));
    assert(find_key(seq![(key, value)], key) == Some(value));
    assert forall|k2: u64| k2 != key implies find_key(inserted, k2) == find_key(es, k2) by {
        lemma_find_key_append(pre, seq![(key, value)], k2);
        lemma_find_key_append(pre + seq![(key, value)], post, k2);
        lemma_find_key_append(pre, post, k2);
        assert(find_key(seq![(key, value)], k2) is None) by {
            assert(seq![(key, value)].skip(1) =~= Seq::<(u64, V)>::empty());
            assert(find_key(Seq::<(u64, V)>::empty(), k2) is None);
        }
        assert(pre + post =~= es);
    }
}

/// Removing the entry with one key leaves the lookups of all other keys
/// unchanged.
pub proof fn lemma_remove_lookup<V>(es: Seq<(u64, V)>, key: u64, i: int)
    requires
        keys_strictly_sorted(es),
        0 <= i < es.len(),
        es[i].0 == key,
    ensures
        forall|k2: u64|
            k2 != key ==> #[trigger] find_key(es.take(i) + es.skip(i + 1), k2) == find_key(es, k2),
{
    assert forall|k2: u64|
        k2 != key implies #[trigger] find_key(es.take(i) + es.skip(i + 1), k2) == find_key(
        es,
        k2,
    ) by {
        lemma_find_key_append(es.take(i), es.skip(i + 1), k2);
        lemma_find_key_append(es.take(i), es.skip(i), k2);
        assert(es.take(i) + es.skip(i) =~= es);
        assert(es.skip(i) =~= seq![es[i]] + es.skip(i + 1));
        lemma_find_key_append(seq![es[i]], es.skip(i + 1), k2);
        assert(find_key(seq![es[i]], k2) is None) by {
            assert(seq![es[i]][0] == es[i]);
            assert(seq![es[i]].skip(1) =~= Seq::<(u64, V)>::empty());
            assert(find_key(Seq::<(u64, V)>::empty(), k2) is None);
        }
    }
}

// ---------------------------------------------------------------------------
// Memtable instantiation.
// ---------------------------------------------------------------------------

/// Relies on subway's `SkipList::new`: a fresh list is empty.
#[verifier::external_body]
pub(crate) fn mem_new() -> (s: SkipList<u64, TableValue>)
    ensures
        memtable_entries(s) == Seq::<(u64, TableValue)>::empty(),
{
    SkipList::new()
}

/// Relies on subway's `SkipList::delete` followed by `SkipList::insert` of
/// the same key: the removal drops the first entry with the key (if any),
/// and the insert then places the new entry after every remaining entry with
/// a key at most the new key; other entries stay as they are.  The two calls
/// are fused on purpose: between them the list's levels hold a stale
/// back-link wherever the removed key headed a level, which the re-insert of
/// the same key repairs; no search runs in between.
#[verifier::external_body]
pub(crate) fn mem_upsert(s: &mut SkipList<u64, TableValue>, key: u64, value: TableValue)
    ensures
        keys_strictly_sorted(memtable_entries(*old(s))) ==> memtable_entries(*final(s))
            == remove_first_key(memtable_entries(*old(s)), key).take(
            upper_bound_idx(remove_first_key(memtable_entries(*old(s)), key), key),
        ) + seq![(key, value)] + remove_first_key(memtable_entries(*old(s)), key).skip(
            upper_bound_idx(remove_first_key(memtable_entries(*old(s)), key), key),
        ),
{
    s.delete(&key);
    s.insert(key, value)
}

/// Relies on subway's `SkipList::get`: on a list built by `mem_new` and
/// `mem_upsert` - bottom level sorted and distinct, every level whole - it
/// returns a clone of the value stored under the key, or nothing when the
/// key is absent.  The list is only searched, never changed.
#[verifier::external_body]
pub(crate) fn mem_get(s: &mut SkipList<u64, TableValue>, key: &u64) -> (r: Option<TableValue>)
    ensures
        memtable_entries(*final(s)) == memtable_entries(*old(s)),
        keys_strictly_sorted(memtable_entries(*old(s))) ==> match r {
            Some(v) => exists|i: int|
                0 <= i < memtable_entries(*old(s)).len() && (#[trigger] memtable_entries(
                    *old(s),
                )[i]).0 == *key && memtable_entries(*old(s))[i].1@ == v@,
            None => forall|i: int|
                0 <= i < memtable_entries(*old(s)).len() ==> (#[trigger] memtable_entries(
                    *old(s),
                )[i]).0 != *key,
        },
{
    s.get(key)
}

/// Relies on subway's `SkipList::collect`: the entries sorted by key, that
/// is, the bottom level of the list in order, with each key and value cloned.
#[verifier::external_body]
pub(crate) fn mem_collect(s: &SkipList<u64, TableValue>) -> (r: Vec<(u64, TableValue)>)
    ensures
        r@.len() == memtable_entries(*s).len(),
        forall|i: int|
            0 <= i < r@.len() ==> (#[trigger] r@[i]).0 == memtable_entries(*s)[i].0 && r@[i].1@
                == memtable_entries(*s)[i].1@,
{
    s.collect()
}

// ---------------------------------------------------------------------------
// Sparse index instantiation.
// ---------------------------------------------------------------------------

/// Relies on subway's `SkipList::new`: a fresh list is empty.
#[verifier::external_body]
pub(crate) fn idx_new() -> (s: SkipList<u64, TableAddress>)
    ensures
        index_entries(s) == Seq::<(u64, TableAddress)>::empty(),
{
    SkipList::new()
}

/// Relies on subway's `SkipList::delete` followed by `SkipList::insert` of
/// the same key, fused for the reason given at `mem_upsert`: the removal
/// drops the first entry with the key (if any), and the insert then places
/// the new entry after every remaining entry with a key at most the new key;
/// other entries stay as they are.
#[verifier::external_body]
pub(crate) fn idx_upsert(s: &mut SkipList<u64, TableAddress>, key: u64, value: TableAddress)
    ensures
        keys_strictly_sorted(index_entries(*old(s))) ==> index_entries(*final(s))
            == remove_first_key(index_entries(*old(s)), key).take(
            upper_bound_idx(remove_first_key(index_entries(*old(s)), key), key),
        ) + seq![(key, value)] + remove_first_key(index_entries(*old(s)), key).skip(
            upper_bound_idx(remove_first_key(index_entries(*old(s)), key), key),
        ),
{
    s.delete(&key);
    s.insert(key, value)
}

/// Relies on subway's `SkipList::get`: on a list built by `idx_new` and
/// `idx_upsert` - bottom level sorted and distinct, every level whole - it
/// returns the value stored under the key, or nothing when the key is
/// absent.  The list is only searched, never changed.
#[verifier::external_body]
pub(crate) fn idx_get(s: &mut SkipList<u64, TableAddress>, key: &u64) -> (r: Option<TableAddress>)
    ensures
        index_entries(*final(s)) == index_entries(*old(s)),
        keys_strictly_sorted(index_entries(*old(s))) ==> r == find_key(
            index_entries(*old(s)),
            *key,
        ),
{
    s.get(key)
}

/// Relies on subway's `SkipList::bisect`: on a list built by `idx_new` and
/// `idx_upsert` - bottom level sorted and distinct, every level whole - it
/// returns the largest key at most the given key, or nothing when every key
/// is larger.  The list is only searched, never changed.
#[verifier::external_body]
pub(crate) fn idx_bisect(s: &mut SkipList<u64, TableAddress>, key: &u64) -> (r: Option<u64>)
    ensures
        index_entries(*final(s)) == index_entries(*old(s)),
        keys_strictly_sorted(index_entries(*old(s))) ==> match r {
            Some(found) => {
                &&& found <= *key
                &&& exists|i: int|
                    0 <= i < index_entries(*old(s)).len() && (#[trigger] index_entries(
                        *old(s),
                    )[i]).0 == found
                &&& forall|i: int|
                    0 <= i < index_entries(*old(s)).len() && (#[trigger] index_entries(
                        *old(s),
                    )[i]).0 <= *key ==> index_entries(*old(s))[i].0 <= found
            },
            None => forall|i: int|
                0 <= i < index_entries(*old(s)).len() ==> (#[trigger] index_entries(
                    *old(s),
                )[i]).0 > *key,
        },
{
    s.bisect(key)
}

} // verus!
