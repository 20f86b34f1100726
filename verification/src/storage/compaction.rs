//! Basic compaction: merge all SSTables into a single sorted run, keeping the
//! newest value for every key and dropping keys whose newest value is the
//! tombstone.

use vstd::prelude::*;

use crate::errors::Errors;
use crate::memtable::view_lookup;
use crate::options::DharmaOpts;
use crate::skip_list::find_key;
use crate::storage::block::{
    entries_of, entries_weight, lemma_entries_weight_append, lemma_entries_weight_nonneg,
    lemma_pair_entries_weight, pairs_weight, value_weight, EntrySpec, TableValue, Value, ValueSpec,
};
use crate::storage::sorted_string_table_writer::{
    clone_table_value, entries_strictly_sorted, image_entries, pair_entries, read_sstable,
    table_wf, write_sstable,
};

verus! {

/// Specifies the compaction strategy used to compact SSTables.
pub enum CompactionStrategy {
    /// The basic strategy: merge every table into one.  See
    /// `BasicCompaction`.
    BASIC,
}

/// Failures specific to compaction.
#[derive(Clone, Copy, Debug, PartialEq, Eq, Structural)]
pub enum CompactionError {
    /// Could not read SSTables from the supplied path.
    InvalidCompactionInputPath,
    /// Could not write SSTables to the supplied path.
    InvalidCompactionOutputPath,
}

// ---------------------------------------------------------------------------
// The meaning of a stack of tables.
// ---------------------------------------------------------------------------

/// The value of the first entry with the given key.
pub open spec fn entry_lookup(es: Seq<EntrySpec>, key: u64) -> Option<ValueSpec>
    decreases es.len(),
{
    if es.len() == 0 {
        None
    } else if es[0].key == key {
        Some(es[0].value)
    } else {
        entry_lookup(es.skip(1), key)
    }
}

/// The value recorded for a key in a chronological stack of tables: the
/// newest table that holds the key decides.
pub open spec fn stack_lookup(stack: Seq<Seq<EntrySpec>>, key: u64) -> Option<ValueSpec>
    decreases stack.len(),
{
    if stack.len() == 0 {
        None
    } else {
        match entry_lookup(stack.last(), key) {
            Some(v) => Some(v),
            None => stack_lookup(stack.drop_last(), key),
        }
    }
}

/// What a reader of the engine sees for a key in a stack of tables: the
/// newest value, with the tombstone surfacing as absence.
pub open spec fn stack_visible(stack: Seq<Seq<EntrySpec>>, key: u64) -> Option<ValueSpec> {
    match stack_lookup(stack, key) {
        Some(ValueSpec::Tombstone) => None,
        Some(v) => Some(v),
        None => None,
    }
}

/// The entries of each table image in a stack of images.
pub open spec fn stack_of(tables: Seq<Vec<u8>>, bs: int) -> Seq<Seq<EntrySpec>> {
    tables.map_values(|t: Vec<u8>| image_entries(t@, bs))
}

/// The combined packing budget of a stack of tables.
pub open spec fn stack_weight(stack: Seq<Seq<EntrySpec>>) -> int
    decreases stack.len(),
{
    if stack.len() == 0 {
        0
    } else {
        entries_weight(stack[0]) + stack_weight(stack.skip(1))
    }
}

pub proof fn lemma_stack_weight_push(stack: Seq<Seq<EntrySpec>>, t: Seq<EntrySpec>)
    ensures
        stack_weight(stack.push(t)) == stack_weight(stack) + entries_weight(t),
    decreases stack.len(),
{
    if stack.len() == 0 {
        assert(stack.push(t).skip(1) =~= Seq::<Seq<EntrySpec>>::empty());
        assert(stack.push(t)[0] == t);
        assert(stack_weight(Seq::<Seq<EntrySpec>>::empty()) == 0);
    } else {
        assert(stack.push(t).skip(1) =~= stack.skip(1).push(t));
        lemma_stack_weight_push(stack.skip(1), t);
        assert(stack.push(t)[0] == stack[0]);
    }
}

pub proof fn lemma_stack_weight_nonneg(stack: Seq<Seq<EntrySpec>>)
    ensures
        stack_weight(stack) >= 0,
    decreases stack.len(),
{
    if stack.len() > 0 {
        lemma_entries_weight_nonneg(stack[0]);
        lemma_stack_weight_nonneg(stack.skip(1));
    }
}

/// The weight of one more table at the end of the stack prefix.
pub proof fn lemma_stack_weight_take_snoc(stack: Seq<Seq<EntrySpec>>, t: int)
    requires
        0 <= t < stack.len(),
    ensures
        stack_weight(stack.take(t + 1)) == stack_weight(stack.take(t)) + entries_weight(stack[t]),
{
    assert(stack.take(t + 1) =~= stack.take(t).push(stack[t]));
    lemma_stack_weight_push(stack.take(t), stack[t]);
}

/// The weight of one more entry at the end of an entry prefix.
pub proof fn lemma_entries_weight_take_snoc(es: Seq<EntrySpec>, j: int)
    requires
        0 <= j < es.len(),
    ensures
        entries_weight(es.take(j + 1)) == entries_weight(es.take(j)) + value_weight(es[j].value)
            + 9,
{
    assert(es.take(j + 1) =~= es.take(j).push(es[j]));
    assert(es.take(j).push(es[j]) =~= es.take(j) + seq![es[j]]);
    lemma_entries_weight_append(es.take(j), seq![es[j]]);
    assert(seq![es[j]].skip(1) =~= Seq::<EntrySpec>::empty());
    assert(seq![es[j]][0] == es[j]);
    assert(entries_weight(Seq::<EntrySpec>::empty()) == 0);
}

/// The weight of one more pair at the end of a pair prefix.
pub proof fn lemma_pairs_weight_take_snoc(ts: Seq<(u64, TableValue)>, j: int)
    requires
        0 <= j < ts.len(),
    ensures
        pairs_weight(ts.take(j + 1)) == pairs_weight(ts.take(j)) + value_weight(ts[j].1@) + 9,
{
    assert(ts.take(j + 1) =~= ts.take(j).push(ts[j]));
    assert(ts.take(j).push(ts[j]) =~= ts.take(j) + seq![ts[j]]);
    crate::storage::block::lemma_pairs_weight_append(ts.take(j), seq![ts[j]]);
    assert(seq![ts[j]].skip(1) =~= Seq::<(u64, TableValue)>::empty());
    assert(seq![ts[j]][0] == ts[j]);
    assert(pairs_weight(Seq::<(u64, TableValue)>::empty()) == 0);
}

pub proof fn lemma_entry_lookup_absent(es: Seq<EntrySpec>, key: u64)
    requires
        forall|i: int| 0 <= i < es.len() ==> (#[trigger] es[i]).key != key,
    ensures
        entry_lookup(es, key) is None,
    decreases es.len(),
{
    if es.len() > 0 {
        let rest = es.skip(1);
        assert(forall|i: int| 0 <= i < rest.len() ==> rest[i] == es[i + 1]);
        lemma_entry_lookup_absent(rest, key);
    }
}

pub proof fn lemma_entry_lookup_append(a: Seq<EntrySpec>, b: Seq<EntrySpec>, key: u64)
    ensures
        entry_lookup(a + b, key) == if entry_lookup(a, key) is Some {
            entry_lookup(a, key)
        } else {
            entry_lookup(b, key)
        },
    decreases a.len(),
{
    if a.len() == 0 {
        assert(a + b =~= b);
    } else {
        assert((a + b).skip(1) =~= a.skip(1) + b);
        lemma_entry_lookup_append(a.skip(1), b, key);
    }
}

/// With distinct keys, looking up the key of an entry finds that entry.
pub proof fn lemma_entry_lookup_at(es: Seq<EntrySpec>, i: int)
    requires
        entries_strictly_sorted(es),
        0 <= i < es.len(),
    ensures
        entry_lookup(es, es[i].key) == Some(es[i].value),
    decreases i,
{
    if i == 0 {
    } else {
        let rest = es.skip(1);
        assert(forall|k: int| 0 <= k < rest.len() ==> rest[k] == es[k + 1]);
        assert(es[0].key < es[i].key);
        lemma_entry_lookup_at(rest, i - 1);
    }
}

// ---------------------------------------------------------------------------
// The merge buffer.
// ---------------------------------------------------------------------------

/// A sorted run under construction: a vector of pairs with strictly
/// increasing keys, with in-place upsert.  The merge inserts the entries of
/// every table, oldest table first, so that newer values overwrite older
/// ones.
struct SortedRun {
    data: Vec<(u64, TableValue)>,
}

impl SortedRun {
    /// The run's entries, sorted by key.
    spec fn entries(self) -> Seq<(u64, TableValue)> {
        self.data@
    }

    /// The keys are sorted and distinct.
    spec fn wf(self) -> bool {
        crate::skip_list::keys_strictly_sorted(self.data@)
    }

    /// The value recorded for a key.
    spec fn lookup(self, key: u64) -> Option<ValueSpec> {
        view_lookup(self.data@, key)
    }

    fn new() -> (r: SortedRun)
        ensures
            r.wf(),
            r.entries() == Seq::<(u64, TableValue)>::empty(),
    {
        SortedRun { data: Vec::new() }
    }

    /// The run's entries, in ascending key order.
    fn into_entries(self) -> (r: Vec<(u64, TableValue)>)
        ensures
            r@ == self.entries(),
    {
        self.data
    }

    /// Associate the value with the key, replacing any value stored before.
    fn insert(&mut self, key: u64, value: TableValue)
        requires
            old(self).wf(),
        ensures
            final(self).wf(),
            final(self).lookup(key) == Some(value@),
            forall|k2: u64| k2 != key ==> final(self).lookup(k2) == old(self).lookup(k2),
            forall|i: int|
                0 <= i < final(self).entries().len() ==> (#[trigger] final(self).entries()[i]) == (
                key,
                value,
            ) || exists|j: int|
                0 <= j < old(self).entries().len() && old(self).entries()[j]
                    == final(self).entries()[i],
            pairs_weight(final(self).entries()) <= pairs_weight(old(self).entries())
                + value_weight(value@) + 9,
    {
        let ghost es = old(self).entries();
        let mut idx: usize = 0;
        while idx < self.data.len() && self.data[idx].0 < key
            invariant
                idx <= self.data@.len(),
                self.data@ == es,
                forall|p: int| 0 <= p < idx ==> (#[trigger] es[p]).0 < key,
            decreases self.data@.len() - idx,
        {
            idx = idx + 1;
        }
        if idx < self.data.len() && self.data[idx].0 == key {
            // the key is present: overwrite in place
            self.data.set(idx, (key, value));
            proof {
                let nes = self.data@;
                let pre = es.take(idx as int);
                let post = es.skip(idx as int + 1);
                assert(nes =~= pre + seq![(key, value)] + post);
                assert(es =~= pre + seq![es[idx as int]] + post);
                assert forall|a: int, b: int|
                    0 <= a < b < nes.len() implies (#[trigger] nes[a]).0 < (
                #[trigger] nes[b]).0 by {
                    assert(nes[a].0 == es[a].0);
                    assert(nes[b].0 == es[b].0);
                }
                assert forall|k2: u64| #[trigger]
                    view_lookup(nes, k2) == if k2 == key {
                        Some(value@)
                    } else {
                        view_lookup(es, k2)
                    } by {
                    crate::skip_list::lemma_find_key_append(pre, seq![(key, value)], k2);
                    crate::skip_list::lemma_find_key_append(pre + seq![(key, value)], post, k2);
                    crate::skip_list::lemma_find_key_append(pre, seq![es[idx as int]], k2);
                    crate::skip_list::lemma_find_key_append(pre + seq![es[idx as int]], post, k2);
                    assert(seq![(key, value)][0] == (key, value));
                    assert(seq![(key, value)].skip(1) =~= Seq::<(u64, TableValue)>::empty());
                    assert(seq![es[idx as int]][0] == es[idx as int]);
                    assert(seq![es[idx as int]].skip(1) =~= Seq::<(u64, TableValue)>::empty());
                    assert(find_key(Seq::<(u64, TableValue)>::empty(), k2) is None);
                    if k2 == key {
                        assert(find_key(pre, k2) is None) by {
                            crate::skip_list::lemma_find_key_absent(pre, k2);
                        }
                    }
                }
                assert forall|i: int|
                    0 <= i < self.entries().len() implies (#[trigger] self.entries()[i]) == (
                key,
                value,
            ) || exists|j: int| 0 <= j < es.len() && es[j] == self.entries()[i] by {
                    assert(self.entries()[i] == nes[i]);
                    if i != idx {
                        assert(es[i] == nes[i]);
                    }
                }
                crate::storage::block::lemma_pairs_weight_append(pre, seq![(key, value)]);
                crate::storage::block::lemma_pairs_weight_append(pre + seq![(key, value)], post);
                crate::storage::block::lemma_pairs_weight_append(pre, seq![es[idx as int]]);
                crate::storage::block::lemma_pairs_weight_append(pre + seq![es[idx as int]], post);
                assert(seq![(key, value)].skip(1) =~= Seq::<(u64, TableValue)>::empty());
                assert(seq![es[idx as int]].skip(1) =~= Seq::<(u64, TableValue)>::empty());
                assert(pairs_weight(Seq::<(u64, TableValue)>::empty()) == 0);
                assert(pairs_weight(seq![(key, value)]) == value_weight(value@) + 9);
                assert(pairs_weight(seq![es[idx as int]]) == value_weight(es[idx as int].1@) + 9);
                assert(value_weight(es[idx as int].1@) >= 9);
            }
        } else {
            // the key is new: insert it at its position
            proof {
                assert(idx < es.len() ==> es[idx as int].0 > key);
                crate::skip_list::lemma_upper_bound_idx(es, key);
                let ub = crate::skip_list::upper_bound_idx(es, key);
                assert(ub == idx) by {
                    if ub < idx {
                        assert(es[ub].0 < key);
                        assert(es[ub].0 > key);
                    }
                    if ub > idx {
                        assert(es[idx as int].0 <= key);
                    }
                }
                assert(forall|p: int| 0 <= p < es.len() ==> (#[trigger] es[p]).0 != key);
            }
            self.data.insert(idx, (key, value));
            proof {
                let nes = self.data@;
                assert(nes =~= es.take(idx as int) + seq![(key, value)] + es.skip(idx as int));
                crate::skip_list::lemma_insert_distinct(es, key, value, nes);
                crate::skip_list::lemma_insert_lookup(es, key, value, nes);
                crate::storage::block::lemma_pairs_weight_append(
                    es.take(idx as int),
                    seq![(key, value)],
                );
                crate::storage::block::lemma_pairs_weight_append(
                    es.take(idx as int) + seq![(key, value)],
                    es.skip(idx as int),
                );
                crate::storage::block::lemma_pairs_weight_append(
                    es.take(idx as int),
                    es.skip(idx as int),
                );
                assert(es.take(idx as int) + es.skip(idx as int) =~= es);
                assert(seq![(key, value)].skip(1) =~= Seq::<(u64, TableValue)>::empty());
                assert(pairs_weight(Seq::<(u64, TableValue)>::empty()) == 0);
                assert(pairs_weight(seq![(key, value)]) == value_weight(value@) + 9);
                assert forall|i: int|
                    0 <= i < self.entries().len() implies (#[trigger] self.entries()[i]) == (
                key,
                value,
            ) || exists|j: int| 0 <= j < es.len() && es[j] == self.entries()[i] by {
                    assert(self.entries()[i] == nes[i]);
                    let ub = crate::skip_list::upper_bound_idx(es, key);
                    if i < ub {
                        assert(nes[i] == es[i]);
                    } else if i > ub {
                        assert(nes[i] == es[i - 1]);
                    }
                }
            }
        }
    }
}

// ---------------------------------------------------------------------------
// The compaction runner.
// ---------------------------------------------------------------------------

/// Configuration of a basic compaction run.
pub struct BasicCompactionOpts {
    /// The database configuration.
    pub db_options: DharmaOpts,
    /// Path at which to read SSTables from.
    pub input_path: String,
    /// Path at which to write the merged SSTable.
    pub output_path: String,
    /// Block size for blocks in the SSTables.
    pub block_size: usize,
    /// Number of SSTables after which compaction merges them into a single
    /// table.
    pub threshold: u8,
}

/// Relies on std's string formatting: the result is the base string followed
/// by the suffix.
#[verifier::external_body]
fn concat_path(base: &String, suffix: &str) -> (r: String)
    ensures
        r@ == base@ + suffix@,
{
    format!("{}{}", base, suffix)
}

impl BasicCompactionOpts {
    /// The database configuration the options were built from.
    pub open spec fn spec_db_options(self) -> DharmaOpts {
        self.db_options
    }

    /// The options agree with the database configuration they came from.
    pub open spec fn wf(self) -> bool {
        &&& self.spec_db_options().valid()
        &&& self.block_size == self.spec_db_options().block_size_in_bytes
        &&& self.threshold >= 1
    }

    pub fn from(options: DharmaOpts) -> (r: BasicCompactionOpts)
        requires
            options.valid(),
        ensures
            r.wf(),
            r.spec_db_options() == options,
            r.input_path@ == options.path@,
            r.output_path@ == options.path@ + "/compaction/compaction.db"@,
            r.block_size == options.block_size_in_bytes,
            r.threshold == 4,
    {
        let input_path = options.path.clone();
        let output_path = concat_path(&options.path, "/compaction/compaction.db");
        let block_size = options.block_size_in_bytes;
        BasicCompactionOpts { db_options: options, input_path, output_path, block_size, threshold: 4 }
    }
}

/// The pairing of an entry with the number of the table it was read from:
/// between entries of equal key, the one from the younger table (the larger
/// number) wins the merge.
pub struct CompactionHeapNode {
    pub value: Value,
    pub idx: usize,
}

impl CompactionHeapNode {
    pub fn new(value: Value, idx: usize) -> (r: CompactionHeapNode)
        ensures
            r.value@ == value@,
            r.idx == idx,
    {
        CompactionHeapNode { value, idx }
    }
}

/// Compact the SSTables at the configured path into a single table written to
/// the configured output path.
pub struct BasicCompaction {
    pub options: BasicCompactionOpts,
}

impl BasicCompaction {
    /// The configuration of this run.
    pub open spec fn spec_options(self) -> BasicCompactionOpts {
        self.options
    }

    pub fn new(options: BasicCompactionOpts) -> (r: BasicCompaction)
        ensures
            r.spec_options() == options,
    {
        BasicCompaction { options }
    }

    /// The configured table-count threshold.
    pub fn threshold(&self) -> (r: usize)
        ensures
            r == self.spec_options().threshold as int,
    {
        self.options.threshold as usize
    }

    /// Merge the given chronological stack of SSTable images into one table.
    ///
    /// Returns nothing when there are fewer tables than the threshold.
    /// Otherwise the result is a single table holding, for every key of the
    /// inputs, the value from the newest table that holds the key - except
    /// keys whose newest value is the tombstone, which are dropped.
    pub fn compact(&self, tables: &Vec<Vec<u8>>) -> (r: Result<Option<Vec<u8>>, Errors>)
        requires
            self.spec_options().wf(),
            forall|t: int|
                0 <= t < tables@.len() ==> table_wf(
                    (#[trigger] tables@[t])@,
                    self.spec_options().spec_db_options().block_size_in_bytes as int,
                ),
        ensures
            ({
                let bs = self.spec_options().spec_db_options().block_size_in_bytes as int;
                match r {
                    Ok(None) => tables@.len() < self.spec_options().threshold as int,
                    Err(e) => e == Errors::SSTABLE_CREATION_FAILED && tables@.len()
                        >= self.spec_options().threshold as int,
                    Ok(Some(out)) => {
                        &&& tables@.len() >= self.spec_options().threshold as int
                        &&& out@.len() <= 2 * stack_weight(stack_of(tables@, bs)) + 2 * bs
                        &&& table_wf(out@, bs)
                        &&& forall|key: u64|
                            #[trigger] entry_lookup(image_entries(out@, bs), key) == stack_visible(
                                stack_of(tables@, bs),
                                key,
                            )
                        &&& forall|i: int|
                            0 <= i < image_entries(out@, bs).len() ==> (#[trigger] image_entries(
                                out@,
                                bs,
                            )[i]).value != ValueSpec::Tombstone
                    },
                }
            }),
            ({
                let bs = self.spec_options().spec_db_options().block_size_in_bytes as int;
                tables@.len() >= self.spec_options().threshold as int && 2 * stack_weight(
                    stack_of(tables@, bs),
                ) + 2 * bs + 0x20000 <= usize::MAX ==> r is Ok
            }),
    {
        let opts = &self.options;
        let ghost bs = opts.db_options.block_size_in_bytes as int;
        let ghost stack = stack_of(tables@, bs);
        if tables.len() < opts.threshold as usize {
            return Ok(None);
        }
        // merge the tables, oldest first, so that newer values overwrite
        // older ones
        let mut merged = SortedRun::new();
        let mut t: usize = 0;
        proof {
            assert(stack.take(0) =~= Seq::<Seq<EntrySpec>>::empty());
            assert(stack_weight(Seq::<Seq<EntrySpec>>::empty()) == 0);
        }
        while t < tables.len()
            invariant
                opts == self.spec_options(),
                self.spec_options().wf(),
                bs == opts.spec_db_options().block_size_in_bytes as int,
                stack == stack_of(tables@, bs),
                t <= tables@.len(),
                forall|ti: int| 0 <= ti < tables@.len() ==> table_wf((#[trigger] tables@[ti])@, bs),
                merged.wf(),
                forall|key: u64| #[trigger]
                    merged.lookup(key) == stack_lookup(stack.take(t as int), key),
                forall|i: int|
                    0 <= i < merged.entries().len() ==> crate::storage::block::value_fits(
                        (#[trigger] merged.entries()[i]).1@,
                    ),
                pairs_weight(merged.entries()) <= stack_weight(stack.take(t as int)),
            decreases tables@.len() - t,
        {
            let table = &tables[t];
            let decoded = match read_sstable(&opts.db_options, table) {
                Ok(vs) => vs,
                Err(_) => {
                    proof {
                        assert(false);
                    }
                    return Err(Errors::SSTABLE_READ_FAILED);
                },
            };
            let ghost tes = image_entries(table@, bs);
            proof {
                assert(stack[t as int] == tes);
            }
            let mut j: usize = 0;
            proof {
                assert(tes.take(0) =~= Seq::<EntrySpec>::empty());
                assert(forall|key: u64|
                    #[trigger] entry_lookup(tes.take(0), key) is None);
                assert(entries_weight(Seq::<EntrySpec>::empty()) == 0);
            }
            while j < decoded.len()
                invariant
                    opts == self.spec_options(),
                    self.spec_options().wf(),
                    bs == opts.spec_db_options().block_size_in_bytes as int,
                    stack == stack_of(tables@, bs),
                    t < tables@.len(),
                    j <= decoded@.len(),
                    entries_of(decoded@) == tes,
                    tes == stack[t as int],
                    entries_strictly_sorted(tes),
                    forall|i: int|
                        0 <= i < tes.len() ==> crate::storage::block::value_fits(
                            (#[trigger] tes[i]).value,
                        ),
                    merged.wf(),
                    forall|key: u64| #[trigger]
                        merged.lookup(key) == match entry_lookup(tes.take(j as int), key) {
                            Some(v) => Some(v),
                            None => stack_lookup(stack.take(t as int), key),
                        },
                    forall|i: int|
                        0 <= i < merged.entries().len() ==> crate::storage::block::value_fits(
                            (#[trigger] merged.entries()[i]).1@,
                        ),
                    pairs_weight(merged.entries()) <= stack_weight(stack.take(t as int))
                        + entries_weight(tes.take(j as int)),
                decreases decoded@.len() - j,
            {
                let key = decoded[j].key;
                let value = clone_table_value(&decoded[j].value);
                let ghost pre_merged = merged;
                merged.insert(key, value);
                j = j + 1;
                proof {
                    let jj = j as int - 1;
                    assert(decoded@[jj]@ == tes[jj]);
                    assert(tes[jj].key == key);
                    assert(tes[jj].value == value@);
                    lemma_entries_weight_take_snoc(tes, jj);
                    assert(entry_lookup(Seq::<EntrySpec>::empty(), key) is None);
                    assert(tes.take(jj + 1) =~= tes.take(jj).push(tes[jj]));
                    assert forall|k2: u64| #[trigger]
                        merged.lookup(k2) == match entry_lookup(tes.take(jj + 1), k2) {
                            Some(v) => Some(v),
                            None => stack_lookup(stack.take(t as int), k2),
                        } by {
                        lemma_entry_lookup_append(tes.take(jj), seq![tes[jj]], k2);
                        assert(tes.take(jj) + seq![tes[jj]] =~= tes.take(jj + 1));
                        assert(seq![tes[jj]][0] == tes[jj]);
                        assert(seq![tes[jj]].skip(1) =~= Seq::<EntrySpec>::empty());
                        if k2 == key {
                            assert(entry_lookup(tes.take(jj), k2) is None) by {
                                assert(forall|i: int|
                                    0 <= i < jj ==> (#[trigger] tes.take(jj)[i]).key
                                        == tes[i].key);
                                lemma_entry_lookup_absent(tes.take(jj), k2);
                            }
                            assert(entry_lookup(seq![tes[jj]], k2) == Some(tes[jj].value));
                        } else {
                            assert(entry_lookup(Seq::<EntrySpec>::empty(), k2) is None);
                            assert(entry_lookup(seq![tes[jj]], k2) is None);
                        }
                    }
                    assert forall|i: int|
                        0 <= i < merged.entries().len() implies crate::storage::block::value_fits(
                        (#[trigger] merged.entries()[i]).1@,
                    ) by {
                        if merged.entries()[i] == (key, value) {
                        } else {
                            let jx = choose|jx: int|
                                0 <= jx < pre_merged.entries().len() && pre_merged.entries()[jx]
                                    == merged.entries()[i];
                        }
                    }
                }
            }
            t = t + 1;
            proof {
                assert(tes.take(decoded@.len() as int) =~= tes);
                lemma_stack_weight_take_snoc(stack, t as int - 1);
                let st = stack.take(t as int);
                assert(st.last() == tes);
                assert(st.drop_last() =~= stack.take(t as int - 1));
                assert forall|k2: u64| #[trigger]
                    merged.lookup(k2) == stack_lookup(stack.take(t as int), k2) by {
                    assert(stack_lookup(st, k2) == match entry_lookup(tes, k2) {
                        Some(v) => Some(v),
                        None => stack_lookup(stack.take(t as int - 1), k2),
                    });
                }
            }
        }
        proof {
            assert(stack.take(tables@.len() as int) =~= stack);
        }
        // drop the keys whose newest value is the tombstone
        let ghost ces = merged.entries();
        let collected = merged.into_entries();
        let mut output: Vec<(u64, TableValue)> = Vec::new();
        let mut j: usize = 0;
        proof {
            assert(ces.take(0) =~= Seq::<(u64, TableValue)>::empty());
            assert(pairs_weight(Seq::<(u64, TableValue)>::empty()) == 0);
        }
        while j < collected.len()
            invariant
                j <= collected@.len(),
                collected@ == ces,
                crate::skip_list::keys_strictly_sorted(ces),
                forall|i: int|
                    0 <= i < ces.len() ==> crate::storage::block::value_fits(
                        (#[trigger] ces[i]).1@,
                    ),
                forall|a: int, b: int|
                    0 <= a < b < output@.len() ==> (#[trigger] output@[a]).0 < (
                    #[trigger] output@[b]).0,
                forall|o: int, i: int|
                    0 <= o < output@.len() && j <= i < ces.len() ==> (#[trigger] output@[o]).0 < (
                    #[trigger] ces[i]).0,
                forall|o: int|
                    0 <= o < output@.len() ==> crate::storage::block::value_fits(
                        (#[trigger] output@[o]).1@,
                    ) && output@[o].1@ != ValueSpec::Tombstone,
                forall|key: u64| #[trigger]
                    view_lookup(output@, key) == match view_lookup(ces.take(j as int), key) {
                        Some(ValueSpec::Tombstone) => None::<ValueSpec>,
                        Some(v) => Some(v),
                        None => None::<ValueSpec>,
                    },
                pairs_weight(output@) <= pairs_weight(ces.take(j as int)),
            decreases collected@.len() - j,
        {
            let key = collected[j].0;
            let keep = !collected[j].1.is_tombstone();
            let ghost pre_out = output@;
            if keep {
                let value = clone_table_value(&collected[j].1);
                output.push((key, value));
            }
            j = j + 1;
            proof {
                let jj = j as int - 1;
                assert(ces[jj].0 == key);
                assert(collected@[jj].1@ == ces[jj].1@);
                lemma_pairs_weight_take_snoc(ces, jj);
                if keep {
                    assert(output@ =~= pre_out + seq![output@[output@.len() - 1]]);
                    crate::storage::block::lemma_pairs_weight_append(
                        pre_out,
                        seq![output@[output@.len() - 1]],
                    );
                    assert(seq![output@[output@.len() - 1]].skip(1) =~= Seq::<
                        (u64, TableValue),
                    >::empty());
                    assert(pairs_weight(Seq::<(u64, TableValue)>::empty()) == 0);
                } else {
                    assert(value_weight(ces[jj].1@) >= 9);
                }
                assert(find_key(Seq::<(u64, TableValue)>::empty(), key) is None);
                if keep {
                    assert(output@[output@.len() - 1].0 == key);
                    assert(output@[output@.len() - 1].1@ == ces[jj].1@);
                }
                assert forall|o: int| 0 <= o < pre_out.len() implies (#[trigger] pre_out[o]).0
                    != key by {
                    assert(pre_out[o].0 < ces[jj].0);
                }
                assert(ces.take(jj + 1) =~= ces.take(jj).push(ces[jj]));
                assert forall|k2: u64| #[trigger]
                    view_lookup(output@, k2) == match view_lookup(ces.take(jj + 1), k2) {
                        Some(ValueSpec::Tombstone) => None::<ValueSpec>,
                        Some(v) => Some(v),
                        None => None::<ValueSpec>,
                    } by {
                    assert(view_lookup(pre_out, k2) == match view_lookup(ces.take(jj), k2) {
                        Some(ValueSpec::Tombstone) => None::<ValueSpec>,
                        Some(v) => Some(v),
                        None => None::<ValueSpec>,
                    });
                    crate::skip_list::lemma_find_key_append(
                        ces.take(jj),
                        seq![ces[jj]],
                        k2,
                    );
                    assert(ces.take(jj) + seq![ces[jj]] =~= ces.take(jj + 1));
                    assert(seq![ces[jj]][0] == ces[jj]);
                    assert(seq![ces[jj]].skip(1) =~= Seq::<(u64, TableValue)>::empty());
                    assert(find_key(Seq::<(u64, TableValue)>::empty(), k2) is None);
                    if k2 == key {
                        assert(find_key(ces.take(jj), k2) is None) by {
                            assert(forall|i: int|
                                0 <= i < jj ==> (#[trigger] ces.take(jj)[i]).0 == ces[i].0);
                            crate::skip_list::lemma_find_key_absent(ces.take(jj), k2);
                        }
                        if keep {
                            assert(find_key(pre_out, k2) is None) by {
                                crate::skip_list::lemma_find_key_absent(pre_out, k2);
                            }
                            crate::skip_list::lemma_find_key_append(
                                pre_out,
                                seq![output@[output@.len() - 1]],
                                k2,
                            );
                            assert(pre_out + seq![output@[output@.len() - 1]] =~= output@);
                            assert(seq![output@[output@.len() - 1]][0]
                                == output@[output@.len() - 1]);
                            assert(seq![output@[output@.len() - 1]].skip(1) =~= Seq::<
                                (u64, TableValue),
                            >::empty());
                        } else {
                            assert(find_key(output@, k2) is None) by {
                                crate::skip_list::lemma_find_key_absent(output@, k2);
                            }
                            assert(ces[jj].1@ == ValueSpec::Tombstone);
                        }
                    } else {
                        if keep {
                            crate::skip_list::lemma_find_key_append(
                                pre_out,
                                seq![output@[output@.len() - 1]],
                                k2,
                            );
                            assert(pre_out + seq![output@[output@.len() - 1]] =~= output@);
                            assert(seq![output@[output@.len() - 1]][0]
                                == output@[output@.len() - 1]);
                            assert(seq![output@[output@.len() - 1]].skip(1) =~= Seq::<
                                (u64, TableValue),
                            >::empty());
                        }
                    }
                }
            }
        }
        proof {
            assert(ces.take(ces.len() as int) =~= ces);
        }
        proof {
            assert(pairs_weight(output@) <= stack_weight(stack)) by {
                assert(ces.take(ces.len() as int) =~= ces);
                assert(stack.take(tables@.len() as int) =~= stack);
            }
            lemma_pair_entries_weight(output@);
        }
        // write the merged run as a single table image
        let out = match write_sstable(&opts.db_options, &output, 0) {
            Ok(img) => img,
            Err(_) => {
                proof {
                    assert(false);
                }
                return Err(Errors::SSTABLE_CREATION_FAILED);
            },
        };
        if out.len() > usize::MAX - 0x20000 {
            // the merged image would not leave room to be read back
            return Err(Errors::SSTABLE_CREATION_FAILED);
        }
        proof {
            let oes = image_entries(out@, bs);
            assert(oes == pair_entries(output@));
            lemma_pairs_lookup(output@);
            assert forall|key: u64| #[trigger]
                entry_lookup(oes, key) == stack_visible(stack, key) by {
                assert(entry_lookup(pair_entries(output@), key) == view_lookup(output@, key));
                assert(merged.lookup(key) == stack_lookup(stack, key));
                assert(view_lookup(ces, key) == merged.lookup(key));
            }
            assert forall|i: int|
                0 <= i < oes.len() implies (#[trigger] oes[i]).value != ValueSpec::Tombstone by {
                assert(oes[i].value == output@[i].1@);
            }
            crate::storage::sorted_string_table_writer::lemma_sstable_round_trip(
                out@,
                bs,
                pair_entries(output@),
            );
            assert(table_wf(out@, bs)) by {
                assert(entries_strictly_sorted(oes)) by {
                    assert forall|a: int, b: int|
                        0 <= a < b < oes.len() implies (#[trigger] oes[a]).key < (
                    #[trigger] oes[b]).key by {
                        assert(oes[a].key == output@[a].0);
                        assert(oes[b].key == output@[b].0);
                    }
                }
                assert forall|i: int|
                    0 <= i < oes.len() implies crate::storage::block::value_fits(
                    (#[trigger] oes[i]).value,
                ) by {
                    assert(oes[i].value == output@[i].1@);
                }
            }
        }
        Ok(Some(out))
    }
}

/// Two runs with sorted, distinct keys that record the same value for every
/// key are the same run.
pub proof fn lemma_sorted_lookup_unique(a: Seq<EntrySpec>, b: Seq<EntrySpec>)
    requires
        entries_strictly_sorted(a),
        entries_strictly_sorted(b),
        forall|k: u64| #[trigger] entry_lookup(a, k) == entry_lookup(b, k),
    ensures
        a == b,
    decreases a.len(),
{
    if a.len() == 0 && b.len() == 0 {
        assert(a =~= b);
    } else if a.len() == 0 {
        assert(entry_lookup(a, b[0].key) is None) by {
            lemma_entry_lookup_absent(a, b[0].key);
        }
        assert(entry_lookup(b, b[0].key) == Some(b[0].value)) by {
            lemma_entry_lookup_at(b, 0);
        }
        assert(false);
    } else if b.len() == 0 {
        assert(entry_lookup(b, a[0].key) is None) by {
            lemma_entry_lookup_absent(b, a[0].key);
        }
        assert(entry_lookup(a, a[0].key) == Some(a[0].value)) by {
            lemma_entry_lookup_at(a, 0);
        }
        assert(false);
    } else {
        // the heads carry the same smallest key and the same value
        assert(a[0].key == b[0].key) by {
            if a[0].key < b[0].key {
                lemma_entry_lookup_at(a, 0);
                assert(forall|i: int| 0 <= i < b.len() ==> (#[trigger] b[i]).key >= b[0].key);
                lemma_entry_lookup_absent(b, a[0].key);
            } else if b[0].key < a[0].key {
                lemma_entry_lookup_at(b, 0);
                assert(forall|i: int| 0 <= i < a.len() ==> (#[trigger] a[i]).key >= a[0].key);
                lemma_entry_lookup_absent(a, b[0].key);
            }
        }
        assert(a[0].value == b[0].value) by {
            lemma_entry_lookup_at(a, 0);
            lemma_entry_lookup_at(b, 0);
        }
        let ra = a.skip(1);
        let rb = b.skip(1);
        assert(forall|i: int| 0 <= i < ra.len() ==> ra[i] == a[i + 1]);
        assert(forall|i: int| 0 <= i < rb.len() ==> rb[i] == b[i + 1]);
        assert forall|k: u64| #[trigger] entry_lookup(ra, k) == entry_lookup(rb, k) by {
            if k == a[0].key {
                assert(forall|i: int| 0 <= i < ra.len() ==> (#[trigger] ra[i]).key != k);
                assert(forall|i: int| 0 <= i < rb.len() ==> (#[trigger] rb[i]).key != k);
                lemma_entry_lookup_absent(ra, k);
                lemma_entry_lookup_absent(rb, k);
            } else {
                assert(entry_lookup(a, k) == entry_lookup(ra, k));
                assert(entry_lookup(b, k) == entry_lookup(rb, k));
            }
        }
        lemma_sorted_lookup_unique(ra, rb);
        assert(a[0] == b[0]);
        assert forall|i: int| 0 <= i < a.len() implies a[i] == b[i] by {
            if i > 0 {
                assert(a[i] == ra[i - 1]);
                assert(b[i] == rb[i - 1]);
            }
        }
        assert(a =~= b);
    }
}

/// Compaction is idempotent: compacting the single run that a compaction
/// produced yields that run again.  A compacted run records, for every key,
/// what a reader of the original stack saw, and holds no tombstones; a second
/// merge over just that run can therefore neither change a value nor drop a
/// key.
pub proof fn lemma_compaction_idempotent(merged: Seq<EntrySpec>, merged_again: Seq<EntrySpec>)
    requires
        entries_strictly_sorted(merged),
        forall|i: int| 0 <= i < merged.len() ==> (#[trigger] merged[i]).value != ValueSpec::Tombstone,
        entries_strictly_sorted(merged_again),
        forall|k: u64| #[trigger]
            entry_lookup(merged_again, k) == stack_visible(seq![merged], k),
    ensures
        merged_again == merged,
{
    assert forall|k: u64| #[trigger] entry_lookup(merged_again, k) == entry_lookup(merged, k) by {
        assert(seq![merged].last() == merged);
        assert(seq![merged].drop_last() =~= Seq::<Seq<EntrySpec>>::empty());
        assert(stack_lookup(Seq::<Seq<EntrySpec>>::empty(), k) is None);
        assert(stack_lookup(seq![merged], k) == entry_lookup(merged, k));
        match entry_lookup(merged, k) {
            Some(v) => {
                assert(exists|i: int| 0 <= i < merged.len() && (#[trigger] merged[i]).value == v
                    && merged[i].key == k) by {
                    lemma_entry_lookup_witness(merged, k);
                }
                assert(v != ValueSpec::Tombstone);
            },
            None => {},
        }
    }
    lemma_sorted_lookup_unique(merged_again, merged);
}

/// A found value belongs to an entry with the looked-up key.
proof fn lemma_entry_lookup_witness(es: Seq<EntrySpec>, key: u64)
    requires
        entry_lookup(es, key) is Some,
    ensures
        exists|i: int|
            0 <= i < es.len() && (#[trigger] es[i]).value == entry_lookup(es, key).unwrap()
                && es[i].key == key,
    decreases es.len(),
{
    if es.len() > 0 {
        if es[0].key == key {
            assert(es[0].value == entry_lookup(es, key).unwrap() && es[0].key == key);
        } else {
            lemma_entry_lookup_witness(es.skip(1), key);
            let i = choose|i: int|
                0 <= i < es.skip(1).len() && (#[trigger] es.skip(1)[i]).value == entry_lookup(
                    es.skip(1),
                    key,
                ).unwrap() && es.skip(1)[i].key == key;
            assert(es[i + 1].value == entry_lookup(es, key).unwrap() && es[i + 1].key == key);
        }
    }
}

/// The lookup over encoded pairs agrees with the lookup over their entries.
pub proof fn lemma_pairs_lookup(ts: Seq<(u64, TableValue)>)
    ensures
        forall|key: u64| #[trigger]
            entry_lookup(pair_entries(ts), key) == view_lookup(ts, key),
    decreases ts.len(),
{
    if ts.len() == 0 {
        assert forall|key: u64| #[trigger]
            entry_lookup(pair_entries(ts), key) == view_lookup(ts, key) by {
            assert(pair_entries(ts).len() == 0);
            assert(entry_lookup(pair_entries(ts), key) is None);
            assert(find_key(ts, key) is None);
        }
    } else {
        lemma_pairs_lookup(ts.skip(1));
        assert forall|key: u64| #[trigger]
            entry_lookup(pair_entries(ts), key) == view_lookup(ts, key) by {
            assert(pair_entries(ts).skip(1) =~= pair_entries(ts.skip(1)));
            assert(pair_entries(ts)[0] == (EntrySpec { key: ts[0].0, value: ts[0].1@ }));
            assert(entry_lookup(pair_entries(ts.skip(1)), key) == view_lookup(ts.skip(1), key));
        }
    }
}

} // verus!
