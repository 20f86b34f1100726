//! The database facade: an ordered key-value store over a memtable, a
//! write-ahead log and a stack of SSTables.

pub mod dharma_opts;

use vstd::prelude::*;

use crate::errors::Errors;
use crate::memtable::Memtable;
use crate::options::DharmaOpts;
use crate::persistence::{flushed_visible, last_value, Persistence};
use crate::storage::block::{value_fits, value_weight, EntrySpec, TableValue, ValueSpec};
use crate::storage::compaction::stack_visible;
use crate::storage::sorted_string_table_writer::{clone_table_value, table_wf};

verus! {

/// The last value an entry sequence records for a key.
pub open spec fn entries_last_value(es: Seq<EntrySpec>, key: u64) -> Option<ValueSpec>
    decreases es.len(),
{
    if es.len() == 0 {
        None
    } else if es.last().key == key {
        Some(es.last().value)
    } else {
        entries_last_value(es.drop_last(), key)
    }
}

/// The batch-level last value is the entry-level last value.
proof fn lemma_last_value_entries(ts: Seq<(u64, TableValue)>, key: u64)
    ensures
        last_value(ts, key) == entries_last_value(
            crate::storage::sorted_string_table_writer::pair_entries(ts),
            key,
        ),
    decreases ts.len(),
{
    let es = crate::storage::sorted_string_table_writer::pair_entries(ts);
    if ts.len() > 0 {
        lemma_last_value_entries(ts.drop_last(), key);
        assert(es.last() == (EntrySpec { key: ts.last().0, value: ts.last().1@ }));
        assert(es.drop_last() =~= crate::storage::sorted_string_table_writer::pair_entries(
            ts.drop_last(),
        ));
    }
}

/// On a batch whose keys are sorted and distinct, the last value for a key is
/// simply the value stored under it.
proof fn lemma_last_value_sorted(ts: Seq<(u64, TableValue)>, key: u64)
    requires
        crate::skip_list::keys_strictly_sorted(ts),
    ensures
        last_value(ts, key) == crate::memtable::view_lookup(ts, key),
    decreases ts.len(),
{
    if ts.len() > 0 {
        let front = ts.drop_last();
        assert(forall|i: int| 0 <= i < front.len() ==> front[i] == ts[i]);
        if ts.last().0 == key {
            assert(forall|i: int| 0 <= i < front.len() ==> (#[trigger] front[i]).0 != key);
            crate::skip_list::lemma_find_key_absent(front, key);
            crate::skip_list::lemma_find_key_append(front, seq![ts.last()], key);
            assert(front + seq![ts.last()] =~= ts);
            assert(seq![ts.last()][0] == ts.last());
        } else {
            lemma_last_value_sorted(front, key);
            crate::skip_list::lemma_find_key_append(front, seq![ts.last()], key);
            assert(front + seq![ts.last()] =~= ts);
            assert(seq![ts.last()][0] == ts.last());
            assert(seq![ts.last()].skip(1) =~= Seq::<(u64, TableValue)>::empty());
            assert(crate::skip_list::find_key(Seq::<(u64, TableValue)>::empty(), key) is None);
        }
    }
}

/// Represents the database interface through which data is persisted and
/// retrieved.
///
/// The store supports three primary operations: `get` retrieves the value
/// associated with a key, `put` associates a value with a key, and `delete`
/// removes the association by storing the tombstone.
pub struct Dharma {
    pub options: DharmaOpts,
    pub memory: Memtable,
    pub persistence: Persistence,
    pub size: usize,
}

impl Dharma {
    /// The database invariant: valid configuration, well-formed memtable and
    /// persistence layer, agreeing block sizes.
    pub open spec fn wf(self) -> bool {
        &&& self.options.valid()
        &&& self.memory.wf()
        &&& self.persistence.wf()
        &&& self.persistence.options.block_size_in_bytes == self.options.block_size_in_bytes
        &&& self.persistence.options.sparse_index_sampling_rate
            == self.options.sparse_index_sampling_rate
        &&& forall|i: int|
            0 <= i < self.memory.entries().len() ==> value_fits(
                (#[trigger] self.memory.entries()[i]).1@,
            )
    }

    /// The authoritative value of a key: the memtable wins over the tables,
    /// the newest table wins over older ones, and a tombstone means absence.
    pub open spec fn visible(self, key: u64) -> Option<ValueSpec> {
        match self.memory.lookup(key) {
            Some(ValueSpec::Tombstone) => None,
            Some(v) => Some(v),
            None => stack_visible(self.persistence.stack(), key),
        }
    }

    /// What `get` returns for a key: the memtable if it holds the key, and
    /// otherwise the table the sparse index points at.
    pub open spec fn spec_get(self, key: u64) -> Option<ValueSpec> {
        match self.memory.lookup(key) {
            Some(ValueSpec::Tombstone) => None,
            Some(v) => Some(v),
            None => self.persistence.spec_get(key),
        }
    }

    /// Create a new database instance over the table images found in the data
    /// directory.  An existing write-ahead log signals an unclean shutdown:
    /// creation fails with `DB_PATH_DIRTY` and the caller must go through
    /// `recover`.
    pub fn create(options: DharmaOpts, existing_tables: Vec<Vec<u8>>, wal_exists: bool) -> (r:
        Result<Dharma, Errors>)
        requires
            options.valid(),
            forall|t: int|
                0 <= t < existing_tables@.len() ==> table_wf(
                    (#[trigger] existing_tables@[t])@,
                    options.block_size_in_bytes as int,
                ),
        ensures
            match r {
                Ok(db) => {
                    &&& !wal_exists
                    &&& db.wf()
                    &&& db.options == options
                    &&& db.memory.entries().len() == 0
                    &&& db.persistence.tables@ == existing_tables@
                    &&& db.size == 0
                },
                Err(e) => e == Errors::DB_PATH_DIRTY && wal_exists,
            },
    {
        let persistence = match Persistence::create(options.duplicate(), existing_tables, wal_exists) {
            Ok(p) => p,
            Err(e) => {
                return Err(e);
            },
        };
        Ok(Dharma { options, memory: Memtable::new(), persistence, size: 0 })
    }

    /// Get the value associated with the supplied key.
    pub fn get(&mut self, key: &u64) -> (r: Result<Option<TableValue>, Errors>)
        requires
            old(self).wf(),
        ensures
            final(self).wf(),
            final(self).memory.entries() == old(self).memory.entries(),
            final(self).persistence.tables@ == old(self).persistence.tables@,
            final(self).persistence.log@ == old(self).persistence.log@,
            final(self).persistence.index.entries() == old(self).persistence.index.entries(),
            final(self).options == old(self).options,
            final(self).size == old(self).size,
            match r {
                Ok(found) => old(self).spec_get(*key) == match found {
                    Some(tv) => Some(tv@),
                    None => None::<ValueSpec>,
                },
                Err(_) => false,
            },
    {
        let maybe_in_memory = self.memory.get(key);
        match maybe_in_memory {
            Some(value) => {
                if value.is_tombstone() {
                    Ok(None)
                } else {
                    Ok(Some(value))
                }
            },
            None => self.persistence.get(key),
        }
    }

    /// Associate the supplied value with the key.  The write goes to the
    /// write-ahead log and the memtable; when the in-memory size reaches the
    /// configured threshold the memtable is flushed to an SSTable.
    ///
    /// Fails only when the log or a table image would outgrow the address
    /// space; a put that leaves the stated room in the log and does not reach
    /// the flush threshold succeeds.
    pub fn put(&mut self, key: u64, value: TableValue) -> (r: Result<(), Errors>)
        requires
            old(self).wf(),
            value_fits(value@),
        ensures
            final(self).wf(),
            final(self).options == old(self).options,
            old(self).persistence.log@.len() + 2 * (value_weight(value@) + 9) + 2
                * old(self).options.block_size_in_bytes + 0x20000 <= usize::MAX && old(self).size
                + value_weight(value@) < old(self).options.memtable_size_in_bytes ==> r is Ok,
            match r {
                Ok(_) => {
                    &&& final(self).visible(key) == (match value@ {
                        ValueSpec::Tombstone => None::<ValueSpec>,
                        v => Some(v),
                    })
                    &&& forall|k2: u64|
                        k2 != key ==> #[trigger] final(self).visible(k2) == old(self).visible(k2)
                    &&& final(self).persistence.log@.len() == 0 || final(self).persistence.log.entries() == old(self).persistence.log.entries().push(
                        EntrySpec { key, value: value@ },
                    )
                    &&& old(self).size + value_weight(value@)
                        < old(self).options.memtable_size_in_bytes ==> {
                        &&& final(self).persistence.tables@ == old(self).persistence.tables@
                        &&& final(self).persistence.index.entries() == old(self).persistence.index.entries()
                        &&& final(self).persistence.log.entries() == old(self).persistence.log.entries().push(EntrySpec { key, value: value@ })
                        &&& final(self).memory.lookup(key) == Some(value@)
                        &&& final(self).size == old(self).size + value_weight(value@)
                    }
                },
                Err(e) => {
                    &&& e == Errors::WAL_WRITE_FAILED || e == Errors::SSTABLE_CREATION_FAILED
                    &&& final(self).persistence.tables@ == old(self).persistence.tables@
                    &&& final(self).persistence.log@ == old(self).persistence.log@ || final(self).persistence.log.entries() == old(self).persistence.log.entries().push(
                        EntrySpec { key, value: value@ },
                    )
                },
            },
    {
        let logged = clone_table_value(&value);
        match self.persistence.insert(key, logged) {
            Ok(_) => (),
            Err(_) => {
                return Err(Errors::WAL_WRITE_FAILED);
            },
        }
        let added: usize = match &value {
            TableValue::Data(d) => {
                if d.len() > usize::MAX - 9 {
                    usize::MAX
                } else {
                    9 + d.len()
                }
            },
            TableValue::Tombstone => 9,
        };
        let ghost value_view = value@;
        let ghost pre_mem = self.memory.entries();
        self.memory.insert(key, value);
        proof {
            assert forall|i: int|
                0 <= i < self.memory.entries().len() implies value_fits(
                (#[trigger] self.memory.entries()[i]).1@,
            ) by {
                if self.memory.entries()[i] != (key, value) {
                    let j = choose|j: int|
                        0 <= j < pre_mem.len() && pre_mem[j] == self.memory.entries()[i];
                }
            }
        }
        if self.size > usize::MAX - added {
            self.size = usize::MAX;
        } else {
            self.size = self.size + added;
        }
        let ghost pre_flush = *self;
        if self.size >= self.options.memtable_size_in_bytes {
            let flushed = self.flush();
            match flushed {
                Ok(_) => {
                    proof {
                        assert(final(self).visible(key) == pre_flush.visible(key));
                    }
                },
                Err(e) => {
                    return Err(e);
                },
            }
        }
        Ok(())
    }

    /// Delete the value associated with the key: store the tombstone.  Fails
    /// only as `put` does.
    pub fn delete(&mut self, key: u64) -> (r: Result<(), Errors>)
        requires
            old(self).wf(),
        ensures
            final(self).wf(),
            final(self).options == old(self).options,
            old(self).persistence.log@.len() + 2 * (value_weight(ValueSpec::Tombstone) + 9) + 2
                * old(self).options.block_size_in_bytes + 0x20000 <= usize::MAX && old(self).size
                + value_weight(ValueSpec::Tombstone) < old(self).options.memtable_size_in_bytes
                ==> r is Ok,
            match r {
                Ok(_) => {
                    &&& final(self).visible(key) is None
                    &&& forall|k2: u64|
                        k2 != key ==> #[trigger] final(self).visible(k2) == old(self).visible(k2)
                    &&& final(self).persistence.log@.len() == 0 || final(self).persistence.log.entries() == old(self).persistence.log.entries().push(
                        EntrySpec { key, value: ValueSpec::Tombstone },
                    )
                },
                Err(e) => e == Errors::WAL_WRITE_FAILED || e == Errors::SSTABLE_CREATION_FAILED,
            },
    {
        self.put(key, TableValue::Tombstone)
    }

    /// Flush the in-memory values to an SSTable.  Afterwards the memtable is
    /// empty, the write-ahead log is empty, and every key reads as before.
    /// The flush fails only when a table image would outgrow the address
    /// space; while the tables and the memtable leave the stated room, it
    /// succeeds.
    pub fn flush(&mut self) -> (r: Result<(), Errors>)
        requires
            old(self).wf(),
        ensures
            final(self).wf(),
            final(self).options == old(self).options,
            2 * (crate::storage::compaction::stack_weight(old(self).persistence.stack())
                + crate::storage::block::pairs_weight(old(self).memory.entries())) + 2
                * old(self).options.block_size_in_bytes + 0x20000 <= usize::MAX ==> r is Ok,
            match r {
                Ok(_) => {
                    &&& final(self).memory.entries().len() == 0
                    &&& final(self).size == 0
                    &&& forall|k: u64| #[trigger]
                        final(self).visible(k) == old(self).visible(k)
                    &&& old(self).memory.entries().len() == 0 ==> final(self).persistence.tables@
                        == old(self).persistence.tables@ && final(self).persistence.log@ == old(self).persistence.log@ && final(self).persistence.index.entries() == old(self).persistence.index.entries()
                    &&& old(self).memory.entries().len() > 0 ==> final(self).persistence.log@.len() == 0
                    &&& old(self).memory.entries().len() > 0 && old(self).persistence.tables@.len()
                        + 1 < old(self).persistence.compaction.spec_options().threshold as int
                        ==> final(self).persistence.tables@.len() == old(self).persistence.tables@.len() + 1
                    &&& old(self).memory.entries().len() > 0 && old(self).persistence.tables@.len()
                        + 1 >= old(self).persistence.compaction.spec_options().threshold as int
                        ==> final(self).persistence.tables@.len() == 1 && final(self).persistence.single_table_indexed()
                },
                Err(e) => {
                    &&& e == Errors::SSTABLE_CREATION_FAILED
                    &&& final(self).persistence.tables@ == old(self).persistence.tables@
                    &&& final(self).persistence.log@ == old(self).persistence.log@
                    &&& final(self).persistence.index.entries() == old(self).persistence.index.entries()
                    &&& final(self).memory.entries() == old(self).memory.entries()
                    &&& final(self).size == old(self).size
                },
            },
    {
        let values = self.memory.collect();
        let ghost mes = self.memory.entries();
        proof {
            assert(crate::skip_list::keys_strictly_sorted(values@)) by {
                assert(forall|i: int|
                    0 <= i < values@.len() ==> (#[trigger] values@[i]).0 == mes[i].0);
            }
            assert forall|i: int|
                0 <= i < values@.len() implies value_fits((#[trigger] values@[i]).1@) by {
                assert(values@[i].1@ == mes[i].1@);
            }
            crate::storage::block::lemma_pairs_weight_congruent(values@, mes);
        }
        let ghost old_stack = self.persistence.stack();
        match self.persistence.flush(&values) {
            Ok(_) => (),
            Err(e) => {
                return Err(e);
            },
        }
        self.reset_memory();
        proof {
            assert forall|k: u64| #[trigger]
                final(self).visible(k) == old(self).visible(k) by {
                if values@.len() == 0 {
                    assert(mes.len() == 0);
                    assert(old(self).memory.lookup(k) is None) by {
                        crate::skip_list::lemma_find_key_absent(mes, k);
                    }
                    assert(final(self).memory.lookup(k) is None) by {
                        crate::skip_list::lemma_find_key_absent(final(self).memory.entries(), k);
                    }
                } else {
                    assert(stack_visible(final(self).persistence.stack(), k) == flushed_visible(
                        old_stack,
                        values@,
                        k,
                    ));
                    lemma_last_value_sorted(values@, k);
                    assert(crate::memtable::view_lookup(values@, k) == old(self).memory.lookup(k))
                        by {
                        lemma_view_lookup_congruent(values@, mes, k);
                    }
                    assert(final(self).memory.lookup(k) is None) by {
                        crate::skip_list::lemma_find_key_absent(final(self).memory.entries(), k);
                    }
                }
            }
        }
        Ok(())
    }

    /// The approximate size in bytes of the data currently held in memory.
    pub fn in_memory_size(&self) -> (r: usize)
        ensures
            r == self.size,
    {
        self.size
    }

    /// The chronological stack of SSTable images, for the caller to mirror to
    /// the file system.
    pub fn sstable_images(&self) -> (r: &Vec<Vec<u8>>)
        ensures
            r@ == self.persistence.tables@,
    {
        self.persistence.sstable_images()
    }

    /// Create a fresh in-memory store after the current one was flushed.
    fn reset_memory(&mut self)
        ensures
            final(self).memory.entries().len() == 0,
            final(self).memory.wf(),
            final(self).size == 0,
            final(self).options == old(self).options,
            final(self).persistence == old(self).persistence,
    {
        self.memory = Memtable::new();
        self.size = 0;
    }

    /// Recover a database from an existing write-ahead log after a crash: the
    /// log's entries are replayed, in append order, into a fresh instance.
    /// This operation can lose a partial trailing write but never a write
    /// whose append had completed.
    pub fn recover(options: DharmaOpts, existing_tables: Vec<Vec<u8>>, wal_bytes: &Vec<u8>) -> (r:
        Result<Dharma, Errors>)
        requires
            options.valid(),
            wal_bytes@.len() <= usize::MAX - 0x20000,
            forall|t: int|
                0 <= t < existing_tables@.len() ==> table_wf(
                    (#[trigger] existing_tables@[t])@,
                    options.block_size_in_bytes as int,
                ),
        ensures
            ({
                let whole = wal_bytes@.len() as int - wal_bytes@.len() as int
                    % options.block_size_in_bytes as int;
                let wes = crate::storage::sorted_string_table_writer::image_entries(
                    wal_bytes@.take(whole),
                    options.block_size_in_bytes as int,
                );
                match r {
                    Ok(db) => {
                        &&& db.wf()
                        &&& forall|k: u64| #[trigger]
                            db.visible(k) == match entries_last_value(wes, k) {
                                Some(ValueSpec::Tombstone) => None::<ValueSpec>,
                                Some(v) => Some(v),
                                None => stack_visible(
                                    crate::storage::compaction::stack_of(
                                        existing_tables@,
                                        options.block_size_in_bytes as int,
                                    ),
                                    k,
                                ),
                            }
                    },
                    Err(e) => e == Errors::WAL_BOOTSTRAP_FAILED || e == Errors::WAL_WRITE_FAILED
                        || e == Errors::SSTABLE_CREATION_FAILED,
                }
            }),
            ({
                let whole = wal_bytes@.len() as int - wal_bytes@.len() as int
                    % options.block_size_in_bytes as int;
                !crate::storage::sorted_string_table_writer::payloads_decode(
                    crate::storage::format::image_payloads(
                        wal_bytes@.take(whole),
                        options.block_size_in_bytes as int,
                    ),
                ) ==> r == Err::<Dharma, Errors>(Errors::WAL_BOOTSTRAP_FAILED)
            }),
    {
        let ghost bsi = options.block_size_in_bytes as int;
        let data = match Persistence::recover(&options, wal_bytes) {
            Ok(pairs) => pairs,
            Err(e) => {
                return Err(e);
            },
        };
        let mut db = match Dharma::create(options, existing_tables, false) {
            Ok(d) => d,
            Err(_) => {
                proof {
                    assert(false);
                }
                return Err(Errors::WAL_BOOTSTRAP_FAILED);
            },
        };
        let ghost wes = crate::storage::sorted_string_table_writer::pair_entries(data@);
        let ghost tables_stack = db.persistence.stack();
        let mut i: usize = 0;
        proof {
            assert(data@.take(0) =~= Seq::<(u64, TableValue)>::empty());
            assert forall|k: u64| #[trigger]
                db.visible(k) == match last_value(data@.take(0), k) {
                    Some(ValueSpec::Tombstone) => None::<ValueSpec>,
                    Some(v) => Some(v),
                    None => stack_visible(tables_stack, k),
                } by {
                assert(db.memory.lookup(k) is None) by {
                    crate::skip_list::lemma_find_key_absent(db.memory.entries(), k);
                }
            }
        }
        while i < data.len()
            invariant
                i <= data@.len(),
                crate::storage::sorted_string_table_writer::payloads_decode(
                    crate::storage::format::image_payloads(
                        wal_bytes@.take(
                            wal_bytes@.len() as int - wal_bytes@.len() as int
                                % options.block_size_in_bytes as int,
                        ),
                        options.block_size_in_bytes as int,
                    ),
                ),
                db.wf(),
                forall|k: u64| #[trigger]
                    db.visible(k) == match last_value(data@.take(i as int), k) {
                        Some(ValueSpec::Tombstone) => None::<ValueSpec>,
                        Some(v) => Some(v),
                        None => stack_visible(tables_stack, k),
                    },
            decreases data@.len() - i,
        {
            let key = data[i].0;
            let value = clone_table_value(&data[i].1);
            let fits = match &value {
                TableValue::Data(d) => d.len() <= usize::MAX - 64,
                TableValue::Tombstone => true,
            };
            if !fits {
                // a payload this large cannot have come from a well-formed log
                return Err(Errors::WAL_BOOTSTRAP_FAILED);
            }
            let ghost pre_visible = *&db;
            match db.put(key, value) {
                Ok(_) => (),
                Err(e) => {
                    return Err(e);
                },
            }
            i = i + 1;
            proof {
                let jj = i as int - 1;
                assert(data@.take(jj + 1).last() == data@[jj]);
                assert(data@.take(jj + 1).drop_last() =~= data@.take(jj));
                assert forall|k: u64| #[trigger]
                    db.visible(k) == match last_value(data@.take(jj + 1), k) {
                        Some(ValueSpec::Tombstone) => None::<ValueSpec>,
                        Some(v) => Some(v),
                        None => stack_visible(tables_stack, k),
                    } by {
                    if k != key {
                        assert(db.visible(k) == pre_visible.visible(k));
                    }
                }
            }
        }
        proof {
            assert(data@.take(data@.len() as int) =~= data@);
            assert forall|k: u64| #[trigger]
                db.visible(k) == match entries_last_value(wes, k) {
                    Some(ValueSpec::Tombstone) => None::<ValueSpec>,
                    Some(v) => Some(v),
                    None => stack_visible(tables_stack, k),
                } by {
                lemma_last_value_entries(data@, k);
            }
        }
        Ok(db)
    }
}

/// In the state a compaction leaves behind - a single table with the sparse
/// index built from it - a lookup returns the authoritative value of every
/// key: the most recently put value, or absence after a delete.
pub proof fn lemma_get_authoritative(db: Dharma, key: u64)
    requires
        db.wf(),
        db.persistence.single_table_indexed(),
    ensures
        db.spec_get(key) == db.visible(key),
{
    crate::persistence::lemma_get_single_table(db.persistence, key);
}

/// Two pair sequences with the same keys and value contents have the same
/// lookups.
proof fn lemma_view_lookup_congruent(
    a: Seq<(u64, TableValue)>,
    b: Seq<(u64, TableValue)>,
    key: u64,
)
    requires
        a.len() == b.len(),
        forall|i: int| 0 <= i < a.len() ==> (#[trigger] a[i]).0 == b[i].0 && a[i].1@ == b[i].1@,
    ensures
        crate::memtable::view_lookup(a, key) == crate::memtable::view_lookup(b, key),
    decreases a.len(),
{
    if a.len() > 0 {
        if a[0].0 != key {
            assert(forall|i: int|
                0 <= i < a.skip(1).len() ==> (#[trigger] a.skip(1)[i]).0 == b.skip(1)[i].0
                    && a.skip(1)[i].1@ == b.skip(1)[i].1@);
            lemma_view_lookup_congruent(a.skip(1), b.skip(1), key);
        }
    }
}

} // verus!
