//! The persistence orchestrator: it owns the write-ahead log, the stack of
//! SSTable images, and the sparse index, and coordinates appends, lookups,
//! flushes and compaction.

use vstd::prelude::*;

use crate::errors::Errors;
use crate::memtable::view_lookup;
use crate::options::DharmaOpts;
use crate::skip_list::{keys_sorted, keys_strictly_sorted, upper_bound_idx};
use crate::sparse_index::{SparseIndex, TableAddress};
use crate::storage::block::{
    lemma_pair_entries_weight, lemma_pairs_weight_nonneg, pairs_weight, value_fits, value_weight,
    EntrySpec, TableValue, ValueSpec,
};
use crate::storage::compaction::{
    entry_lookup, lemma_entry_lookup_absent, lemma_entry_lookup_at, lemma_stack_weight_nonneg,
    lemma_stack_weight_push, stack_lookup, stack_of, stack_visible, stack_weight, BasicCompaction,
    BasicCompactionOpts,
};
use crate::storage::format::{image_payloads, payloads_from, wf_entry_pos};
use crate::storage::sorted_string_table_reader::SSTableReader;
use crate::storage::sorted_string_table_writer::{
    clone_table_value, image_entries, pair_entries, table_wf, write_sstable,
};
use crate::storage::write_ahead_log::WriteAheadLog;

verus! {

/// The value of the last pair with the given key: in a write batch, later
/// pairs overwrite earlier ones.
pub open spec fn last_value(ts: Seq<(u64, TableValue)>, key: u64) -> Option<ValueSpec>
    decreases ts.len(),
{
    if ts.len() == 0 {
        None
    } else if ts.last().0 == key {
        Some(ts.last().1@)
    } else {
        last_value(ts.drop_last(), key)
    }
}

/// What a reader sees for a key after a batch has been flushed on top of a
/// stack of tables: the batch's last value for the key wins, and tombstones
/// surface as absence.
pub open spec fn flushed_visible(
    stack: Seq<Seq<EntrySpec>>,
    batch: Seq<(u64, TableValue)>,
    key: u64,
) -> Option<ValueSpec> {
    match last_value(batch, key) {
        Some(ValueSpec::Tombstone) => None,
        Some(v) => Some(v),
        None => stack_visible(stack, key),
    }
}

/// Encapsulates all functionality that coordinates the write-ahead log, the
/// SSTables and the sparse index.  The SSTables are held as in-memory images
/// of their files, in chronological order; the surrounding shell mirrors them
/// to the file system.
pub struct Persistence {
    pub options: DharmaOpts,
    pub index: SparseIndex,
    pub log: WriteAheadLog,
    pub compaction: BasicCompaction,
    pub tables: Vec<Vec<u8>>,
}

impl Persistence {
    /// The block size of every table.
    pub open spec fn bs(self) -> int {
        self.options.block_size_in_bytes as int
    }

    /// The entries of the chronological stack of tables.
    pub open spec fn stack(self) -> Seq<Seq<EntrySpec>> {
        stack_of(self.tables@, self.bs())
    }

    /// A sparse-index address is valid: it names a table, and the byte offset
    /// addresses the first record header of an entry of that table whose key
    /// is the indexed key.
    pub open spec fn addr_valid(self, key: u64, addr: TableAddress) -> bool {
        &&& addr.table < self.tables@.len()
        &&& addr.offset < self.tables@[addr.table as int]@.len()
        &&& wf_entry_pos(self.tables@[addr.table as int]@, self.bs(), addr.offset as int)
        &&& exists|j: int|
            {
                &&& 0 <= j < image_entries(self.tables@[addr.table as int]@, self.bs()).len()
                &&& payloads_from(
                    self.tables@[addr.table as int]@,
                    self.bs(),
                    addr.offset as int,
                    Seq::<u8>::empty(),
                ) == image_payloads(self.tables@[addr.table as int]@, self.bs()).skip(j)
                &&& (#[trigger] image_entries(self.tables@[addr.table as int]@, self.bs())[j]).key
                    == key
            }
    }

    /// The orchestrator's invariant: configuration valid, log well formed,
    /// every table well formed, every index entry a valid address.
    pub open spec fn wf(self) -> bool {
        &&& self.options.valid()
        &&& self.log.wf()
        &&& self.log.spec_options().block_size_in_bytes == self.options.block_size_in_bytes
        &&& self.index.wf()
        &&& self.compaction.spec_options().wf()
        &&& self.compaction.spec_options().spec_db_options().block_size_in_bytes
            == self.options.block_size_in_bytes
        &&& forall|t: int| 0 <= t < self.tables@.len() ==> table_wf((#[trigger] self.tables@[t])@, self.bs())
        &&& forall|i: int|
            0 <= i < self.index.entries().len() ==> self.addr_valid(
                (#[trigger] self.index.entries()[i]).0,
                self.index.entries()[i].1,
            )
    }

    /// A single table stands, its first entry is indexed, and every index
    /// entry points into it: the state after a compaction, in which the
    /// index-directed lookup is authoritative.
    pub open spec fn single_table_indexed(self) -> bool {
        &&& self.tables@.len() == 1
        &&& forall|i: int|
            0 <= i < self.index.entries().len() ==> (#[trigger] self.index.entries()[i]).1.table
                == 0
        &&& image_entries(self.tables@[0]@, self.bs()).len() > 0 ==> self.index.lookup(
            image_entries(self.tables@[0]@, self.bs())[0].key,
        ) is Some
    }

    /// What a lookup returns: the index points at the greatest sampled key at
    /// most the target; the scan of that table from there finds the key if
    /// the table holds it, and a tombstone surfaces as absence.
    pub open spec fn spec_get(self, key: u64) -> Option<ValueSpec> {
        let es = self.index.entries();
        let ub = upper_bound_idx(es, key);
        if ub == 0 {
            None
        } else {
            let addr = es[ub - 1].1;
            match entry_lookup(image_entries(self.tables@[addr.table as int]@, self.bs()), key) {
                Some(ValueSpec::Tombstone) => None,
                Some(v) => Some(v),
                None => None,
            }
        }
    }

    /// Create the persistence layer over the table images found in the data
    /// directory, building the sparse index by scanning each table.  An
    /// existing write-ahead log signals an unclean shutdown: creation fails
    /// with `DB_PATH_DIRTY` and the caller must go through recovery.
    pub fn create(options: DharmaOpts, existing_tables: Vec<Vec<u8>>, wal_exists: bool) -> (r:
        Result<Persistence, Errors>)
        requires
            options.valid(),
            forall|t: int|
                0 <= t < existing_tables@.len() ==> table_wf(
                    (#[trigger] existing_tables@[t])@,
                    options.block_size_in_bytes as int,
                ),
        ensures
            match r {
                Ok(p) => {
                    &&& !wal_exists
                    &&& p.wf()
                    &&& p.options == options
                    &&& p.tables@ == existing_tables@
                    &&& p.log@.len() == 0
                    &&& forall|t: int|
                        0 <= t < existing_tables@.len() && image_entries(
                            (#[trigger] existing_tables@[t])@,
                            options.block_size_in_bytes as int,
                        ).len() > 0 ==> p.index.lookup(
                            image_entries(
                                existing_tables@[t]@,
                                options.block_size_in_bytes as int,
                            )[0].key,
                        ) is Some
                    &&& existing_tables@.len() == 1 ==> p.single_table_indexed()
                },
                Err(e) => e == Errors::DB_PATH_DIRTY && wal_exists,
            },
    {
        if wal_exists {
            return Err(Errors::DB_PATH_DIRTY);
        }
        let log = match WriteAheadLog::create(options.duplicate()) {
            Ok(l) => l,
            Err(_) => {
                proof {
                    assert(false);
                }
                return Err(Errors::WAL_LOG_CREATION_FAILED);
            },
        };
        let compaction = BasicCompaction::new(BasicCompactionOpts::from(options.duplicate()));
        let mut persistence = Persistence {
            options,
            index: SparseIndex::new(),
            log,
            compaction,
            tables: existing_tables,
        };
        // build the sparse index from the tables found on disk
        let mut t: usize = 0;
        let ghost bs = options.block_size_in_bytes as int;
        proof {
            assert(persistence.index.entries().len() == 0);
        }
        while t < persistence.tables.len()
            invariant
                t <= persistence.tables@.len(),
                persistence.wf(),
                persistence.options == options,
                persistence.tables@ == existing_tables@,
                persistence.log@.len() == 0,
                bs == options.block_size_in_bytes as int,
                forall|t2: int|
                    0 <= t2 < t && image_entries((#[trigger] existing_tables@[t2])@, bs).len() > 0
                        ==> persistence.index.lookup(
                        image_entries(existing_tables@[t2]@, bs)[0].key,
                    ) is Some,
                existing_tables@.len() <= 1 ==> forall|i: int|
                    0 <= i < persistence.index.entries().len() ==> (
                    #[trigger] persistence.index.entries()[i]).1.table == 0,
            decreases persistence.tables@.len() - t,
        {
            let ghost pre = persistence;
            persistence.populate_index_from_table(t);
            t = t + 1;
            proof {
                assert forall|t2: int|
                    0 <= t2 < t && image_entries((#[trigger] existing_tables@[t2])@, bs).len() > 0
                        implies persistence.index.lookup(
                    image_entries(existing_tables@[t2]@, bs)[0].key,
                ) is Some by {
                    if t2 < t - 1 {
                        assert(pre.index.lookup(image_entries(existing_tables@[t2]@, bs)[0].key)
                            is Some);
                    }
                }
                if existing_tables@.len() <= 1 {
                    assert forall|i: int|
                        0 <= i < persistence.index.entries().len() implies (
                    #[trigger] persistence.index.entries()[i]).1.table == 0 by {
                        if exists|j: int|
                            0 <= j < pre.index.entries().len() && pre.index.entries()[j]
                                == persistence.index.entries()[i] {
                            let j = choose|j: int|
                                0 <= j < pre.index.entries().len() && pre.index.entries()[j]
                                    == persistence.index.entries()[i];
                        }
                    }
                }
            }
        }
        Ok(persistence)
    }

    /// Associate the supplied value with the key.  The record is written to
    /// the write-ahead log so that it can be recovered in case of failure;
    /// the returned bytes are what the caller appends to the log file.  The
    /// insert fails only when the log image would outgrow the address space.
    pub fn insert(&mut self, key: u64, value: TableValue) -> (r: Result<Vec<u8>, Errors>)
        requires
            old(self).wf(),
            value_fits(value@),
        ensures
            old(self).log@.len() + 2 * (value_weight(value@) + 9) + 2
                * old(self).options.block_size_in_bytes + 0x20000 <= usize::MAX ==> r is Ok,
            final(self).wf(),
            final(self).tables@ == old(self).tables@,
            final(self).index.entries() == old(self).index.entries(),
            final(self).options == old(self).options,
            match r {
                Ok(_) => final(self).log.entries() == old(self).log.entries().push(
                    EntrySpec { key, value: value@ },
                ),
                Err(e) => e == Errors::DB_WRITE_FAILED && final(self).log@ == old(self).log@,
            },
    {
        match self.log.append(key, value) {
            Ok(delta) => Ok(delta),
            Err(_) => Err(Errors::DB_WRITE_FAILED),
        }
    }

    /// Record a deletion of the key: an insert of the tombstone value.  The
    /// delete fails only when the log image would outgrow the address space.
    pub fn delete(&mut self, key: u64) -> (r: Result<Vec<u8>, Errors>)
        requires
            old(self).wf(),
        ensures
            old(self).log@.len() + 2 * (value_weight(ValueSpec::Tombstone) + 9) + 2
                * old(self).options.block_size_in_bytes + 0x20000 <= usize::MAX ==> r is Ok,
            final(self).wf(),
            final(self).tables@ == old(self).tables@,
            final(self).index.entries() == old(self).index.entries(),
            final(self).options == old(self).options,
            match r {
                Ok(_) => final(self).log.entries() == old(self).log.entries().push(
                    EntrySpec { key, value: ValueSpec::Tombstone },
                ),
                Err(e) => e == Errors::DB_WRITE_FAILED && final(self).log@ == old(self).log@,
            },
    {
        self.insert(key, TableValue::Tombstone)
    }

    /// Replay the bytes of an existing write-ahead log, in append order.
    pub fn recover(options: &DharmaOpts, wal_bytes: &Vec<u8>) -> (r: Result<
        Vec<(u64, TableValue)>,
        Errors,
    >)
        requires
            options.valid(),
            wal_bytes@.len() <= usize::MAX - 0x20000,
        ensures
            ({
                let whole = wal_bytes@.len() as int - wal_bytes@.len() as int
                    % options.block_size_in_bytes as int;
                let img = wal_bytes@.take(whole);
                match r {
                    Ok(pairs) => {
                        &&& crate::storage::sorted_string_table_writer::payloads_decode(
                            image_payloads(img, options.block_size_in_bytes as int),
                        )
                        &&& pair_entries(pairs@) == image_entries(
                            img,
                            options.block_size_in_bytes as int,
                        )
                    },
                    Err(e) => {
                        &&& e == Errors::WAL_BOOTSTRAP_FAILED
                        &&& !crate::storage::sorted_string_table_writer::payloads_decode(
                            image_payloads(img, options.block_size_in_bytes as int),
                        )
                    },
                }
            }),
    {
        WriteAheadLog::recover(options, wal_bytes)
    }

    /// Get the value associated with the specified key from the SSTables:
    /// look the greatest sampled key at most the target up in the sparse
    /// index, seek the named table to the recorded offset, and scan forward
    /// until the key is found or passed.  A tombstone surfaces as absence.
    pub fn get(&mut self, key: &u64) -> (r: Result<Option<TableValue>, Errors>)
        requires
            old(self).wf(),
        ensures
            final(self).wf(),
            final(self).tables@ == old(self).tables@,
            final(self).log@ == old(self).log@,
            final(self).options == old(self).options,
            final(self).index.entries() == old(self).index.entries(),
            match r {
                Ok(found) => old(self).spec_get(*key) == match found {
                    Some(tv) => Some(tv@),
                    None => None::<ValueSpec>,
                },
                Err(_) => false,
            },
    {
        let ghost bs = self.bs();
        let ghost es = self.index.entries();
        let ghost ub = upper_bound_idx(es, *key);
        proof {
            crate::skip_list::lemma_upper_bound_idx(es, *key);
        }
        let maybe_address = self.index.get_nearest_address(key);
        let address = match maybe_address {
            Some(addr) => addr,
            None => {
                proof {
                    if ub > 0 {
                        assert(es[ub - 1].0 <= *key);
                    }
                }
                return Ok(None);
            },
        };
        // the floor entry of the index is the witness the lookup found
        let ghost addr_key: u64 = 0;
        proof {
            let i = choose|i: int|
                {
                    &&& 0 <= i < es.len()
                    &&& (#[trigger] es[i]).0 <= *key
                    &&& es[i].1 == address
                    &&& forall|j: int|
                        0 <= j < es.len() && (#[trigger] es[j]).0 <= *key ==> es[j].0 <= es[i].0
                };
            assert(ub > 0);
            assert(i < ub);
            assert(es[ub - 1].0 <= *key);
            assert(es[ub - 1].0 <= es[i].0);
            if i < ub - 1 {
                assert(es[i].0 < es[ub - 1].0);
            }
            assert(i == ub - 1);
            assert(self.addr_valid(es[i].0, address));
        }
        let ghost table_bytes = self.tables@[address.table as int]@;
        let ghost tes = image_entries(table_bytes, bs);
        let ghost payloads = image_payloads(table_bytes, bs);
        let ghost j0 = choose|j: int|
            {
                &&& 0 <= j < tes.len()
                &&& payloads_from(table_bytes, bs, address.offset as int, Seq::<u8>::empty())
                    == payloads.skip(j)
                &&& (#[trigger] tes[j]).key == es[ub - 1].0
            };
        let table_copy = crate::storage::block::copy_range(
            &self.tables[address.table],
            0,
            self.tables[address.table].len(),
        );
        proof {
            assert(table_copy@ =~= table_bytes);
        }
        let mut reader = match SSTableReader::from(table_copy, self.options.block_size_in_bytes) {
            Ok(rd) => rd,
            Err(_) => {
                proof {
                    assert(false);
                }
                return Err(Errors::SSTABLE_READ_FAILED);
            },
        };
        match reader.seek_closest(address.offset) {
            Ok(_) => (),
            Err(_) => {
                proof {
                    assert(false);
                }
                return Err(Errors::SSTABLE_INVALID_READ_OFFSET);
            },
        }
        let ghost mut m: int = j0;
        proof {
            assert(reader.remaining() == payloads.skip(m));
            assert forall|p: int| 0 <= p < m implies (#[trigger] tes[p]).key != *key by {
                assert(tes[p].key < tes[j0].key);
            }
            assert(old(self).spec_get(*key) == match entry_lookup(tes, *key) {
                Some(ValueSpec::Tombstone) => None::<ValueSpec>,
                Some(v) => Some(v),
                None => None::<ValueSpec>,
            });
        }
        loop
            invariant_except_break
                self.wf(),
                bs == self.bs(),
                self.tables@ == old(self).tables@,
                self.log@ == old(self).log@,
                self.options == old(self).options,
                self.index.entries() == old(self).index.entries(),
                address.table < self.tables@.len(),
                table_bytes == self.tables@[address.table as int]@,
                tes == image_entries(table_bytes, bs),
                payloads == image_payloads(table_bytes, bs),
                old(self).spec_get(*key) == match entry_lookup(tes, *key) {
                    Some(ValueSpec::Tombstone) => None::<ValueSpec>,
                    Some(v) => Some(v),
                    None => None::<ValueSpec>,
                },
                reader.wf(),
                reader.bytes() == table_bytes,
                reader.spec_block_size() == bs,
                0 <= m <= tes.len(),
                reader.remaining() == payloads.skip(m),
                forall|p: int| 0 <= p < m ==> (#[trigger] tes[p]).key != *key,
            ensures
                self.wf(),
                self.tables@ == old(self).tables@,
                self.log@ == old(self).log@,
                self.options == old(self).options,
                self.index.entries() == old(self).index.entries(),
                old(self).spec_get(*key) == match entry_lookup(tes, *key) {
                    Some(ValueSpec::Tombstone) => None::<ValueSpec>,
                    Some(v) => Some(v),
                    None => None::<ValueSpec>,
                },
                entry_lookup(tes, *key) is None,
            decreases tes.len() - m,
        {
            let more = reader.has_next();
            if !more {
                proof {
                    assert(payloads.skip(m).len() == 0);
                    assert(tes.len() == payloads.len());
                    assert(m == tes.len());
                    lemma_entry_lookup_absent(tes, *key);
                }
                break ;
            }
            proof {
                assert(payloads.skip(m).len() > 0);
                assert(tes.len() == payloads.len());
                assert(m < tes.len());
            }
            let sstable_value = reader.read();
            proof {
                assert(sstable_value.data@ == payloads.skip(m)[0]);
                assert(payloads.skip(m)[0] == payloads[m]);
            }
            let record = match sstable_value.to_record() {
                Ok(rec) => rec,
                Err(_) => {
                    proof {
                        assert(crate::storage::sorted_string_table_writer::payloads_decode(
                            payloads,
                        ));
                        assert(false);
                    }
                    return Err(Errors::RECORD_DESERIALIZATION_FAILED);
                },
            };
            proof {
                assert(record@ == tes[m]);
            }
            if record.key < *key {
                reader.next();
                proof {
                    assert(payloads.skip(m).skip(1) =~= payloads.skip(m + 1));
                    m = m + 1;
                }
            } else if record.key == *key {
                proof {
                    lemma_entry_lookup_at(tes, m);
                    assert(entry_lookup(tes, *key) == Some(tes[m].value));
                }
                if record.value.is_tombstone() {
                    proof {
                        assert(old(self).spec_get(*key) is None);
                    }
                    return Ok(None);
                }
                proof {
                    assert(old(self).spec_get(*key) == Some(record.value@));
                }
                return Ok(Some(record.value));
            } else {
                proof {
                    assert forall|p: int| 0 <= p < tes.len() implies (#[trigger] tes[p]).key
                        != *key by {
                        if p >= m {
                            assert(tes[p].key >= tes[m].key);
                        }
                    }
                    lemma_entry_lookup_absent(tes, *key);
                    assert(old(self).spec_get(*key) is None);
                }
                return Ok(None);
            }
        }
        proof {
            assert(old(self).spec_get(*key) is None);
        }
        Ok(None)
    }

    /// Flush a key-sorted batch of entries to a new SSTable: within the
    /// batch, a later pair for the same key overwrites an earlier one.  The
    /// write-ahead log is reset; when the number of tables reaches the
    /// compaction threshold they are merged into a single table; the sparse
    /// index is extended (or rebuilt, after compaction).
    pub fn flush(&mut self, values: &Vec<(u64, TableValue)>) -> (r: Result<(), Errors>)
        requires
            old(self).wf(),
            keys_sorted(values@),
            forall|i: int| 0 <= i < values@.len() ==> value_fits((#[trigger] values@[i]).1@),
        ensures
            final(self).wf(),
            final(self).options == old(self).options,
            final(self).compaction == old(self).compaction,
            match r {
                Ok(_) => {
                    &&& values@.len() == 0 ==> final(self).tables@ == old(self).tables@
                        && final(self).log@ == old(self).log@ && final(self).index.entries()
                        == old(self).index.entries()
                    &&& values@.len() > 0 ==> final(self).log@.len() == 0 && (forall|k: u64|
                        #[trigger] stack_visible(final(self).stack(), k) == flushed_visible(
                            old(self).stack(),
                            values@,
                            k,
                        ))
                    &&& values@.len() > 0 && old(self).tables@.len() + 1 < old(
                        self,
                    ).compaction.spec_options().threshold as int ==> {
                        &&& final(self).tables@.len() == old(self).tables@.len() + 1
                        &&& final(self).stack().drop_last() == old(self).stack()
                        &&& final(self).stack().last().len() > 0
                        &&& crate::storage::sorted_string_table_writer::entries_strictly_sorted(
                            final(self).stack().last(),
                        )
                        &&& forall|k: u64| #[trigger]
                            entry_lookup(final(self).stack().last(), k) == last_value(values@, k)
                        &&& forall|i: int|
                            0 <= i < final(self).index.entries().len()
                                ==> (#[trigger] final(self).index.entries()[i]).1.table
                                == old(self).tables@.len() || exists|j: int|
                                0 <= j < old(self).index.entries().len()
                                    && old(self).index.entries()[j]
                                    == final(self).index.entries()[i]
                        &&& final(self).index.lookup(final(self).stack().last()[0].key) is Some
                        &&& final(self).index.lookup(
                            final(self).stack().last()[0].key,
                        ).unwrap().table == old(self).tables@.len()
                        &&& forall|k: u64|
                            (#[trigger] old(self).index.lookup(k)) is Some
                                ==> final(self).index.lookup(k) is Some
                    }
                    &&& values@.len() > 0 && old(self).tables@.len() + 1 >= old(
                        self,
                    ).compaction.spec_options().threshold as int ==> final(self).tables@.len()
                        == 1 && final(self).single_table_indexed()
                },
                Err(e) => {
                    &&& e == Errors::SSTABLE_CREATION_FAILED
                    &&& final(self).tables@ == old(self).tables@
                    &&& final(self).log@ == old(self).log@
                    &&& final(self).index.entries() == old(self).index.entries()
                },
            },
            2 * (stack_weight(old(self).stack()) + pairs_weight(values@)) + 2
                * old(self).options.block_size_in_bytes + 0x20000 <= usize::MAX ==> r is Ok,
    {
        if values.len() == 0 {
            return Ok(());
        }
        let ghost bs = self.bs();
        let ghost old_stack = self.stack();
        // within the batch, the last write to a key wins
        let deduped = dedup_last(values);
        let image = match write_sstable(&self.options, &deduped, self.tables.len()) {
            Ok(img) => img,
            Err(_) => {
                proof {
                    assert(false);
                }
                return Err(Errors::SSTABLE_CREATION_FAILED);
            },
        };
        proof {
            lemma_pair_entries_weight(deduped@);
            lemma_stack_weight_nonneg(old_stack);
            lemma_pairs_weight_nonneg(deduped@);
        }
        if image.len() > usize::MAX - 0x20000 {
            // the image would not leave room to be read back
            return Err(Errors::SSTABLE_CREATION_FAILED);
        }
        proof {
            crate::storage::sorted_string_table_writer::lemma_sstable_round_trip(
                image@,
                bs,
                pair_entries(deduped@),
            );
            lemma_pair_entries_facts(deduped@);
            assert(table_wf(image@, bs));
            lemma_pair_entries_weight(deduped@);
            lemma_stack_weight_nonneg(old_stack);
            lemma_pairs_weight_nonneg(deduped@);
        }
        let ghost new_table_entries = image_entries(image@, bs);
        let ghost pre_push = self.tables@;
        self.tables.push(image);
        proof {
            assert(self.tables@ == pre_push.push(self.tables@.last()));
            assert forall|t: int|
                0 <= t < self.tables@.len() implies table_wf(
                (#[trigger] self.tables@[t])@,
                bs,
            ) by {
                if t < pre_push.len() {
                    assert(self.tables@[t] == pre_push[t]);
                }
            }
            // the old index addresses still point into the unchanged tables
            assert forall|i: int|
                0 <= i < self.index.entries().len() implies self.addr_valid(
                (#[trigger] self.index.entries()[i]).0,
                self.index.entries()[i].1,
            ) by {
                let entry = self.index.entries()[i];
                assert(old(self).addr_valid(entry.0, entry.1));
                assert(self.tables@[entry.1.table as int] == pre_push[entry.1.table as int]);
            }
            assert(self.stack() =~= old_stack.push(new_table_entries)) by {
                assert forall|t: int|
                    0 <= t < self.stack().len() implies self.stack()[t] == old_stack.push(
                    new_table_entries,
                )[t] by {
                    if t < old_stack.len() {
                        assert(self.tables@[t] == pre_push[t]);
                    }
                }
            }
        }
        let ghost stack_after_push = self.stack();
        proof {
            lemma_stack_weight_push(old_stack, new_table_entries);
            assert(stack_weight(stack_after_push) == stack_weight(old_stack) + pairs_weight(
                deduped@,
            ));
        }
        // compact when the tables have accumulated to the threshold; the
        // write-ahead log is reset only once the new table layout stands, so
        // that a failed flush leaves the log authoritative
        let threshold = self.compaction.threshold();
        if self.tables.len() >= threshold {
            let merged = match self.compaction.compact(&self.tables) {
                Ok(Some(img)) => img,
                Ok(None) => {
                    proof {
                        assert(false);
                    }
                    return Err(Errors::SSTABLE_CREATION_FAILED);
                },
                Err(_) => {
                    // undo the push: the original tables, index and log stay
                    // as they were
                    let ghost pre_pop = self.tables@;
                    let _ = self.tables.pop();
                    proof {
                        assert(self.tables@ =~= pre_push);
                        assert(self.tables@ == old(self).tables@);
                        assert forall|i: int|
                            0 <= i < self.index.entries().len() implies self.addr_valid(
                            (#[trigger] self.index.entries()[i]).0,
                            self.index.entries()[i].1,
                        ) by {
                            let entry = self.index.entries()[i];
                            assert(old(self).addr_valid(entry.0, entry.1));
                        }
                    }
                    return Err(Errors::SSTABLE_CREATION_FAILED);
                },
            };
            match self.log.reset() {
                Ok(_) => (),
                Err(_) => {
                    proof {
                        assert(false);
                    }
                    return Err(Errors::WAL_LOG_CREATION_FAILED);
                },
            }
            let ghost merged_entries = image_entries(merged@, bs);
            let ghost merged_entries_bytes = merged@;
            // swap: the merged table replaces every input table
            self.swap_sstables_with_compacted_table(merged);
            // rebuild the sparse index from the single remaining table
            self.index.reset();
            proof {
                assert(self.tables@.len() == 1);
                assert(self.tables@[0]@ == merged_entries_bytes);
                assert(table_wf(self.tables@[0]@, bs));
                assert(self.wf());
            }
            let ghost index_before_populate = self.index.entries();
            self.populate_index_from_table(0);
            proof {
                assert(self.single_table_indexed()) by {
                    assert(index_before_populate.len() == 0);
                    assert forall|i: int|
                        0 <= i < self.index.entries().len() implies (#[trigger] self.index.entries()[i]).1.table
                        == 0 by {
                        if exists|j: int|
                            0 <= j < index_before_populate.len() && index_before_populate[j]
                                == self.index.entries()[i] {
                            assert(false);
                        }
                    }
                }
                assert(self.stack() =~= seq![merged_entries]);
                assert forall|k: u64| #[trigger]
                    stack_visible(self.stack(), k) == flushed_visible(
                    old_stack,
                    values@,
                    k,
                ) by {
                    assert(entry_lookup(merged_entries, k) == stack_visible(stack_after_push, k));
                    assert(self.stack().len() == 1);
                    assert(self.stack().last() == merged_entries) by {
                        assert(self.tables@[0]@ == merged_entries_bytes);
                    }
                    assert(self.stack().drop_last() =~= Seq::<Seq<EntrySpec>>::empty());
                    assert(stack_lookup(Seq::<Seq<EntrySpec>>::empty(), k) is None);
                    assert(stack_lookup(self.stack(), k) == entry_lookup(merged_entries, k));
                    lemma_flushed_visible(old_stack, new_table_entries, values@, deduped@, k);
                    if stack_visible(stack_after_push, k) is Some {
                        let v = stack_visible(stack_after_push, k).unwrap();
                        assert(v != ValueSpec::Tombstone);
                    }
                }
            }
        } else {
            match self.log.reset() {
                Ok(_) => (),
                Err(_) => {
                    proof {
                        assert(false);
                    }
                    return Err(Errors::WAL_LOG_CREATION_FAILED);
                },
            }
            let table_number = self.tables.len() - 1;
            let ghost index_before_populate = self.index.entries();
            proof {
                assert(index_before_populate == old(self).index.entries());
            }
            self.populate_index_from_table(table_number);
            proof {
                assert forall|k: u64| #[trigger]
                    stack_visible(self.stack(), k) == flushed_visible(
                    old_stack,
                    values@,
                    k,
                ) by {
                    lemma_flushed_visible(old_stack, new_table_entries, values@, deduped@, k);
                }
                assert(self.stack().last() == new_table_entries);
                assert(self.stack().drop_last() =~= old_stack);
                crate::storage::compaction::lemma_pairs_lookup(deduped@);
                assert forall|k: u64| #[trigger]
                    entry_lookup(self.stack().last(), k) == last_value(values@, k) by {
                    assert(entry_lookup(new_table_entries, k) == view_lookup(deduped@, k));
                }
                assert(new_table_entries.len() > 0) by {
                    assert(new_table_entries == pair_entries(deduped@));
                }
            }
        }
        Ok(())
    }

    /// Replace every table with the merged table, as table number zero.
    fn swap_sstables_with_compacted_table(&mut self, compacted: Vec<u8>)
        ensures
            final(self).tables@.len() == 1,
            final(self).tables@[0] == compacted,
            final(self).options == old(self).options,
            final(self).log == old(self).log,
            final(self).index == old(self).index,
            final(self).compaction == old(self).compaction,
    {
        self.tables = Vec::new();
        self.tables.push(compacted);
    }

    /// The chronological stack of table images.
    pub fn sstable_images(&self) -> (r: &Vec<Vec<u8>>)
        ensures
            r@ == self.tables@,
    {
        &self.tables
    }

    /// Scan the table at `table_number` and record every
    /// `sparse_index_sampling_rate`-th entry in the sparse index, keyed by the
    /// entry's key and addressed by the byte offset of its first record.
    fn populate_index_from_table(&mut self, table_number: usize)
        requires
            old(self).wf(),
            table_number < old(self).tables@.len(),
        ensures
            final(self).wf(),
            final(self).tables@ == old(self).tables@,
            final(self).log@ == old(self).log@,
            final(self).options == old(self).options,
            final(self).compaction == old(self).compaction,
            forall|i: int|
                0 <= i < final(self).index.entries().len()
                    ==> ((#[trigger] final(self).index.entries()[i]).1.table == table_number
                    && exists|m: int|
                    0 <= m < image_entries(
                        old(self).tables@[table_number as int]@,
                        old(self).bs(),
                    ).len() && m % old(self).options.sparse_index_sampling_rate as int == 0
                        && final(self).index.entries()[i].0 == image_entries(
                        old(self).tables@[table_number as int]@,
                        old(self).bs(),
                    )[m].key) || exists|j: int|
                    0 <= j < old(self).index.entries().len() && old(self).index.entries()[j]
                        == final(self).index.entries()[i],
            forall|m: int|
                0 <= m < image_entries(old(self).tables@[table_number as int]@, old(self).bs()).len()
                    && m % old(self).options.sparse_index_sampling_rate as int == 0 ==> (
                #[trigger] final(self).index.lookup(
                    image_entries(old(self).tables@[table_number as int]@, old(self).bs())[m].key,
                )) is Some && final(self).index.lookup(
                    image_entries(old(self).tables@[table_number as int]@, old(self).bs())[m].key,
                ).unwrap().table == table_number,
            forall|k: u64|
                (#[trigger] old(self).index.lookup(k)) is Some ==> final(self).index.lookup(
                    k,
                ) is Some,
            image_entries(old(self).tables@[table_number as int]@, old(self).bs()).len() > 0
                ==> final(self).index.lookup(
                image_entries(old(self).tables@[table_number as int]@, old(self).bs())[0].key,
            ) is Some && final(self).index.lookup(
                image_entries(old(self).tables@[table_number as int]@, old(self).bs())[0].key,
            ).unwrap().table == table_number,
    {
        let ghost bs = self.bs();
        let ghost table_bytes = self.tables@[table_number as int]@;
        let ghost tes = image_entries(table_bytes, bs);
        let table_copy = crate::storage::block::copy_range(
            &self.tables[table_number],
            0,
            self.tables[table_number].len(),
        );
        proof {
            assert(table_copy@ =~= table_bytes);
        }
        let mut reader = match SSTableReader::from(table_copy, self.options.block_size_in_bytes) {
            Ok(rd) => rd,
            Err(_) => {
                proof {
                    assert(false);
                }
                return ;
            },
        };
        let mut counter: usize = 0;
        let ghost mut m: int = 0;
        proof {
            assert(reader.remaining() == image_payloads(table_bytes, bs).skip(0));
            assert(image_payloads(table_bytes, bs).skip(0) =~= image_payloads(table_bytes, bs));
            assert forall|i: int|
                0 <= i < self.index.entries().len() implies ((#[trigger] self.index.entries()[i]).1.table
                == table_number && exists|m2: int|
                0 <= m2 < m && m2 % self.options.sparse_index_sampling_rate as int == 0
                    && self.index.entries()[i].0 == tes[m2].key) || exists|j: int|
                0 <= j < old(self).index.entries().len() && old(self).index.entries()[j]
                    == self.index.entries()[i] by {
                let j = i;
                assert(0 <= j < old(self).index.entries().len() && old(self).index.entries()[j]
                    == self.index.entries()[i]);
            }
        }
        loop
            invariant_except_break
                self.wf(),
                self.tables@ == old(self).tables@,
                self.log@ == old(self).log@,
                self.options == old(self).options,
                self.compaction == old(self).compaction,
                table_number < self.tables@.len(),
                bs == self.bs(),
                table_bytes == self.tables@[table_number as int]@,
                tes == image_entries(table_bytes, bs),
                reader.wf(),
                reader.bytes() == table_bytes,
                reader.spec_block_size() == bs,
                0 <= m <= tes.len(),
                reader.remaining() == image_payloads(table_bytes, bs).skip(m),
                counter as int == m,
                forall|i: int|
                    0 <= i < self.index.entries().len() ==> ((#[trigger] self.index.entries()[i]).1.table
                        == table_number && exists|m2: int|
                        0 <= m2 < m && m2 % self.options.sparse_index_sampling_rate as int == 0
                            && self.index.entries()[i].0 == tes[m2].key) || exists|j: int|
                        0 <= j < old(self).index.entries().len() && old(self).index.entries()[j]
                            == self.index.entries()[i],
                forall|m2: int|
                    0 <= m2 < m && m2 % self.options.sparse_index_sampling_rate as int == 0 ==> (
                    #[trigger] self.index.lookup(tes[m2].key)) is Some && self.index.lookup(
                        tes[m2].key,
                    ).unwrap().table == table_number,
                forall|k: u64|
                    (#[trigger] old(self).index.lookup(k)) is Some ==> self.index.lookup(
                        k,
                    ) is Some,
            ensures
                self.wf(),
                self.tables@ == old(self).tables@,
                self.log@ == old(self).log@,
                self.options == old(self).options,
                self.compaction == old(self).compaction,
                forall|i: int|
                    0 <= i < self.index.entries().len() ==> ((#[trigger] self.index.entries()[i]).1.table
                        == table_number && exists|m2: int|
                        0 <= m2 < tes.len() && m2
                            % self.options.sparse_index_sampling_rate as int == 0
                            && self.index.entries()[i].0 == tes[m2].key) || exists|j: int|
                        0 <= j < old(self).index.entries().len() && old(self).index.entries()[j]
                            == self.index.entries()[i],
                forall|m2: int|
                    0 <= m2 < tes.len() && m2 % self.options.sparse_index_sampling_rate as int == 0
                        ==> (#[trigger] self.index.lookup(tes[m2].key)) is Some
                        && self.index.lookup(tes[m2].key).unwrap().table == table_number,
                forall|k: u64|
                    (#[trigger] old(self).index.lookup(k)) is Some ==> self.index.lookup(
                        k,
                    ) is Some,
                tes.len() > 0 ==> self.index.lookup(tes[0].key) is Some && self.index.lookup(
                    tes[0].key,
                ).unwrap().table == table_number,
            decreases tes.len() - m,
        {
            let more = reader.has_next();
            if !more {
                proof {
                    assert(image_payloads(table_bytes, bs).skip(m).len() == 0);
                    assert(tes.len() == image_payloads(table_bytes, bs).len());
                    assert(m == tes.len());
                }
                break ;
            }
            proof {
                assert(image_payloads(table_bytes, bs).skip(m).len() > 0);
                assert(tes.len() == image_payloads(table_bytes, bs).len());
                assert(m < tes.len());
            }
            let rate = self.options.sparse_index_sampling_rate as usize;
            if counter % rate == 0 {
                let sstable_value = reader.read();
                let ghost payloads = image_payloads(table_bytes, bs);
                proof {
                    assert(sstable_value.data@ == payloads.skip(m)[0]);
                    assert(payloads.skip(m)[0] == payloads[m]);
                }
                let record = match sstable_value.to_record() {
                    Ok(rec) => rec,
                    Err(_) => {
                        proof {
                            assert(crate::storage::sorted_string_table_writer::payloads_decode(
                                payloads,
                            ));
                            assert(false);
                        }
                        return ;
                    },
                };
                proof {
                    assert(record@ == tes[m]);
                }
                let address = TableAddress::new(table_number, sstable_value.offset);
                let ghost pre_index = self.index;
                proof {
                    assert(crate::storage::sorted_string_table_writer::entries_strictly_sorted(
                        tes,
                    ));
                }
                self.index.update(record.key, address);
                proof {
                    // lookups of other sampled keys, and of keys the index
                    // held before, are untouched by this upsert
                    assert forall|m2: int|
                        0 <= m2 < m && m2 % self.options.sparse_index_sampling_rate as int == 0
                            implies (#[trigger] self.index.lookup(tes[m2].key)) is Some
                        && self.index.lookup(tes[m2].key).unwrap().table == table_number by {
                        assert(tes[m2].key != record.key);
                    }
                    assert forall|k: u64|
                        (#[trigger] old(self).index.lookup(k)) is Some implies self.index.lookup(
                        k,
                    ) is Some by {
                        if k != record.key {
                            assert(self.index.lookup(k) == pre_index.lookup(k));
                        }
                    }
                    assert forall|i: int|
                        0 <= i < self.index.entries().len() implies ((
                    #[trigger] self.index.entries()[i]).1.table == table_number && exists|m2: int|
                        0 <= m2 < m + 1 && m2 % self.options.sparse_index_sampling_rate as int
                            == 0 && self.index.entries()[i].0 == tes[m2].key) || exists|j: int|
                        0 <= j < old(self).index.entries().len() && old(self).index.entries()[j]
                            == self.index.entries()[i] by {
                        if self.index.entries()[i] == (record.key, address) {
                            assert(0 <= m < m + 1 && m
                                % self.options.sparse_index_sampling_rate as int == 0
                                && self.index.entries()[i].0 == tes[m].key
                                && self.index.entries()[i].1.table == table_number);
                        } else {
                            let j = choose|j: int|
                                0 <= j < pre_index.entries().len() && pre_index.entries()[j]
                                    == self.index.entries()[i];
                        }
                    }
                }
                proof {
                    // the new index entry is a valid address for the key
                    assert(self.addr_valid(record.key, address)) by {
                        assert(payloads_from(table_bytes, bs, sstable_value.offset as int, Seq::<
                            u8,
                        >::empty()) == payloads.skip(m));
                        assert(image_entries(table_bytes, bs)[m].key == record.key);
                    }
                    assert forall|i: int|
                        0 <= i < self.index.entries().len() implies self.addr_valid(
                        (#[trigger] self.index.entries()[i]).0,
                        self.index.entries()[i].1,
                    ) by {
                        if self.index.entries()[i] == (record.key, address) {
                        } else {
                            let j = choose|j: int|
                                0 <= j < pre_index.entries().len() && pre_index.entries()[j]
                                    == self.index.entries()[i];
                        }
                    }
                    if m == 0 {
                        assert(self.index.lookup(tes[0].key) == Some(address));
                    }
                }
            }
            reader.next();
            proof {
                assert(image_payloads(table_bytes, bs).skip(m).skip(1) =~= image_payloads(
                    table_bytes,
                    bs,
                ).skip(m + 1));
                m = m + 1;
                crate::storage::format::lemma_payloads_count(
                    table_bytes,
                    bs,
                    0,
                    Seq::<u8>::empty(),
                );
                assert(tes.len() <= table_bytes.len());
            }
            counter = counter + 1;
        }
    }
}

/// Every sparse-index entry addresses a valid position: decoding the named
/// table from the recorded byte offset yields, as its first entry, an entry
/// whose key is the indexed key.
pub proof fn lemma_sparse_index_addresses(p: Persistence, i: int)
    requires
        p.wf(),
        0 <= i < p.index.entries().len(),
    ensures
        p.addr_valid(p.index.entries()[i].0, p.index.entries()[i].1),
{
}

/// When a single table stands and the sparse index was built from it, the
/// lookup that the index directs agrees with what a reader of the stack sees:
/// the authoritative value of every key, with tombstones as absence.
pub proof fn lemma_get_single_table(p: Persistence, key: u64)
    requires
        p.wf(),
        p.single_table_indexed(),
    ensures
        p.spec_get(key) == stack_visible(p.stack(), key),
{
    let es = p.index.entries();
    let tes = image_entries(p.tables@[0]@, p.bs());
    let ub = upper_bound_idx(es, key);
    crate::skip_list::lemma_upper_bound_idx(es, key);
    assert(p.stack().len() == 1);
    assert(p.stack().last() == tes);
    assert(p.stack().drop_last() =~= Seq::<Seq<EntrySpec>>::empty());
    assert(stack_lookup(Seq::<Seq<EntrySpec>>::empty(), key) is None);
    assert(stack_lookup(p.stack(), key) == entry_lookup(tes, key));
    if ub == 0 {
        // no indexed key is at most the target, so no table entry is either
        assert(entry_lookup(tes, key) is None) by {
            if exists|j: int| 0 <= j < tes.len() && (#[trigger] tes[j]).key == key {
                let j = choose|j: int| 0 <= j < tes.len() && (#[trigger] tes[j]).key == key;
                assert(tes.len() > 0);
                assert(tes[0].key <= tes[j].key);
                assert(p.index.lookup(tes[0].key) is Some);
                crate::skip_list::lemma_find_key_some_means_present(es, tes[0].key);
                let w = choose|w: int| 0 <= w < es.len() && (#[trigger] es[w]).0 == tes[0].key;
                assert(es[w].0 <= key);
                assert(false);
            }
            lemma_entry_lookup_absent(tes, key);
        }
    } else {
        assert(es[ub - 1].1.table == 0);
    }
}

/// Collapse a key-sorted batch so that only the last pair for each key
/// remains: the result has strictly increasing keys, and looking a key up in
/// it gives the batch's last value for that key.
fn dedup_last(values: &Vec<(u64, TableValue)>) -> (r: Vec<(u64, TableValue)>)
    requires
        keys_sorted(values@),
    ensures
        keys_strictly_sorted(r@),
        forall|k: u64| #[trigger] view_lookup(r@, k) == last_value(values@, k),
        forall|o: int|
            0 <= o < r@.len() ==> exists|j: int|
                0 <= j < values@.len() && (#[trigger] r@[o]).0 == values@[j].0 && r@[o].1@
                    == values@[j].1@,
        r@.len() == 0 <==> values@.len() == 0,
        pairs_weight(r@) <= pairs_weight(values@),
{
    let mut output: Vec<(u64, TableValue)> = Vec::new();
    let mut i: usize = 0;
    proof {
        assert(values@.take(0) =~= Seq::<(u64, TableValue)>::empty());
        assert(pairs_weight(Seq::<(u64, TableValue)>::empty()) == 0);
    }
    while i < values.len()
        invariant
            keys_sorted(values@),
            i <= values@.len(),
            keys_strictly_sorted(output@),
            i == 0 <==> output@.len() == 0,
            i > 0 ==> output@.last().0 == values@[i - 1].0,
            forall|k: u64| #[trigger]
                view_lookup(output@, k) == last_value(values@.take(i as int), k),
            forall|o: int|
                0 <= o < output@.len() ==> exists|j: int|
                    0 <= j < values@.len() && (#[trigger] output@[o]).0 == values@[j].0
                        && output@[o].1@ == values@[j].1@,
            pairs_weight(output@) <= pairs_weight(values@.take(i as int)),
        decreases values@.len() - i,
    {
        let key = values[i].0;
        let value = clone_table_value(&values[i].1);
        let ghost pre = output@;
        let mut popped = false;
        if output.len() > 0 {
            let last_idx = output.len() - 1;
            if output[last_idx].0 == key {
                let _ = output.pop();
                popped = true;
            }
        }
        let ghost mid = output@;
        proof {
            if popped {
                assert(mid =~= pre.drop_last());
            } else {
                assert(mid == pre);
            }
            // every key already collapsed is smaller than the new key
            assert forall|o: int| 0 <= o < mid.len() implies (#[trigger] mid[o]).0 < key by {
                if popped {
                    assert(mid[o] == pre[o]);
                    assert(pre[o].0 < pre.last().0);
                } else {
                    if o < pre.len() - 1 {
                        assert(pre[o].0 < pre.last().0);
                    }
                    assert(pre.last().0 <= key) by {
                        assert(values@[i as int - 1].0 <= values@[i as int].0);
                    }
                    assert(pre.last().0 != key);
                }
            }
        }
        output.push((key, value));
        i = i + 1;
        proof {
            let jj = i as int - 1;
            assert(output@ == mid.push((key, value)));
            assert(values@.take(jj + 1).last() == values@[jj]);
            assert(values@.take(jj + 1).drop_last() =~= values@.take(jj));
            crate::storage::compaction::lemma_pairs_weight_take_snoc(values@, jj);
            assert(output@ =~= mid + seq![(key, value)]);
            crate::storage::block::lemma_pairs_weight_append(mid, seq![(key, value)]);
            assert(seq![(key, value)].skip(1) =~= Seq::<(u64, TableValue)>::empty());
            assert(pairs_weight(Seq::<(u64, TableValue)>::empty()) == 0);
            assert(pairs_weight(seq![(key, value)]) == value_weight(value@) + 9);
            if popped {
                assert(pre =~= mid + seq![pre.last()]);
                crate::storage::block::lemma_pairs_weight_append(mid, seq![pre.last()]);
                assert(seq![pre.last()].skip(1) =~= Seq::<(u64, TableValue)>::empty());
                assert(pairs_weight(seq![pre.last()]) == value_weight(pre.last().1@) + 9);
                assert(value_weight(pre.last().1@) >= 9);
            }
            assert forall|k2: u64| #[trigger]
                view_lookup(output@, k2) == last_value(values@.take(jj + 1), k2) by {
                assert(mid + seq![(key, value)] =~= output@);
                crate::skip_list::lemma_find_key_append(mid, seq![(key, value)], k2);
                assert(seq![(key, value)][0] == (key, value));
                assert(seq![(key, value)].skip(1) =~= Seq::<(u64, TableValue)>::empty());
                assert(crate::skip_list::find_key(
                    Seq::<(u64, TableValue)>::empty(),
                    k2,
                ) is None);
                if k2 == key {
                    assert(crate::skip_list::find_key(mid, k2) is None) by {
                        assert(forall|o: int| 0 <= o < mid.len() ==> (#[trigger] mid[o]).0 != k2);
                        crate::skip_list::lemma_find_key_absent(mid, k2);
                    }
                } else {
                    // a pop only removes a pair with the new key
                    if popped {
                        assert(pre =~= mid + seq![pre.last()]);
                        crate::skip_list::lemma_find_key_append(mid, seq![pre.last()], k2);
                        assert(seq![pre.last()][0] == pre.last());
                        assert(seq![pre.last()].skip(1) =~= Seq::<(u64, TableValue)>::empty());
                        assert(pre.last().0 == key);
                        assert(view_lookup(pre, k2) == view_lookup(mid, k2));
                    }
                    assert(view_lookup(pre, k2) == last_value(values@.take(jj), k2));
                }
            }
        }
    }
    proof {
        assert(values@.take(values@.len() as int) =~= values@);
    }
    output
}

/// The entries named by a batch of pairs, pointwise.
proof fn lemma_pair_entries_facts(ts: Seq<(u64, TableValue)>)
    ensures
        pair_entries(ts).len() == ts.len(),
        forall|i: int|
            0 <= i < ts.len() ==> (#[trigger] pair_entries(ts)[i]).key == ts[i].0 && pair_entries(
                ts,
            )[i].value == ts[i].1@,
{
}

/// Pushing the image of a collapsed batch onto a stack of tables makes the
/// batch's last values visible, with tombstones surfacing as absence.
proof fn lemma_flushed_visible(
    old_stack: Seq<Seq<EntrySpec>>,
    nt: Seq<EntrySpec>,
    values: Seq<(u64, TableValue)>,
    deduped: Seq<(u64, TableValue)>,
    k: u64,
)
    requires
        nt == pair_entries(deduped),
        forall|k2: u64| #[trigger] view_lookup(deduped, k2) == last_value(values, k2),
    ensures
        stack_visible(old_stack.push(nt), k) == flushed_visible(old_stack, values, k),
{
    let ns = old_stack.push(nt);
    assert(ns.last() == nt);
    assert(ns.drop_last() =~= old_stack);
    crate::storage::compaction::lemma_pairs_lookup(deduped);
    assert(entry_lookup(nt, k) == view_lookup(deduped, k));
    assert(view_lookup(deduped, k) == last_value(values, k));
    assert(stack_lookup(ns, k) == match entry_lookup(nt, k) {
        Some(v) => Some(v),
        None => stack_lookup(old_stack, k),
    });
}

} // verus!
