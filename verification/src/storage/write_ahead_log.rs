//! The write-ahead log: an append-only image in the same block format as an
//! SSTable.  Every put and delete is appended here before it reaches the
//! memtable, so that unflushed writes survive a crash and can be replayed.

use vstd::prelude::*;

use crate::errors::Errors;
use crate::options::DharmaOpts;
use crate::storage::block::{encode_entry_spec, entries_weight, value_fits, value_weight, EntrySpec, TableValue, Value};
use crate::storage::format::{
    image_payloads, lemma_payloads_concat_entry, payloads_from, wf_entry_pos,
};
use crate::storage::sorted_string_table_writer::{
    decoded_entries, image_entries, pair_entries, payloads_decode, read_sstable, write_sstable,
};

verus! {

/// The in-memory image of the write-ahead log file.  The surrounding shell
/// appends the bytes that `append` returns to the log file, and feeds the
/// file's bytes to `recover` after a crash.
pub struct WriteAheadLog {
    options: DharmaOpts,
    log: Vec<u8>,
}

impl View for WriteAheadLog {
    type V = Seq<u8>;

    closed spec fn view(&self) -> Seq<u8> {
        self.log@
    }
}

impl WriteAheadLog {
    /// The configuration the log was created with.
    pub closed spec fn spec_options(self) -> DharmaOpts {
        self.options
    }

    /// The log is a well-formed image for the configured block size.
    pub open spec fn wf(self) -> bool {
        &&& self.spec_options().valid()
        &&& self@.len() as int % self.spec_options().block_size_in_bytes as int == 0
        &&& self@.len() <= usize::MAX - 0x20000
        &&& wf_entry_pos(self@, self.spec_options().block_size_in_bytes as int, 0)
    }

    /// The entries recorded in the log, in append order.
    pub open spec fn entries(self) -> Seq<EntrySpec> {
        image_entries(self@, self.spec_options().block_size_in_bytes as int)
    }

    /// Create an empty write-ahead log.  The caller is responsible for
    /// checking that no log file already exists at the configured path: an
    /// existing file signals an unclean shutdown and must go through
    /// `recover` instead.
    pub fn create(options: DharmaOpts) -> (r: Result<WriteAheadLog, Errors>)
        requires
            options.valid(),
        ensures
            match r {
                Ok(wal) => {
                    &&& wal.wf()
                    &&& wal.spec_options() == options
                    &&& wal@.len() == 0
                    &&& wal.entries() =~= Seq::<EntrySpec>::empty()
                },
                Err(_) => false,
            },
    {
        let ghost bsi = options.block_size_in_bytes as int;
        let wal = WriteAheadLog { options, log: Vec::new() };
        proof {
            vstd::arithmetic::div_mod::lemma_mod_multiples_basic(0, bsi);
            assert(image_payloads(wal.log@, bsi) =~= Seq::<Seq<u8>>::empty());
        }
        Ok(wal)
    }

    /// The current bytes of the log image.
    pub fn bytes(&self) -> (r: &Vec<u8>)
        ensures
            r@ == self@,
    {
        &self.log
    }

    /// Append an entry to the log.  Returns the bytes that were appended, so
    /// that the caller can write them to the end of the log file.
    ///
    /// The append fails with `WAL_WRITE_FAILED`, leaving the log unchanged,
    /// only when the log image would outgrow the address space; while the log
    /// and the entry leave the stated room, it succeeds.
    pub fn append(&mut self, key: u64, value: TableValue) -> (r: Result<Vec<u8>, Errors>)
        requires
            old(self).wf(),
            value_fits(value@),
        ensures
            final(self).spec_options() == old(self).spec_options(),
            old(self)@.len() + 2 * (value_weight(value@) + 9) + 2
                * old(self).spec_options().block_size_in_bytes + 0x20000 <= usize::MAX ==> r is Ok,
            match r {
                Ok(delta) => {
                    &&& final(self).wf()
                    &&& final(self)@ == old(self)@ + delta@
                    &&& final(self).entries() == old(self).entries().push(
                        EntrySpec { key, value: value@ },
                    )
                },
                Err(e) => {
                    &&& e == Errors::WAL_WRITE_FAILED
                    &&& final(self)@ == old(self)@
                },
            },
    {
        let ghost bsi = self.options.block_size_in_bytes as int;
        let entry = Value::new(key, value);
        let mut tuple_vec: Vec<(u64, TableValue)> = Vec::new();
        tuple_vec.push((entry.key, entry.value));
        let delta = match write_sstable(&self.options, &tuple_vec, 0) {
            Ok(img) => img,
            Err(_) => {
                proof {
                    assert(false);
                }
                return Err(Errors::WAL_WRITE_FAILED);
            },
        };
        proof {
            assert(pair_entries(tuple_vec@) =~= seq![EntrySpec { key, value: value@ }]);
            assert(seq![EntrySpec { key, value: value@ }].skip(1) =~= Seq::<EntrySpec>::empty());
            assert(entries_weight(Seq::<EntrySpec>::empty()) == 0);
            assert(entries_weight(pair_entries(tuple_vec@)) == value_weight(value@) + 9);
        }
        if delta.len() > usize::MAX - 0x20000 || self.log.len() > usize::MAX - 0x20000
            - delta.len() {
            return Err(Errors::WAL_WRITE_FAILED);
        }
        let ghost old_log = self.log@;
        let ghost delta_bytes = delta@;
        proof {
            assert(pair_entries(tuple_vec@) =~= seq![EntrySpec { key, value: value@ }]);
            lemma_payloads_concat_entry(old_log, delta_bytes, bsi, 0);
            vstd::arithmetic::div_mod::lemma_add_mod_noop(
                old_log.len() as int,
                delta_bytes.len() as int,
                bsi,
            );
        }
        let mut to_write = crate::storage::block::copy_range(&delta, 0, delta.len());
        proof {
            assert(to_write@ =~= delta@);
        }
        self.log.append(&mut to_write);
        proof {
            assert(self.log@ == old_log + delta_bytes);
            let ps_old = image_payloads(old_log, bsi);
            let ps_new = image_payloads(self.log@, bsi);
            assert(ps_new == ps_old + image_payloads(delta_bytes, bsi));
            crate::storage::sorted_string_table_writer::lemma_sstable_round_trip(
                delta_bytes,
                bsi,
                pair_entries(tuple_vec@),
            );
            assert(image_payloads(delta_bytes, bsi) == seq![encode_entry_spec(
                EntrySpec { key, value: value@ },
            )]);
            assert forall|k: int|
                0 <= k < decoded_entries(ps_new).len() implies decoded_entries(ps_new)[k]
                == old(self).entries().push(EntrySpec { key, value: value@ })[k] by {
                if k < ps_old.len() {
                    assert(ps_new[k] == ps_old[k]);
                } else {
                    assert(ps_new[k] == encode_entry_spec(EntrySpec { key, value: value@ }));
                    crate::storage::block::lemma_codec_round_trip(
                        EntrySpec { key, value: value@ },
                    );
                }
            }
            assert(final(self).entries() =~= old(self).entries().push(
                EntrySpec { key, value: value@ },
            ));
        }
        Ok(delta)
    }

    /// Clear the log: the entries recorded so far have been made durable in
    /// an SSTable and are no longer needed for recovery.  The caller replaces
    /// the log file with an empty one.
    pub fn reset(&mut self) -> (r: Result<(), Errors>)
        requires
            old(self).wf(),
        ensures
            r is Ok,
            final(self).wf(),
            final(self).spec_options() == old(self).spec_options(),
            final(self)@.len() == 0,
            final(self).entries() =~= Seq::<EntrySpec>::empty(),
    {
        let ghost bsi = self.options.block_size_in_bytes as int;
        self.log = Vec::new();
        proof {
            vstd::arithmetic::div_mod::lemma_mod_multiples_basic(0, bsi);
            assert(image_payloads(self.log@, bsi) =~= Seq::<Seq<u8>>::empty());
        }
        Ok(())
    }

    /// Delete the log's contents at clean shutdown.  The caller removes the
    /// log file.
    pub fn cleanup(&mut self) -> (r: Result<(), Errors>)
        requires
            old(self).wf(),
        ensures
            r is Ok,
            final(self).wf(),
            final(self).spec_options() == old(self).spec_options(),
            final(self)@.len() == 0,
    {
        let ghost bsi = self.options.block_size_in_bytes as int;
        self.log = Vec::new();
        proof {
            vstd::arithmetic::div_mod::lemma_mod_multiples_basic(0, bsi);
        }
        Ok(())
    }

    /// Replay the bytes of an existing log file, in append order.  A partial
    /// trailing block, left by a crash in the middle of an append, is
    /// discarded silently; a payload that does not decode fails with
    /// `WAL_BOOTSTRAP_FAILED`.  The caller deletes the log file afterwards.
    pub fn recover(options: &DharmaOpts, data: &Vec<u8>) -> (r: Result<
        Vec<(u64, TableValue)>,
        Errors,
    >)
        requires
            options.valid(),
            data@.len() <= usize::MAX - 0x20000,
        ensures
            ({
                let whole = data@.len() as int - data@.len() as int
                    % options.block_size_in_bytes as int;
                let img = data@.take(whole);
                match r {
                    Ok(pairs) => {
                        &&& payloads_decode(
                            image_payloads(img, options.block_size_in_bytes as int),
                        )
                        &&& pair_entries(pairs@) == image_entries(
                            img,
                            options.block_size_in_bytes as int,
                        )
                    },
                    Err(e) => {
                        &&& e == Errors::WAL_BOOTSTRAP_FAILED
                        &&& !payloads_decode(
                            image_payloads(img, options.block_size_in_bytes as int),
                        )
                    },
                }
            }),
    {
        let ghost bsi = options.block_size_in_bytes as int;
        proof {
            assert(data@.len() as int % bsi >= 0 && data@.len() as int % bsi <= data@.len() as int)
                by (nonlinear_arith)
                requires
                    bsi >= 16 && data@.len() >= 0,
            ;
        }
        // discard a partial trailing block
        let whole_len = data.len() - data.len() % options.block_size_in_bytes;
        let img = crate::storage::block::copy_range(data, 0, whole_len);
        proof {
            assert(img@ =~= data@.take(whole_len as int));
        }
        let values = match read_sstable(options, &img) {
            Ok(vs) => vs,
            Err(_) => {
                return Err(Errors::WAL_BOOTSTRAP_FAILED);
            },
        };
        let mut pairs: Vec<(u64, TableValue)> = Vec::new();
        let mut i: usize = 0;
        proof {
            assert(pair_entries(pairs@) =~= entries_prefix(values@, 0));
        }
        while i < values.len()
            invariant
                i <= values@.len(),
                pair_entries(pairs@) == entries_prefix(values@, i as int),
            decreases values@.len() - i,
        {
            let key = values[i].key;
            let value = crate::storage::sorted_string_table_writer::clone_table_value(
                &values[i].value,
            );
            let ghost pre = pairs@;
            pairs.push((key, value));
            i = i + 1;
            proof {
                let prev = i as int - 1;
                assert(pairs@ == pre.push((key, value)));
                assert(pair_entries(pre).len() == pre.len());
                assert(entries_prefix(values@, prev).len() == prev);
                assert(pre.len() == prev);
                assert forall|k: int|
                    0 <= k < pairs@.len() implies pair_entries(pairs@)[k] == entries_prefix(
                    values@,
                    i as int,
                )[k] by {
                    if k < prev {
                        assert(pairs@[k] == pre[k]);
                        assert(pair_entries(pre)[k] == entries_prefix(values@, prev)[k]);
                    } else {
                        assert(pairs@[k] == (key, value));
                    }
                }
                assert(pair_entries(pairs@) =~= entries_prefix(values@, i as int));
            }
        }
        proof {
            assert(entries_prefix(values@, values@.len() as int) =~= crate::storage::block::entries_of(
                values@,
            ));
        }
        Ok(pairs)
    }
}

/// The entries of the first `n` stored values.
pub open spec fn entries_prefix(vs: Seq<Value>, n: int) -> Seq<EntrySpec> {
    crate::storage::block::entries_of(vs.take(n))
}

} // verus!
