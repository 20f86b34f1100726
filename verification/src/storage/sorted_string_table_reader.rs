//! A streaming reader over the image of an SSTable (or of the write-ahead
//! log, which shares the format): it walks entries in order, reassembles
//! fragmented entries across block boundaries, and can seek to a byte offset
//! recorded by the sparse index.

use vstd::prelude::*;

use crate::errors::Errors;
use crate::storage::block::{decode_entry_spec, decode_value, to_record_type, RecordType, Value};
use crate::storage::format::{
    cap_pos, lemma_aligned_gap, lemma_entry_pos_nonempty, lemma_frag_pos_nonempty, payloads_from,
    record_len_at, record_pos, wf_entry_pos, wf_frag_pos, RECORD_BASE_SIZE_IN_BYTES,
};

verus! {

/// A value read from an SSTable: the entry's payload bytes and the absolute
/// byte offset of the first record header of the entry within the table.
pub struct SSTableValue {
    pub data: Vec<u8>,
    pub offset: usize,
}

impl SSTableValue {
    /// Decode the payload into an entry.
    pub fn to_record(&self) -> (r: Result<Value, Errors>)
        ensures
            match r {
                Ok(v) => decode_entry_spec(self.data@) == Some(v@),
                Err(e) => e == Errors::RECORD_DESERIALIZATION_FAILED && decode_entry_spec(
                    self.data@,
                ) is None,
            },
    {
        match decode_value(&self.data) {
            Some(v) => Ok(v),
            None => Err(Errors::RECORD_DESERIALIZATION_FAILED),
        }
    }
}

/// The block end containing `pos` lies within the data, and positions keep
/// their place within their block.
proof fn lemma_block_end(len: int, bs: int, pos: int)
    requires
        16 <= bs,
        len % bs == 0,
        0 <= pos < len,
    ensures
        0 <= pos % bs < bs,
        pos + (bs - pos % bs) <= len,
        (pos + (bs - pos % bs)) % bs == 0,
{
    vstd::arithmetic::div_mod::lemma_fundamental_div_mod(pos, bs);
    vstd::arithmetic::div_mod::lemma_fundamental_div_mod(len, bs);
    let q = pos / bs;
    let ql = len / bs;
    assert(bs * q + bs == bs * (q + 1)) by (nonlinear_arith);
    assert(bs * q < bs * ql ==> q < ql) by (nonlinear_arith)
        requires
            bs > 0,
    ;
    assert(q + 1 <= ql ==> bs * (q + 1) <= bs * ql) by (nonlinear_arith)
        requires
            bs > 0,
    ;
    assert(pos + (bs - pos % bs) == bs * (q + 1));
    vstd::arithmetic::div_mod::lemma_mod_multiples_basic(q + 1, bs);
    assert((q + 1) * bs == bs * (q + 1)) by (nonlinear_arith);
}

/// The cursor keeps its place within its block.
proof fn lemma_cursor_mod(offset: int, boff: int, bs: int)
    requires
        16 <= bs,
        offset >= 0,
        offset % bs == 0,
        0 <= boff < bs,
    ensures
        (offset + boff) % bs == boff,
        (offset + boff) / bs * bs == offset,
{
    vstd::arithmetic::div_mod::lemma_fundamental_div_mod(offset, bs);
    assert(offset == bs * (offset / bs));
    assert(bs * (offset / bs) == (offset / bs) * bs) by (nonlinear_arith);
    vstd::arithmetic::div_mod::lemma_fundamental_div_mod_converse_mod(
        offset + boff,
        bs,
        offset / bs,
        boff,
    );
    vstd::arithmetic::div_mod::lemma_fundamental_div_mod_converse_div(
        offset + boff,
        bs,
        offset / bs,
        boff,
    );
}

/// Utility to read values one after another from the image of an SSTable.
/// Use the `from` method to create a reader over a table's bytes.
pub struct SSTableReader {
    // the bytes of the whole table
    data: Vec<u8>,
    // the size of blocks in this table
    block_size: usize,
    // total size of the table in bytes
    pub size: usize,
    // the offset of the first byte of the current block
    offset: usize,
    // the cursor within the current block
    buffer_offset: usize,
}

impl SSTableReader {
    /// The table's bytes.
    pub closed spec fn bytes(self) -> Seq<u8> {
        self.data@
    }

    /// The block size the reader was opened with.
    pub closed spec fn spec_block_size(self) -> int {
        self.block_size as int
    }

    /// The total size of the table in bytes.
    pub closed spec fn spec_size(self) -> int {
        self.size as int
    }

    /// The absolute position of the cursor.
    pub closed spec fn pos(self) -> int {
        self.offset + self.buffer_offset
    }

    /// The reader's fields are consistent with its bytes.
    pub closed spec fn fields_wf(self) -> bool {
        &&& 16 <= self.block_size <= 0xffff + 3
        &&& self.size == self.data@.len()
        &&& self.data@.len() as int % self.spec_block_size() == 0
        &&& self.data@.len() <= usize::MAX - 0x20000
        &&& self.offset as int % self.spec_block_size() == 0
        &&& self.offset <= self.data@.len()
        &&& self.buffer_offset < self.block_size
        &&& self.offset == self.data@.len() ==> self.buffer_offset == 0
        &&& self.pos() <= self.data@.len()
    }

    /// The reader is well formed: its cursor stands at an entry boundary of a
    /// well-formed image.
    pub open spec fn wf(self) -> bool {
        &&& self.fields_wf()
        &&& wf_entry_pos(self.bytes(), self.spec_block_size(), self.pos())
    }

    /// The payloads of the entries from the cursor to the end of the table.
    pub open spec fn remaining(self) -> Seq<Seq<u8>> {
        payloads_from(self.bytes(), self.spec_block_size(), self.pos(), Seq::<u8>::empty())
    }

    /// Create a reader over the bytes of a table, with the block size the
    /// table was written with.  Supplying a different block size than at
    /// write time would misread the data, so the bytes are required to be
    /// well formed for this block size.
    pub fn from(data: Vec<u8>, block_size: usize) -> (r: Result<SSTableReader, Errors>)
        requires
            16 <= block_size <= 0xffff + 3,
            data@.len() as int % block_size as int == 0,
            data@.len() <= usize::MAX - 0x20000,
            wf_entry_pos(data@, block_size as int, 0),
        ensures
            match r {
                Ok(reader) => {
                    &&& reader.wf()
                    &&& reader.bytes() == data@
                    &&& reader.spec_block_size() == block_size as int
                    &&& reader.spec_size() == data@.len()
                    &&& reader.pos() == 0
                },
                Err(_) => false,
            },
    {
        let size = data.len();
        proof {
            vstd::arithmetic::div_mod::lemma_mod_multiples_basic(0, block_size as int);
        }
        Ok(SSTableReader { data, block_size, size, offset: 0, buffer_offset: 0 })
    }

    /// Move the cursor to the absolute position `np`, loading the block that
    /// contains it.
    fn set_pos(&mut self, np: usize)
        requires
            old(self).fields_wf(),
            np <= old(self).size,
        ensures
            final(self).fields_wf(),
            final(self).bytes() == old(self).bytes(),
            final(self).spec_block_size() == old(self).spec_block_size(),
            final(self).size == old(self).size,
            final(self).pos() == np,
    {
        proof {
            let bs = self.block_size as int;
            vstd::arithmetic::div_mod::lemma_fundamental_div_mod(np as int, bs);
            assert((np as int / bs) * bs == bs * (np as int / bs)) by (nonlinear_arith);
            vstd::arithmetic::div_mod::lemma_mod_multiples_basic(np as int / bs, bs);
            if np == self.size {
                vstd::arithmetic::div_mod::lemma_fundamental_div_mod(self.size as int, bs);
            }
        }
        let block_offset = (np / self.block_size) * self.block_size;
        self.offset = block_offset;
        self.buffer_offset = np - block_offset;
    }

    /// Check whether more values can be read from the SSTable.
    pub fn has_next(&self) -> (r: bool)
        requires
            self.wf(),
        ensures
            r == (self.remaining().len() > 0),
    {
        let ghost s = self.data@;
        let ghost bs = self.block_size as int;
        let ghost p = self.pos();
        if self.offset >= self.size {
            proof {
                assert(self.remaining() =~= Seq::<Seq<u8>>::empty());
            }
            return false;
        }
        proof {
            lemma_aligned_gap(self.offset as int, self.size as int, bs);
            lemma_cursor_mod(self.offset as int, self.buffer_offset as int, bs);
            lemma_block_end(s.len() as int, bs, p);
        }
        let record_type = to_record_type(self.data[self.offset + self.buffer_offset]);
        match record_type {
            RecordType::PADDING => {
                // the rest of this block is dead: entries continue, if at
                // all, at the next block
                let ghost boundary = self.offset + bs;
                proof {
                    let rem = bs - (p % bs);
                    assert(p % bs == self.buffer_offset as int);
                    if rem <= 3 {
                        assert(cap_pos(s, p + rem) == boundary);
                        assert(self.remaining() == payloads_from(s, bs, boundary, Seq::<u8>::empty()));
                    } else {
                        assert(s[p] == 0);
                        assert(3 + record_len_at(s, p) == rem);
                        assert(self.remaining() == payloads_from(s, bs, boundary, Seq::<u8>::empty()));
                    }
                    vstd::arithmetic::div_mod::lemma_mod_multiples_basic(
                        self.offset as int / bs + 1,
                        bs,
                    );
                    if self.offset as int + bs < self.size as int {
                        assert(wf_entry_pos(s, bs, boundary));
                        assert(boundary % bs == 0) by {
                            vstd::arithmetic::div_mod::lemma_add_mod_noop(
                                self.offset as int,
                                bs,
                                bs,
                            );
                            vstd::arithmetic::div_mod::lemma_mod_self_0(bs);
                            vstd::arithmetic::div_mod::lemma_small_mod(
                                (self.offset as int % bs) as nat,
                                bs as nat,
                            );
                        }
                        assert(s[boundary] != 0) by {
                            assert(bs - (boundary % bs) == bs);
                        }
                        assert(s[boundary] == 1 || s[boundary] == 2);
                        lemma_entry_pos_nonempty(s, bs, boundary, Seq::<u8>::empty());
                    } else {
                        assert(boundary == s.len());
                        assert(payloads_from(s, bs, boundary, Seq::<u8>::empty()) =~= Seq::<
                            Seq<u8>,
                        >::empty());
                    }
                }
                self.offset + self.block_size < self.size
            }
            _ => {
                proof {
                    let rem = bs - (p % bs);
                    assert(p % bs == self.buffer_offset as int);
                    assert(s[p] != 0);
                    assert(rem > 3);
                    assert(s[p] == 1 || s[p] == 2);
                    lemma_entry_pos_nonempty(s, bs, p, Seq::<u8>::empty());
                }
                true
            }
        }
    }

    /// Read the entry at the cursor without advancing past it.
    ///
    /// The returned offset is the absolute byte offset of the first record
    /// header of the entry: seeking to it puts the reader right back before
    /// this entry.
    pub fn read(&self) -> (r: SSTableValue)
        requires
            self.wf(),
            self.remaining().len() > 0,
        ensures
            r.data@ == self.remaining()[0],
            r.offset as int == record_pos(self.bytes(), self.spec_block_size(), self.pos()),
            r.offset < self.bytes().len(),
            wf_entry_pos(self.bytes(), self.spec_block_size(), r.offset as int),
            payloads_from(self.bytes(), self.spec_block_size(), r.offset as int, Seq::<u8>::empty())
                == self.remaining(),
    {
        let ghost s = self.data@;
        let ghost bs = self.block_size as int;
        let mut pos: usize = self.offset + self.buffer_offset;
        // skip padding records and dead block tails to the entry's first
        // record
        loop
            invariant_except_break
                self.wf(),
                self.remaining().len() > 0,
                pos <= self.size,
                wf_entry_pos(s, bs, pos as int),
                payloads_from(s, bs, pos as int, Seq::<u8>::empty()) == self.remaining(),
                record_pos(s, bs, pos as int) == record_pos(s, bs, self.pos()),
                s == self.data@,
                bs == self.block_size as int,
            ensures
                pos < self.size,
                wf_entry_pos(s, bs, pos as int),
                payloads_from(s, bs, pos as int, Seq::<u8>::empty()) == self.remaining(),
                record_pos(s, bs, pos as int) == pos as int && record_pos(s, bs, pos as int)
                    == record_pos(s, bs, self.pos()),
                s[pos as int] == 1 || s[pos as int] == 2,
                bs - (pos as int % bs) > 3,
            decreases self.size - pos,
        {
            proof {
                if pos == self.size {
                    assert(payloads_from(s, bs, pos as int, Seq::<u8>::empty()) =~= Seq::<
                        Seq<u8>,
                    >::empty());
                }
                lemma_block_end(s.len() as int, bs, pos as int);
            }
            let rem = self.block_size - pos % self.block_size;
            if rem <= RECORD_BASE_SIZE_IN_BYTES {
                proof {
                    assert(cap_pos(s, pos as int + rem as int) == pos as int + rem as int);
                }
                pos = pos + rem;
            } else if self.data[pos] == 0 {
                let len = (self.data[pos + 1] as usize) * 256 + (self.data[pos + 2] as usize);
                proof {
                    assert(record_len_at(s, pos as int) == len);
                    assert(cap_pos(s, pos as int + 3 + len as int) == pos as int + 3 + len as int);
                }
                pos = pos + RECORD_BASE_SIZE_IN_BYTES + len;
            } else {
                proof {
                    assert(s[pos as int] == 1 || s[pos as int] == 2);
                    assert(record_pos(s, bs, pos as int) == pos as int);
                }
                break ;
            }
        }
        let entry_offset = pos;
        let kind = self.data[pos];
        let len = (self.data[pos + 1] as usize) * 256 + (self.data[pos + 2] as usize);
        let next = pos + RECORD_BASE_SIZE_IN_BYTES + len;
        proof {
            assert(record_len_at(s, pos as int) == len);
        }
        if kind == 1 {
            let data_copy = crate::storage::block::copy_range(&self.data, pos + 3, next);
            proof {
                assert(data_copy@ =~= s.subrange(pos as int + 3, next as int));
                assert(payloads_from(s, bs, pos as int, Seq::<u8>::empty()) == seq![s.subrange(
                    pos as int + 3,
                    next as int,
                )] + payloads_from(s, bs, next as int, Seq::<u8>::empty()));
            }
            SSTableValue { data: data_copy, offset: entry_offset }
        } else {
            // the entry is fragmented: accumulate the chain
            let mut temp_buffer = crate::storage::block::copy_range(&self.data, pos + 3, next);
            proof {
                assert(temp_buffer@ =~= s.subrange(pos as int + 3, next as int));
                assert(Seq::<u8>::empty() + s.subrange(pos as int + 3, next as int) =~= s.subrange(
                    pos as int + 3,
                    next as int,
                ));
                assert(payloads_from(s, bs, pos as int, Seq::<u8>::empty()) == payloads_from(
                    s,
                    bs,
                    next as int,
                    Seq::<u8>::empty() + s.subrange(pos as int + 3, next as int),
                ));
            }
            let mut chain_pos = next;
            loop
                invariant_except_break
                    self.wf(),
                    s == self.data@,
                    bs == self.block_size as int,
                    chain_pos <= self.size,
                    wf_frag_pos(s, bs, chain_pos as int),
                    payloads_from(s, bs, chain_pos as int, temp_buffer@) == self.remaining(),
                ensures
                    temp_buffer@ == self.remaining()[0],
                decreases self.size - chain_pos,
            {
                proof {
                    assert(chain_pos < self.size);
                }
                let fkind = self.data[chain_pos];
                let flen = (self.data[chain_pos + 1] as usize) * 256 + (self.data[chain_pos
                    + 2] as usize);
                let fnext = chain_pos + RECORD_BASE_SIZE_IN_BYTES + flen;
                proof {
                    assert(record_len_at(s, chain_pos as int) == flen);
                    vstd::arithmetic::div_mod::lemma_mod_self_0(bs);
                    assert(chain_pos as int % bs == 0);
                    assert(bs - (chain_pos as int % bs) == bs > 3);
                }
                let mut fragment = crate::storage::block::copy_range(
                    &self.data,
                    chain_pos + 3,
                    fnext,
                );
                proof {
                    assert(fragment@ =~= s.subrange(chain_pos as int + 3, fnext as int));
                }
                let ghost pre_buf = temp_buffer@;
                temp_buffer.append(&mut fragment);
                proof {
                    assert(temp_buffer@ == pre_buf + s.subrange(
                        chain_pos as int + 3,
                        fnext as int,
                    ));
                }
                if fkind == 4 {
                    proof {
                        assert(payloads_from(s, bs, chain_pos as int, pre_buf) == seq![pre_buf
                            + s.subrange(chain_pos as int + 3, fnext as int)] + payloads_from(
                            s,
                            bs,
                            fnext as int,
                            Seq::<u8>::empty(),
                        ));
                    }
                    break ;
                }
                proof {
                    assert(fkind == 3);
                    assert(payloads_from(s, bs, chain_pos as int, pre_buf) == payloads_from(
                        s,
                        bs,
                        fnext as int,
                        pre_buf + s.subrange(chain_pos as int + 3, fnext as int),
                    ));
                }
                chain_pos = fnext;
            }
            SSTableValue { data: temp_buffer, offset: entry_offset }
        }
    }

    /// Advance the cursor past the current entry.  Must only be called after
    /// `has_next` returned true.
    pub fn next(&mut self)
        requires
            old(self).wf(),
            old(self).remaining().len() > 0,
        ensures
            final(self).wf(),
            final(self).bytes() == old(self).bytes(),
            final(self).spec_block_size() == old(self).spec_block_size(),
            final(self).spec_size() == old(self).spec_size(),
            final(self).remaining() == old(self).remaining().skip(1),
    {
        let ghost s = self.data@;
        let ghost bs = self.block_size as int;
        let mut pos: usize = self.offset + self.buffer_offset;
        // skip padding records and dead block tails to the entry's first
        // record
        loop
            invariant_except_break
                old(self).wf(),
                self == old(self),
                old(self).remaining().len() > 0,
                pos <= self.size,
                wf_entry_pos(s, bs, pos as int),
                payloads_from(s, bs, pos as int, Seq::<u8>::empty()) == old(self).remaining(),
                s == self.data@,
                bs == self.block_size as int,
            ensures
                self == old(self),
                pos < self.size,
                wf_entry_pos(s, bs, pos as int),
                payloads_from(s, bs, pos as int, Seq::<u8>::empty()) == old(self).remaining(),
                s[pos as int] == 1 || s[pos as int] == 2,
                bs - (pos as int % bs) > 3,
            decreases self.size - pos,
        {
            proof {
                if pos == self.size {
                    assert(payloads_from(s, bs, pos as int, Seq::<u8>::empty()) =~= Seq::<
                        Seq<u8>,
                    >::empty());
                }
                lemma_block_end(s.len() as int, bs, pos as int);
            }
            let rem = self.block_size - pos % self.block_size;
            if rem <= RECORD_BASE_SIZE_IN_BYTES {
                proof {
                    assert(cap_pos(s, pos as int + rem as int) == pos as int + rem as int);
                }
                pos = pos + rem;
            } else if self.data[pos] == 0 {
                let len = (self.data[pos + 1] as usize) * 256 + (self.data[pos + 2] as usize);
                proof {
                    assert(record_len_at(s, pos as int) == len);
                    assert(cap_pos(s, pos as int + 3 + len as int) == pos as int + 3 + len as int);
                }
                pos = pos + RECORD_BASE_SIZE_IN_BYTES + len;
            } else {
                break ;
            }
        }
        let kind = self.data[pos];
        let len = (self.data[pos + 1] as usize) * 256 + (self.data[pos + 2] as usize);
        let next = pos + RECORD_BASE_SIZE_IN_BYTES + len;
        proof {
            assert(record_len_at(s, pos as int) == len);
        }
        if kind == 1 {
            proof {
                assert(payloads_from(s, bs, pos as int, Seq::<u8>::empty()) == seq![s.subrange(
                    pos as int + 3,
                    next as int,
                )] + payloads_from(s, bs, next as int, Seq::<u8>::empty()));
                assert((seq![s.subrange(pos as int + 3, next as int)] + payloads_from(
                    s,
                    bs,
                    next as int,
                    Seq::<u8>::empty(),
                )).skip(1) =~= payloads_from(s, bs, next as int, Seq::<u8>::empty()));
            }
            self.set_pos(next);
        } else {
            let ghost start_acc = Seq::<u8>::empty() + s.subrange(pos as int + 3, next as int);
            proof {
                assert(payloads_from(s, bs, pos as int, Seq::<u8>::empty()) == payloads_from(
                    s,
                    bs,
                    next as int,
                    start_acc,
                ));
            }
            let mut chain_pos = next;
            let ghost mut acc: Seq<u8> = start_acc;
            loop
                invariant_except_break
                    old(self).wf(),
                    self == old(self),
                    s == self.data@,
                    bs == self.block_size as int,
                    chain_pos <= self.size,
                    wf_frag_pos(s, bs, chain_pos as int),
                    payloads_from(s, bs, chain_pos as int, acc) == old(self).remaining(),
                ensures
                    self == old(self),
                    chain_pos <= self.size,
                    wf_entry_pos(s, bs, chain_pos as int),
                    payloads_from(s, bs, chain_pos as int, Seq::<u8>::empty()) == old(
                        self,
                    ).remaining().skip(1),
                decreases self.size - chain_pos,
            {
                proof {
                    assert(chain_pos < self.size);
                }
                let fkind = self.data[chain_pos];
                let flen = (self.data[chain_pos + 1] as usize) * 256 + (self.data[chain_pos
                    + 2] as usize);
                let fnext = chain_pos + RECORD_BASE_SIZE_IN_BYTES + flen;
                proof {
                    assert(record_len_at(s, chain_pos as int) == flen);
                    assert(chain_pos as int % bs == 0);
                    assert(bs - (chain_pos as int % bs) == bs > 3);
                }
                if fkind == 4 {
                    proof {
                        assert(payloads_from(s, bs, chain_pos as int, acc) == seq![acc
                            + s.subrange(chain_pos as int + 3, fnext as int)] + payloads_from(
                            s,
                            bs,
                            fnext as int,
                            Seq::<u8>::empty(),
                        ));
                        assert((seq![acc + s.subrange(chain_pos as int + 3, fnext as int)]
                            + payloads_from(s, bs, fnext as int, Seq::<u8>::empty())).skip(1)
                            =~= payloads_from(s, bs, fnext as int, Seq::<u8>::empty()));
                    }
                    chain_pos = fnext;
                    break ;
                }
                proof {
                    assert(fkind == 3);
                    assert(payloads_from(s, bs, chain_pos as int, acc) == payloads_from(
                        s,
                        bs,
                        fnext as int,
                        acc + s.subrange(chain_pos as int + 3, fnext as int),
                    ));
                    acc = acc + s.subrange(chain_pos as int + 3, fnext as int);
                }
                chain_pos = fnext;
            }
            self.set_pos(chain_pos);
        }
    }

    /// Seek the reader to the supplied byte offset, which must address the
    /// first record header of an entry, as reported by `read`.  An offset
    /// beyond the table fails with `SSTABLE_INVALID_READ_OFFSET`.
    pub fn seek_closest(&mut self, offset: usize) -> (r: Result<(), Errors>)
        requires
            old(self).wf(),
            offset < old(self).spec_size() ==> wf_entry_pos(
                old(self).bytes(),
                old(self).spec_block_size(),
                offset as int,
            ),
        ensures
            final(self).bytes() == old(self).bytes(),
            final(self).spec_block_size() == old(self).spec_block_size(),
            final(self).spec_size() == old(self).spec_size(),
            offset < old(self).spec_size() ==> {
                &&& r is Ok
                &&& final(self).wf()
                &&& final(self).pos() == offset
            },
            offset >= old(self).spec_size() ==> r == Err::<(), Errors>(
                Errors::SSTABLE_INVALID_READ_OFFSET,
            ) && *final(self) == *old(self),
    {
        if offset < self.size {
            self.set_pos(offset);
            Ok(())
        } else {
            Err(Errors::SSTABLE_INVALID_READ_OFFSET)
        }
    }
}

} // verus!
