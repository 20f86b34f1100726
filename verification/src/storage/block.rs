//! Entries, records and blocks, and the packing of entries into blocks.

use vstd::bytes::{spec_u64_from_le_bytes, spec_u64_to_le_bytes, u64_to_le_bytes};
use vstd::prelude::*;

use crate::options::DharmaOpts;
use crate::storage::format::{
    assemble, block_bytes, block_wf, blocks_chained, continues_chain, flat_records,
    lemma_assemble_snoc, lemma_flat_records_push, lemma_pad_bytes_len, lemma_recs_bytes_append,
    lemma_recs_bytes_len, lemma_recs_bytes_slice, lemma_recs_singleton, lemma_recs_size_append,
    lemma_recs_size_nonneg, pad_bytes, pending, rec_bytes, rec_size, rec_wf, recs_bytes,
    recs_size, starts_chain, wf_blocks, zero_bytes, RecordModel, RECORD_BASE_SIZE_IN_BYTES,
};

verus! {

/// The mathematical model of a stored value: either user data or the
/// tombstone that marks a deletion.
pub enum ValueSpec {
    Data(Seq<u8>),
    Tombstone,
}

/// The mathematical model of an entry: a key and a value.
pub struct EntrySpec {
    pub key: u64,
    pub value: ValueSpec,
}

/// A value stored in the engine: a byte payload, or the tombstone sentinel
/// that marks a deleted key.  The engine never interprets the payload.
#[derive(Clone, Debug, PartialEq, Eq)]
pub enum TableValue {
    Data(Vec<u8>),
    Tombstone,
}

impl View for TableValue {
    type V = ValueSpec;

    open spec fn view(&self) -> ValueSpec {
        match self {
            TableValue::Data(d) => ValueSpec::Data(d@),
            TableValue::Tombstone => ValueSpec::Tombstone,
        }
    }
}

impl TableValue {
    /// Whether this value is the tombstone marking a deletion.
    pub fn is_tombstone(&self) -> (r: bool)
        ensures
            r == (self@ == ValueSpec::Tombstone),
    {
        match self {
            TableValue::Tombstone => true,
            TableValue::Data(_) => false,
        }
    }
}

impl crate::traits::Nil for TableValue {
    fn nil() -> TableValue {
        TableValue::Tombstone
    }
}

/// An entry: the key, value and associated metadata persisted to disk.
#[derive(Clone, Debug, PartialEq, Eq)]
pub struct Value {
    pub key: u64,
    pub value: TableValue,
}

impl View for Value {
    type V = EntrySpec;

    open spec fn view(&self) -> EntrySpec {
        EntrySpec { key: self.key, value: self.value@ }
    }
}

impl Value {
    pub fn new(key: u64, value: TableValue) -> (r: Value)
        ensures
            r@ == (EntrySpec { key, value: value@ }),
    {
        Value { key, value }
    }
}

// ---------------------------------------------------------------------------
// The entry codec: a stable byte representation of an entry.
// ---------------------------------------------------------------------------

/// Payload size of a data value's bytes that the codec and the packer can
/// always handle without arithmetic overflow.
pub open spec fn value_fits(v: ValueSpec) -> bool {
    match v {
        ValueSpec::Data(d) => d.len() <= usize::MAX - 64,
        ValueSpec::Tombstone => true,
    }
}

pub open spec fn entry_fits(e: EntrySpec) -> bool {
    value_fits(e.value)
}

/// The number of bytes a stored value accounts for in the memtable's size
/// bookkeeping: its serialized form, key and tag included.
pub open spec fn value_weight(v: ValueSpec) -> int {
    match v {
        ValueSpec::Data(d) => 9 + d.len() as int,
        ValueSpec::Tombstone => 9,
    }
}

/// The serialized form of an entry: the key in eight little-endian bytes, a
/// tag byte (0 for the tombstone, 1 for data), then the data bytes.
pub open spec fn encode_entry_spec(e: EntrySpec) -> Seq<u8> {
    spec_u64_to_le_bytes(e.key) + match e.value {
        ValueSpec::Tombstone => seq![0u8],
        ValueSpec::Data(d) => seq![1u8] + d,
    }
}

/// Decode the serialized form of an entry; `None` if the bytes are not an
/// encoding this codec produces.
pub open spec fn decode_entry_spec(s: Seq<u8>) -> Option<EntrySpec> {
    if s.len() < 9 {
        None
    } else {
        let key = spec_u64_from_le_bytes(s.subrange(0, 8));
        if s[8] == 0 && s.len() == 9 {
            Some(EntrySpec { key, value: ValueSpec::Tombstone })
        } else if s[8] == 1 {
            Some(EntrySpec { key, value: ValueSpec::Data(s.skip(9)) })
        } else {
            None
        }
    }
}

/// The codec round-trips: decoding an encoded entry gives the entry back.
pub proof fn lemma_codec_round_trip(e: EntrySpec)
    ensures
        9 <= encode_entry_spec(e).len(),
        decode_entry_spec(encode_entry_spec(e)) == Some(e),
{
    vstd::bytes::lemma_auto_spec_u64_to_from_le_bytes();
    let s = encode_entry_spec(e);
    assert(s.subrange(0, 8) =~= spec_u64_to_le_bytes(e.key));
    match e.value {
        ValueSpec::Tombstone => {
            assert(s.len() == 9);
        }
        ValueSpec::Data(d) => {
            assert(s[8] == 1);
            assert(s.skip(9) =~= d);
        }
    }
}

/// Serialize an entry to its on-disk payload.
pub fn encode_value(v: &Value) -> (r: Vec<u8>)
    requires
        entry_fits(v@),
    ensures
        r@ == encode_entry_spec(v@),
        9 <= r@.len() <= usize::MAX - 48,
{
    proof {
        vstd::bytes::lemma_auto_spec_u64_to_from_le_bytes();
    }
    let mut out: Vec<u8> = u64_to_le_bytes(v.key);
    match &v.value {
        TableValue::Tombstone => {
            out.push(0u8);
            assert(out@ =~= encode_entry_spec(v@));
        }
        TableValue::Data(d) => {
            out.push(1u8);
            let mut i: usize = 0;
            while i < d.len()
                invariant
                    i <= d@.len(),
                    d@.len() <= usize::MAX - 64,
                    out@ == spec_u64_to_le_bytes(v.key) + seq![1u8] + d@.take(i as int),
                decreases d@.len() - i,
            {
                let b = d[i];
                out.push(b);
                i = i + 1;
                assert(out@ =~= spec_u64_to_le_bytes(v.key) + seq![1u8] + d@.take(i as int));
            }
            assert(d@.take(d@.len() as int) =~= d@);
            assert(out@ =~= encode_entry_spec(v@));
        }
    }
    out
}

/// Deserialize an entry from its on-disk payload; `None` if the bytes are not
/// a valid encoding.
pub fn decode_value(data: &Vec<u8>) -> (r: Option<Value>)
    ensures
        match r {
            Some(v) => decode_entry_spec(data@) == Some(v@),
            None => decode_entry_spec(data@) is None,
        },
{
    proof {
        vstd::bytes::lemma_auto_spec_u64_to_from_le_bytes();
    }
    if data.len() < 9 {
        return None;
    }
    let key_slice: Vec<u8> = copy_range(data, 0, 8);
    assert(key_slice@ =~= data@.subrange(0, 8));
    let key = vstd::bytes::u64_from_le_bytes(key_slice.as_slice());
    let tag = data[8];
    if tag == 0 {
        if data.len() == 9 {
            Some(Value { key, value: TableValue::Tombstone })
        } else {
            None
        }
    } else if tag == 1 {
        let rest = copy_range(data, 9, data.len());
        assert(rest@ =~= data@.skip(9));
        Some(Value { key, value: TableValue::Data(rest) })
    } else {
        None
    }
}

// ---------------------------------------------------------------------------
// Records and blocks.
// ---------------------------------------------------------------------------

/// The kind of a record on disk.
#[derive(Copy, Clone, Debug, PartialEq, Eq, Structural)]
pub enum RecordType {
    PADDING,
    COMPLETE,
    START,
    MIDDLE,
    END,
    UNKNOWN,
}

impl RecordType {
    /// The byte that marks this kind on disk.
    pub open spec fn code_spec(self) -> u8 {
        match self {
            RecordType::PADDING => 0,
            RecordType::COMPLETE => 1,
            RecordType::START => 2,
            RecordType::MIDDLE => 3,
            RecordType::END => 4,
            RecordType::UNKNOWN => 5,
        }
    }

    /// The byte that marks this kind on disk.
    pub fn code(&self) -> (r: u8)
        ensures
            r == self.code_spec(),
    {
        match self {
            RecordType::PADDING => 0,
            RecordType::COMPLETE => 1,
            RecordType::START => 2,
            RecordType::MIDDLE => 3,
            RecordType::END => 4,
            RecordType::UNKNOWN => 5,
        }
    }
}

/// The record kind marked by the byte `val`.
pub open spec fn spec_record_type(val: u8) -> RecordType {
    if val == 0 {
        RecordType::PADDING
    } else if val == 1 {
        RecordType::COMPLETE
    } else if val == 2 {
        RecordType::START
    } else if val == 3 {
        RecordType::MIDDLE
    } else if val == 4 {
        RecordType::END
    } else {
        RecordType::UNKNOWN
    }
}

/// Map an unsigned byte to a record type.
pub fn to_record_type(val: u8) -> (r: RecordType)
    ensures
        r == spec_record_type(val),
{
    match val {
        0 => RecordType::PADDING,
        1 => RecordType::COMPLETE,
        2 => RecordType::START,
        3 => RecordType::MIDDLE,
        4 => RecordType::END,
        _ => RecordType::UNKNOWN,
    }
}

/// A record: a (possibly partial) serialized entry as framed on disk.
///
/// On disk a record is laid out as
/// | kind (1 byte) | size (2 bytes, big-endian) | data (`size` bytes) |
pub struct Record {
    pub record_type: RecordType,
    pub data_size_in_bytes: u16,
    pub data: Vec<u8>,
}

impl View for Record {
    type V = RecordModel;

    open spec fn view(&self) -> RecordModel {
        RecordModel { kind: self.record_type.code_spec(), data: self.data@ }
    }
}

impl Record {
    /// The size field agrees with the payload held.
    pub open spec fn wf(self) -> bool {
        self.data_size_in_bytes as int == self.data@.len()
    }

    /// Create a record that marks leftover space within a block.  Padding
    /// records carry no data of their own; the size field describes the span
    /// of padded bytes.
    pub fn with_padding(size: u16) -> (r: Record)
        ensures
            r.record_type == RecordType::PADDING,
            r.data_size_in_bytes == size,
            r@.data.len() == 0,
    {
        Record { record_type: RecordType::PADDING, data_size_in_bytes: size, data: Vec::new() }
    }
}

/// A block: the unit of disk transfer, packing as many records as fit in
/// `block_size` bytes.  A record that does not fit is split across blocks.
pub struct Block {
    pub records: Vec<Record>,
}

impl View for Block {
    type V = Seq<RecordModel>;

    open spec fn view(&self) -> Seq<RecordModel> {
        self.records@.map_values(|r: Record| r@)
    }
}

impl Block {
    /// Every record's size field agrees with its payload.
    pub open spec fn wf(self) -> bool {
        forall|k: int| 0 <= k < self.records@.len() ==> (#[trigger] self.records@[k]).wf()
    }

    pub fn new() -> (r: Block)
        ensures
            r@ == Seq::<RecordModel>::empty(),
            r.records@.len() == 0,
            r.wf(),
    {
        let b = Block { records: Vec::new() };
        proof {
            assert(b@ =~= Seq::<RecordModel>::empty());
        }
        b
    }

    pub fn add(&mut self, record: Record)
        ensures
            final(self)@ == old(self)@.push(record@),
            final(self).records@ == old(self).records@.push(record),
    {
        self.records.push(record);
        proof {
            assert(self@ =~= old(self)@.push(record@));
        }
    }
}

// ---------------------------------------------------------------------------
// Packing entries into blocks.
// ---------------------------------------------------------------------------

/// The models of a sequence of blocks.
pub open spec fn blocks_model(bv: Seq<Block>) -> Seq<Seq<RecordModel>> {
    bv.map_values(|b: Block| b@)
}

/// The models of a sequence of entries.
pub open spec fn entries_of(vs: Seq<Value>) -> Seq<EntrySpec> {
    vs.map_values(|v: Value| v@)
}

/// The serialized payloads of a sequence of entries.
pub open spec fn entry_payloads(es: Seq<EntrySpec>) -> Seq<Seq<u8>> {
    es.map_values(|e: EntrySpec| encode_entry_spec(e))
}

/// The packing budget of a batch of entries: each entry accounts for its
/// serialized bytes plus a fragmentation allowance.  The packer never seals
/// more block capacity than this budget, which bounds the size of the image
/// it produces.
pub open spec fn entries_weight(es: Seq<EntrySpec>) -> int
    decreases es.len(),
{
    if es.len() == 0 {
        0
    } else {
        value_weight(es[0].value) + 9 + entries_weight(es.skip(1))
    }
}

/// The packing budget of a batch of key-value pairs.
pub open spec fn pairs_weight(ts: Seq<(u64, TableValue)>) -> int
    decreases ts.len(),
{
    if ts.len() == 0 {
        0
    } else {
        value_weight(ts[0].1@) + 9 + pairs_weight(ts.skip(1))
    }
}

pub proof fn lemma_entries_weight_append(a: Seq<EntrySpec>, b: Seq<EntrySpec>)
    ensures
        entries_weight(a + b) == entries_weight(a) + entries_weight(b),
    decreases a.len(),
{
    if a.len() == 0 {
        assert(a + b =~= b);
    } else {
        assert((a + b).skip(1) =~= a.skip(1) + b);
        lemma_entries_weight_append(a.skip(1), b);
    }
}

pub proof fn lemma_entries_weight_nonneg(es: Seq<EntrySpec>)
    ensures
        entries_weight(es) >= 0,
    decreases es.len(),
{
    if es.len() > 0 {
        lemma_entries_weight_nonneg(es.skip(1));
    }
}

pub proof fn lemma_pairs_weight_append(a: Seq<(u64, TableValue)>, b: Seq<(u64, TableValue)>)
    ensures
        pairs_weight(a + b) == pairs_weight(a) + pairs_weight(b),
    decreases a.len(),
{
    if a.len() == 0 {
        assert(a + b =~= b);
    } else {
        assert((a + b).skip(1) =~= a.skip(1) + b);
        lemma_pairs_weight_append(a.skip(1), b);
    }
}

pub proof fn lemma_pairs_weight_nonneg(ts: Seq<(u64, TableValue)>)
    ensures
        pairs_weight(ts) >= 0,
    decreases ts.len(),
{
    if ts.len() > 0 {
        lemma_pairs_weight_nonneg(ts.skip(1));
    }
}

/// An entry's serialized payload is exactly its weight, minus the
/// fragmentation allowance.
pub proof fn lemma_encoded_len_is_weight(e: EntrySpec)
    ensures
        encode_entry_spec(e).len() == value_weight(e.value),
{
    vstd::bytes::lemma_auto_spec_u64_to_from_le_bytes();
}

/// Two batches with the same keys and value contents have the same weight.
pub proof fn lemma_pairs_weight_congruent(a: Seq<(u64, TableValue)>, b: Seq<(u64, TableValue)>)
    requires
        a.len() == b.len(),
        forall|i: int| 0 <= i < a.len() ==> (#[trigger] a[i]).0 == b[i].0 && a[i].1@ == b[i].1@,
    ensures
        pairs_weight(a) == pairs_weight(b),
    decreases a.len(),
{
    if a.len() > 0 {
        assert(forall|i: int|
            0 <= i < a.skip(1).len() ==> (#[trigger] a.skip(1)[i]).0 == b.skip(1)[i].0 && a.skip(
                1,
            )[i].1@ == b.skip(1)[i].1@);
        lemma_pairs_weight_congruent(a.skip(1), b.skip(1));
    }
}

/// The weights of a batch of pairs and of the entries they name agree.
pub proof fn lemma_pair_entries_weight(ts: Seq<(u64, TableValue)>)
    ensures
        entries_weight(ts.map_values(|t: (u64, TableValue)| EntrySpec { key: t.0, value: t.1@ }))
            == pairs_weight(ts),
    decreases ts.len(),
{
    let es = ts.map_values(|t: (u64, TableValue)| EntrySpec { key: t.0, value: t.1@ });
    if ts.len() > 0 {
        lemma_pair_entries_weight(ts.skip(1));
        assert(es.skip(1) =~= ts.skip(1).map_values(
            |t: (u64, TableValue)| EntrySpec { key: t.0, value: t.1@ },
        ));
        assert(es[0] == (EntrySpec { key: ts[0].0, value: ts[0].1@ }));
    }
}

/// Invariant of the blocks already sealed by the packer: each is well formed,
/// chains are continued, and no chain enters the first block.
spec fn sealed_inv(bb: Seq<Seq<RecordModel>>, bs: int) -> bool {
    &&& forall|k: int| 0 <= k < bb.len() ==> block_wf(#[trigger] bb[k], bs)
    &&& blocks_chained(bb)
    &&& bb.len() >= 1 ==> !continues_chain(bb[0])
}

/// Invariant of the block under construction between entries: only complete
/// records, except possibly a final fragment at the front.
spec fn cur_inv(cur: Seq<RecordModel>, bs: int) -> bool {
    &&& forall|k: int| 0 <= k < cur.len() ==> rec_wf(#[trigger] cur[k], bs)
    &&& forall|k: int|
        0 <= k < cur.len() ==> (#[trigger] cur[k].kind) == 1 || (k == 0 && cur[k].kind == 4)
}

/// The block under construction continues a chain exactly if the last sealed
/// block opened one.
spec fn link_inv(bb: Seq<Seq<RecordModel>>, cur: Seq<RecordModel>) -> bool {
    if bb.len() == 0 {
        !continues_chain(cur)
    } else {
        starts_chain(bb.last()) == continues_chain(cur)
    }
}

/// Pushing a well-linked block onto the sealed blocks keeps them well formed.
proof fn lemma_sealed_push(bb: Seq<Seq<RecordModel>>, cur: Seq<RecordModel>, bs: int)
    requires
        sealed_inv(bb, bs),
        block_wf(cur, bs),
        link_inv(bb, cur),
    ensures
        sealed_inv(bb.push(cur), bs),
        starts_chain(bb.push(cur).last()) == starts_chain(cur),
{
    let nb = bb.push(cur);
    assert forall|k: int| 0 <= k < nb.len() implies block_wf(#[trigger] nb[k], bs) by {
        if k < bb.len() {
            assert(nb[k] == bb[k]);
        } else {
            assert(nb[k] == cur);
        }
    }
    assert forall|k: int|
        0 <= k < nb.len() - 1 implies (starts_chain(#[trigger] nb[k]) <==> continues_chain(
        nb[k + 1],
    )) by {
        if k < bb.len() - 1 {
            assert(nb[k] == bb[k]);
            assert(nb[k + 1] == bb[k + 1]);
        } else {
            assert(nb[k] == bb.last());
            assert(nb[k + 1] == cur);
        }
    }
    if bb.len() == 0 {
        assert(nb[0] == cur);
    } else {
        assert(nb[0] == bb[0]);
    }
    assert(nb.last() == cur);
}

/// One more entry's payload at the end of the packed stream.
proof fn lemma_payloads_take_snoc(vs: Seq<Value>, i: int)
    requires
        0 <= i < vs.len(),
    ensures
        entry_payloads(entries_of(vs.take(i + 1))) == entry_payloads(
            entries_of(vs.take(i)),
        ).push(encode_entry_spec(vs[i]@)),
{
    assert(vs.take(i + 1) =~= vs.take(i).push(vs[i]));
    assert(entries_of(vs.take(i).push(vs[i])) =~= entries_of(vs.take(i)).push(vs[i]@));
    assert(entry_payloads(entries_of(vs.take(i)).push(vs[i]@)) =~= entry_payloads(
        entries_of(vs.take(i)),
    ).push(encode_entry_spec(vs[i]@)));
}

/// A block count bounded by the packing budget bounds the image size.
pub proof fn lemma_image_size_bound(n: int, bs: int, w: int)
    requires
        16 <= bs,
        0 <= n,
        0 <= w,
        (bs - 3) * n <= w + (bs - 3),
    ensures
        n * bs <= 2 * w + 2 * bs,
{
    assert(n * bs <= 2 * w + 2 * bs) by (nonlinear_arith)
        requires
            16 <= bs && 0 <= n && 0 <= w && (bs - 3) * n <= w + (bs - 3),
    ;
}

/// One more entry's weight at the end of the packed batch.
proof fn lemma_weight_take_snoc(vs: Seq<Value>, i: int)
    requires
        0 <= i < vs.len(),
    ensures
        entries_weight(entries_of(vs.take(i + 1))) == entries_weight(entries_of(vs.take(i)))
            + value_weight(vs[i]@.value) + 9,
{
    assert(vs.take(i + 1) =~= vs.take(i).push(vs[i]));
    assert(entries_of(vs.take(i).push(vs[i])) =~= entries_of(vs.take(i)).push(vs[i]@));
    assert(entries_of(vs.take(i)).push(vs[i]@) =~= entries_of(vs.take(i)) + seq![vs[i]@]);
    lemma_entries_weight_append(entries_of(vs.take(i)), seq![vs[i]@]);
    assert(seq![vs[i]@].skip(1) =~= Seq::<EntrySpec>::empty());
    assert(seq![vs[i]@][0] == vs[i]@);
    assert(entries_weight(Seq::<EntrySpec>::empty()) == 0);
    assert(entries_weight(seq![vs[i]@]) == value_weight(vs[i]@.value) + 9);
}

proof fn lemma_mul_succ(a: int, b: int)
    ensures
        a * (b + 1) == a * b + a,
{
    assert(a * (b + 1) == a * b + a) by (nonlinear_arith);
}

/// Pack the serialized entries into blocks of exactly
/// `options.block_size_in_bytes` bytes.  Entries that do not fit in the space
/// left in the current block are split into fragments; space too small for a
/// record header is given up and covered by padding when the block is
/// serialized.
///
/// Reassembling the records of the produced blocks yields exactly the
/// serialized input entries.
pub fn create_blocks(options: &DharmaOpts, values: &Vec<Value>, block_vec: &mut Vec<Block>)
    requires
        options.block_size_valid(),
        old(block_vec)@.len() == 0,
        forall|t: int| 0 <= t < values@.len() ==> entry_fits(#[trigger] values@[t]@),
    ensures
        wf_blocks(blocks_model(final(block_vec)@), options.block_size_in_bytes as int),
        forall|k: int| 0 <= k < final(block_vec)@.len() ==> (#[trigger] final(block_vec)@[k]).wf(),
        assemble(flat_records(blocks_model(final(block_vec)@)), Seq::<u8>::empty())
            == entry_payloads(entries_of(values@)),
        final(block_vec)@.len() == 0 <==> values@.len() == 0,
        (options.block_size_in_bytes - 3) * final(block_vec)@.len() <= entries_weight(
            entries_of(values@),
        ) + (options.block_size_in_bytes - 3),
{
    let bs = options.block_size_in_bytes;
    let ghost bsi = bs as int;
    let mut current = Block::new();
    let mut available: usize = bs;
    let mut i: usize = 0;
    proof {
        assert(blocks_model(block_vec@) =~= Seq::<Seq<RecordModel>>::empty());
        assert(flat_records(Seq::<Seq<RecordModel>>::empty()) == Seq::<RecordModel>::empty());
        assert(flat_records(blocks_model(block_vec@)) + current@ =~= Seq::<RecordModel>::empty());
        assert(values@.take(0) =~= Seq::<Value>::empty());
        assert(entries_of(Seq::<Value>::empty()) =~= Seq::<EntrySpec>::empty());
        assert(entry_payloads(Seq::<EntrySpec>::empty()) =~= Seq::<Seq<u8>>::empty());
        assert(assemble(Seq::<RecordModel>::empty(), Seq::<u8>::empty()) == Seq::<Seq<u8>>::empty());
        assert(pending(Seq::<RecordModel>::empty(), Seq::<u8>::empty()) == Seq::<u8>::empty());
        assert(recs_size(Seq::<RecordModel>::empty()) == 0);
    }
    while i < values.len()
        invariant
            options.block_size_valid(),
            bs == options.block_size_in_bytes,
            bsi == bs as int,
            i <= values@.len(),
            forall|t: int| 0 <= t < values@.len() ==> entry_fits(#[trigger] values@[t]@),
            sealed_inv(blocks_model(block_vec@), bsi),
            forall|k: int| 0 <= k < block_vec@.len() ==> (#[trigger] block_vec@[k]).wf(),
            current.wf(),
            cur_inv(current@, bsi),
            recs_size(current@) + available == bsi,
            1 <= available <= bsi,
            link_inv(blocks_model(block_vec@), current@),
            assemble(flat_records(blocks_model(block_vec@)) + current@, Seq::<u8>::empty())
                == entry_payloads(entries_of(values@.take(i as int))),
            pending(flat_records(blocks_model(block_vec@)) + current@, Seq::<u8>::empty())
                == Seq::<u8>::empty(),
            block_vec@.len() == 0 && current@.len() == 0 ==> i == 0,
            i == 0 ==> block_vec@.len() == 0 && current@.len() == 0,
            (bsi - 3) * block_vec@.len() + (bsi - available) <= entries_weight(
                entries_of(values@.take(i as int)),
            ),
        decreases values@.len() - i, (if available <= 3 { 1int } else { 0int }),
    {
        let ghost pre_blocks = blocks_model(block_vec@);
        let ghost pre_cur = current@;
        let ghost pre_all = flat_records(pre_blocks) + current@;
        let ghost pre_count = block_vec@.len() as int;
        let ghost pre_avail = available as int;
        let val = &values[i];
        let encoded = encode_value(val);
        proof {
            lemma_encoded_len_is_weight(values@[i as int]@);
            lemma_weight_take_snoc(values@, i as int);
        }
        let record_size = encoded.len();
        let required_record_size = RECORD_BASE_SIZE_IN_BYTES + record_size;
        if available == required_record_size {
            // the record exactly fills the block: emit and seal
            let record = Record {
                record_type: RecordType::COMPLETE,
                data_size_in_bytes: record_size as u16,
                data: encoded,
            };
            proof {
                assert(rec_wf(record@, bsi));
                lemma_assemble_snoc(pre_all, record@, Seq::<u8>::empty());
                lemma_payloads_take_snoc(values@, i as int);
                lemma_recs_size_append(current@, seq![record@]);
                lemma_recs_singleton(record@);
            }
            current.add(record);
            proof {
                assert(current@ =~= pre_cur.push(record@));
                assert(current@ =~= pre_cur + seq![record@]);
                assert(flat_records(pre_blocks) + current@ =~= pre_all.push(record@));
            }
            let ghost cur_model = current@;
            proof {
                assert(block_wf(cur_model, bsi));
                lemma_sealed_push(pre_blocks, cur_model, bsi);
                lemma_flat_records_push(pre_blocks, cur_model);
            }
            block_vec.push(current);
            proof {
                assert(blocks_model(block_vec@) =~= pre_blocks.push(cur_model));
                assert(flat_records(blocks_model(block_vec@)) + Seq::<RecordModel>::empty()
                    =~= pre_all.push(record@));
                lemma_mul_succ(bsi - 3, pre_count);
            }
            current = Block::new();
            available = bs;
            i = i + 1;
        } else if available > required_record_size {
            // the record fits with room to spare: emit and continue
            let record = Record {
                record_type: RecordType::COMPLETE,
                data_size_in_bytes: record_size as u16,
                data: encoded,
            };
            proof {
                assert(rec_wf(record@, bsi));
                lemma_assemble_snoc(pre_all, record@, Seq::<u8>::empty());
                lemma_payloads_take_snoc(values@, i as int);
                lemma_recs_size_append(current@, seq![record@]);
                lemma_recs_singleton(record@);
            }
            current.add(record);
            proof {
                assert(current@ =~= pre_cur.push(record@));
                assert(current@ =~= pre_cur + seq![record@]);
                assert(flat_records(pre_blocks) + current@ =~= pre_all.push(record@));
            }
            available = available - required_record_size;
            i = i + 1;
        } else if available > RECORD_BASE_SIZE_IN_BYTES {
            // the record does not fit: split it across blocks
            let first_len = available - RECORD_BASE_SIZE_IN_BYTES;
            let chunk = copy_range(&encoded, 0, first_len);
            let record = Record {
                record_type: RecordType::START,
                data_size_in_bytes: first_len as u16,
                data: chunk,
            };
            proof {
                assert(rec_wf(record@, bsi));
                lemma_assemble_snoc(pre_all, record@, Seq::<u8>::empty());
                lemma_recs_size_append(current@, seq![record@]);
                lemma_recs_singleton(record@);
            }
            current.add(record);
            proof {
                assert(current@ =~= pre_cur.push(record@));
                assert(current@ =~= pre_cur + seq![record@]);
                assert(flat_records(pre_blocks) + current@ =~= pre_all.push(record@));
                assert(Seq::<u8>::empty() + encoded@.subrange(0, first_len as int) =~= encoded@.take(
                    first_len as int,
                ));
            }
            let ghost cur_model = current@;
            proof {
                assert(cur_model.last() == record@);
                assert(block_wf(cur_model, bsi));
                lemma_sealed_push(pre_blocks, cur_model, bsi);
                lemma_flat_records_push(pre_blocks, cur_model);
            }
            block_vec.push(current);
            current = Block::new();
            proof {
                assert(blocks_model(block_vec@) =~= pre_blocks.push(cur_model));
                assert(flat_records(blocks_model(block_vec@)) =~= pre_all.push(record@));
                lemma_mul_succ(bsi - 3, pre_count);
            }
            let mut record_offset = first_len;
            while encoded.len() - record_offset > bs - RECORD_BASE_SIZE_IN_BYTES
                invariant
                    options.block_size_valid(),
                    bs == options.block_size_in_bytes,
                    bsi == bs as int,
                    i < values@.len(),
                    encoded@ == encode_entry_spec(values@[i as int]@),
                    9 <= encoded@.len() <= usize::MAX - 48,
                    0 < record_offset < encoded@.len(),
                    sealed_inv(blocks_model(block_vec@), bsi),
                    forall|k: int| 0 <= k < block_vec@.len() ==> (#[trigger] block_vec@[k]).wf(),
                    block_vec@.len() >= 1,
                    starts_chain(blocks_model(block_vec@).last()),
                    current@.len() == 0,
                    current.wf(),
                    assemble(flat_records(blocks_model(block_vec@)), Seq::<u8>::empty())
                        == entry_payloads(entries_of(values@.take(i as int))),
                    pending(flat_records(blocks_model(block_vec@)), Seq::<u8>::empty())
                        == encoded@.take(record_offset as int),
                    (bsi - 3) * block_vec@.len() <= entries_weight(
                        entries_of(values@.take(i as int)),
                    ) + record_offset,
                decreases encoded@.len() - record_offset,
            {
                let ghost mid_blocks = blocks_model(block_vec@);
                let ghost mid_flat = flat_records(mid_blocks);
                let chunk_len = bs - RECORD_BASE_SIZE_IN_BYTES;
                let chunk = copy_range(&encoded, record_offset, record_offset + chunk_len);
                let record = Record {
                    record_type: RecordType::MIDDLE,
                    data_size_in_bytes: chunk_len as u16,
                    data: chunk,
                };
                proof {
                    assert(rec_wf(record@, bsi));
                    lemma_assemble_snoc(mid_flat, record@, Seq::<u8>::empty());
                    lemma_recs_singleton(record@);
                }
                current.add(record);
                let ghost cur_model = current@;
                proof {
                    assert(cur_model =~= seq![record@]);
                    assert(cur_model.last() == record@);
                    assert(cur_model[0] == record@);
                    assert(block_wf(cur_model, bsi));
                    assert(link_inv(mid_blocks, cur_model));
                    lemma_sealed_push(mid_blocks, cur_model, bsi);
                    lemma_flat_records_push(mid_blocks, cur_model);
                }
                block_vec.push(current);
                current = Block::new();
                proof {
                    assert(blocks_model(block_vec@) =~= mid_blocks.push(cur_model));
                    assert(flat_records(blocks_model(block_vec@)) =~= mid_flat.push(record@));
                    lemma_mul_succ(bsi - 3, mid_blocks.len() as int);
                    assert(mid_flat.push(record@) =~= mid_flat + seq![record@]);
                    assert(encoded@.take(record_offset as int) + encoded@.subrange(
                        record_offset as int,
                        record_offset as int + chunk_len as int,
                    ) =~= encoded@.take(record_offset as int + chunk_len as int));
                }
                record_offset = record_offset + chunk_len;
            }
            // the rest of the entry fits as a final fragment
            let ghost end_blocks = blocks_model(block_vec@);
            let ghost end_flat = flat_records(end_blocks);
            let end_len = encoded.len() - record_offset;
            let chunk = copy_range(&encoded, record_offset, encoded.len());
            let record = Record {
                record_type: RecordType::END,
                data_size_in_bytes: end_len as u16,
                data: chunk,
            };
            proof {
                assert(rec_wf(record@, bsi));
                lemma_assemble_snoc(end_flat, record@, Seq::<u8>::empty());
                lemma_payloads_take_snoc(values@, i as int);
                lemma_recs_singleton(record@);
            }
            current.add(record);
            proof {
                assert(current@ =~= seq![record@]);
                assert(end_flat + current@ =~= end_flat.push(record@));
                assert(encoded@.take(record_offset as int) + encoded@.subrange(
                    record_offset as int,
                    encoded@.len() as int,
                ) =~= encoded@);
                lemma_recs_size_append(Seq::<RecordModel>::empty(), seq![record@]);
            }
            available = bs - (RECORD_BASE_SIZE_IN_BYTES + end_len);
            if available == 0 {
                let ghost cur_model = current@;
                proof {
                    assert(cur_model.last() == record@);
                    assert(block_wf(cur_model, bsi));
                    lemma_sealed_push(end_blocks, cur_model, bsi);
                    lemma_flat_records_push(end_blocks, cur_model);
                }
                block_vec.push(current);
                current = Block::new();
                available = bs;
                proof {
                    assert(blocks_model(block_vec@) =~= end_blocks.push(cur_model));
                    assert(flat_records(blocks_model(block_vec@)) + current@ =~= end_flat.push(
                        record@,
                    ));
                    lemma_mul_succ(bsi - 3, end_blocks.len() as int);
                }
            }
            i = i + 1;
        } else {
            // not even a record header fits: give the tail up to padding and
            // retry the entry in a fresh block
            let ghost cur_model = current@;
            proof {
                lemma_recs_size_nonneg(cur_model);
                assert(cur_model.len() >= 1) by {
                    if cur_model.len() == 0 {
                        assert(recs_size(cur_model) == 0);
                    }
                }
                assert(cur_model.last().kind == 1 || cur_model.last().kind == 4);
                assert(block_wf(cur_model, bsi));
                lemma_sealed_push(pre_blocks, cur_model, bsi);
                lemma_flat_records_push(pre_blocks, cur_model);
            }
            block_vec.push(current);
            current = Block::new();
            available = bs;
            proof {
                assert(blocks_model(block_vec@) =~= pre_blocks.push(cur_model));
                assert(flat_records(blocks_model(block_vec@)) + current@ =~= pre_all);
                lemma_mul_succ(bsi - 3, pre_count);
            }
        }
    }
    // a partially filled block still holds data: seal it
    if current.records.len() > 0 {
        let ghost pre_blocks = blocks_model(block_vec@);
        let ghost pre_count = block_vec@.len() as int;
        let ghost cur_model = current@;
        proof {
            assert(cur_model.len() == current.records@.len());
            assert(cur_model.last().kind == 1 || cur_model.last().kind == 4);
            assert(block_wf(cur_model, bsi));
            lemma_sealed_push(pre_blocks, cur_model, bsi);
            lemma_flat_records_push(pre_blocks, cur_model);
        }
        block_vec.push(current);
        proof {
            assert(blocks_model(block_vec@) =~= pre_blocks.push(cur_model));
            assert(flat_records(blocks_model(block_vec@)) =~= flat_records(pre_blocks)
                + cur_model);
            lemma_mul_succ(bsi - 3, pre_count);
        }
    } else {
        proof {
            assert(flat_records(blocks_model(block_vec@)) + current@ =~= flat_records(
                blocks_model(block_vec@),
            ));
        }
    }
    proof {
        assert(values@.take(values@.len() as int) =~= values@);
        let bb = blocks_model(block_vec@);
        if bb.len() >= 1 {
            assert(!starts_chain(bb.last()));
        }
    }
}

/// Append `count` zero bytes to `out`.
fn push_zero_bytes(out: &mut Vec<u8>, count: usize)
    ensures
        final(out)@ == old(out)@ + zero_bytes(count as int),
{
    let mut k: usize = 0;
    while k < count
        invariant
            k <= count,
            out@ == old(out)@ + zero_bytes(k as int),
        decreases count - k,
    {
        out.push(0u8);
        k = k + 1;
        proof {
            assert(out@ =~= old(out)@ + zero_bytes(k as int));
        }
    }
}

/// Serialize a block into the tail of a file image.  The block's records are
/// laid out back to back; leftover space is covered by a padding record, by a
/// bare padding header, or by zero bytes, so that the block occupies exactly
/// `options.block_size_in_bytes` bytes.
pub fn write_block(options: &DharmaOpts, out: &mut Vec<u8>, block: &Block)
    requires
        options.block_size_valid(),
        block.wf(),
        block_wf(block@, options.block_size_in_bytes as int),
    ensures
        final(out)@ == old(out)@ + block_bytes(block@, options.block_size_in_bytes as int),
        final(out)@.len() == old(out)@.len() + options.block_size_in_bytes,
{
    let bs = options.block_size_in_bytes;
    let ghost bsi = bs as int;
    let mut written_size_in_bytes: usize = 0;
    let mut r: usize = 0;
    proof {
        assert(block@.take(0) =~= Seq::<RecordModel>::empty());
        assert(recs_bytes(Seq::<RecordModel>::empty()) == Seq::<u8>::empty());
        assert(out@ =~= old(out)@ + recs_bytes(block@.take(0)));
        lemma_recs_size_nonneg(block@);
    }
    while r < block.records.len()
        invariant
            options.block_size_valid(),
            bs == options.block_size_in_bytes,
            bsi == bs as int,
            block.wf(),
            block_wf(block@, bsi),
            r <= block.records@.len(),
            block@.len() == block.records@.len(),
            written_size_in_bytes == recs_size(block@.take(r as int)),
            0 <= written_size_in_bytes <= bsi,
            out@ == old(out)@ + recs_bytes(block@.take(r as int)),
        decreases block.records@.len() - r,
    {
        let ghost pre = out@;
        let ghost taken = block@.take(r as int);
        proof {
            lemma_recs_bytes_slice(block@, r as int);
            lemma_recs_size_nonneg(block@.skip(r as int + 1));
            assert(block@[r as int] == block.records@[r as int]@);
            assert(rec_wf(block@[r as int], bsi));
            assert(block.records@[r as int].wf());
        }
        let record = &block.records[r];
        let code = record.record_type.code();
        out.push(code);
        out.push((record.data_size_in_bytes / 256) as u8);
        out.push((record.data_size_in_bytes % 256) as u8);
        let mut t: usize = 0;
        proof {
            let dlen = record.data@.len() as int;
            assert(0 <= dlen / 256 <= 255 && 0 <= dlen % 256 <= 255) by (nonlinear_arith)
                requires
                    0 <= dlen <= 0xffff,
            ;
            vstd::arithmetic::div_mod::lemma_fundamental_div_mod(dlen, 256);
            assert(record.data_size_in_bytes as int == dlen);
            assert(out@ =~= pre + rec_bytes(record@).take(3) + record.data@.take(0));
        }
        while t < record.data.len()
            invariant
                t <= record.data@.len(),
                out@ == pre + rec_bytes(record@).take(3) + record.data@.take(t as int),
            decreases record.data@.len() - t,
        {
            let b = record.data[t];
            out.push(b);
            t = t + 1;
            proof {
                assert(out@ =~= pre + rec_bytes(record@).take(3) + record.data@.take(t as int));
            }
        }
        proof {
            assert(record.data@.take(record.data@.len() as int) =~= record.data@);
            assert(rec_bytes(record@).take(3) + record.data@ =~= rec_bytes(record@));
            assert(block@.take(r as int + 1) =~= taken + seq![record@]);
            lemma_recs_bytes_append(taken, seq![record@]);
            lemma_recs_size_append(taken, seq![record@]);
            lemma_recs_singleton(record@);
            assert(out@ =~= pre + recs_bytes(seq![record@]));
            assert(out@ =~= old(out)@ + recs_bytes(block@.take(r as int + 1)));
            assert(recs_size(block@.take(r as int + 1)) <= recs_size(block@)) by {
                lemma_recs_bytes_slice(block@, r as int);
            }
        }
        written_size_in_bytes = written_size_in_bytes + RECORD_BASE_SIZE_IN_BYTES
            + record.data.len();
        r = r + 1;
    }
    proof {
        assert(block@.take(block@.len() as int) =~= block@);
    }
    // cover the leftover space so the block occupies exactly `bs` bytes
    let ghost packed = out@;
    if written_size_in_bytes < bs {
        let available_space_in_bytes = bs - written_size_in_bytes;
        if available_space_in_bytes > RECORD_BASE_SIZE_IN_BYTES {
            let pad_len = available_space_in_bytes - RECORD_BASE_SIZE_IN_BYTES;
            let padding = Record::with_padding(pad_len as u16);
            out.push(padding.record_type.code());
            out.push((padding.data_size_in_bytes / 256) as u8);
            out.push((padding.data_size_in_bytes % 256) as u8);
            proof {
                let v = pad_len as int;
                assert(0 <= v / 256 <= 255 && 0 <= v % 256 <= 255) by (nonlinear_arith)
                    requires
                        0 <= v <= 0xffff,
                ;
                vstd::arithmetic::div_mod::lemma_fundamental_div_mod(v, 256);
            }
            push_zero_bytes(out, pad_len);
            proof {
                assert(out@ =~= packed + pad_bytes(bsi - written_size_in_bytes));
            }
        } else if available_space_in_bytes == RECORD_BASE_SIZE_IN_BYTES {
            // exactly a header's worth of space: the bare padding header,
            // whose length field describes its own two length bytes
            let padding = Record::with_padding(2u16);
            out.push(padding.record_type.code());
            out.push(0u8);
            out.push(2u8);
            proof {
                assert(out@ =~= packed + pad_bytes(bsi - written_size_in_bytes));
            }
        } else {
            // less than a header: raw zero fill
            push_zero_bytes(out, available_space_in_bytes);
            proof {
                assert(out@ =~= packed + pad_bytes(bsi - written_size_in_bytes));
            }
        }
    } else {
        proof {
            assert(pad_bytes(0) =~= Seq::<u8>::empty());
            assert(out@ =~= packed + pad_bytes(bsi - written_size_in_bytes));
        }
    }
    proof {
        assert(out@ =~= old(out)@ + block_bytes(block@, bsi));
        lemma_recs_bytes_len(block@);
        lemma_pad_bytes_len(bsi - recs_size(block@));
    }
}

/// Copy the bytes of `data` between positions `from` and `to` into a fresh
/// vector.
pub fn copy_range(data: &Vec<u8>, from: usize, to: usize) -> (r: Vec<u8>)
    requires
        from <= to <= data@.len(),
    ensures
        r@ == data@.subrange(from as int, to as int),
{
    let mut out: Vec<u8> = Vec::new();
    let mut i: usize = from;
    while i < to
        invariant
            from <= i <= to <= data@.len(),
            out@ == data@.subrange(from as int, i as int),
        decreases to - i,
    {
        let b = data[i];
        out.push(b);
        i = i + 1;
        assert(out@ =~= data@.subrange(from as int, i as int));
    }
    out
}

} // verus!
