//! Writing a sorted run of entries as an SSTable image, and decoding a whole
//! image back into entries.

use vstd::prelude::*;

use crate::errors::Errors;
use crate::options::DharmaOpts;
use crate::storage::block::{
    blocks_model, create_blocks, decode_entry_spec, decode_value, encode_entry_spec, entries_of,
    entries_weight, entry_fits, entry_payloads, lemma_codec_round_trip, lemma_entries_weight_nonneg,
    lemma_image_size_bound, value_fits, write_block, Block, EntrySpec, TableValue, Value,
};
use crate::storage::format::{
    blocks_image, image_payloads, lemma_blocks_image_decodes, lemma_blocks_image_push,
    payloads_from, record_len_at, wf_entry_pos, wf_frag_pos, RECORD_BASE_SIZE_IN_BYTES,
};

verus! {

/// The entries named by a sequence of key-value pairs.
pub open spec fn pair_entries(ts: Seq<(u64, TableValue)>) -> Seq<EntrySpec> {
    ts.map_values(|t: (u64, TableValue)| EntrySpec { key: t.0, value: t.1@ })
}

/// Keys are in non-decreasing order.
pub open spec fn entries_sorted(es: Seq<EntrySpec>) -> bool {
    forall|a: int, b: int| 0 <= a < b < es.len() ==> es[a].key <= es[b].key
}

/// Keys are in strictly increasing order: sorted and distinct.
pub open spec fn entries_strictly_sorted(es: Seq<EntrySpec>) -> bool {
    forall|a: int, b: int| 0 <= a < b < es.len() ==> es[a].key < es[b].key
}

/// Every payload is a valid entry encoding.
pub open spec fn payloads_decode(ps: Seq<Seq<u8>>) -> bool {
    forall|i: int| 0 <= i < ps.len() ==> decode_entry_spec(#[trigger] ps[i]) is Some
}

/// The entries encoded by a sequence of payloads.
pub open spec fn decoded_entries(ps: Seq<Seq<u8>>) -> Seq<EntrySpec> {
    ps.map_values(|p: Seq<u8>| decode_entry_spec(p).unwrap())
}

/// The entries stored in a file image.
pub open spec fn image_entries(s: Seq<u8>, bs: int) -> Seq<EntrySpec> {
    decoded_entries(image_payloads(s, bs))
}

/// A well-formed SSTable image: whole blocks, decodable throughout, entries
/// in strictly increasing key order, every value small enough to re-encode.
pub open spec fn table_wf(s: Seq<u8>, bs: int) -> bool {
    &&& s.len() as int % bs == 0
    &&& s.len() <= usize::MAX - 0x20000
    &&& wf_entry_pos(s, bs, 0)
    &&& payloads_decode(image_payloads(s, bs))
    &&& entries_strictly_sorted(image_entries(s, bs))
    &&& forall|i: int|
        0 <= i < image_entries(s, bs).len() ==> value_fits(
            (#[trigger] image_entries(s, bs)[i]).value,
        )
}

/// Check whether the given bytes are a well-formed SSTable image for the
/// configured block size: whole blocks, intact records, complete fragment
/// chains, decodable payloads, and strictly increasing keys of bounded size.
/// A `true` answer establishes everything the readers and the engine require
/// of a table image; an unverified caller that loads files from disk can
/// check them here before handing them to the engine.
pub fn is_table_image(options: &DharmaOpts, data: &Vec<u8>) -> (r: bool)
    requires
        options.valid(),
    ensures
        r ==> table_wf(data@, options.block_size_in_bytes as int),
{
    let bs = options.block_size_in_bytes;
    let ghost bsi = bs as int;
    let ghost s = data@;
    if data.len() % bs != 0 {
        return false;
    }
    if data.len() > usize::MAX - 0x20000 {
        return false;
    }
    // walk the records, mirroring the well-formedness of positions: the
    // checks at each position, together with well-formedness from the next
    // position on, give well-formedness here
    let mut pos: usize = 0;
    let mut in_fragment = false;
    loop
        invariant_except_break
            options.valid(),
            bs == options.block_size_in_bytes,
            bsi == bs as int,
            s == data@,
            s.len() as int % bsi == 0,
            s.len() <= usize::MAX - 0x20000,
            pos <= data@.len(),
            (if in_fragment {
                wf_frag_pos(s, bsi, pos as int)
            } else {
                wf_entry_pos(s, bsi, pos as int)
            }) ==> wf_entry_pos(s, bsi, 0),
        ensures
            wf_entry_pos(s, bsi, 0),
        decreases data@.len() - pos,
    {
        if pos >= data.len() {
            if in_fragment {
                // a fragment chain cut off at the end of the data
                return false;
            }
            proof {
                assert(wf_entry_pos(s, bsi, pos as int));
            }
            break ;
        }
        let rem = bs - pos % bs;
        proof {
            lemma_table_walk_bounds(s.len() as int, bsi, pos as int);
        }
        if in_fragment {
            if pos % bs != 0 || rem <= RECORD_BASE_SIZE_IN_BYTES {
                return false;
            }
            let kind = data[pos];
            let len = (data[pos + 1] as usize) * 256 + (data[pos + 2] as usize);
            let next = pos + RECORD_BASE_SIZE_IN_BYTES + len;
            proof {
                assert(record_len_at(s, pos as int) == len);
            }
            if kind == 3 {
                if 3 + len != bs || next > data.len() {
                    return false;
                }
                pos = next;
            } else if kind == 4 {
                if 3 + len > bs || next > data.len() {
                    return false;
                }
                pos = next;
                in_fragment = false;
            } else {
                return false;
            }
        } else {
            if rem <= RECORD_BASE_SIZE_IN_BYTES {
                if data[pos] != 0 {
                    return false;
                }
                proof {
                    assert(crate::storage::format::cap_pos(s, pos as int + rem as int) == pos
                        as int + rem as int);
                }
                pos = pos + rem;
            } else {
                let kind = data[pos];
                let len = (data[pos + 1] as usize) * 256 + (data[pos + 2] as usize);
                let next = pos + RECORD_BASE_SIZE_IN_BYTES + len;
                proof {
                    assert(record_len_at(s, pos as int) == len);
                }
                if kind == 0 {
                    if pos % bs == 0 || 3 + len != rem || next > data.len() {
                        return false;
                    }
                    pos = next;
                } else if kind == 1 {
                    if len < 1 || 3 + len > rem || next > data.len() {
                        return false;
                    }
                    pos = next;
                } else if kind == 2 {
                    if len < 1 || 3 + len != rem || next > data.len() {
                        return false;
                    }
                    pos = next;
                    in_fragment = true;
                } else {
                    return false;
                }
            }
        }
    }
    // every payload must decode
    let entries = match read_sstable(options, data) {
        Ok(vs) => vs,
        Err(_) => {
            return false;
        },
    };
    // keys strictly increasing, every value small enough to re-encode
    let mut k: usize = 0;
    while k < entries.len()
        invariant
            k <= entries@.len(),
            forall|a: int, b: int| 0 <= a < b < k ==> (#[trigger] entries@[a])@.key < (
            #[trigger] entries@[b])@.key,
            forall|a: int|
                0 <= a < k ==> crate::storage::block::value_fits((#[trigger] entries@[a])@.value),
        decreases entries@.len() - k,
    {
        match &entries[k].value {
            TableValue::Data(d) => {
                if d.len() > usize::MAX - 64 {
                    return false;
                }
            },
            TableValue::Tombstone => {},
        }
        if k > 0 {
            if entries[k - 1].key >= entries[k].key {
                return false;
            }
        }
        k = k + 1;
        proof {
            assert forall|a: int, b: int|
                0 <= a < b < k implies (#[trigger] entries@[a])@.key < (
            #[trigger] entries@[b])@.key by {
                if b == k - 1 && a < b - 1 {
                    assert(entries@[a]@.key < entries@[b - 1]@.key);
                    assert(entries@[b - 1]@.key < entries@[b]@.key);
                }
            }
        }
    }
    proof {
        let es = image_entries(s, bsi);
        assert(entries_of(entries@) == es);
        assert forall|a: int, b: int|
            0 <= a < b < es.len() implies (#[trigger] es[a]).key < (#[trigger] es[b]).key by {
            assert(es[a] == entries@[a]@);
            assert(es[b] == entries@[b]@);
        }
        assert forall|a: int|
            0 <= a < es.len() implies crate::storage::block::value_fits(
            (#[trigger] es[a]).value,
        ) by {
            assert(es[a] == entries@[a]@);
        }
    }
    true
}

/// Geometry of a record-walk step: the remaining space of a block is
/// positive, and a dead tail ends exactly at the block boundary inside the
/// data.
proof fn lemma_table_walk_bounds(len: int, bs: int, pos: int)
    requires
        16 <= bs,
        len % bs == 0,
        0 <= pos < len,
    ensures
        0 <= pos % bs < bs,
        pos + (bs - pos % bs) <= len,
{
    vstd::arithmetic::div_mod::lemma_fundamental_div_mod(pos, bs);
    vstd::arithmetic::div_mod::lemma_fundamental_div_mod(len, bs);
    let q = pos / bs;
    let ql = len / bs;
    assert(bs * q + bs == bs * (q + 1)) by (nonlinear_arith);
    assert(bs * q < bs * ql ==> q < ql) by (nonlinear_arith)
        requires
            bs > 0,
    ;
    assert(q + 1 <= ql ==> bs * (q + 1) <= bs * ql) by (nonlinear_arith)
        requires
            bs > 0,
    ;
}

/// A file image as the SSTable writer produces it for the given entries:
/// whole blocks, well-formed at position zero, holding exactly those entries.
pub open spec fn is_image_of(s: Seq<u8>, bs: int, es: Seq<EntrySpec>) -> bool {
    &&& s.len() as int % bs == 0
    &&& wf_entry_pos(s, bs, 0)
    &&& image_payloads(s, bs) == entry_payloads(es)
}

/// An image of a sequence of entries decodes back to exactly those entries.
/// Together with the writer's guarantee this is the round trip: reading an
/// SSTable written from a sorted run returns that run.
pub proof fn lemma_sstable_round_trip(s: Seq<u8>, bs: int, es: Seq<EntrySpec>)
    requires
        is_image_of(s, bs, es),
    ensures
        payloads_decode(image_payloads(s, bs)),
        image_entries(s, bs) == es,
{
    let ps = image_payloads(s, bs);
    assert forall|i: int| 0 <= i < ps.len() implies decode_entry_spec(#[trigger] ps[i]) is Some by {
        assert(ps[i] == encode_entry_spec(es[i]));
        lemma_codec_round_trip(es[i]);
    }
    assert forall|i: int| 0 <= i < ps.len() implies decoded_entries(ps)[i] == es[i] by {
        assert(ps[i] == encode_entry_spec(es[i]));
        lemma_codec_round_trip(es[i]);
    }
    assert(image_entries(s, bs) =~= es);
}

/// Adjacent entries decoded from the image of a sorted run are in
/// non-decreasing key order.
pub proof fn lemma_sstable_sorted(s: Seq<u8>, bs: int, es: Seq<EntrySpec>)
    requires
        is_image_of(s, bs, es),
        entries_sorted(es),
    ensures
        entries_sorted(image_entries(s, bs)),
        forall|i: int|
            0 <= i < image_entries(s, bs).len() - 1 ==> (#[trigger] image_entries(s, bs)[i]).key
                <= image_entries(s, bs)[i + 1].key,
{
    lemma_sstable_round_trip(s, bs, es);
}

/// Clone a stored value.
pub fn clone_table_value(v: &TableValue) -> (r: TableValue)
    ensures
        r@ == v@,
{
    match v {
        TableValue::Tombstone => TableValue::Tombstone,
        TableValue::Data(d) => {
            let copy = crate::storage::block::copy_range(d, 0, d.len());
            proof {
                assert(copy@ =~= d@);
            }
            TableValue::Data(copy)
        }
    }
}

/// Write the list of key-value pairs, sorted by key, as the image of an
/// SSTable: a sequence of blocks whose entries are exactly the input, in
/// order.  The image's byte length is a multiple of the block size.
///
/// The `table_number` names the SSTable; the caller stores the image under
/// that number.
pub fn write_sstable(
    options: &DharmaOpts,
    tuples: &Vec<(u64, TableValue)>,
    table_number: usize,
) -> (r: Result<Vec<u8>, Errors>)
    requires
        options.block_size_valid(),
        forall|i: int| 0 <= i < tuples@.len() ==> value_fits((#[trigger] tuples@[i]).1@),
    ensures
        match r {
            Ok(img) => {
                &&& is_image_of(img@, options.block_size_in_bytes as int, pair_entries(tuples@))
                &&& img@.len() as int % options.block_size_in_bytes as int == 0
                &&& image_entries(img@, options.block_size_in_bytes as int) == pair_entries(
                    tuples@,
                )
                &&& img@.len() == 0 <==> tuples@.len() == 0
                &&& img@.len() <= 2 * entries_weight(pair_entries(tuples@)) + 2
                    * options.block_size_in_bytes
            },
            Err(_) => false,
        },
{
    let ghost bsi = options.block_size_in_bytes as int;
    let mut values: Vec<Value> = Vec::new();
    let mut i: usize = 0;
    proof {
        assert(entries_of(values@) =~= pair_entries(tuples@.take(0)));
    }
    while i < tuples.len()
        invariant
            i <= tuples@.len(),
            forall|t: int| 0 <= t < tuples@.len() ==> value_fits((#[trigger] tuples@[t]).1@),
            entries_of(values@) == pair_entries(tuples@.take(i as int)),
            values@.len() == i,
            forall|t: int| 0 <= t < values@.len() ==> entry_fits(#[trigger] values@[t]@),
        decreases tuples@.len() - i,
    {
        let key = tuples[i].0;
        let value = clone_table_value(&tuples[i].1);
        let entry = Value::new(key, value);
        let ghost pre_vals = values@;
        values.push(entry);
        i = i + 1;
        proof {
            let prev = i as int - 1;
            assert(values@ == pre_vals.push(entry));
            assert(tuples@.take(i as int) =~= tuples@.take(prev).push(tuples@[prev]));
            assert forall|k: int| 0 <= k < values@.len() implies entries_of(values@)[k]
                == pair_entries(tuples@.take(i as int))[k] by {
                if k < prev {
                    assert(entries_of(pre_vals)[k] == pair_entries(tuples@.take(prev))[k]);
                    assert(values@[k] == pre_vals[k]);
                    assert(tuples@.take(i as int)[k] == tuples@.take(prev)[k]);
                } else {
                    assert(values@[k] == entry);
                    assert(tuples@.take(i as int)[k] == tuples@[prev]);
                }
            }
            assert(entries_of(values@) =~= pair_entries(tuples@.take(i as int)));
        }
    }
    proof {
        assert(tuples@.take(tuples@.len() as int) =~= tuples@);
    }
    // pack the values into blocks of fixed size
    let mut blocks: Vec<Block> = Vec::new();
    create_blocks(options, &values, &mut blocks);
    // serialize the blocks back to back into the file image
    let mut image: Vec<u8> = Vec::new();
    let mut b: usize = 0;
    proof {
        assert(blocks_model(blocks@).take(0) =~= Seq::<Seq<crate::storage::format::RecordModel>>::empty());
        assert(image@ =~= blocks_image(blocks_model(blocks@).take(0), bsi));
    }
    while b < blocks.len()
        invariant
            options.block_size_valid(),
            bsi == options.block_size_in_bytes as int,
            b <= blocks@.len(),
            crate::storage::format::wf_blocks(blocks_model(blocks@), bsi),
            forall|k: int| 0 <= k < blocks@.len() ==> (#[trigger] blocks@[k]).wf(),
            image@ == blocks_image(blocks_model(blocks@).take(b as int), bsi),
        decreases blocks@.len() - b,
    {
        proof {
            assert(blocks_model(blocks@)[b as int] == blocks@[b as int]@);
            assert(crate::storage::format::block_wf(blocks@[b as int]@, bsi));
        }
        let block = &blocks[b];
        write_block(options, &mut image, block);
        b = b + 1;
        proof {
            let bm = blocks_model(blocks@);
            assert(bm.take(b as int) =~= bm.take(b as int - 1).push(bm[b as int - 1]));
            lemma_blocks_image_push(bm.take(b as int - 1), bm[b as int - 1], bsi);
            assert(image@ =~= blocks_image(bm.take(b as int), bsi));
        }
    }
    proof {
        let bm = blocks_model(blocks@);
        assert(bm.take(bm.len() as int) =~= bm);
        lemma_blocks_image_decodes(bm, bsi);
        assert(image@ == blocks_image(bm, bsi));
        assert(image_payloads(image@, bsi) == entry_payloads(entries_of(values@)));
        lemma_sstable_round_trip(image@, bsi, pair_entries(tuples@));
        if tuples@.len() == 0 {
            assert(blocks@.len() == 0);
            assert(image@.len() == 0);
        } else {
            assert(blocks@.len() >= 1);
            assert(bm.len() == blocks@.len());
            assert(image@.len() == bm.len() * bsi);
            assert(bm.len() * bsi >= bsi) by (nonlinear_arith)
                requires
                    bm.len() >= 1 && bsi > 0,
            ;
        }
        lemma_entries_weight_nonneg(pair_entries(tuples@));
        lemma_image_size_bound(
            bm.len() as int,
            bsi,
            entries_weight(pair_entries(tuples@)),
        );
    }
    Ok(image)
}

/// Decode a whole file image back into its entries.
///
/// The walk mirrors the byte-level decoding of the block format: padding and
/// dead block tails are skipped, fragments are reassembled across block
/// boundaries, and a truncated trailing record is discarded silently.  A
/// payload that is not a valid entry encoding fails with
/// `RECORD_DESERIALIZATION_FAILED`.
pub fn read_sstable(options: &DharmaOpts, data: &Vec<u8>) -> (r: Result<Vec<Value>, Errors>)
    requires
        options.block_size_valid(),
        data@.len() <= usize::MAX - 0x20000,
    ensures
        match r {
            Ok(vs) => {
                &&& payloads_decode(image_payloads(data@, options.block_size_in_bytes as int))
                &&& entries_of(vs@) == image_entries(data@, options.block_size_in_bytes as int)
            },
            Err(e) => {
                &&& e == Errors::RECORD_DESERIALIZATION_FAILED
                &&& !payloads_decode(image_payloads(data@, options.block_size_in_bytes as int))
            },
        },
{
    let bs = options.block_size_in_bytes;
    let ghost bsi = bs as int;
    let mut output: Vec<Value> = Vec::new();
    let mut acc: Vec<u8> = Vec::new();
    let mut pos: usize = 0;
    let ghost mut emitted: Seq<Seq<u8>> = Seq::<Seq<u8>>::empty();
    proof {
        assert(emitted + payloads_from(data@, bsi, 0, acc@) =~= image_payloads(data@, bsi));
        assert(decoded_entries(emitted) =~= entries_of(output@));
    }
    while pos < data.len()
        invariant
            options.block_size_valid(),
            bs == options.block_size_in_bytes,
            bsi == bs as int,
            data@.len() <= usize::MAX - 0x20000,
            pos <= data@.len(),
            image_payloads(data@, bsi) == emitted + payloads_from(data@, bsi, pos as int, acc@),
            payloads_decode(emitted),
            entries_of(output@) == decoded_entries(emitted),
        decreases data@.len() - pos,
    {
        let ghost pre_emitted = emitted;
        let rem = bs - pos % bs;
        if rem <= RECORD_BASE_SIZE_IN_BYTES {
            // a dead block tail
            proof {
                assert(payloads_from(data@, bsi, pos as int, acc@) == payloads_from(
                    data@,
                    bsi,
                    crate::storage::format::cap_pos(data@, pos as int + rem as int),
                    acc@,
                ));
            }
            pos = pos + rem;
            if pos > data.len() {
                pos = data.len();
            }
        } else if pos + RECORD_BASE_SIZE_IN_BYTES > data.len() {
            // a truncated record header: discard
            proof {
                assert(payloads_from(data@, bsi, pos as int, acc@) =~= Seq::<Seq<u8>>::empty());
                assert(image_payloads(data@, bsi) =~= emitted);
            }
            pos = data.len();
        } else {
            let kind = data[pos];
            let len = (data[pos + 1] as usize) * 256 + (data[pos + 2] as usize);
            let next = pos + RECORD_BASE_SIZE_IN_BYTES + len;
            proof {
                assert(record_len_at(data@, pos as int) == len);
            }
            if next > data.len() {
                // a truncated record: discard
                proof {
                    assert(payloads_from(data@, bsi, pos as int, acc@) =~= Seq::<
                        Seq<u8>,
                    >::empty());
                    assert(image_payloads(data@, bsi) =~= emitted);
                }
                pos = data.len();
            } else if kind == 0 {
                // padding
                proof {
                    assert(payloads_from(data@, bsi, pos as int, acc@) == payloads_from(
                        data@,
                        bsi,
                        next as int,
                        acc@,
                    ));
                }
                pos = next;
            } else if kind == 1 {
                // a complete entry
                let payload = crate::storage::block::copy_range(data, pos + 3, next);
                proof {
                    assert(payload@ =~= data@.subrange(pos as int + 3, next as int));
                }
                proof {
                    assert(payloads_from(data@, bsi, pos as int, acc@) == seq![payload@]
                        + payloads_from(data@, bsi, next as int, acc@));
                }
                match decode_value(&payload) {
                    Some(v) => {
                        let ghost pre_out = output@;
                        output.push(v);
                        proof {
                            emitted = pre_emitted.push(payload@);
                            assert(pre_emitted + (seq![payload@] + payloads_from(
                                data@,
                                bsi,
                                next as int,
                                acc@,
                            )) =~= emitted + payloads_from(data@, bsi, next as int, acc@));
                            assert forall|k: int|
                                0 <= k < emitted.len() implies decode_entry_spec(
                                #[trigger] emitted[k],
                            ) is Some by {
                                if k < pre_emitted.len() {
                                    assert(emitted[k] == pre_emitted[k]);
                                } else {
                                    assert(emitted[k] == payload@);
                                }
                            }
                            assert(entries_of(pre_out).len() == pre_out.len());
                            assert(decoded_entries(pre_emitted).len() == pre_emitted.len());
                            assert(pre_out.len() == pre_emitted.len());
                            assert(output@ == pre_out.push(v));
                            assert forall|k: int|
                                0 <= k < emitted.len() implies entries_of(output@)[k]
                                == decoded_entries(emitted)[k] by {
                                if k < pre_emitted.len() {
                                    assert(emitted[k] == pre_emitted[k]);
                                    assert(output@[k] == pre_out[k]);
                                    assert(entries_of(pre_out)[k] == decoded_entries(
                                        pre_emitted,
                                    )[k]);
                                } else {
                                    assert(emitted[k] == payload@);
                                    assert(output@[k] == v);
                                }
                            }
                            assert(entries_of(output@) =~= decoded_entries(emitted));
                        }
                        pos = next;
                    }
                    None => {
                        proof {
                            let ps = image_payloads(data@, bsi);
                            assert(payloads_from(data@, bsi, pos as int, acc@)[0] == payload@);
                            assert(ps[pre_emitted.len() as int] == payload@);
                        }
                        return Err(Errors::RECORD_DESERIALIZATION_FAILED);
                    }
                }
            } else if kind == 2 || kind == 3 {
                // the first or a middle fragment: accumulate
                let mut payload = crate::storage::block::copy_range(data, pos + 3, next);
                proof {
                    assert(payload@ =~= data@.subrange(pos as int + 3, next as int));
                }
                let ghost pre_acc = acc@;
                proof {
                    assert(payloads_from(data@, bsi, pos as int, pre_acc) == payloads_from(
                        data@,
                        bsi,
                        next as int,
                        pre_acc + data@.subrange(pos as int + 3, next as int),
                    ));
                }
                acc.append(&mut payload);
                proof {
                    assert(acc@ == pre_acc + data@.subrange(pos as int + 3, next as int));
                }
                pos = next;
            } else if kind == 4 {
                // the final fragment: the entry is complete
                let mut payload = crate::storage::block::copy_range(data, pos + 3, next);
                proof {
                    assert(payload@ =~= data@.subrange(pos as int + 3, next as int));
                }
                let ghost pre_acc = acc@;
                proof {
                    assert(payloads_from(data@, bsi, pos as int, pre_acc) == seq![pre_acc
                        + data@.subrange(pos as int + 3, next as int)] + payloads_from(
                        data@,
                        bsi,
                        next as int,
                        Seq::<u8>::empty(),
                    ));
                }
                let mut full = acc;
                full.append(&mut payload);
                acc = Vec::new();
                proof {
                    assert(full@ == pre_acc + data@.subrange(pos as int + 3, next as int));
                }
                match decode_value(&full) {
                    Some(v) => {
                        let ghost pre_out = output@;
                        output.push(v);
                        proof {
                            emitted = pre_emitted.push(full@);
                            assert(pre_emitted + (seq![full@] + payloads_from(
                                data@,
                                bsi,
                                next as int,
                                Seq::<u8>::empty(),
                            )) =~= emitted + payloads_from(
                                data@,
                                bsi,
                                next as int,
                                Seq::<u8>::empty(),
                            ));
                            assert forall|k: int|
                                0 <= k < emitted.len() implies decode_entry_spec(
                                #[trigger] emitted[k],
                            ) is Some by {
                                if k < pre_emitted.len() {
                                    assert(emitted[k] == pre_emitted[k]);
                                } else {
                                    assert(emitted[k] == full@);
                                }
                            }
                            assert(acc@ =~= Seq::<u8>::empty());
                            assert(entries_of(pre_out).len() == pre_out.len());
                            assert(decoded_entries(pre_emitted).len() == pre_emitted.len());
                            assert(pre_out.len() == pre_emitted.len());
                            assert(output@ == pre_out.push(v));
                            assert forall|k: int|
                                0 <= k < emitted.len() implies entries_of(output@)[k]
                                == decoded_entries(emitted)[k] by {
                                if k < pre_emitted.len() {
                                    assert(emitted[k] == pre_emitted[k]);
                                    assert(output@[k] == pre_out[k]);
                                    assert(entries_of(pre_out)[k] == decoded_entries(
                                        pre_emitted,
                                    )[k]);
                                } else {
                                    assert(emitted[k] == full@);
                                    assert(output@[k] == v);
                                }
                            }
                            assert(entries_of(output@) =~= decoded_entries(emitted));
                        }
                        pos = next;
                    }
                    None => {
                        proof {
                            let ps = image_payloads(data@, bsi);
                            assert(payloads_from(data@, bsi, pos as int, pre_acc)[0] == full@);
                            assert(ps[pre_emitted.len() as int] == full@);
                        }
                        return Err(Errors::RECORD_DESERIALIZATION_FAILED);
                    }
                }
            } else {
                // an unknown record kind: nothing beyond this point decodes
                proof {
                    assert(payloads_from(data@, bsi, pos as int, acc@) =~= Seq::<Seq<u8>>::empty());
                    assert(image_payloads(data@, bsi) =~= emitted);
                }
                pos = data.len();
            }
        }
    }
    proof {
        assert(payloads_from(data@, bsi, pos as int, acc@) =~= Seq::<Seq<u8>>::empty());
    }
    Ok(output)
}

} // verus!
