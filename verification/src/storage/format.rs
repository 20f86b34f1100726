//! The on-disk record and block format, as mathematical specification.
//!
//! A file (SSTable or write-ahead log) is a sequence of blocks of exactly
//! `block_size` bytes.  A block is a dense sequence of records; each record is
//! a 3-byte header (one kind byte, a big-endian 16-bit length) followed by
//! `length` payload bytes.  Record kinds: 0 = padding, 1 = a complete entry,
//! 2 = the first fragment of an entry, 3 = a middle fragment, 4 = the last
//! fragment.  Fragments of one entry always fill their block exactly so that
//! the continuation starts at the next block boundary.  Leftover space at the
//! end of a block is covered by a padding record when more than three bytes
//! remain, by the three header bytes alone when exactly three remain, and by
//! raw zero bytes otherwise.

use vstd::prelude::*;

verus! {

/// Number of header bytes before a record's payload.
pub const RECORD_BASE_SIZE_IN_BYTES: usize = 3;

/// Clamp a position to the end of the byte sequence.
pub open spec fn cap_pos(s: Seq<u8>, pos: int) -> int {
    if pos > s.len() {
        s.len() as int
    } else {
        pos
    }
}

/// The length field of the record whose header starts at `pos`:
/// a big-endian 16-bit integer.
pub open spec fn record_len_at(s: Seq<u8>, pos: int) -> int {
    (s[pos + 1] as int) * 256 + (s[pos + 2] as int)
}

/// The entry payloads encoded in `s` from position `pos` on, with `acc`
/// holding the bytes of fragments accumulated so far.  Padding records and
/// dead block tails are skipped; a truncated trailing record is discarded.
pub open spec fn payloads_from(s: Seq<u8>, bs: int, pos: int, acc: Seq<u8>) -> Seq<Seq<u8>>
    decreases s.len() - pos,
{
    if bs < 16 || pos < 0 || pos >= s.len() {
        Seq::<Seq<u8>>::empty()
    } else {
        let rem = bs - (pos % bs);
        if rem <= 3 {
            payloads_from(s, bs, cap_pos(s, pos + rem), acc)
        } else if pos + 3 > s.len() {
            Seq::<Seq<u8>>::empty()
        } else {
            let kind = s[pos];
            let len = record_len_at(s, pos);
            let next = pos + 3 + len;
            if next > s.len() {
                Seq::<Seq<u8>>::empty()
            } else if kind == 0 {
                payloads_from(s, bs, next, acc)
            } else if kind == 1 {
                seq![s.subrange(pos + 3, next)] + payloads_from(s, bs, next, acc)
            } else if kind == 2 || kind == 3 {
                payloads_from(s, bs, next, acc + s.subrange(pos + 3, next))
            } else if kind == 4 {
                seq![acc + s.subrange(pos + 3, next)] + payloads_from(s, bs, next, Seq::<u8>::empty())
            } else {
                Seq::<Seq<u8>>::empty()
            }
        }
    }
}

/// The entry payloads of a whole file image.
pub open spec fn image_payloads(s: Seq<u8>, bs: int) -> Seq<Seq<u8>> {
    payloads_from(s, bs, 0, Seq::<u8>::empty())
}

/// Well-formedness of an image at a position where a new entry (or the end of
/// the data) is expected: every record reachable from here is intact, fragment
/// chains fill their blocks and resume at block boundaries, and padding only
/// covers block tails.
pub open spec fn wf_entry_pos(s: Seq<u8>, bs: int, pos: int) -> bool
    decreases s.len() - pos,
{
    if bs < 16 || pos < 0 || s.len() as int % bs != 0 {
        false
    } else if pos >= s.len() {
        pos == s.len()
    } else {
        let rem = bs - (pos % bs);
        if rem <= 3 {
            s[pos] == 0 && wf_entry_pos(s, bs, cap_pos(s, pos + rem))
        } else {
            let kind = s[pos];
            let len = record_len_at(s, pos);
            let next = pos + 3 + len;
            if kind == 0 {
                pos % bs != 0 && 3 + len == rem && next <= s.len() && wf_entry_pos(s, bs, next)
            } else if kind == 1 {
                1 <= len && 3 + len <= rem && next <= s.len() && wf_entry_pos(s, bs, next)
            } else if kind == 2 {
                1 <= len && 3 + len == rem && next <= s.len() && wf_frag_pos(s, bs, next)
            } else {
                false
            }
        }
    }
}

/// Well-formedness of an image at a position where the continuation of a
/// fragmented entry is expected: the position is a block boundary holding a
/// middle or last fragment.
pub open spec fn wf_frag_pos(s: Seq<u8>, bs: int, pos: int) -> bool
    decreases s.len() - pos,
{
    if bs < 16 || pos < 0 || s.len() as int % bs != 0 {
        false
    } else if pos >= s.len() || pos % bs != 0 || pos + 3 > s.len() {
        false
    } else {
        let kind = s[pos];
        let len = record_len_at(s, pos);
        let next = pos + 3 + len;
        if kind == 3 {
            3 + len == bs && next <= s.len() && wf_frag_pos(s, bs, next)
        } else if kind == 4 {
            3 + len <= bs && next <= s.len() && wf_entry_pos(s, bs, next)
        } else {
            false
        }
    }
}

/// The position of the header of the first entry record (complete or first
/// fragment) at or after `pos`, skipping padding records and dead block
/// tails; `s.len()` if there is none.
pub open spec fn record_pos(s: Seq<u8>, bs: int, pos: int) -> int
    decreases s.len() - pos,
{
    if bs < 16 || pos < 0 || pos >= s.len() {
        s.len() as int
    } else {
        let rem = bs - (pos % bs);
        if rem <= 3 {
            record_pos(s, bs, cap_pos(s, pos + rem))
        } else if pos + 3 > s.len() {
            s.len() as int
        } else if s[pos] == 0 {
            record_pos(s, bs, cap_pos(s, pos + 3 + record_len_at(s, pos)))
        } else {
            pos
        }
    }
}

// ---------------------------------------------------------------------------
// The model of records and blocks as the writer lays them out.
// ---------------------------------------------------------------------------

/// The mathematical model of one record: its kind byte and its payload.
pub struct RecordModel {
    pub kind: u8,
    pub data: Seq<u8>,
}

/// A record as laid out on disk: kind byte, big-endian 16-bit payload length,
/// payload.
pub open spec fn rec_bytes(r: RecordModel) -> Seq<u8> {
    seq![r.kind, (r.data.len() as int / 256) as u8, (r.data.len() as int % 256) as u8] + r.data
}

/// The on-disk footprint of one record.
pub open spec fn rec_size(r: RecordModel) -> int {
    3 + r.data.len() as int
}

/// The concatenated bytes of a sequence of records.
pub open spec fn recs_bytes(rs: Seq<RecordModel>) -> Seq<u8>
    decreases rs.len(),
{
    if rs.len() == 0 {
        Seq::<u8>::empty()
    } else {
        rec_bytes(rs[0]) + recs_bytes(rs.skip(1))
    }
}

/// The combined on-disk footprint of a sequence of records.
pub open spec fn recs_size(rs: Seq<RecordModel>) -> int
    decreases rs.len(),
{
    if rs.len() == 0 {
        0
    } else {
        rec_size(rs[0]) + recs_size(rs.skip(1))
    }
}

/// `n` zero bytes.
pub open spec fn zero_bytes(n: int) -> Seq<u8> {
    Seq::<u8>::new(if n >= 0 { n as nat } else { 0 }, |i: int| 0u8)
}

/// The bytes that cover the last `rem` unused bytes of a block: a padding
/// record when a full header plus payload fits, the bare padding header when
/// exactly three bytes remain, raw zeros otherwise.
pub open spec fn pad_bytes(rem: int) -> Seq<u8> {
    if rem > 3 {
        seq![0u8, ((rem - 3) / 256) as u8, ((rem - 3) % 256) as u8] + zero_bytes(rem - 3)
    } else if rem == 3 {
        seq![0u8, 0u8, 2u8]
    } else {
        zero_bytes(rem)
    }
}

/// A block on disk: its records back to back, then padding up to the block
/// size.
pub open spec fn block_bytes(rs: Seq<RecordModel>, bs: int) -> Seq<u8> {
    recs_bytes(rs) + pad_bytes(bs - recs_size(rs))
}

/// A record the writer may emit: an entry record whose payload fits its block
/// and the 16-bit length field; complete records and first and last fragments
/// are never empty, so an entry that fits a block is never split.
pub open spec fn rec_wf(r: RecordModel, bs: int) -> bool {
    &&& 1 <= r.kind <= 4
    &&& r.data.len() <= 0xffff
    &&& 3 + r.data.len() <= bs
    &&& (r.kind == 1 || r.kind == 2 || r.kind == 4) ==> r.data.len() >= 1
}

/// A block the writer may emit.  First fragments (kind 2) and middle
/// fragments (kind 3) fill the block exactly and stand last; middle and last
/// fragments (kinds 3 and 4) resume a chain and stand first.
pub open spec fn block_wf(rs: Seq<RecordModel>, bs: int) -> bool {
    &&& rs.len() >= 1
    &&& recs_size(rs) <= bs
    &&& forall|i: int| 0 <= i < rs.len() ==> rec_wf(#[trigger] rs[i], bs)
    &&& forall|i: int|
        0 <= i < rs.len() && ((#[trigger] rs[i].kind) == 2 || rs[i].kind == 3) ==> i + 1
            == rs.len() && recs_size(rs) == bs
    &&& forall|i: int| 0 <= i < rs.len() && (#[trigger] rs[i].kind) == 3 ==> i == 0
    &&& forall|i: int| 0 <= i < rs.len() && (#[trigger] rs[i].kind) == 4 ==> i == 0
}

/// Does the block end inside a fragmented entry?
pub open spec fn starts_chain(rs: Seq<RecordModel>) -> bool {
    rs.len() >= 1 && (rs.last().kind == 2 || rs.last().kind == 3)
}

/// Does the block begin with the continuation of a fragmented entry?
pub open spec fn continues_chain(rs: Seq<RecordModel>) -> bool {
    rs.len() >= 1 && (rs[0].kind == 3 || rs[0].kind == 4)
}

/// Every fragment chain that a block opens is continued by the block after
/// it, and only then.
pub open spec fn blocks_chained(bb: Seq<Seq<RecordModel>>) -> bool {
    forall|i: int|
        0 <= i < bb.len() - 1 ==> (starts_chain(#[trigger] bb[i]) <==> continues_chain(bb[i + 1]))
}

/// A well-formed sequence of blocks: each block well formed, every fragment
/// chain continued in the following block, no chain left open at either end.
pub open spec fn wf_blocks(bb: Seq<Seq<RecordModel>>, bs: int) -> bool {
    &&& 16 <= bs <= 0xffff + 3
    &&& forall|i: int| 0 <= i < bb.len() ==> block_wf(#[trigger] bb[i], bs)
    &&& blocks_chained(bb)
    &&& bb.len() >= 1 ==> !continues_chain(bb[0]) && !starts_chain(bb.last())
}

/// The records of all blocks, flattened.
pub open spec fn flat_records(bb: Seq<Seq<RecordModel>>) -> Seq<RecordModel>
    decreases bb.len(),
{
    if bb.len() == 0 {
        Seq::<RecordModel>::empty()
    } else {
        bb[0] + flat_records(bb.skip(1))
    }
}

/// The bytes of a whole sequence of blocks.
pub open spec fn blocks_image(bb: Seq<Seq<RecordModel>>, bs: int) -> Seq<u8>
    decreases bb.len(),
{
    if bb.len() == 0 {
        Seq::<u8>::empty()
    } else {
        block_bytes(bb[0], bs) + blocks_image(bb.skip(1), bs)
    }
}

/// Reassemble entry payloads from a flat sequence of records, with `acc`
/// holding the fragment bytes accumulated so far.
pub open spec fn assemble(rs: Seq<RecordModel>, acc: Seq<u8>) -> Seq<Seq<u8>>
    decreases rs.len(),
{
    if rs.len() == 0 {
        Seq::<Seq<u8>>::empty()
    } else {
        let r = rs[0];
        if r.kind == 1 {
            seq![r.data] + assemble(rs.skip(1), acc)
        } else if r.kind == 2 || r.kind == 3 {
            assemble(rs.skip(1), acc + r.data)
        } else if r.kind == 4 {
            seq![acc + r.data] + assemble(rs.skip(1), Seq::<u8>::empty())
        } else {
            assemble(rs.skip(1), acc)
        }
    }
}

/// The fragment bytes still pending after processing `rs` starting from `acc`.
pub open spec fn pending(rs: Seq<RecordModel>, acc: Seq<u8>) -> Seq<u8>
    decreases rs.len(),
{
    if rs.len() == 0 {
        acc
    } else {
        let r = rs[0];
        if r.kind == 2 || r.kind == 3 {
            pending(rs.skip(1), acc + r.data)
        } else if r.kind == 4 {
            pending(rs.skip(1), Seq::<u8>::empty())
        } else {
            pending(rs.skip(1), acc)
        }
    }
}

// ---------------------------------------------------------------------------
// Lemmas about the folds over records and blocks.
// ---------------------------------------------------------------------------

pub proof fn lemma_recs_size_append(a: Seq<RecordModel>, b: Seq<RecordModel>)
    ensures
        recs_size(a + b) == recs_size(a) + recs_size(b),
    decreases a.len(),
{
    if a.len() == 0 {
        assert(a + b =~= b);
    } else {
        assert((a + b).skip(1) =~= a.skip(1) + b);
        lemma_recs_size_append(a.skip(1), b);
    }
}

pub proof fn lemma_recs_size_nonneg(rs: Seq<RecordModel>)
    ensures
        recs_size(rs) >= 0,
        rs.len() >= 1 ==> recs_size(rs) >= 3,
    decreases rs.len(),
{
    if rs.len() > 0 {
        lemma_recs_size_nonneg(rs.skip(1));
    }
}

pub proof fn lemma_recs_bytes_append(a: Seq<RecordModel>, b: Seq<RecordModel>)
    ensures
        recs_bytes(a + b) == recs_bytes(a) + recs_bytes(b),
    decreases a.len(),
{
    if a.len() == 0 {
        assert(a + b =~= b);
        assert(recs_bytes(a) + recs_bytes(b) =~= recs_bytes(b));
    } else {
        assert((a + b).skip(1) =~= a.skip(1) + b);
        lemma_recs_bytes_append(a.skip(1), b);
        assert(recs_bytes(a + b) =~= recs_bytes(a) + recs_bytes(b));
    }
}

pub proof fn lemma_recs_bytes_len(rs: Seq<RecordModel>)
    ensures
        recs_bytes(rs).len() == recs_size(rs),
    decreases rs.len(),
{
    if rs.len() > 0 {
        lemma_recs_bytes_len(rs.skip(1));
    }
}

pub proof fn lemma_recs_singleton(r: RecordModel)
    ensures
        recs_size(seq![r]) == rec_size(r),
        recs_bytes(seq![r]) == rec_bytes(r),
{
    let s = seq![r];
    assert(s.skip(1) =~= Seq::<RecordModel>::empty());
    assert(recs_size(s.skip(1)) == 0);
    assert(recs_bytes(s.skip(1)) =~= Seq::<u8>::empty());
    assert(s[0] == r);
    assert(recs_size(s) == rec_size(s[0]) + recs_size(s.skip(1)));
    assert(recs_bytes(s) =~= rec_bytes(r));
}

/// Size and byte facts about the record at index `j` of a record sequence.
pub proof fn lemma_recs_bytes_slice(rs: Seq<RecordModel>, j: int)
    requires
        0 <= j < rs.len(),
    ensures
        recs_size(rs.take(j + 1)) == recs_size(rs.take(j)) + rec_size(rs[j]),
        0 <= recs_size(rs.take(j)),
        recs_size(rs.take(j + 1)) + recs_size(rs.skip(j + 1)) == recs_size(rs),
        0 <= recs_size(rs.skip(j + 1)),
        recs_bytes(rs).subrange(
            recs_size(rs.take(j)),
            recs_size(rs.take(j)) + rec_size(rs[j]),
        ) == rec_bytes(rs[j]),
{
    let pre = rs.take(j);
    let r = rs[j];
    let post = rs.skip(j + 1);
    assert(rs =~= pre + seq![r] + post);
    assert(rs.take(j + 1) =~= pre + seq![r]);
    lemma_recs_size_append(pre, seq![r]);
    lemma_recs_size_append(pre + seq![r], post);
    lemma_recs_singleton(r);
    lemma_recs_size_nonneg(pre);
    lemma_recs_size_nonneg(post);
    lemma_recs_bytes_append(pre, seq![r]);
    lemma_recs_bytes_append(pre + seq![r], post);
    lemma_recs_bytes_len(pre);
    lemma_recs_bytes_len(post);
    assert(recs_bytes(rs).subrange(recs_size(pre), recs_size(pre) + rec_size(r)) =~= rec_bytes(
        rs[j],
    ));
}

pub proof fn lemma_pad_bytes_len(rem: int)
    requires
        0 <= rem <= 0xffff + 3,
    ensures
        pad_bytes(rem).len() == rem,
{
}

pub proof fn lemma_block_bytes_len(rs: Seq<RecordModel>, bs: int)
    requires
        16 <= bs <= 0xffff + 3,
        0 <= recs_size(rs) <= bs,
    ensures
        block_bytes(rs, bs).len() == bs,
{
    lemma_recs_bytes_len(rs);
    lemma_pad_bytes_len(bs - recs_size(rs));
}

pub proof fn lemma_blocks_image_len(bb: Seq<Seq<RecordModel>>, bs: int)
    requires
        16 <= bs <= 0xffff + 3,
        forall|i: int| 0 <= i < bb.len() ==> 0 <= recs_size(#[trigger] bb[i]) <= bs,
    ensures
        blocks_image(bb, bs).len() == bb.len() * bs,
        blocks_image(bb, bs).len() as int % bs == 0,
    decreases bb.len(),
{
    if bb.len() == 0 {
        assert(0int * bs == 0) by (nonlinear_arith);
    } else {
        lemma_block_bytes_len(bb[0], bs);
        assert(forall|i: int|
            0 <= i < bb.skip(1).len() ==> 0 <= recs_size(#[trigger] bb.skip(1)[i]) <= bs);
        lemma_blocks_image_len(bb.skip(1), bs);
        assert(bb.len() * bs == bs + (bb.len() - 1) * bs) by (nonlinear_arith);
    }
    vstd::arithmetic::div_mod::lemma_mod_multiples_basic(bb.len() as int, bs);
}

pub proof fn lemma_blocks_image_block(bb: Seq<Seq<RecordModel>>, bs: int, i: int)
    requires
        16 <= bs <= 0xffff + 3,
        forall|k: int| 0 <= k < bb.len() ==> 0 <= recs_size(#[trigger] bb[k]) <= bs,
        0 <= i < bb.len(),
    ensures
        blocks_image(bb, bs).subrange(i * bs, i * bs + bs) == block_bytes(bb[i], bs),
    decreases i,
{
    lemma_blocks_image_len(bb, bs);
    lemma_block_bytes_len(bb[0], bs);
    assert(forall|k: int|
        0 <= k < bb.skip(1).len() ==> 0 <= recs_size(#[trigger] bb.skip(1)[k]) <= bs);
    lemma_blocks_image_len(bb.skip(1), bs);
    if i == 0 {
        assert(0int * bs == 0) by (nonlinear_arith);
        assert(blocks_image(bb, bs).subrange(0, bs) =~= block_bytes(bb[0], bs));
    } else {
        lemma_blocks_image_block(bb.skip(1), bs, i - 1);
        assert(i * bs == bs + (i - 1) * bs) by (nonlinear_arith);
        let n = bb.len() as int;
        assert((i - 1) * bs >= 0) by (nonlinear_arith)
            requires
                i >= 1 && bs > 0,
        ;
        assert(i * bs + bs <= n * bs) by (nonlinear_arith)
            requires
                i < n && bs > 0,
        ;
        assert(blocks_image(bb, bs).subrange(i * bs, i * bs + bs) =~= blocks_image(
            bb.skip(1),
            bs,
        ).subrange((i - 1) * bs, (i - 1) * bs + bs));
    }
}

pub proof fn lemma_flat_records_skip(bb: Seq<Seq<RecordModel>>, i: int)
    requires
        0 <= i < bb.len(),
    ensures
        flat_records(bb.skip(i)) == bb[i] + flat_records(bb.skip(i + 1)),
{
    assert(bb.skip(i)[0] == bb[i]);
    assert(bb.skip(i).skip(1) =~= bb.skip(i + 1));
}

pub proof fn lemma_assemble_append(a: Seq<RecordModel>, b: Seq<RecordModel>, acc: Seq<u8>)
    ensures
        assemble(a + b, acc) == assemble(a, acc) + assemble(b, pending(a, acc)),
        pending(a + b, acc) == pending(b, pending(a, acc)),
    decreases a.len(),
{
    if a.len() == 0 {
        assert(a + b =~= b);
        assert(assemble(a, acc) + assemble(b, acc) =~= assemble(b, acc));
    } else {
        assert((a + b).skip(1) =~= a.skip(1) + b);
        let r = a[0];
        if r.kind == 1 {
            lemma_assemble_append(a.skip(1), b, acc);
            assert(assemble(a + b, acc) =~= assemble(a, acc) + assemble(b, pending(a, acc)));
        } else if r.kind == 2 || r.kind == 3 {
            lemma_assemble_append(a.skip(1), b, acc + r.data);
        } else if r.kind == 4 {
            lemma_assemble_append(a.skip(1), b, Seq::<u8>::empty());
            assert(assemble(a + b, acc) =~= assemble(a, acc) + assemble(b, pending(a, acc)));
        } else {
            lemma_assemble_append(a.skip(1), b, acc);
        }
    }
}

/// The bytes of record `j` of block `bi`, as they appear in the image of the
/// whole block sequence.
pub proof fn lemma_image_record(bb: Seq<Seq<RecordModel>>, bs: int, bi: int, j: int)
    requires
        16 <= bs <= 0xffff + 3,
        forall|k: int| 0 <= k < bb.len() ==> block_wf(#[trigger] bb[k], bs),
        0 <= bi < bb.len(),
        0 <= j < bb[bi].len(),
    ensures
        0 <= recs_size(bb[bi].take(j)),
        recs_size(bb[bi].take(j)) + rec_size(bb[bi][j]) == recs_size(bb[bi].take(j + 1)),
        recs_size(bb[bi].take(j + 1)) <= recs_size(bb[bi]) <= bs,
        recs_size(bb[bi].take(j)) <= bs - 3,
        blocks_image(bb, bs).len() == bb.len() * bs,
        blocks_image(bb, bs).len() as int % bs == 0,
        (bi * bs + recs_size(bb[bi].take(j))) % bs == recs_size(bb[bi].take(j)),
        bi * bs + recs_size(bb[bi].take(j + 1)) <= bi * bs + bs <= blocks_image(bb, bs).len(),
        0 <= bi * bs + recs_size(bb[bi].take(j)),
        blocks_image(bb, bs)[bi * bs + recs_size(bb[bi].take(j))] == bb[bi][j].kind,
        record_len_at(blocks_image(bb, bs), bi * bs + recs_size(bb[bi].take(j))) == bb[bi][j].data.len(),
        blocks_image(bb, bs).subrange(
            bi * bs + recs_size(bb[bi].take(j)) + 3,
            bi * bs + recs_size(bb[bi].take(j)) + rec_size(bb[bi][j]),
        ) == bb[bi][j].data,
{
    let img = blocks_image(bb, bs);
    let rs = bb[bi];
    let r = rs[j];
    let dlen = r.data.len() as int;
    let sz = recs_size(rs.take(j));
    let pos = bi * bs + sz;
    assert forall|k: int| 0 <= k < bb.len() implies 0 <= recs_size(#[trigger] bb[k]) <= bs by {
        lemma_recs_size_nonneg(bb[k]);
    }
    lemma_blocks_image_len(bb, bs);
    lemma_blocks_image_block(bb, bs, bi);
    lemma_recs_bytes_slice(rs, j);
    lemma_recs_size_nonneg(rs.skip(j + 1));
    lemma_recs_bytes_len(rs);
    assert(rec_wf(r, bs));
    lemma_pos_in_block(bb.len() as int, bs, bi, sz);
    let blkb = block_bytes(rs, bs);
    lemma_block_bytes_len(rs, bs);
    assert(blkb =~= img.subrange(bi * bs, bi * bs + bs));
    // the bytes of record j within the block
    let rb = rec_bytes(r);
    assert(rb == recs_bytes(rs).subrange(sz, sz + rec_size(r)));
    assert(forall|t: int| 0 <= t < rec_size(r) ==> rb[t] == recs_bytes(rs)[sz + t]);
    assert(forall|t: int|
        0 <= t < recs_size(rs) ==> #[trigger] recs_bytes(rs)[t] == blkb[t]);
    assert(forall|t: int| 0 <= t < bs ==> #[trigger] blkb[t] == img[bi * bs + t]);
    assert(img[pos] == rb[0]);
    assert(rb[0] == r.kind);
    // the length field holds the payload length
    assert(img[pos + 1] == rb[1]);
    assert(img[pos + 2] == rb[2]);
    assert(0 <= dlen / 256 <= 255 && 0 <= dlen % 256 <= 255) by (nonlinear_arith)
        requires
            0 <= dlen <= 0xffff,
    ;
    vstd::arithmetic::div_mod::lemma_fundamental_div_mod(dlen, 256);
    assert(record_len_at(img, pos) == dlen);
    // the payload bytes
    assert(img.subrange(pos + 3, pos + rec_size(r)) =~= r.data) by {
        assert(forall|t: int| 0 <= t < dlen ==> rb[3 + t] == r.data[t]);
    }
}

/// The bytes that pad the tail of block `bi`, as they appear in the image of
/// the whole block sequence.
pub proof fn lemma_image_tail(bb: Seq<Seq<RecordModel>>, bs: int, bi: int)
    requires
        16 <= bs <= 0xffff + 3,
        forall|k: int| 0 <= k < bb.len() ==> block_wf(#[trigger] bb[k], bs),
        0 <= bi < bb.len(),
        recs_size(bb[bi]) < bs,
    ensures
        3 <= recs_size(bb[bi]),
        (bi * bs + recs_size(bb[bi])) % bs == recs_size(bb[bi]),
        bi * bs + bs <= blocks_image(bb, bs).len(),
        blocks_image(bb, bs)[bi * bs + recs_size(bb[bi])] == 0,
        bs - recs_size(bb[bi]) > 3 ==> {
            &&& blocks_image(bb, bs)[bi * bs + recs_size(bb[bi])] == 0
            &&& record_len_at(blocks_image(bb, bs), bi * bs + recs_size(bb[bi])) == bs
                - recs_size(bb[bi]) - 3
        },
{
    let img = blocks_image(bb, bs);
    let rs = bb[bi];
    let sz = recs_size(rs);
    let rem = bs - sz;
    lemma_recs_size_nonneg(rs);
    assert forall|k: int| 0 <= k < bb.len() implies 0 <= recs_size(#[trigger] bb[k]) <= bs by {
        lemma_recs_size_nonneg(bb[k]);
    }
    lemma_blocks_image_len(bb, bs);
    lemma_blocks_image_block(bb, bs, bi);
    lemma_recs_bytes_len(rs);
    lemma_pos_in_block(bb.len() as int, bs, bi, sz);
    let blkb = block_bytes(rs, bs);
    lemma_block_bytes_len(rs, bs);
    assert(blkb =~= img.subrange(bi * bs, bi * bs + bs));
    assert(forall|t: int| 0 <= t < bs ==> #[trigger] blkb[t] == img[bi * bs + t]);
    let pb0 = pad_bytes(rem);
    assert(forall|t: int| 0 <= t < rem ==> #[trigger] pb0[t] == blkb[sz + t]);
    assert(pb0[0] == 0);
    assert(img[bi * bs + sz] == 0);
    if rem > 3 {
        let pb = pad_bytes(rem);
        assert(forall|t: int| 0 <= t < rem ==> #[trigger] pb[t] == blkb[sz + t]);
        assert(pb[0] == 0);
        assert(img[bi * bs + sz] == 0);
        let v = rem - 3;
        assert(0 <= v / 256 <= 255 && 0 <= v % 256 <= 255) by (nonlinear_arith)
            requires
                0 <= v <= 0xffff,
        ;
        vstd::arithmetic::div_mod::lemma_fundamental_div_mod(v, 256);
        assert(img[bi * bs + sz + 1] == pb[1]);
        assert(img[bi * bs + sz + 2] == pb[2]);
        assert(record_len_at(img, bi * bs + sz) == v);
    }
}

/// Keystone, entry side: from an entry boundary inside the image of a
/// well-formed block sequence, the byte-level decoder yields exactly what
/// reassembling the remaining records yields, and the position is a
/// well-formed entry position.
pub proof fn lemma_wf_image_entry(
    bb: Seq<Seq<RecordModel>>,
    bs: int,
    bi: int,
    j: int,
    acc: Seq<u8>,
)
    requires
        wf_blocks(bb, bs),
        0 <= bi < bb.len(),
        0 <= j <= bb[bi].len(),
        j < bb[bi].len() ==> (bb[bi][j].kind == 1 || bb[bi][j].kind == 2),
        j == bb[bi].len() ==> !starts_chain(bb[bi]),
    ensures
        wf_entry_pos(blocks_image(bb, bs), bs, bi * bs + recs_size(bb[bi].take(j))),
        payloads_from(blocks_image(bb, bs), bs, bi * bs + recs_size(bb[bi].take(j)), acc)
            == assemble(bb[bi].skip(j) + flat_records(bb.skip(bi + 1)), acc),
    decreases bb.len() - bi, bb[bi].len() - j,
{
    let img = blocks_image(bb, bs);
    let rs = bb[bi];
    let sz = recs_size(rs.take(j));
    let pos = bi * bs + sz;
    let rest = rs.skip(j) + flat_records(bb.skip(bi + 1));
    assert forall|k: int| 0 <= k < bb.len() implies 0 <= recs_size(#[trigger] bb[k]) <= bs by {
        lemma_recs_size_nonneg(bb[k]);
    }
    lemma_blocks_image_len(bb, bs);
    if j < rs.len() {
        let r = rs[j];
        let dlen = r.data.len() as int;
        lemma_image_record(bb, bs, bi, j);
        let next = pos + 3 + dlen;
        assert(next == bi * bs + recs_size(rs.take(j + 1)));
        assert(rest[0] == r);
        assert(rest.skip(1) =~= rs.skip(j + 1) + flat_records(bb.skip(bi + 1)));
        if r.kind == 1 {
            // a complete entry, then the rest of the block
            if j + 1 < rs.len() {
                assert(rs[j + 1].kind == 1 || rs[j + 1].kind == 2) by {
                    assert(rec_wf(rs[j + 1], bs));
                }
            } else {
                assert(rs.last() == r);
            }
            lemma_wf_image_entry(bb, bs, bi, j + 1, acc);
            assert(payloads_from(img, bs, pos, acc) == seq![img.subrange(pos + 3, next)]
                + payloads_from(img, bs, next, acc));
            assert(assemble(rest, acc) == seq![r.data] + assemble(rest.skip(1), acc));
        } else {
            // the first fragment of an entry: it fills the block, the chain
            // continues at the start of the next block
            assert(r.kind == 2);
            assert(j == rs.len() - 1 && recs_size(rs) == bs);
            assert(rs.take(j + 1) =~= rs);
            assert(next == bi * bs + bs);
            assert(starts_chain(rs));
            assert(bi + 1 < bb.len()) by {
                if bi + 1 == bb.len() {
                    assert(bb.last() == rs);
                }
            }
            assert(continues_chain(bb[bi + 1]));
            lemma_wf_image_frag(bb, bs, bi + 1, acc + r.data);
            assert((bi + 1) * bs == bi * bs + bs) by (nonlinear_arith);
            assert(rs.skip(j + 1) =~= Seq::<RecordModel>::empty());
            assert(rest.skip(1) =~= flat_records(bb.skip(bi + 1)));
            assert(payloads_from(img, bs, pos, acc) == payloads_from(
                img,
                bs,
                next,
                acc + img.subrange(pos + 3, next),
            ));
            assert(assemble(rest, acc) == assemble(rest.skip(1), acc + r.data));
        }
    } else {
        // at the tail of block bi: skip the padding, continue at the next
        // block boundary
        assert(rs.take(j) =~= rs);
        let rem = bs - sz;
        let boundary = bi * bs + bs;
        assert((bi + 1) * bs == bi * bs + bs) by (nonlinear_arith);
        lemma_recs_size_nonneg(rs);
        assert(block_wf(rs, bs));
        assert(rest =~= flat_records(bb.skip(bi + 1)));
        // first: the decoder and wf at `boundary`
        if bi + 1 == bb.len() {
            assert(boundary == img.len());
            assert(bb.skip(bi + 1) =~= Seq::<Seq<RecordModel>>::empty());
            assert(payloads_from(img, bs, boundary, acc) =~= assemble(rest, acc));
            assert(wf_entry_pos(img, bs, boundary));
        } else {
            assert(!starts_chain(rs));
            assert(!continues_chain(bb[bi + 1]));
            assert(block_wf(bb[bi + 1], bs));
            assert(bb[bi + 1].len() >= 1);
            assert(bb[bi + 1][0].kind == 1 || bb[bi + 1][0].kind == 2) by {
                assert(rec_wf(bb[bi + 1][0], bs));
            }
            assert(bb[bi + 1].take(0) =~= Seq::<RecordModel>::empty());
            lemma_wf_image_entry(bb, bs, bi + 1, 0, acc);
            lemma_flat_records_skip(bb, bi + 1);
            assert(bb[bi + 1].skip(0) =~= bb[bi + 1]);
            assert(bb[bi + 1].skip(0) + flat_records(bb.skip(bi + 2)) =~= flat_records(
                bb.skip(bi + 1),
            ));
            assert(payloads_from(img, bs, boundary, acc) == assemble(rest, acc));
            assert(wf_entry_pos(img, bs, boundary));
        }
        // then: reach `boundary` from `pos`
        if sz == bs {
            assert(pos == boundary);
        } else {
            lemma_pos_in_block(bb.len() as int, bs, bi, sz);
            assert(pos % bs == sz);
            assert(pos < img.len());
            if rem <= 3 {
                lemma_image_tail(bb, bs, bi);
                assert(img[pos] == 0);
                assert(cap_pos(img, pos + rem) == boundary);
                assert(payloads_from(img, bs, pos, acc) == payloads_from(img, bs, boundary, acc));
                assert(wf_entry_pos(img, bs, pos));
            } else {
                lemma_image_tail(bb, bs, bi);
                assert(img[pos] == 0);
                assert(record_len_at(img, pos) == rem - 3);
                assert(pos + 3 + (rem - 3) == boundary);
                assert(payloads_from(img, bs, pos, acc) == payloads_from(img, bs, boundary, acc));
                assert(sz != 0);
                assert(wf_entry_pos(img, bs, pos));
            }
        }
    }
}

/// Keystone, fragment side: at a block that continues a fragmented entry, the
/// byte-level decoder yields what reassembling the remaining records yields.
pub proof fn lemma_wf_image_frag(bb: Seq<Seq<RecordModel>>, bs: int, bi: int, acc: Seq<u8>)
    requires
        wf_blocks(bb, bs),
        0 <= bi < bb.len(),
        continues_chain(bb[bi]),
    ensures
        wf_frag_pos(blocks_image(bb, bs), bs, bi * bs),
        payloads_from(blocks_image(bb, bs), bs, bi * bs, acc) == assemble(
            flat_records(bb.skip(bi)),
            acc,
        ),
    decreases bb.len() - bi, bb[bi].len() + 1,
{
    let img = blocks_image(bb, bs);
    let rs = bb[bi];
    let r = rs[0];
    let dlen = r.data.len() as int;
    let pos = bi * bs;
    assert forall|k: int| 0 <= k < bb.len() implies 0 <= recs_size(#[trigger] bb[k]) <= bs by {
        lemma_recs_size_nonneg(bb[k]);
    }
    lemma_blocks_image_len(bb, bs);
    assert(rs.take(0) =~= Seq::<RecordModel>::empty());
    lemma_image_record(bb, bs, bi, 0);
    vstd::arithmetic::div_mod::lemma_mod_multiples_basic(bi, bs);
    assert(pos % bs == 0);
    let next = pos + 3 + dlen;
    lemma_flat_records_skip(bb, bi);
    let rest = flat_records(bb.skip(bi));
    assert(rest =~= rs + flat_records(bb.skip(bi + 1)));
    assert(rest[0] == r);
    assert(rest.skip(1) =~= rs.skip(1) + flat_records(bb.skip(bi + 1)));
    assert(r.kind == 3 || r.kind == 4);
    if r.kind == 3 {
        // a middle fragment: the block's only record, the chain continues
        assert(0 == rs.len() - 1 && recs_size(rs) == bs);
        assert(rs.take(1) =~= rs);
        assert(next == bi * bs + bs);
        assert(starts_chain(rs));
        assert(bi + 1 < bb.len()) by {
            if bi + 1 == bb.len() {
                assert(bb.last() == rs);
            }
        }
        assert(continues_chain(bb[bi + 1]));
        lemma_wf_image_frag(bb, bs, bi + 1, acc + r.data);
        assert((bi + 1) * bs == bi * bs + bs) by (nonlinear_arith);
        assert(rs.skip(1) =~= Seq::<RecordModel>::empty());
        assert(rest.skip(1) =~= flat_records(bb.skip(bi + 1)));
        assert(payloads_from(img, bs, pos, acc) == payloads_from(
            img,
            bs,
            next,
            acc + img.subrange(pos + 3, next),
        ));
        assert(assemble(rest, acc) == assemble(rest.skip(1), acc + r.data));
    } else {
        // the final fragment: emit the assembled entry, continue within the
        // block
        if 1 < rs.len() {
            assert(rs[1].kind == 1 || rs[1].kind == 2) by {
                assert(rec_wf(rs[1], bs));
            }
        } else {
            assert(rs.last() == r);
        }
        lemma_wf_image_entry(bb, bs, bi, 1, Seq::<u8>::empty());
        assert(next == bi * bs + recs_size(rs.take(1)));
        assert(payloads_from(img, bs, pos, acc) == seq![acc + img.subrange(pos + 3, next)]
            + payloads_from(img, bs, next, Seq::<u8>::empty()));
        assert(rs.skip(1) + flat_records(bb.skip(bi + 1)) =~= rest.skip(1));
        assert(assemble(rest, acc) == seq![acc + r.data] + assemble(
            rest.skip(1),
            Seq::<u8>::empty(),
        ));
    }
}

/// The image of a well-formed block sequence decodes to the reassembly of its
/// records, and position zero is a well-formed entry position.
pub proof fn lemma_blocks_image_decodes(bb: Seq<Seq<RecordModel>>, bs: int)
    requires
        wf_blocks(bb, bs),
    ensures
        blocks_image(bb, bs).len() == bb.len() * bs,
        blocks_image(bb, bs).len() as int % bs == 0,
        wf_entry_pos(blocks_image(bb, bs), bs, 0),
        image_payloads(blocks_image(bb, bs), bs) == assemble(flat_records(bb), Seq::<u8>::empty()),
{
    assert forall|k: int| 0 <= k < bb.len() implies 0 <= recs_size(#[trigger] bb[k]) <= bs by {
        lemma_recs_size_nonneg(bb[k]);
    }
    lemma_blocks_image_len(bb, bs);
    if bb.len() == 0 {
        assert(blocks_image(bb, bs).len() == 0);
        assert(flat_records(bb) =~= Seq::<RecordModel>::empty());
    } else {
        assert(block_wf(bb[0], bs));
        assert(bb[0][0].kind == 1 || bb[0][0].kind == 2) by {
            assert(rec_wf(bb[0][0], bs));
            assert(!continues_chain(bb[0]));
        }
        assert(bb[0].take(0) =~= Seq::<RecordModel>::empty());
        lemma_wf_image_entry(bb, bs, 0, 0, Seq::<u8>::empty());
        assert(0 * bs + recs_size(bb[0].take(0)) == 0) by (nonlinear_arith);
        lemma_flat_records_skip(bb, 0);
        assert(bb[0].skip(0) + flat_records(bb.skip(1)) =~= flat_records(bb));
    }
}

pub proof fn lemma_flat_records_push(bb: Seq<Seq<RecordModel>>, x: Seq<RecordModel>)
    ensures
        flat_records(bb.push(x)) == flat_records(bb) + x,
    decreases bb.len(),
{
    if bb.len() == 0 {
        assert(bb.push(x).skip(1) =~= Seq::<Seq<RecordModel>>::empty());
        assert(bb.push(x)[0] == x);
        assert(flat_records(Seq::<Seq<RecordModel>>::empty()) == Seq::<RecordModel>::empty());
        assert(flat_records(bb.push(x)) =~= flat_records(bb) + x);
    } else {
        assert(bb.push(x).skip(1) =~= bb.skip(1).push(x));
        lemma_flat_records_push(bb.skip(1), x);
        assert(bb.push(x)[0] == bb[0]);
        assert(flat_records(bb.push(x)) =~= flat_records(bb) + x);
    }
}

pub proof fn lemma_blocks_image_push(bb: Seq<Seq<RecordModel>>, x: Seq<RecordModel>, bs: int)
    ensures
        blocks_image(bb.push(x), bs) == blocks_image(bb, bs) + block_bytes(x, bs),
    decreases bb.len(),
{
    if bb.len() == 0 {
        assert(bb.push(x).skip(1) =~= Seq::<Seq<RecordModel>>::empty());
        assert(bb.push(x)[0] == x);
        assert(blocks_image(Seq::<Seq<RecordModel>>::empty(), bs) == Seq::<u8>::empty());
        assert(blocks_image(bb.push(x), bs) =~= blocks_image(bb, bs) + block_bytes(x, bs));
    } else {
        assert(bb.push(x).skip(1) =~= bb.skip(1).push(x));
        lemma_blocks_image_push(bb.skip(1), x, bs);
        assert(bb.push(x)[0] == bb[0]);
        assert(blocks_image(bb.push(x), bs) =~= blocks_image(bb, bs) + block_bytes(x, bs));
    }
}

/// The effect of one more record on reassembly and on the pending fragment.
pub proof fn lemma_assemble_snoc(rs: Seq<RecordModel>, r: RecordModel, acc: Seq<u8>)
    ensures
        r.kind == 1 ==> assemble(rs.push(r), acc) == assemble(rs, acc).push(r.data)
            && pending(rs.push(r), acc) == pending(rs, acc),
        r.kind == 2 || r.kind == 3 ==> assemble(rs.push(r), acc) == assemble(rs, acc) && pending(
            rs.push(r),
            acc,
        ) == pending(rs, acc) + r.data,
        r.kind == 4 ==> assemble(rs.push(r), acc) == assemble(rs, acc).push(
            pending(rs, acc) + r.data,
        ) && pending(rs.push(r), acc) == Seq::<u8>::empty(),
{
    assert(rs.push(r) =~= rs + seq![r]);
    lemma_assemble_append(rs, seq![r], acc);
    let p = pending(rs, acc);
    assert(seq![r].skip(1) =~= Seq::<RecordModel>::empty());
    assert(seq![r][0] == r);
    assert(assemble(Seq::<RecordModel>::empty(), p) == Seq::<Seq<u8>>::empty());
    assert(assemble(Seq::<RecordModel>::empty(), p + r.data) == Seq::<Seq<u8>>::empty());
    assert(assemble(Seq::<RecordModel>::empty(), Seq::<u8>::empty()) == Seq::<Seq<u8>>::empty());
    assert(pending(Seq::<RecordModel>::empty(), p) == p);
    assert(pending(Seq::<RecordModel>::empty(), p + r.data) == p + r.data);
    assert(pending(Seq::<RecordModel>::empty(), Seq::<u8>::empty()) == Seq::<u8>::empty());
    if r.kind == 1 {
        assert(assemble(seq![r], p) =~= seq![r.data]);
        assert(assemble(rs, acc) + seq![r.data] =~= assemble(rs, acc).push(r.data));
    } else if r.kind == 2 || r.kind == 3 {
        assert(assemble(seq![r], p) =~= Seq::<Seq<u8>>::empty());
        assert(assemble(rs, acc) + Seq::<Seq<u8>>::empty() =~= assemble(rs, acc));
    } else if r.kind == 4 {
        assert(assemble(seq![r], p) =~= seq![p + r.data]);
        assert(assemble(rs, acc) + seq![p + r.data] =~= assemble(rs, acc).push(p + r.data));
    }
}

/// Two multiples of `m` are at least `m` apart.
pub proof fn lemma_aligned_gap(a: int, b: int, m: int)
    requires
        m > 0,
        0 <= a < b,
        a % m == 0,
        b % m == 0,
    ensures
        a + m <= b,
{
    vstd::arithmetic::div_mod::lemma_fundamental_div_mod(a, m);
    vstd::arithmetic::div_mod::lemma_fundamental_div_mod(b, m);
    let qa = a / m;
    let qb = b / m;
    assert(qa * m == m * qa) by (nonlinear_arith);
    assert(qb * m == m * qb) by (nonlinear_arith);
    assert(qa * m < qb * m ==> qa < qb) by (nonlinear_arith)
        requires
            m > 0,
    ;
    assert(qa < qb ==> qa * m + m <= qb * m) by (nonlinear_arith)
        requires
            m > 0,
    ;
}

/// From a complete or first-fragment record header, at least one entry
/// decodes.
pub proof fn lemma_entry_pos_nonempty(s: Seq<u8>, bs: int, pos: int, acc: Seq<u8>)
    requires
        wf_entry_pos(s, bs, pos),
        0 <= pos < s.len(),
        bs - (pos % bs) > 3,
        s[pos] == 1 || s[pos] == 2,
    ensures
        payloads_from(s, bs, pos, acc).len() >= 1,
    decreases s.len() - pos,
{
    let len = record_len_at(s, pos);
    let next = pos + 3 + len;
    if s[pos] == 1 {
        assert(payloads_from(s, bs, pos, acc) == seq![s.subrange(pos + 3, next)] + payloads_from(
            s,
            bs,
            next,
            acc,
        ));
    } else {
        lemma_frag_pos_nonempty(s, bs, next, acc + s.subrange(pos + 3, next));
    }
}

/// From the continuation of a fragment chain, at least one entry decodes.
pub proof fn lemma_frag_pos_nonempty(s: Seq<u8>, bs: int, pos: int, acc: Seq<u8>)
    requires
        wf_frag_pos(s, bs, pos),
    ensures
        payloads_from(s, bs, pos, acc).len() >= 1,
    decreases s.len() - pos,
{
    let len = record_len_at(s, pos);
    let next = pos + 3 + len;
    if s[pos] == 3 {
        lemma_frag_pos_nonempty(s, bs, next, acc + s.subrange(pos + 3, next));
    } else {
        assert(s[pos] == 4);
        assert(payloads_from(s, bs, pos, acc) == seq![acc + s.subrange(pos + 3, next)]
            + payloads_from(s, bs, next, Seq::<u8>::empty()));
    }
}

/// Positions shift by a whole number of blocks when an image is appended
/// after another: entry-boundary side.
pub proof fn lemma_payloads_shift_entry(a: Seq<u8>, b: Seq<u8>, bs: int, t: int, acc: Seq<u8>)
    requires
        16 <= bs,
        a.len() as int % bs == 0,
        b.len() as int % bs == 0,
        0 <= t <= b.len(),
        wf_entry_pos(b, bs, t),
    ensures
        wf_entry_pos(a + b, bs, a.len() + t),
        payloads_from(a + b, bs, a.len() + t, acc) == payloads_from(b, bs, t, acc),
    decreases b.len() - t, 0int,
{
    let s = a + b;
    let p = a.len() + t;
    lemma_concat_setup(a, b, bs, t);
    if t == b.len() {
        assert(payloads_from(s, bs, p, acc) =~= payloads_from(b, bs, t, acc));
    } else {
        let rem = bs - (t % bs);
        assert(s[p] == b[t]);
        if rem <= 3 {
            lemma_aligned_gap_block(b.len() as int, bs, t);
            lemma_payloads_shift_entry(a, b, bs, t + rem, acc);
            assert(cap_pos(b, t + rem) == t + rem);
            assert(cap_pos(s, p + rem) == p + rem);
        } else {
            let len = record_len_at(b, t);
            assert(record_len_at(s, p) == len);
            let next = t + 3 + len;
            if b[t] == 0 {
                lemma_payloads_shift_entry(a, b, bs, next, acc);
            } else if b[t] == 1 {
                lemma_payloads_shift_entry(a, b, bs, next, acc);
                assert(s.subrange(p + 3, p + 3 + len) =~= b.subrange(t + 3, next));
            } else {
                assert(b[t] == 2);
                assert(s.subrange(p + 3, p + 3 + len) =~= b.subrange(t + 3, next));
                lemma_payloads_shift_frag(a, b, bs, next, acc + b.subrange(t + 3, next));
            }
        }
    }
}

/// Positions shift by a whole number of blocks when an image is appended
/// after another: fragment-continuation side.
pub proof fn lemma_payloads_shift_frag(a: Seq<u8>, b: Seq<u8>, bs: int, t: int, acc: Seq<u8>)
    requires
        16 <= bs,
        a.len() as int % bs == 0,
        b.len() as int % bs == 0,
        0 <= t <= b.len(),
        wf_frag_pos(b, bs, t),
    ensures
        wf_frag_pos(a + b, bs, a.len() + t),
        payloads_from(a + b, bs, a.len() + t, acc) == payloads_from(b, bs, t, acc),
    decreases b.len() - t, 1int,
{
    let s = a + b;
    let p = a.len() + t;
    lemma_concat_setup(a, b, bs, t);
    assert(s[p] == b[t]);
    let len = record_len_at(b, t);
    assert(record_len_at(s, p) == len);
    let next = t + 3 + len;
    assert(s.subrange(p + 3, p + 3 + len) =~= b.subrange(t + 3, next));
    if b[t] == 3 {
        lemma_payloads_shift_frag(a, b, bs, next, acc + b.subrange(t + 3, next));
    } else {
        assert(b[t] == 4);
        lemma_payloads_shift_entry(a, b, bs, next, Seq::<u8>::empty());
    }
}

/// Shared geometry for the shift lemmas.
proof fn lemma_concat_setup(a: Seq<u8>, b: Seq<u8>, bs: int, t: int)
    requires
        16 <= bs,
        a.len() as int % bs == 0,
        b.len() as int % bs == 0,
        0 <= t <= b.len(),
    ensures
        (a + b).len() == a.len() + b.len(),
        (a + b).len() as int % bs == 0,
        (a.len() + t) % bs == t % bs,
        forall|x: int| 0 <= x < b.len() ==> (a + b)[a.len() + x] == b[x],
{
    let al = a.len() as int;
    let bl = b.len() as int;
    vstd::arithmetic::div_mod::lemma_add_mod_noop(al, bl, bs);
    vstd::arithmetic::div_mod::lemma_fundamental_div_mod(al, bs);
    assert(al == bs * (al / bs));
    vstd::arithmetic::div_mod::lemma_mod_multiples_vanish(al / bs, t, bs);
    vstd::arithmetic::div_mod::lemma_mod_multiples_vanish(al / bs, bl, bs);
    vstd::arithmetic::div_mod::lemma_mod_self_0(bs);
    vstd::arithmetic::div_mod::lemma_small_mod(0nat, bs as nat);
}

/// Decoding a concatenation of two well-formed images yields the entries of
/// the first followed by the entries of the second: entry-boundary side.
pub proof fn lemma_payloads_concat_entry(a: Seq<u8>, b: Seq<u8>, bs: int, pos: int)
    requires
        16 <= bs,
        a.len() as int % bs == 0,
        b.len() as int % bs == 0,
        0 <= pos <= a.len(),
        wf_entry_pos(a, bs, pos),
        wf_entry_pos(b, bs, 0),
    ensures
        wf_entry_pos(a + b, bs, pos),
        payloads_from(a + b, bs, pos, Seq::<u8>::empty()) == payloads_from(
            a,
            bs,
            pos,
            Seq::<u8>::empty(),
        ) + payloads_from(b, bs, 0, Seq::<u8>::empty()),
    decreases a.len() - pos, 0int,
{
    let s = a + b;
    let acc = Seq::<u8>::empty();
    lemma_concat_setup(a, b, bs, 0);
    if pos == a.len() {
        lemma_payloads_shift_entry(a, b, bs, 0, acc);
        assert(payloads_from(a, bs, pos, acc) =~= Seq::<Seq<u8>>::empty());
        assert(payloads_from(s, bs, pos, acc) =~= payloads_from(a, bs, pos, acc) + payloads_from(
            b,
            bs,
            0,
            Seq::<u8>::empty(),
        ));
    } else {
        let rem = bs - (pos % bs);
        assert(s[pos] == a[pos]);
        if rem <= 3 {
            assert(cap_pos(a, pos + rem) == pos + rem) by {
                lemma_aligned_gap_block(a.len() as int, bs, pos);
            }
            assert(cap_pos(s, pos + rem) == pos + rem);
            lemma_payloads_concat_entry(a, b, bs, pos + rem);
        } else {
            let len = record_len_at(a, pos);
            assert(record_len_at(s, pos) == len);
            let next = pos + 3 + len;
            if a[pos] == 0 {
                lemma_payloads_concat_entry(a, b, bs, next);
            } else if a[pos] == 1 {
                assert(s.subrange(pos + 3, next) =~= a.subrange(pos + 3, next));
                lemma_payloads_concat_entry(a, b, bs, next);
                assert(payloads_from(s, bs, pos, acc) =~= payloads_from(a, bs, pos, acc)
                    + payloads_from(b, bs, 0, Seq::<u8>::empty()));
            } else {
                assert(a[pos] == 2);
                assert(s.subrange(pos + 3, next) =~= a.subrange(pos + 3, next));
                lemma_payloads_concat_frag(a, b, bs, next, acc + a.subrange(pos + 3, next));
            }
        }
    }
}

/// Decoding a concatenation of two well-formed images: fragment side.
pub proof fn lemma_payloads_concat_frag(a: Seq<u8>, b: Seq<u8>, bs: int, pos: int, acc: Seq<u8>)
    requires
        16 <= bs,
        a.len() as int % bs == 0,
        b.len() as int % bs == 0,
        0 <= pos <= a.len(),
        wf_frag_pos(a, bs, pos),
        wf_entry_pos(b, bs, 0),
    ensures
        wf_frag_pos(a + b, bs, pos),
        payloads_from(a + b, bs, pos, acc) == payloads_from(a, bs, pos, acc) + payloads_from(
            b,
            bs,
            0,
            Seq::<u8>::empty(),
        ),
    decreases a.len() - pos, 1int,
{
    let s = a + b;
    lemma_concat_setup(a, b, bs, 0);
    assert(s[pos] == a[pos]);
    let len = record_len_at(a, pos);
    assert(record_len_at(s, pos) == len);
    let next = pos + 3 + len;
    assert(s.subrange(pos + 3, next) =~= a.subrange(pos + 3, next));
    if a[pos] == 3 {
        lemma_payloads_concat_frag(a, b, bs, next, acc + a.subrange(pos + 3, next));
    } else {
        assert(a[pos] == 4);
        lemma_payloads_concat_entry(a, b, bs, next);
        assert(payloads_from(s, bs, pos, acc) =~= payloads_from(a, bs, pos, acc) + payloads_from(
            b,
            bs,
            0,
            Seq::<u8>::empty(),
        ));
    }
}

/// A position strictly inside an image whose length is a multiple of the
/// block size has its whole block inside the image.
proof fn lemma_aligned_gap_block(len: int, bs: int, pos: int)
    requires
        16 <= bs,
        len % bs == 0,
        0 <= pos < len,
    ensures
        pos + (bs - pos % bs) <= len,
{
    vstd::arithmetic::div_mod::lemma_fundamental_div_mod(pos, bs);
    vstd::arithmetic::div_mod::lemma_fundamental_div_mod(len, bs);
    let q = pos / bs;
    let ql = len / bs;
    assert(bs * q + bs == bs * (q + 1)) by (nonlinear_arith);
    assert(bs * q < bs * ql ==> q < ql) by (nonlinear_arith)
        requires
            bs > 0,
    ;
    assert(q + 1 <= ql ==> bs * (q + 1) <= bs * ql) by (nonlinear_arith)
        requires
            bs > 0,
    ;
}

/// There are no more decoded payloads than remaining bytes.
pub proof fn lemma_payloads_count(s: Seq<u8>, bs: int, pos: int, acc: Seq<u8>)
    ensures
        payloads_from(s, bs, pos, acc).len() <= s.len() - pos || payloads_from(
            s,
            bs,
            pos,
            acc,
        ).len() == 0,
    decreases s.len() - pos,
{
    if bs < 16 || pos < 0 || pos >= s.len() {
    } else {
        let rem = bs - (pos % bs);
        if rem <= 3 {
            lemma_payloads_count(s, bs, cap_pos(s, pos + rem), acc);
        } else if pos + 3 > s.len() {
        } else {
            let len = record_len_at(s, pos);
            let next = pos + 3 + len;
            if next > s.len() {
            } else {
                lemma_payloads_count(s, bs, next, acc);
                lemma_payloads_count(s, bs, next, acc + s.subrange(pos + 3, next));
                lemma_payloads_count(s, bs, next, Seq::<u8>::empty());
            }
        }
    }
}

/// Geometry of a position inside block `bi` at offset `off`.
pub proof fn lemma_pos_in_block(n: int, bs: int, bi: int, off: int)
    requires
        16 <= bs,
        0 <= bi < n,
        0 <= off < bs,
    ensures
        (bi * bs + off) % bs == off,
        0 <= bi * bs + off,
        bi * bs + off < n * bs,
        bi * bs + bs <= n * bs,
{
    vstd::arithmetic::div_mod::lemma_fundamental_div_mod_converse_mod(bi * bs + off, bs, bi, off);
    assert(0 <= bi * bs) by (nonlinear_arith)
        requires
            bi >= 0 && bs > 0,
    ;
    assert(bi * bs + bs <= n * bs) by (nonlinear_arith)
        requires
            bi < n && bs > 0,
    ;
}

} // verus!
