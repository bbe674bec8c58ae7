//! A sorted string table: the blocks of a memory table's entries, the bloom
//! filter of its keys, and the layout of the table file.
use vstd::prelude::*;
use crate::bytes_reader::{ByteReader, ByteReaderError, FooterByteReader};
use crate::encoding::{
    be_bytes, be_concat, be_value, lemma_be_concat_at, lemma_be_concat_len, lemma_be_value_of_bytes,
    lemma_pow256_values, push_be_u64,
};
use crate::entries::{Entry, copy_bytes, copy_value, entries_of, entries_view, sorted_keys};
use crate::mem_table::MemTable;
use crate::sst::block_builder::{
    BlockView, MAX_BLOCK_SIZE, SSTBlock, all_records, block_add, block_bytes, block_decodable,
    decode_block, empty_block, lemma_block_roundtrip, offsets_fit, oversized_single, single_block,
    well_built,
};
use crate::sst::bloom_filter::{
    BloomFilter, BloomView, bloom_bytes, bloom_wf, decode_bloom, key_positions,
    lemma_bloom_roundtrip, lemma_no_false_negatives, lemma_present_stays, probes_present, set_ones,
};
use crate::types::{KeyValue, key_val_bytes};

verus! {

/// A table: its bloom filter and its blocks.
pub struct SSTBuilder {
    bloom_filter: BloomFilter,
    blocks: Vec<SSTBlock>,
}

/// The model of a table: its filter and its blocks.
pub type SSTView = (BloomView, Seq<BlockView>);

impl View for SSTBuilder {
    type V = SSTView;

    closed spec fn view(&self) -> SSTView {
        (self.bloom_filter@, self.blocks@.map_values(|b: SSTBlock| b@))
    }
}

/// The finished blocks and the open block after adding the entries in
/// turn: an entry that the open block refuses closes it, unless it holds no
/// record, and goes to a new block; an entry too large for any block gets a
/// block of its own.
pub open spec fn pack_blocks(es: Seq<Entry>) -> (Seq<BlockView>, BlockView)
    decreases es.len(),
{
    if es.len() == 0 {
        (Seq::empty(), empty_block())
    } else {
        let (done, cur) = pack_blocks(es.drop_last());
        let (added, next) = block_add(cur, es.last());
        if added {
            (done, next)
        } else {
            let closed = if cur.3 == 0 {
                done
            } else {
                done.push(cur)
            };
            let (fits, fresh) = block_add(empty_block(), es.last());
            (
                closed,
                if fits {
                    fresh
                } else {
                    single_block(es.last())
                },
            )
        }
    }
}

/// All blocks of the entries, the open one last.
pub open spec fn packed_blocks(es: Seq<Entry>) -> Seq<BlockView> {
    pack_blocks(es).0.push(pack_blocks(es).1)
}

/// The filter after adding the keys in turn.
pub open spec fn bloom_after(v: BloomView, keys: Seq<Seq<u8>>) -> BloomView
    decreases keys.len(),
{
    if keys.len() == 0 {
        v
    } else {
        let p = bloom_after(v, keys.drop_last());
        (p.0, p.1, set_ones(p.2, key_positions(keys.last(), p.1, p.0)))
    }
}

/// The keys of the entries.
pub open spec fn keys_of(es: Seq<Entry>) -> Seq<Seq<u8>> {
    es.map_values(|e: Entry| e.0)
}

pub proof fn lemma_all_records_prefix(es: Seq<Entry>, i: int)
    requires
        0 <= i <= es.len(),
    ensures
        all_records(es.subrange(0, i)).len() <= all_records(es).len(),
    decreases es.len(),
{
    if i == es.len() {
        assert(es.subrange(0, i) =~= es);
    } else {
        lemma_all_records_prefix(es.drop_last(), i);
        assert(es.drop_last().subrange(0, i) =~= es.subrange(0, i));
    }
}

/// What building a table from the sorted entries `es` needs: the records
/// of all entries leave room in `usize` for a block's length count.
pub open spec fn table_buildable(es: Seq<Entry>) -> bool {
    all_records(es).len() + MAX_BLOCK_SIZE + 8 <= usize::MAX
}

pub proof fn lemma_bloom_after_sizes(v: BloomView, keys: Seq<Seq<u8>>)
    ensures
        bloom_after(v, keys).0 == v.0,
        bloom_after(v, keys).1 == v.1,
    decreases keys.len(),
{
    if keys.len() > 0 {
        lemma_bloom_after_sizes(v, keys.drop_last());
    }
}

/// Adding keys in turn keeps the filter's invariant, and every key added
/// tests present in the filter that results.
pub proof fn lemma_bloom_after_keys(v: BloomView, keys: Seq<Seq<u8>>)
    requires
        bloom_wf(v),
    ensures
        bloom_wf(bloom_after(v, keys)),
        forall|i: int|
            0 <= i < keys.len() ==> probes_present(
                bloom_after(v, keys).2,
                #[trigger] key_positions(keys[i], v.1, v.0),
            ),
    decreases keys.len(),
{
    if keys.len() > 0 {
        let p = keys.drop_last();
        lemma_bloom_after_keys(v, p);
        lemma_bloom_after_sizes(v, p);
        let pv = bloom_after(v, p);
        let ps = key_positions(keys.last(), v.1, v.0);
        crate::sst::bloom_filter::lemma_positions_in_range(pv, keys.last());
        crate::sst::bloom_filter::lemma_set_ones(pv.2, ps);
        lemma_no_false_negatives(pv, keys.last(), Seq::empty());
        assert forall|i: int| 0 <= i < keys.len() implies probes_present(
            bloom_after(v, keys).2,
            #[trigger] key_positions(keys[i], v.1, v.0),
        ) by {
            if i < p.len() {
                assert(keys[i] == p[i]);
                lemma_present_stays(pv.2, key_positions(p[i], v.1, v.0), ps);
            }
        }
    }
}

/// The encodings of the blocks, one after another.
pub open spec fn blocks_concat(bs: Seq<BlockView>) -> Seq<u8>
    decreases bs.len(),
{
    if bs.len() == 0 {
        Seq::empty()
    } else {
        blocks_concat(bs.drop_last()) + block_bytes(bs.last())
    }
}

/// Where each block's encoding ends in the table file.
pub open spec fn block_ends(bs: Seq<BlockView>) -> Seq<usize> {
    Seq::new(bs.len(), |i: int| blocks_concat(bs.subrange(0, i + 1)).len() as usize)
}

/// The positions, each in eight big-endian bytes, one after another.
pub open spec fn positions_bytes(xs: Seq<usize>) -> Seq<u8> {
    be_concat(xs.map_values(|x: usize| x as nat), 8)
}

/// The table file: the blocks, where each of them ends, the bloom filter,
/// then where the list of ends starts and ends and where the filter starts
/// and ends, each position in eight big-endian bytes.
pub open spec fn sst_file_bytes(v: SSTView) -> Seq<u8> {
    let data = blocks_concat(v.1);
    let index = positions_bytes(block_ends(v.1));
    let bloom = bloom_bytes(v.0);
    let index_start = data.len();
    let index_end = (index_start + index.len()) as nat;
    let bloom_end = (index_end + bloom.len()) as nat;
    data + index + bloom + be_concat(seq![index_start, index_end, index_end, bloom_end], 8)
}

/// The position that the footer holds `k` places from its end, read from
/// eight big-endian bytes.
pub open spec fn footer_position(bytes: Seq<u8>, k: int) -> int {
    be_value(bytes.subrange(bytes.len() - 8 * k - 8, bytes.len() - 8 * k)) as usize as int
}

/// The end position that the index entry at `pos` holds, read from eight
/// big-endian bytes.
pub open spec fn index_entry(index: Seq<u8>, pos: int) -> int {
    be_value(index.subrange(pos, pos + 8)) as usize as int
}

/// The blocks that the index entries from `pos` on give, the previous block
/// ending at `prev`: the bytes from the previous end to each entry's end
/// position are decoded as a block.
pub open spec fn decode_index_blocks(bytes: Seq<u8>, index: Seq<u8>, pos: int, prev: int) -> Result<
    Seq<BlockView>,
    ByteReaderError,
>
    decreases index.len() - pos,
{
    if pos >= index.len() {
        Ok(Seq::empty())
    } else if pos + 8 > index.len() {
        Err(ByteReaderError::InvalidData)
    } else {
        let end = index_entry(index, pos);
        if !(prev <= end <= bytes.len()) {
            Err(ByteReaderError::InvalidData)
        } else {
            match decode_index_blocks(bytes, index, pos + 8, end) {
                Ok(rest) => Ok(seq![decode_block(bytes.subrange(prev, end))] + rest),
                Err(e) => Err(e),
            }
        }
    }
}

/// Every block that decoding the index entries from `pos` on reaches has
/// room for its restart count and the restarts it counts.
pub open spec fn index_blocks_safe(bytes: Seq<u8>, index: Seq<u8>, pos: int, prev: int) -> bool
    decreases index.len() - pos,
{
    if pos >= index.len() || pos + 8 > index.len() {
        true
    } else {
        let end = index_entry(index, pos);
        if !(prev <= end <= bytes.len()) {
            true
        } else {
            &&& block_decodable(bytes.subrange(prev, end))
            &&& index_blocks_safe(bytes, index, pos + 8, end)
        }
    }
}

/// What decoding a table file gives: the footer's four positions are read
/// from the end, last first: the filter's end and start, the index's end
/// and start. The filter is the run of `end - start` bytes before the
/// footer; the index is the run between its positions.
pub open spec fn decode_sst(bytes: Seq<u8>) -> Result<SSTView, ByteReaderError> {
    let n = bytes.len() as int;
    if n < 32 {
        Err(ByteReaderError::InvalidData)
    } else {
        let bloom_end = footer_position(bytes, 0);
        let bloom_start = footer_position(bytes, 1);
        let index_end = footer_position(bytes, 2);
        let index_start = footer_position(bytes, 3);
        let bloom_len = bloom_end - bloom_start;
        if bloom_len < 0 || bloom_len > n - 32 {
            Err(ByteReaderError::InvalidData)
        } else {
            match decode_bloom(bytes.subrange(n - 32 - bloom_len, n - 32)) {
                Err(e) => Err(e),
                Ok(bloom) => if !(index_start <= index_end <= n) {
                    Err(ByteReaderError::InvalidData)
                } else {
                    match decode_index_blocks(
                        bytes,
                        bytes.subrange(index_start, index_end),
                        0,
                        0,
                    ) {
                        Ok(blocks) => Ok((bloom, blocks)),
                        Err(e) => Err(e),
                    }
                },
            }
        }
    }
}

/// Decoding a table file reaches no block too short for its restarts.
pub open spec fn sst_decodable(bytes: Seq<u8>) -> bool {
    let n = bytes.len() as int;
    n >= 32 ==> {
        let bloom_end = footer_position(bytes, 0);
        let bloom_start = footer_position(bytes, 1);
        let index_end = footer_position(bytes, 2);
        let index_start = footer_position(bytes, 3);
        let bloom_len = bloom_end - bloom_start;
        (0 <= bloom_len <= n - 32 && decode_bloom(bytes.subrange(n - 32 - bloom_len, n - 32)) is Ok
            && index_start <= index_end <= n) ==> index_blocks_safe(
            bytes,
            bytes.subrange(index_start, index_end),
            0,
            0,
        )
    }
}

/// The record bytes of the blocks, one block after another.
pub open spec fn records_concat(bs: Seq<BlockView>) -> Seq<u8>
    decreases bs.len(),
{
    if bs.len() == 0 {
        Seq::empty()
    } else {
        records_concat(bs.drop_last()) + bs.last().0
    }
}

/// Entries that all fit one block in turn are packed into that one block.
pub proof fn lemma_pack_one_block(es: Seq<Entry>)
    requires
        crate::sst::block_builder::block_after(es).0,
    ensures
        pack_blocks(es) == (Seq::<BlockView>::empty(), crate::sst::block_builder::block_after(es).1),
        packed_blocks(es) == seq![crate::sst::block_builder::block_after(es).1],
    decreases es.len(),
{
    if es.len() > 0 {
        lemma_pack_one_block(es.drop_last());
    }
    assert(packed_blocks(es) =~= seq![crate::sst::block_builder::block_after(es).1]);
}

/// A block that packing makes: built by adds within the size, or a single
/// record too large for any block.
pub open spec fn packed_shape(b: BlockView) -> bool {
    well_built(b) || oversized_single(b)
}

/// Every block that packing makes has a packed shape, and the records of
/// all blocks, in order, are those of all the entries: none is left out.
pub proof fn lemma_packed_records(es: Seq<Entry>)
    ensures
        forall|i: int|
            0 <= i < packed_blocks(es).len() ==> packed_shape(#[trigger] packed_blocks(es)[i]),
        records_concat(packed_blocks(es)) == all_records(es),
    decreases es.len(),
{
    if es.len() > 0 {
        let p = es.drop_last();
        let e = es.last();
        lemma_packed_records(p);
        let (done, cur) = pack_blocks(p);
        assert(packed_blocks(p) == done.push(cur));
        assert(packed_blocks(p).drop_last() =~= done);
        assert(packed_shape(cur)) by {
            assert(packed_blocks(p)[done.len() as int] == cur);
        }
        assert forall|i: int| 0 <= i < done.len() implies packed_shape(#[trigger] done[i]) by {
            assert(packed_blocks(p)[i] == done[i]);
        }
        crate::sst::block_builder::lemma_block_add_well_built(empty_block(), e);
        crate::sst::block_builder::lemma_key_val_bytes_len(e);
        if well_built(cur) {
            crate::sst::block_builder::lemma_block_add_well_built(cur, e);
        } else {
            crate::sst::block_builder::lemma_oversized_refuses(cur, e);
        }
        let (added, next) = block_add(cur, e);
        assert(records_concat(packed_blocks(p)) == records_concat(done) + cur.0);
        assert(all_records(es) == all_records(p) + key_val_bytes(e));
        if added {
            assert(packed_blocks(es) == done.push(next));
            assert(packed_blocks(es).drop_last() =~= done);
            assert forall|i: int|
                0 <= i < packed_blocks(es).len() implies packed_shape(
                #[trigger] packed_blocks(es)[i],
            ) by {
                if i < done.len() {
                    assert(packed_blocks(es)[i] == done[i]);
                }
            }
            assert(next.0 == cur.0 + key_val_bytes(e));
            assert(records_concat(packed_blocks(es)) == records_concat(done) + next.0);
            assert(records_concat(packed_blocks(es)) =~= all_records(es));
        } else {
            let closed = if cur.3 == 0 {
                done
            } else {
                done.push(cur)
            };
            let (fits, fresh) = block_add(empty_block(), e);
            let nb = if fits {
                fresh
            } else {
                single_block(e)
            };
            assert(nb.0 =~= key_val_bytes(e));
            assert(packed_shape(nb));
            assert(packed_blocks(es) == closed.push(nb));
            assert(packed_blocks(es).drop_last() =~= closed);
            assert forall|i: int| 0 <= i < closed.len() implies packed_shape(#[trigger] closed[i]) by {
                if i < done.len() {
                    assert(closed[i] == done[i]);
                }
            }
            assert forall|i: int|
                0 <= i < packed_blocks(es).len() implies packed_shape(
                #[trigger] packed_blocks(es)[i],
            ) by {
                if i < closed.len() {
                    assert(packed_blocks(es)[i] == closed[i]);
                }
            }
            if cur.3 == 0 {
                assert(cur.0 =~= Seq::<u8>::empty());
                assert(records_concat(closed) + cur.0 =~= records_concat(closed));
            } else {
                assert(closed.drop_last() =~= done);
                assert(records_concat(closed) == records_concat(done) + cur.0);
            }
            assert(records_concat(packed_blocks(es)) == records_concat(closed) + nb.0);
            assert(records_concat(packed_blocks(es)) =~= all_records(es));
        }
    } else {
        let pb = packed_blocks(es);
        assert(pack_blocks(es) == (Seq::<BlockView>::empty(), empty_block()));
        assert(pb =~= seq![empty_block()]);
        assert(pb.drop_last() =~= Seq::<BlockView>::empty());
        assert(pb.last().0 =~= Seq::<u8>::empty());
        assert(records_concat(pb.drop_last()) =~= Seq::<u8>::empty());
        assert(records_concat(pb) == records_concat(pb.drop_last()) + pb.last().0);
        assert(records_concat(pb) =~= Seq::<u8>::empty());
        assert(all_records(es) =~= Seq::<u8>::empty());
        assert(packed_shape(pb[0]));
    }
}

/// The blocks of a table as decoding gives them back: no records counted.
pub open spec fn decoded_blocks(bs: Seq<BlockView>) -> Seq<BlockView> {
    bs.map_values(|b: BlockView| (b.0, b.1, b.2, 0u32))
}

/// A table that its file can hold: the filter keeps its invariant,
/// each block's restart offsets fit their slots, and every position in the
/// file fits `usize`.
pub open spec fn table_encodable(v: SSTView) -> bool {
    &&& bloom_wf(v.0)
    &&& forall|i: int| 0 <= i < v.1.len() ==> offsets_fit(#[trigger] v.1[i])
    &&& sst_file_bytes(v).len() <= usize::MAX
}

/// The encodings of the blocks split at any block.
pub proof fn lemma_blocks_concat_split(bs: Seq<BlockView>, j: int)
    requires
        0 <= j <= bs.len(),
    ensures
        blocks_concat(bs) == blocks_concat(bs.subrange(0, j)) + blocks_concat(
            bs.subrange(j, bs.len() as int),
        ),
    decreases bs.len(),
{
    let t = bs.subrange(j, bs.len() as int);
    if j == bs.len() {
        assert(bs.subrange(0, j) =~= bs);
        assert(t =~= Seq::<BlockView>::empty());
        assert(blocks_concat(bs) =~= blocks_concat(bs.subrange(0, j)) + blocks_concat(t));
    } else {
        let d = bs.drop_last();
        lemma_blocks_concat_split(d, j);
        assert(d.subrange(0, j) =~= bs.subrange(0, j));
        assert(t.drop_last() =~= d.subrange(j, d.len() as int));
        assert(t.last() == bs.last());
        assert(blocks_concat(bs) =~= blocks_concat(bs.subrange(0, j)) + blocks_concat(t));
    }
}

/// Decoding the index entries of a table file from the `k`-th on gives
/// back the blocks from the `k`-th on, with no records counted.
#[verifier::rlimit(40)]
proof fn lemma_index_decode(bs: Seq<BlockView>, bytes: Seq<u8>, k: int)
    requires
        forall|i: int| 0 <= i < bs.len() ==> offsets_fit(#[trigger] bs[i]),
        blocks_concat(bs).len() <= bytes.len() <= usize::MAX,
        bytes.subrange(0, blocks_concat(bs).len() as int) == blocks_concat(bs),
        0 <= k <= bs.len(),
    ensures
        index_blocks_safe(
            bytes,
            positions_bytes(block_ends(bs)),
            8 * k,
            blocks_concat(bs.subrange(0, k)).len() as int,
        ),
        decode_index_blocks(
            bytes,
            positions_bytes(block_ends(bs)),
            8 * k,
            blocks_concat(bs.subrange(0, k)).len() as int,
        ) == Ok::<Seq<BlockView>, ByteReaderError>(decoded_blocks(bs).subrange(k, bs.len() as int)),
    decreases bs.len() - k,
{
    let index = positions_bytes(block_ends(bs));
    let xs = block_ends(bs).map_values(|x: usize| x as nat);
    let m = bs.len() as int;
    lemma_be_concat_len(xs, 8);
    if k == m {
        assert(decoded_blocks(bs).subrange(k, m) =~= Seq::<BlockView>::empty());
    } else {
        let data = blocks_concat(bs);
        let pre = bs.subrange(0, k + 1);
        let rest = bs.subrange(k + 1, m);
        lemma_blocks_concat_split(bs, k + 1);
        assert(pre.drop_last() =~= bs.subrange(0, k));
        assert(pre.last() == bs[k]);
        let start = blocks_concat(bs.subrange(0, k)).len() as int;
        let end = blocks_concat(pre).len() as int;
        assert(end == start + block_bytes(bs[k]).len());
        assert(end <= data.len());
        lemma_be_concat_at(xs, 8, k);
        assert(xs[k] == block_ends(bs)[k] as nat);
        assert(block_ends(bs)[k] as int == end);
        lemma_pow256_values();
        lemma_be_value_of_bytes(xs[k], 8);
        assert(index.subrange(8 * k, 8 * k + 8) == be_bytes(xs[k], 8));
        assert(index_entry(index, 8 * k) == end);
        assert(bytes.subrange(start, end) =~= data.subrange(start, end));
        assert(data.subrange(start, end) =~= block_bytes(bs[k]));
        lemma_block_roundtrip(bs[k]);
        lemma_index_decode(bs, bytes, k + 1);
        assert(decoded_blocks(bs).subrange(k, m) =~= seq![(bs[k].0, bs[k].1, bs[k].2, 0u32)]
            + decoded_blocks(bs).subrange(k + 1, m));
    }
}

/// Decoding the file of a table gives back its filter and its blocks, with
/// no records counted in them.
pub proof fn lemma_sst_roundtrip(v: SSTView)
    requires
        table_encodable(v),
    ensures
        sst_decodable(sst_file_bytes(v)),
        decode_sst(sst_file_bytes(v)) == Ok::<SSTView, ByteReaderError>((v.0, decoded_blocks(v.1))),
{
    let bs = v.1;
    let data = blocks_concat(bs);
    let index = positions_bytes(block_ends(bs));
    let bloom = bloom_bytes(v.0);
    let d = data.len();
    let ie = (d + index.len()) as nat;
    let be = (ie + bloom.len()) as nat;
    let fx = seq![d, ie, ie, be];
    let footer = be_concat(fx, 8);
    let bytes = sst_file_bytes(v);
    assert(bytes == data + index + bloom + footer);
    lemma_be_concat_len(fx, 8);
    let n = bytes.len() as int;
    assert(n == be + 32);
    lemma_pow256_values();
    lemma_be_concat_at(fx, 8, 0);
    lemma_be_concat_at(fx, 8, 1);
    lemma_be_concat_at(fx, 8, 2);
    lemma_be_concat_at(fx, 8, 3);
    lemma_be_value_of_bytes(d, 8);
    lemma_be_value_of_bytes(ie, 8);
    lemma_be_value_of_bytes(be, 8);
    assert(bytes.subrange(n - 8, n) =~= footer.subrange(24, 32));
    assert(bytes.subrange(n - 16, n - 8) =~= footer.subrange(16, 24));
    assert(bytes.subrange(n - 24, n - 16) =~= footer.subrange(8, 16));
    assert(bytes.subrange(n - 32, n - 24) =~= footer.subrange(0, 8));
    assert(footer_position(bytes, 0) == be);
    assert(footer_position(bytes, 1) == ie);
    assert(footer_position(bytes, 2) == ie);
    assert(footer_position(bytes, 3) == d);
    assert(bytes.subrange(ie as int, be as int) =~= bloom);
    lemma_bloom_roundtrip(v.0);
    assert(bytes.subrange(d as int, ie as int) =~= index);
    assert(bytes.subrange(0, d as int) =~= data);
    assert(bs.subrange(0, 0) =~= Seq::<BlockView>::empty());
    lemma_index_decode(bs, bytes, 0);
    assert(decoded_blocks(bs).subrange(0, bs.len() as int) =~= decoded_blocks(bs));
}

/// A table built from sorted entries reads back from its file: its filter
/// and its blocks, with no records counted in them.
pub proof fn lemma_built_table_roundtrip(bloom: BloomView, es: Seq<Entry>)
    requires
        bloom_wf(bloom),
        sst_file_bytes((bloom_after(bloom, keys_of(es)), packed_blocks(es))).len() <= usize::MAX,
    ensures
        ({
            let v = (bloom_after(bloom, keys_of(es)), packed_blocks(es));
            &&& sst_decodable(sst_file_bytes(v))
            &&& decode_sst(sst_file_bytes(v)) == Ok::<SSTView, ByteReaderError>(
                (v.0, decoded_blocks(v.1)),
            )
        }),
{
    let v = (bloom_after(bloom, keys_of(es)), packed_blocks(es));
    lemma_bloom_after_keys(bloom, keys_of(es));
    lemma_packed_records(es);
    assert forall|i: int| 0 <= i < v.1.len() implies offsets_fit(#[trigger] v.1[i]) by {
        if well_built(v.1[i]) {
            crate::sst::block_builder::lemma_well_built_offsets_fit(v.1[i]);
        }
    }
    lemma_sst_roundtrip(v);
}

impl SSTBuilder {
    /// Builds a table from the entries of `mem_table`, in key order: each key
    /// goes into `bloom_filter`, each entry into the open block or, where it
    /// refuses it, into a new block.
    pub fn new_from_mem_table<M: MemTable>(mem_table: &M, bloom_filter: BloomFilter) -> (r: Self)
        requires
            mem_table.inv(),
            forall|s: Seq<Entry>|
                sorted_keys(s) && entries_of(s) == mem_table.entries() ==> table_buildable(s),
        ensures
            forall|s: Seq<Entry>|
                sorted_keys(s) && entries_of(s) == mem_table.entries() ==> {
                    &&& r@ == (bloom_after(bloom_filter@, keys_of(s)), packed_blocks(s))
                    &&& records_concat(r@.1) == all_records(s)
                    &&& forall|i: int|
                        0 <= i < r@.1.len() ==> packed_shape(#[trigger] r@.1[i])
                    &&& forall|i: int|
                        0 <= i < s.len() ==> probes_present(
                            r@.0.2,
                            #[trigger] key_positions(s[i].0, r@.0.1, r@.0.0),
                        )
                },
    {
        let ghost bloom0 = bloom_filter@;
        proof {
            use_type_invariant(&bloom_filter);
        }
        let mut bloom_filter = bloom_filter;
        let mut blocks: Vec<SSTBlock> = Vec::new();
        let mut sst_block = SSTBlock::new();
        let all_keys = mem_table.get_all_keys();
        let ghost s = entries_view(all_keys@);
        let ghost ks = keys_of(s);
        let mut i: usize = 0;
        while i < all_keys.len()
            invariant
                s == entries_view(all_keys@),
                ks == keys_of(s),
                table_buildable(s),
                i <= s.len(),
                bloom_filter@ == bloom_after(bloom0, ks.subrange(0, i as int)),
                (blocks@.map_values(|b: SSTBlock| b@), sst_block@) == pack_blocks(
                    s.subrange(0, i as int),
                ),
                packed_shape(sst_block@),
            decreases s.len() - i,
        {
            let key = copy_bytes(&all_keys[i].0);
            let value = copy_value(&all_keys[i].1);
            let ghost e = s[i as int];
            proof {
                assert(e == (key@, crate::entries::bytes_opt(value)));
                let ki = ks.subrange(0, i + 1);
                assert(ki.drop_last() =~= ks.subrange(0, i as int));
                assert(ki.last() == key@);
                lemma_bloom_after_sizes(bloom0, ks.subrange(0, i as int));
            }
            bloom_filter.add(key.as_slice());
            proof {
                let ki = ks.subrange(0, i + 1);
                assert(bloom_filter@ == bloom_after(bloom0, ki));
                let si = s.subrange(0, i + 1);
                assert(si.drop_last() =~= s.subrange(0, i as int));
                assert(si.last() == e);
                let p = s.subrange(0, i as int);
                lemma_packed_records(p);
                let (done, cur) = pack_blocks(p);
                assert(packed_blocks(p).drop_last() =~= done);
                assert(records_concat(packed_blocks(p)) == records_concat(done) + cur.0);
                assert(all_records(si) == all_records(p) + key_val_bytes(e));
                lemma_all_records_prefix(s, i + 1);
                if well_built(sst_block@) {
                    crate::sst::block_builder::lemma_block_add_well_built(sst_block@, e);
                } else {
                    crate::sst::block_builder::lemma_oversized_refuses(sst_block@, e);
                }
                crate::sst::block_builder::lemma_block_add_well_built(empty_block(), e);
                crate::sst::block_builder::lemma_key_val_bytes_len(e);
                lemma_packed_records(si);
                assert(packed_blocks(si).last() == pack_blocks(si).1);
                assert(packed_shape(pack_blocks(si).1));
            }
            let key_val = KeyValue { key, value };
            if !sst_block.add(&key_val) {
                let ghost before = blocks@.map_values(|b: SSTBlock| b@);
                if !sst_block.is_empty() {
                    blocks.push(sst_block);
                    proof {
                        assert(blocks@.map_values(|b: SSTBlock| b@) =~= before.push(
                            pack_blocks(s.subrange(0, i as int)).1,
                        ));
                    }
                    sst_block = SSTBlock::new();
                } else {
                    proof {
                        assert(sst_block@.0 =~= Seq::<u8>::empty());
                        assert(sst_block@.1 =~= Seq::<usize>::empty());
                    }
                }
                if !sst_block.add(&key_val) {
                    sst_block = SSTBlock::from_record(&key_val);
                }
            }
            i = i + 1;
        }
        proof {
            assert(s.subrange(0, i as int) =~= s);
            assert(ks.subrange(0, i as int) =~= ks);
        }
        let ghost done = blocks@;
        blocks.push(sst_block);
        proof {
            assert(blocks@.map_values(|b: SSTBlock| b@) =~= done.map_values(|b: SSTBlock| b@).push(
                sst_block@,
            ));
            assert forall|s2: Seq<Entry>|
                sorted_keys(s2) && entries_of(s2) == mem_table.entries() implies s2 == s by {
                crate::entries::lemma_sorted_listing_unique(s2, s);
            }
            lemma_packed_records(s);
            lemma_bloom_after_sizes(bloom0, ks);
            lemma_bloom_after_keys(bloom0, ks);
            assert forall|i: int| 0 <= i < s.len() implies #[trigger] s[i].0 == ks[i] by {}
        }
        SSTBuilder { bloom_filter, blocks }
    }

    /// Builds the table where `table_buildable` holds of the entries of
    /// `mem_table`, checking it first; `None` where it does not.
    pub fn try_new_from_mem_table<M: MemTable>(mem_table: &M, bloom_filter: BloomFilter) -> (r:
        Option<Self>)
        requires
            mem_table.inv(),
        ensures
            forall|s: Seq<Entry>|
                sorted_keys(s) && entries_of(s) == mem_table.entries() ==> {
                    &&& r is Some <==> table_buildable(s)
                    &&& r matches Some(t) ==> t@ == (
                        bloom_after(bloom_filter@, keys_of(s)),
                        packed_blocks(s),
                    )
                },
    {
        let all_keys = mem_table.get_all_keys();
        let ghost s = entries_view(all_keys@);
        proof {
            assert forall|s2: Seq<Entry>|
                sorted_keys(s2) && entries_of(s2) == mem_table.entries() implies s2 == s by {
                crate::entries::lemma_sorted_listing_unique(s2, s);
            }
        }
        let mut total: usize = 0;
        let mut i: usize = 0;
        while i < all_keys.len()
            invariant
                s == entries_view(all_keys@),
                i <= s.len(),
                forall|s2: Seq<Entry>|
                    sorted_keys(s2) && entries_of(s2) == mem_table.entries() ==> s2 == s,
                total == all_records(s.subrange(0, i as int)).len(),
            decreases s.len() - i,
        {
            let ghost e = s[i as int];
            let key_len = all_keys[i].0.len();
            let value_len = match &all_keys[i].1 {
                Some(v) => v.len(),
                None => 0,
            };
            proof {
                crate::sst::block_builder::lemma_key_val_bytes_len(e);
                let si = s.subrange(0, i + 1);
                assert(si.drop_last() =~= s.subrange(0, i as int));
                assert(si.last() == e);
                assert(all_records(si).len() == total + 16 + key_len + value_len);
                lemma_all_records_prefix(s, i + 1);
            }
            total = match total.checked_add(16) {
                Some(t) => match t.checked_add(key_len) {
                    Some(t) => match t.checked_add(value_len) {
                        Some(t) => t,
                        None => return None,
                    },
                    None => return None,
                },
                None => return None,
            };
            i = i + 1;
        }
        proof {
            assert(s.subrange(0, i as int) =~= s);
        }
        if total.checked_add(MAX_BLOCK_SIZE + 8).is_none() {
            return None;
        }
        Some(Self::new_from_mem_table(mem_table, bloom_filter))
    }

    /// Decodes a table file: the footer's positions, the bloom filter before
    /// the footer, then each block between consecutive end positions of the
    /// index.
    pub fn from_bytes(bytes: &[u8]) -> (r: Result<Self, ByteReaderError>)
        requires
            sst_decodable(bytes@),
        ensures
            match r {
                Ok(t) => decode_sst(bytes@) == Ok::<SSTView, ByteReaderError>(t@),
                Err(e) => decode_sst(bytes@) == Err::<SSTView, ByteReaderError>(e),
            },
    {
        Self::try_from_bytes(bytes)
    }

    /// Decodes a table file as `from_bytes` does, or fails with
    /// `InvalidData` where decoding reaches a block with no room for the
    /// restarts it counts.
    pub fn try_from_bytes(bytes: &[u8]) -> (r: Result<Self, ByteReaderError>)
        ensures
            match r {
                Ok(t) => sst_decodable(bytes@) && decode_sst(bytes@) == Ok::<SSTView, ByteReaderError>(
                    t@,
                ),
                Err(e) => if sst_decodable(bytes@) {
                    decode_sst(bytes@) == Err::<SSTView, ByteReaderError>(e)
                } else {
                    e == ByteReaderError::InvalidData
                },
            },
    {
        let ghost b = bytes@;
        let ghost n = b.len() as int;
        let mut footer_btreader = FooterByteReader::new(bytes);
        let block_bloom_filter_end = match footer_btreader.read_usize() {
            Ok(v) => v,
            Err(e) => return Err(e),
        };
        let block_bloom_filter_start = match footer_btreader.read_usize() {
            Ok(v) => v,
            Err(e) => return Err(e),
        };
        let block_index_end = match footer_btreader.read_usize() {
            Ok(v) => v,
            Err(e) => return Err(e),
        };
        let block_index_start = match footer_btreader.read_usize() {
            Ok(v) => v,
            Err(e) => return Err(e),
        };
        assert(block_bloom_filter_end == footer_position(b, 0));
        assert(block_bloom_filter_start == footer_position(b, 1));
        assert(block_index_end == footer_position(b, 2));
        assert(block_index_start == footer_position(b, 3));
        let bloom_len = match block_bloom_filter_end.checked_sub(block_bloom_filter_start) {
            Some(l) => l,
            None => return Err(ByteReaderError::InvalidData),
        };
        let bloom_filter_bytes = match footer_btreader.read_bytes_vec(bloom_len) {
            Ok(v) => v,
            Err(e) => return Err(e),
        };
        let bloom_filter = match BloomFilter::from_bytes(bloom_filter_bytes.as_slice()) {
            Ok(f) => f,
            Err(e) => return Err(e),
        };
        if !(block_index_start <= block_index_end && block_index_end <= bytes.len()) {
            return Err(ByteReaderError::InvalidData);
        }
        let blockes_index_bytes = &bytes[block_index_start..block_index_end];
        let ghost index = blockes_index_bytes@;
        let mut index_btreader = ByteReader::new(blockes_index_bytes);
        let mut blocks: Vec<SSTBlock> = Vec::new();
        assert(decode_sst(b) == match decode_index_blocks(b, index, 0, 0) {
            Ok(blocks) => Ok((bloom_filter@, blocks)),
            Err(e) => Err::<SSTView, ByteReaderError>(e),
        });
        let mut prv_block_index: usize = 0;
        while !index_btreader.is_finished()
            invariant
                b == bytes@,
                index == blockes_index_bytes@,
                decode_sst(b) == match decode_index_blocks(b, index, 0, 0) {
                    Ok(blocks) => Ok((bloom_filter@, blocks)),
                    Err(e) => Err::<SSTView, ByteReaderError>(e),
                },
                index_btreader.data() == index,
                0 <= index_btreader.pos() <= index.len(),
                prv_block_index <= b.len(),
                sst_decodable(b) == index_blocks_safe(
                    b,
                    index,
                    index_btreader.pos(),
                    prv_block_index as int,
                ),
                decode_index_blocks(b, index, 0, 0) == match decode_index_blocks(
                    b,
                    index,
                    index_btreader.pos(),
                    prv_block_index as int,
                ) {
                    Ok(rest) => Ok(blocks@.map_values(|x: SSTBlock| x@) + rest),
                    Err(e) => Err::<Seq<BlockView>, ByteReaderError>(e),
                },
            decreases index.len() - index_btreader.pos(),
        {
            let ghost pos = index_btreader.pos();
            let block_index = match index_btreader.read_usize() {
                Ok(v) => v,
                Err(e) => return Err(e),
            };
            assert(block_index == index_entry(index, pos));
            if !(prv_block_index <= block_index && block_index <= bytes.len()) {
                return Err(ByteReaderError::InvalidData);
            }
            if !SSTBlock::is_decodable(&bytes[prv_block_index..block_index]) {
                return Err(ByteReaderError::InvalidData);
            }
            let block = match SSTBlock::from_binary(&bytes[prv_block_index..block_index]) {
                Ok(blk) => blk,
                Err(e) => return Err(e),
            };
            let ghost before = blocks@.map_values(|x: SSTBlock| x@);
            blocks.push(block);
            proof {
                assert(blocks@.map_values(|x: SSTBlock| x@) =~= before.push(block@));
                let rest = decode_index_blocks(b, index, pos + 8, block_index as int);
                if rest is Ok {
                    assert(before + (seq![block@] + rest->Ok_0) =~= before.push(block@)
                        + rest->Ok_0);
                }
            }
            prv_block_index = block_index;
        }
        proof {
            assert(blocks@.map_values(|x: SSTBlock| x@) + Seq::<BlockView>::empty() =~= blocks@.map_values(
                |x: SSTBlock| x@,
            ));
        }
        Ok(Self { bloom_filter, blocks })
    }

    /// The bytes of the table file: the blocks, the list of where each ends,
    /// the bloom filter, and the footer of four positions.
    pub fn to_bytes(&self) -> (r: Vec<u8>)
        ensures
            r@ == sst_file_bytes(self@),
    {
        let ghost bs = self@.1;
        let mut out: Vec<u8> = Vec::new();
        let mut index: usize = 0;
        let mut block_indices: Vec<usize> = Vec::new();
        let mut sst_indices: Vec<usize> = Vec::new();
        let mut i: usize = 0;
        while i < self.blocks.len()
            invariant
                bs == self@.1,
                bs.len() == self.blocks@.len(),
                i <= bs.len(),
                out@ == blocks_concat(bs.subrange(0, i as int)),
                index == out@.len(),
                block_indices@ == block_ends(bs).subrange(0, i as int),
            decreases bs.len() - i,
        {
            let bytes = self.blocks[i].to_binary();
            out.extend_from_slice(bytes.as_slice());
            assert(out@.len() == out.len());
            index = index + bytes.len();
            block_indices.push(index);
            proof {
                let p = bs.subrange(0, i + 1);
                assert(p.drop_last() =~= bs.subrange(0, i as int));
                assert(p.last() == self.blocks@[i as int]@);
                assert(block_indices@ =~= block_ends(bs).subrange(0, i + 1));
            }
            i = i + 1;
        }
        proof {
            assert(bs.subrange(0, i as int) =~= bs);
            assert(block_indices@ =~= block_ends(bs));
        }
        let ghost data_len = index;
        // block index start position
        sst_indices.push(index);
        let mut j: usize = 0;
        while j < block_indices.len()
            invariant
                j <= block_indices@.len(),
                block_indices@ == block_ends(bs),
                out@ == blocks_concat(bs) + positions_bytes(block_indices@.subrange(0, j as int)),
                index == out@.len(),
                sst_indices@ == seq![data_len],
                data_len == blocks_concat(bs).len(),
            decreases block_indices@.len() - j,
        {
            push_be_u64(&mut out, block_indices[j] as u64);
            assert(out@.len() == out.len());
            proof {
                let p = block_indices@.subrange(0, j + 1);
                let f = |x: usize| x as nat;
                assert(p.map_values(f).drop_last() =~= block_indices@.subrange(0, j as int).map_values(f));
                assert(p.map_values(f).last() == block_indices@[j as int] as nat);
                crate::encoding::lemma_be_bytes_len(block_indices@[j as int] as nat, 8);
            }
            index = index + 8;
            j = j + 1;
        }
        proof {
            assert(block_indices@.subrange(0, j as int) =~= block_indices@);
        }
        // block index end position
        sst_indices.push(index);
        // bloom filter start position
        sst_indices.push(index);
        let bloom_filter_bytes = self.bloom_filter.to_bytes();
        out.extend_from_slice(bloom_filter_bytes.as_slice());
        assert(out@.len() == out.len());
        index = index + bloom_filter_bytes.len();
        // bloom filter end position
        sst_indices.push(index);
        let mut k: usize = 0;
        let ghost before_footer = out@;
        while k < sst_indices.len()
            invariant
                k <= sst_indices@.len(),
                out@ == before_footer + positions_bytes(sst_indices@.subrange(0, k as int)),
            decreases sst_indices@.len() - k,
        {
            push_be_u64(&mut out, sst_indices[k] as u64);
            proof {
                let p = sst_indices@.subrange(0, k + 1);
                let f = |x: usize| x as nat;
                assert(p.map_values(f).drop_last() =~= sst_indices@.subrange(0, k as int).map_values(f));
                assert(p.map_values(f).last() == sst_indices@[k as int] as nat);
            }
            k = k + 1;
        }
        proof {
            assert(sst_indices@.subrange(0, k as int) =~= sst_indices@);
            let data = blocks_concat(bs);
            let ie = (data.len() + positions_bytes(block_ends(bs)).len()) as nat;
            let be = (ie + bloom_bytes(self@.0).len()) as nat;
            assert(sst_indices@.map_values(|x: usize| x as nat) =~= seq![data.len(), ie, ie, be]);
            assert(out@ =~= sst_file_bytes(self@));
        }
        out
    }
}

} // verus!
