//! Blocks of a sorted string table: encoded key/value records followed by
//! the offsets of the restart records and their count.
use vstd::prelude::*;
use crate::bytes_reader::{ByteReader, ByteReaderError};
use crate::encoding::{
    be_bytes, be_concat, be_u32_from, be_value, lemma_be_bytes_len, lemma_be_concat_at,
    lemma_be_concat_len, lemma_be_value_of_bytes, lemma_pow256_values, push_be_u32,
};
use crate::entries::Entry;
use crate::types::{KeyValue, key_val_bytes};

verus! {

/// The size that `add` keeps a block within, as its own length count gives
/// it.
pub const MAX_BLOCK_SIZE: usize = 4069;

/// Every how many records a restart offset is noted.
pub const RESTART_INTERVAL: u32 = 16;

/// A block under construction or decoded from bytes.
pub struct SSTBlock {
    binaries: Vec<u8>,
    restart_offsets: Vec<usize>,
    num_restart: u32,
    num_records: u32,
}

/// The model of a block: its record bytes, its restart offsets, the count
/// of restarts and the count of records.
pub type BlockView = (Seq<u8>, Seq<usize>, u32, u32);

impl View for SSTBlock {
    type V = BlockView;

    closed spec fn view(&self) -> BlockView {
        (self.binaries@, self.restart_offsets@, self.num_restart, self.num_records)
    }
}

/// The length of a block with an entry added: its record bytes, the new
/// record, four bytes per restart and four for their count.
pub open spec fn add_length(b: BlockView, e: Entry) -> int {
    let restart = b.3 % RESTART_INTERVAL == 0;
    b.0.len() + key_val_bytes(e).len() + 4 * (b.2 + if restart {
        1int
    } else {
        0
    }) + 4
}

/// The block after adding an entry, and whether it was added. A block
/// refuses a record that would bring its length past `MAX_BLOCK_SIZE`. A
/// restart offset is noted before every record whose index is a multiple of
/// `RESTART_INTERVAL`.
pub open spec fn block_add(b: BlockView, e: Entry) -> (bool, BlockView) {
    if add_length(b, e) > MAX_BLOCK_SIZE {
        (false, b)
    } else if b.3 % RESTART_INTERVAL == 0 {
        (true, (b.0 + key_val_bytes(e), b.1.push(b.0.len() as usize), (b.2 + 1) as u32, (b.3 + 1) as u32))
    } else {
        (true, (b.0 + key_val_bytes(e), b.1, b.2, (b.3 + 1) as u32))
    }
}

/// Adding the entry neither overflows a counter nor the length computation.
pub open spec fn can_add(b: BlockView, e: Entry) -> bool {
    &&& add_length(b, e) <= usize::MAX
    &&& b.3 % RESTART_INTERVAL == 0 ==> b.2 < u32::MAX
    &&& block_add(b, e).0 ==> b.3 < u32::MAX
}

/// A block as adding entries to a new one leaves it: within the size, no
/// record bytes without a record, at least
/// sixteen record bytes per record, one restart per started run of
/// `RESTART_INTERVAL` records, each restart offset inside the record bytes
/// and within the size.
pub open spec fn well_built(b: BlockView) -> bool {
    &&& b.0.len() + 4 * b.2 + 4 <= MAX_BLOCK_SIZE
    &&& b.3 == 0 ==> b.0.len() == 0
    &&& 16 * b.3 <= b.0.len()
    &&& b.1.len() == b.2
    &&& b.2 == (b.3 + 15) / 16
    &&& forall|i: int|
        0 <= i < b.1.len() ==> (#[trigger] b.1[i]) < b.0.len() && b.1[i] <= MAX_BLOCK_SIZE
}

/// The restart count matches the offsets, and each offset fits the four
/// bytes of its slot.
pub open spec fn offsets_fit(b: BlockView) -> bool {
    &&& b.1.len() == b.2
    &&& forall|i: int| 0 <= i < b.1.len() ==> (#[trigger] b.1[i]) < 0x1_0000_0000
}

pub proof fn lemma_well_built_offsets_fit(b: BlockView)
    requires
        well_built(b),
    ensures
        offsets_fit(b),
{
}

pub proof fn lemma_key_val_bytes_len(e: Entry)
    ensures
        key_val_bytes(e).len() == 16 + e.0.len() + match e.1 {
            Some(v) => v.len(),
            None => 0,
        },
{
    lemma_be_bytes_len(e.0.len(), 8);
    match e.1 {
        Some(v) => lemma_be_bytes_len(v.len(), 8),
        None => lemma_be_bytes_len(0, 8),
    }
}

/// Adding to a well-built block leaves it well built, and its counters
/// cannot overflow.
pub proof fn lemma_block_add_well_built(b: BlockView, e: Entry)
    requires
        well_built(b),
    ensures
        well_built(block_add(b, e).1),
        b.2 < 1000 && b.3 < 1000,
        add_length(b, e) <= usize::MAX ==> can_add(b, e),
{
    lemma_key_val_bytes_len(e);
    let nb = block_add(b, e).1;
    if block_add(b, e).0 {
        assert forall|i: int| 0 <= i < nb.1.len() implies (#[trigger] nb.1[i]) < nb.0.len()
            && nb.1[i] <= MAX_BLOCK_SIZE by {
            if i < b.1.len() {
                assert(nb.1[i] == b.1[i]);
            }
        }
    }
}

/// A block with no records.
pub open spec fn empty_block() -> BlockView {
    (Seq::empty(), Seq::empty(), 0, 0)
}

/// A block that holds the one record of `e`, with its restart at offset
/// zero, whatever its length.
pub open spec fn single_block(e: Entry) -> BlockView {
    (key_val_bytes(e), seq![0usize], 1, 1)
}

/// A block of one record that no block can take: even alone its length
/// passes `MAX_BLOCK_SIZE`.
pub open spec fn oversized_single(b: BlockView) -> bool {
    &&& b.1 == seq![0usize]
    &&& b.2 == 1
    &&& b.3 == 1
    &&& b.0.len() + 8 > MAX_BLOCK_SIZE
}

/// A block of one record too large for any block refuses every further
/// record.
pub proof fn lemma_oversized_refuses(b: BlockView, e: Entry)
    requires
        oversized_single(b),
    ensures
        block_add(b, e) == (false, b),
{
    lemma_key_val_bytes_len(e);
}

/// The records of the entries, one after another.
pub open spec fn all_records(es: Seq<Entry>) -> Seq<u8>
    decreases es.len(),
{
    if es.len() == 0 {
        Seq::empty()
    } else {
        all_records(es.drop_last()) + key_val_bytes(es.last())
    }
}

/// Adding the entries in turn to a new block: whether every add took its
/// entry, and the block it leaves.
pub open spec fn block_after(es: Seq<Entry>) -> (bool, BlockView)
    decreases es.len(),
{
    if es.len() == 0 {
        (true, empty_block())
    } else {
        let (ok, b) = block_after(es.drop_last());
        let (added, next) = block_add(b, es.last());
        (ok && added, next)
    }
}

/// After entries are added in turn to a new block and each add takes its
/// entry, the block holds their records in order and counts them; it has
/// one restart per started run of `RESTART_INTERVAL` records, and the
/// `j`-th restart offset is where record `RESTART_INTERVAL * j` starts.
pub proof fn lemma_restarts_after_adds(es: Seq<Entry>)
    requires
        block_after(es).0,
    ensures
        well_built(block_after(es).1),
        block_after(es).1.0 == all_records(es),
        block_after(es).1.3 == es.len(),
        block_after(es).1.2 == (es.len() + 15) / 16,
        block_after(es).1.1.len() == block_after(es).1.2,
        forall|j: int|
            0 <= j < block_after(es).1.2 ==> #[trigger] block_after(es).1.1[j] == all_records(
                es.subrange(0, RESTART_INTERVAL * j),
            ).len(),
    decreases es.len(),
{
    if es.len() == 0 {
        assert(all_records(es) =~= Seq::<u8>::empty());
    } else {
        let p = es.drop_last();
        let e = es.last();
        let b = block_after(p).1;
        assert(block_after(p).0);
        lemma_restarts_after_adds(p);
        lemma_block_add_well_built(b, e);
        let nb = block_after(es).1;
        assert(nb == block_add(b, e).1);
        assert(es.subrange(0, p.len() as int) =~= p);
        assert(all_records(es) == all_records(p) + key_val_bytes(e));
        assert forall|j: int| 0 <= j < nb.2 implies #[trigger] nb.1[j] == all_records(
            es.subrange(0, RESTART_INTERVAL * j),
        ).len() by {
            if j < b.2 {
                assert(RESTART_INTERVAL * j <= p.len());
                assert(es.subrange(0, RESTART_INTERVAL * j) =~= p.subrange(0, RESTART_INTERVAL * j));
                assert(nb.1[j] == b.1[j]);
            } else {
                assert(RESTART_INTERVAL * j == p.len());
            }
        }
    }
}

/// `add` takes a record exactly when the block's counted length with it
/// stays within `MAX_BLOCK_SIZE`: its record bytes, the record (two eight-byte
/// lengths, the key and the value), four bytes per restart (one more where
/// the record starts a run of `RESTART_INTERVAL`) and four for their count.
/// A record it takes is appended after the others and counted, with a
/// restart at its start where it starts a run; a record it refuses leaves
/// the block as it was.
pub proof fn lemma_add_takes_what_fits(b: BlockView, e: Entry)
    requires
        b.2 < u32::MAX,
        b.3 < u32::MAX,
    ensures
        ({
            let value_len = match e.1 {
                Some(v) => v.len() as int,
                None => 0int,
            };
            let starts_run = b.3 % 16 == 0;
            let restarts = b.2 + if starts_run {
                1int
            } else {
                0int
            };
            let need = b.0.len() + 16 + e.0.len() + value_len + 4 * restarts + 4;
            let (added, after) = block_add(b, e);
            &&& added <==> need <= 4069
            &&& need <= 4069 ==> {
                &&& after.0 == b.0 + key_val_bytes(e)
                &&& after.0.len() == b.0.len() + 16 + e.0.len() + value_len
                &&& after.1 == if starts_run {
                    b.1.push(b.0.len() as usize)
                } else {
                    b.1
                }
                &&& after.2 == restarts
                &&& after.3 == b.3 + 1
            }
            &&& need > 4069 ==> after == b
        }),
{
    lemma_key_val_bytes_len(e);
}

/// The restart offsets as the numbers that their four-byte slots hold.
pub open spec fn restart_values(offsets: Seq<usize>) -> Seq<nat> {
    offsets.map_values(|o: usize| o as u32 as nat)
}

/// The four-byte big-endian encodings of the restart offsets, one after
/// another.
pub open spec fn restart_bytes(offsets: Seq<usize>) -> Seq<u8> {
    be_concat(restart_values(offsets), 4)
}

/// The encoding of a block: its record bytes, each restart offset in four
/// big-endian bytes, and the count of restarts in four.
pub open spec fn block_bytes(b: BlockView) -> Seq<u8> {
    b.0 + restart_bytes(b.1) + be_bytes(b.2 as nat, 4)
}

/// A well-built block's encoding is as long as `add` counts it, so within
/// `MAX_BLOCK_SIZE`.
pub proof fn lemma_block_bytes_len(b: BlockView)
    requires
        well_built(b),
    ensures
        block_bytes(b).len() == b.0.len() + 4 * b.2 + 4,
        block_bytes(b).len() <= MAX_BLOCK_SIZE,
{
    lemma_be_concat_len(restart_values(b.1), 4);
    lemma_be_bytes_len(b.2 as nat, 4);
}

/// What decoding `bytes` as a block gives: the count of restarts in the
/// last four bytes, the restart offsets in the four-byte slots before it,
/// the record bytes before them, and no records counted.
pub open spec fn decode_block(bytes: Seq<u8>) -> BlockView {
    let n = bytes.len() as int;
    let num_restart = be_value(bytes.subrange(n - 4, n));
    let restart_start = n - 4 - 4 * num_restart;
    (
        bytes.subrange(0, restart_start),
        Seq::new(
            num_restart,
            |i: int|
                be_value(bytes.subrange(restart_start + 4 * i, restart_start + 4 * i + 4)) as usize,
        ),
        num_restart as u32,
        0,
    )
}

/// The bytes can be decoded as a block without running out of range: there
/// are four bytes for the count and room before them for the restarts it
/// counts.
pub open spec fn block_decodable(bytes: Seq<u8>) -> bool {
    &&& bytes.len() >= 4
    &&& 4 + 4 * be_value(bytes.subrange(bytes.len() - 4, bytes.len() as int)) <= bytes.len()
}

impl SSTBlock {
    /// Creates an empty block.
    pub fn new() -> (r: Self)
        ensures
            r@ == (Seq::<u8>::empty(), Seq::<usize>::empty(), 0u32, 0u32),
    {
        SSTBlock { binaries: Vec::new(), restart_offsets: Vec::new(), num_restart: 0, num_records: 0 }
    }

    /// A block that holds the one record of `key_val`, whatever its length.
    pub fn from_record(key_val: &KeyValue) -> (r: Self)
        ensures
            r@ == single_block(key_val@),
    {
        let mut restart_offsets: Vec<usize> = Vec::new();
        restart_offsets.push(0);
        SSTBlock { binaries: key_val.to_bytes(), restart_offsets, num_restart: 1, num_records: 1 }
    }

    /// Whether the block holds no record.
    pub fn is_empty(&self) -> (r: bool)
        ensures
            r == (self@.3 == 0),
    {
        self.num_records == 0
    }

    /// Adds the record of `key_val` where the block stays within its size.
    pub fn add(&mut self, key_val: &KeyValue) -> (r: bool)
        requires
            can_add(old(self)@, key_val@),
        ensures
            (r, final(self)@) == block_add(old(self)@, key_val@),
            well_built(old(self)@) ==> well_built(final(self)@),
    {
        let key_val_binaries = key_val.to_bytes();
        let should_restart = self.num_records % RESTART_INTERVAL == 0;
        let new_num_restart = self.num_restart + if should_restart {
            1u32
        } else {
            0u32
        };
        let new_length = self.binaries.len() + key_val_binaries.len() + (new_num_restart as usize)
            * 4 + 4;
        // the block length should not pass MAX_BLOCK_SIZE
        if new_length > MAX_BLOCK_SIZE {
            return false;
        }
        let ghost old_view = self@;
        // note the offset at a restart point
        if should_restart {
            self.restart_offsets.push(self.binaries.len());
            self.num_restart = self.num_restart + 1;
        }
        self.binaries.extend_from_slice(key_val_binaries.as_slice());
        self.num_records = self.num_records + 1;
        proof {
            assert(self.binaries@ =~= old_view.0 + key_val_bytes(key_val@));
            if well_built(old_view) {
                lemma_block_add_well_built(old_view, key_val@);
            }
        }
        return true;
    }

    /// Encodes the block.
    pub fn to_binary(&self) -> (r: Vec<u8>)
        ensures
            r@ == block_bytes(self@),
    {
        let ghost xs = restart_values(self.restart_offsets@);
        let mut bin_arr: Vec<u8> = Vec::new();
        bin_arr.extend_from_slice(self.binaries.as_slice());
        let mut i: usize = 0;
        while i < self.restart_offsets.len()
            invariant
                xs == restart_values(self.restart_offsets@),
                i <= self.restart_offsets@.len(),
                bin_arr@ == self.binaries@ + be_concat(xs.subrange(0, i as int), 4),
            decreases self.restart_offsets@.len() - i,
        {
            let offset = self.restart_offsets[i];
            push_be_u32(&mut bin_arr, #[verifier::truncate] (offset as u32));
            proof {
                let p = xs.subrange(0, i + 1);
                assert(p.drop_last() =~= xs.subrange(0, i as int));
                assert(p.last() == offset as u32 as nat);
            }
            i = i + 1;
        }
        assert(xs.subrange(0, i as int) =~= xs);
        push_be_u32(&mut bin_arr, self.num_restart);
        bin_arr
    }

    /// Whether `bytes` have room for a restart count and the restarts it
    /// counts.
    pub fn is_decodable(bytes: &[u8]) -> (r: bool)
        ensures
            r == block_decodable(bytes@),
    {
        let len = bytes.len();
        if len < 4 {
            return false;
        }
        let count_bytes = &bytes[len - 4..len];
        let num_restart = be_u32_from(count_bytes);
        assert(bytes@.subrange(len - 4, len as int) =~= count_bytes@);
        let restarts_len = (num_restart as u64) * 4 + 4;
        restarts_len <= len as u64
    }

    /// Decodes a block from its encoding, or fails with `InvalidData` where
    /// the bytes have no room for the restarts they count.
    pub fn try_from_binary(bytes: &[u8]) -> (r: Result<Self, ByteReaderError>)
        ensures
            match r {
                Ok(b) => block_decodable(bytes@) && b@ == decode_block(bytes@),
                Err(e) => !block_decodable(bytes@) && e == ByteReaderError::InvalidData,
            },
    {
        if !Self::is_decodable(bytes) {
            return Err(ByteReaderError::InvalidData);
        }
        Self::from_binary(bytes)
    }

    /// Decodes a block from its encoding.
    pub fn from_binary(bytes: &[u8]) -> (r: Result<Self, ByteReaderError>)
        requires
            block_decodable(bytes@),
        ensures
            match r {
                Ok(b) => b@ == decode_block(bytes@),
                Err(_) => false,
            },
    {
        let ghost b = bytes@;
        let len = bytes.len();
        let num_restart_bytes = &bytes[len - 4..len];
        let mut breader = ByteReader::new(num_restart_bytes);
        let num_restart = match breader.read_u32() {
            Ok(v) => v,
            Err(e) => return Err(e),
        };
        assert(num_restart_bytes@.subrange(0, 4) =~= num_restart_bytes@);
        assert(num_restart as nat == be_value(b.subrange(len - 4, len as int)));
        let restart_start = len - 4 - (num_restart as usize * 4);
        let ghost d = decode_block(b);
        let mut restart_offsets: Vec<usize> = Vec::new();
        let mut i: u32 = 0;
        while i < num_restart
            invariant
                b == bytes@,
                d == decode_block(b),
                i <= num_restart,
                restart_start + 4 * num_restart + 4 == len,
                len == b.len(),
                num_restart as nat == be_value(b.subrange(len - 4, len as int)),
                restart_offsets@ == d.1.subrange(0, i as int),
            decreases num_restart - i,
        {
            let offset_position = restart_start + (i as usize) * 4;
            let offset_bytes = &bytes[offset_position..(offset_position + 4)];
            let mut reset_breader = ByteReader::new(offset_bytes);
            let offset = match reset_breader.read_u32() {
                Ok(o) => o,
                Err(e) => return Err(e),
            };
            assert(offset_bytes@.subrange(0, 4) =~= offset_bytes@);
            restart_offsets.push(offset as usize);
            assert(restart_offsets@ =~= d.1.subrange(0, i + 1));
            i = i + 1;
        }
        let binaries = vstd::slice::slice_to_vec(&bytes[0..restart_start]);
        assert(restart_offsets@ =~= d.1);
        Ok(SSTBlock { binaries, restart_offsets, num_restart, num_records: 0 })
    }
}

/// Decoding the encoding of a block whose restart count matches its
/// offsets, each of which fits four bytes, gives back its record bytes, its
/// offsets and its restart count, with no records counted.
pub proof fn lemma_block_roundtrip(b: BlockView)
    requires
        offsets_fit(b),
    ensures
        block_decodable(block_bytes(b)),
        decode_block(block_bytes(b)) == (b.0, b.1, b.2, 0u32),
{
    let bytes = block_bytes(b);
    let xs = restart_values(b.1);
    let r = restart_bytes(b.1);
    let n = bytes.len() as int;
    lemma_pow256_values();
    lemma_be_concat_len(xs, 4);
    lemma_be_bytes_len(b.2 as nat, 4);
    lemma_be_value_of_bytes(b.2 as nat, 4);
    assert(bytes.subrange(n - 4, n) =~= be_bytes(b.2 as nat, 4));
    let rs = b.0.len() as int;
    assert(n - 4 - 4 * b.2 == rs);
    assert(bytes.subrange(0, rs) =~= b.0);
    let d = decode_block(bytes);
    assert forall|i: int| 0 <= i < b.2 implies #[trigger] d.1[i] == b.1[i] by {
        lemma_be_concat_at(xs, 4, i);
        assert(bytes.subrange(rs + 4 * i, rs + 4 * i + 4) =~= r.subrange(i * 4, (i + 1) * 4));
        assert(xs[i] == b.1[i] as u32 as nat);
        lemma_be_value_of_bytes(xs[i], 4);
    }
    assert(d.1 =~= b.1);
}

} // verus!
