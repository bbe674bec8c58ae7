//! The bloom filter of a table's keys: probe positions from two seeded
//! 64-bit hashes of the key, combined by double hashing.
use vstd::prelude::*;
use crate::bytes_reader::ByteReaderError;
use crate::encoding::{
    be_bytes, be_u64_from, be_value, lemma_be_bytes_len, lemma_be_value_of_bytes,
    lemma_pow256_values, push_be_u64,
};
use vstd::wrapping::u64_specs::{wrapping_add, wrapping_mul};

verus! {

/// The XXH64 hash of `bytes` with the given seed.
pub uninterp spec fn xxh64_of(bytes: Seq<u8>, seed: u64) -> u64;

/// Calls `xxhash_rust::xxh64::xxh64(bytes, seed)`, the XXH64 hash, a function
/// of the bytes and the seed alone; the contract names that result.
#[verifier::external_body]
fn xxh64_hash(bytes: &[u8], seed: u64) -> (r: u64)
    ensures
        r == xxh64_of(bytes@, seed),
{
    xxhash_rust::xxh64::xxh64(bytes, seed)
}

/// The `i`-th probe position: the first hash plus `i` times the second, in
/// wrapping 64-bit arithmetic, modulo the filter's size in bits.
pub open spec fn probe(h1: u64, h2: u64, i: u64, bit_size: u64) -> u64 {
    (wrapping_add(h1, wrapping_mul(i, h2)) % bit_size) as u64
}

/// The probe positions of a key.
pub open spec fn key_positions(key: Seq<u8>, num_hash: u64, bit_size: u64) -> Seq<u64> {
    Seq::new(
        num_hash as nat,
        |i: int| probe(xxh64_of(key, 0), xxh64_of(key, 10), i as u64, bit_size),
    )
}

/// A key has one probe per hash, and its `i`-th probe position is its
/// XXH64 hash with seed 0 plus `i` times its hash with seed 10, taken
/// modulo 2^64, then modulo the filter's size in bits.
pub proof fn lemma_probe_positions(key: Seq<u8>, num_hash: u64, bit_size: u64)
    requires
        bit_size > 0,
    ensures
        key_positions(key, num_hash, bit_size).len() == num_hash,
        forall|i: int|
            0 <= i < num_hash ==> #[trigger] key_positions(key, num_hash, bit_size)[i] as int == ((
            xxh64_of(key, 0) as int + i * xxh64_of(key, 10) as int) % 0x1_0000_0000_0000_0000)
                % (bit_size as int),
{
    let h1 = xxh64_of(key, 0) as int;
    let h2 = xxh64_of(key, 10) as int;
    let m: int = 0x1_0000_0000_0000_0000;
    assert forall|i: int| 0 <= i < num_hash implies #[trigger] key_positions(
        key,
        num_hash,
        bit_size,
    )[i] as int == ((h1 + i * h2) % m) % (bit_size as int) by {
        let w = wrapping_mul(i as u64, h2 as u64) as int;
        assert(w == (i * h2) % m);
        assert(wrapping_add(h1 as u64, w as u64) as int == (h1 + w) % m);
        vstd::arithmetic::div_mod::lemma_add_mod_noop(h1, i * h2, m);
        vstd::arithmetic::div_mod::lemma_small_mod(h1 as nat, m as nat);
        vstd::arithmetic::div_mod::lemma_mod_bound(h1 + w, m);
        assert((h1 + w) % m == (h1 + i * h2) % m);
    }
}

/// The bytes after setting the byte at each position to one.
pub open spec fn set_ones(bits: Seq<u8>, positions: Seq<u64>) -> Seq<u8>
    decreases positions.len(),
{
    if positions.len() == 0 {
        bits
    } else {
        set_ones(bits, positions.drop_last()).update(positions.last() as int, 1u8)
    }
}

/// Whether a key tests present: no probe position inside the bytes holds a
/// zero.
pub open spec fn probes_present(bits: Seq<u8>, positions: Seq<u64>) -> bool {
    !exists|i: int|
        0 <= i < positions.len() && (#[trigger] positions[i]) as usize as int >= 0 && (
        positions[i] as usize) < bits.len() && bits[positions[i] as usize as int] == 0
}

/// Setting ones at positions inside the bytes keeps their length and every
/// byte that was not zero, and leaves a one at each position.
pub proof fn lemma_set_ones(bits: Seq<u8>, positions: Seq<u64>)
    requires
        forall|j: int| 0 <= j < positions.len() ==> #[trigger] positions[j] < bits.len(),
    ensures
        set_ones(bits, positions).len() == bits.len(),
        forall|i: int|
            0 <= i < bits.len() && bits[i] != 0 ==> #[trigger] set_ones(bits, positions)[i] != 0,
        forall|j: int|
            0 <= j < positions.len() ==> set_ones(bits, positions)[(#[trigger] positions[j]) as int]
                == 1,
    decreases positions.len(),
{
    if positions.len() > 0 {
        let p = positions.drop_last();
        assert forall|j: int| 0 <= j < p.len() implies #[trigger] p[j] < bits.len() by {
            assert(p[j] == positions[j]);
        }
        assert(positions[positions.len() - 1] < bits.len());
        lemma_set_ones(bits, p);
        assert forall|j: int| 0 <= j < positions.len() implies set_ones(bits, positions)[(
        #[trigger] positions[j]) as int] == 1 by {
            if j < p.len() {
                assert(p[j] == positions[j]);
            }
        }
    }
}

/// The model of a filter: its size in bits, its number of probes, and its
/// bytes.
pub type BloomView = (u64, u64, Seq<u8>);

/// A bloom filter.
pub struct BloomFilter {
    bit_size: u64,
    num_hash: u64,
    bit_arr: Vec<u8>,
}

/// The encoding of a filter: the number of probes and the size in bits, in
/// eight big-endian bytes each, then the bytes.
pub open spec fn bloom_bytes(v: BloomView) -> Seq<u8> {
    be_bytes(v.1 as nat, 8) + be_bytes(v.0 as nat, 8) + v.2
}

/// A filter whose probes can be placed: no probes, or a positive size.
pub open spec fn bloom_sizes_ok(bit_size: u64, num_hash: u64) -> bool {
    num_hash == 0 || bit_size > 0
}

/// A filter's model as its invariant keeps it: its probes can be placed,
/// and it has one byte per bit of its size, which fits `usize`.
pub open spec fn bloom_wf(v: BloomView) -> bool {
    &&& bloom_sizes_ok(v.0, v.1)
    &&& v.2.len() == v.0
    &&& v.0 <= usize::MAX
}

/// What decoding `bytes` as a filter gives: an error where there are fewer
/// than sixteen bytes, the sizes cannot place probes, or the bytes after
/// the sizes are not one per bit.
pub open spec fn decode_bloom(bytes: Seq<u8>) -> Result<BloomView, ByteReaderError> {
    if bytes.len() < 16 {
        Err(ByteReaderError::InvalidData)
    } else {
        let num_hash = be_value(bytes.subrange(0, 8)) as u64;
        let bit_size = be_value(bytes.subrange(8, 16)) as u64;
        let v = (bit_size, num_hash, bytes.subrange(16, bytes.len() as int));
        if bloom_wf(v) {
            Ok(v)
        } else {
            Err(ByteReaderError::InvalidData)
        }
    }
}

impl View for BloomFilter {
    type V = BloomView;

    closed spec fn view(&self) -> BloomView {
        (self.bit_size, self.num_hash, self.bit_arr@)
    }
}

/// Every probe position of a filter with probes lies inside its bytes.
pub proof fn lemma_positions_in_range(v: BloomView, key: Seq<u8>)
    requires
        bloom_wf(v),
    ensures
        forall|i: int|
            0 <= i < key_positions(key, v.1, v.0).len() ==> #[trigger] key_positions(
                key,
                v.1,
                v.0,
            )[i] < v.2.len(),
{
}

impl BloomFilter {
    /// The filter's invariant: its probes can be placed and it has one byte
    /// per bit.
    #[verifier::type_invariant]
    pub open spec fn inv(&self) -> bool {
        bloom_wf(self@)
    }

    /// The probe positions of `key` in this filter.
    pub open spec fn positions(&self, key: Seq<u8>) -> Seq<u64> {
        key_positions(key, self@.1, self@.0)
    }

    /// Creates a filter of `bit_size` zero bytes, probed `num_hash` times per
    /// key.
    pub fn with_sizes(bit_size: u64, num_hash: u64) -> (r: Self)
        requires
            bloom_sizes_ok(bit_size, num_hash),
            bit_size <= usize::MAX,
        ensures
            r@ == (bit_size, num_hash, Seq::new(bit_size as nat, |i: int| 0u8)),
    {
        let mut bit_arr: Vec<u8> = Vec::new();
        let n = bit_size as usize;
        let mut i: usize = 0;
        while i < n
            invariant
                i <= n,
                n == bit_size,
                bit_arr@ =~= Seq::new(i as nat, |j: int| 0u8),
            decreases n - i,
        {
            bit_arr.push(0);
            i = i + 1;
        }
        BloomFilter { bit_arr, bit_size, num_hash }
    }

    /// The probe positions of `key`.
    fn hashes(&self, key: &[u8]) -> (r: Vec<u64>)
        ensures
            r@ == self.positions(key@),
    {
        proof {
            use_type_invariant(self);
        }
        let mut indices: Vec<u64> = Vec::new();
        let hash_1 = xxh64_hash(key, 0);
        let hash_2 = xxh64_hash(key, 10);
        let mut i: u64 = 0;
        while i < self.num_hash
            invariant
                i <= self.num_hash,
                self.num_hash == 0 || self.bit_size > 0,
                hash_1 == xxh64_of(key@, 0),
                hash_2 == xxh64_of(key@, 10),
                indices@ =~= self.positions(key@).subrange(0, i as int),
            decreases self.num_hash - i,
        {
            let position = hash_1.wrapping_add(i.wrapping_mul(hash_2)) % self.bit_size;
            indices.push(position);
            i = i + 1;
        }
        indices
    }

    /// Sets the byte at each probe position of `key` to one.
    pub fn add(&mut self, key: &[u8])
        ensures
            final(self)@ == (old(self)@.0, old(self)@.1, set_ones(
                old(self)@.2,
                old(self).positions(key@),
            )),
    {
        let indices = self.hashes(key);
        proof {
            use_type_invariant(&*self);
            lemma_positions_in_range(self@, key@);
        }
        let mut taken = BloomFilter { bit_size: 0, num_hash: 0, bit_arr: Vec::new() };
        std::mem::swap(&mut taken, self);
        let BloomFilter { bit_size, num_hash, mut bit_arr } = taken;
        let ghost bits0 = bit_arr@;
        let mut k: usize = 0;
        while k < indices.len()
            invariant
                k <= indices@.len(),
                bits0.len() <= usize::MAX,
                forall|i: int| 0 <= i < indices@.len() ==> #[trigger] indices@[i] < bits0.len(),
                bit_arr@ == set_ones(bits0, indices@.subrange(0, k as int)),
                bit_arr@.len() == bits0.len(),
            decreases indices@.len() - k,
        {
            let index = indices[k];
            proof {
                assert(indices@.subrange(0, k + 1).drop_last() =~= indices@.subrange(0, k as int));
                assert(indices@[k as int] < bits0.len());
            }
            bit_arr.set(index as usize, 1);
            k = k + 1;
        }
        assert(indices@.subrange(0, k as int) =~= indices@);
        *self = BloomFilter { bit_size, num_hash, bit_arr };
    }

    /// Whether `key` may have been added: false only where a probe position
    /// inside the filter's bytes holds a zero.
    pub fn is_present(&self, key: &[u8]) -> (r: bool)
        ensures
            r == probes_present(self@.2, self.positions(key@)),
    {
        let indices = self.hashes(key);
        let mut k: usize = 0;
        while k < indices.len()
            invariant
                k <= indices@.len(),
                indices@ == self.positions(key@),
                forall|i: int|
                    0 <= i < k ==> !((#[trigger] indices@[i] as usize) < self.bit_arr@.len()
                        && self.bit_arr@[indices@[i] as usize as int] == 0),
            decreases indices@.len() - k,
        {
            let index = #[verifier::truncate] (indices[k] as usize);
            if index < self.bit_arr.len() && self.bit_arr[index] == 0 {
                return false;
            }
            k = k + 1;
        }
        true
    }

    /// Encodes the filter.
    pub fn to_bytes(&self) -> (r: Vec<u8>)
        ensures
            r@ == bloom_bytes(self@),
            bloom_wf(self@),
    {
        proof {
            use_type_invariant(self);
        }
        let mut binary: Vec<u8> = Vec::new();
        push_be_u64(&mut binary, self.num_hash);
        push_be_u64(&mut binary, self.bit_size);
        binary.extend_from_slice(self.bit_arr.as_slice());
        assert(binary@ =~= bloom_bytes(self@));
        binary
    }

    /// Decodes a filter from its encoding.
    pub fn from_bytes(bytes: &[u8]) -> (r: Result<Self, ByteReaderError>)
        ensures
            match r {
                Ok(f) => decode_bloom(bytes@) == Ok::<BloomView, ByteReaderError>(f@),
                Err(e) => decode_bloom(bytes@) == Err::<BloomView, ByteReaderError>(e),
            },
    {
        let len = bytes.len();
        if len < 16 {
            return Err(ByteReaderError::InvalidData);
        }
        let num_hash = be_u64_from(&bytes[0..8]);
        let bit_size = be_u64_from(&bytes[8..16]);
        if num_hash > 0 && bit_size == 0 {
            return Err(ByteReaderError::InvalidData);
        }
        if (len - 16) as u64 != bit_size {
            return Err(ByteReaderError::InvalidData);
        }
        let bit_arr = vstd::slice::slice_to_vec(&bytes[16..len]);
        Ok(BloomFilter { bit_size, num_hash, bit_arr })
    }
}

/// Decoding the encoding of a filter gives it back.
pub proof fn lemma_bloom_roundtrip(v: BloomView)
    requires
        bloom_wf(v),
    ensures
        decode_bloom(bloom_bytes(v)) == Ok::<BloomView, ByteReaderError>(v),
{
    let bytes = bloom_bytes(v);
    lemma_pow256_values();
    lemma_be_bytes_len(v.1 as nat, 8);
    lemma_be_bytes_len(v.0 as nat, 8);
    lemma_be_value_of_bytes(v.1 as nat, 8);
    lemma_be_value_of_bytes(v.0 as nat, 8);
    assert(bytes.subrange(0, 8) =~= be_bytes(v.1 as nat, 8));
    assert(bytes.subrange(8, 16) =~= be_bytes(v.0 as nat, 8));
    assert(bytes.subrange(16, bytes.len() as int) =~= v.2);
}

/// A key one of whose probe positions inside the bytes holds a zero tests
/// absent.
pub proof fn lemma_zero_probe_absent(bits: Seq<u8>, positions: Seq<u64>, i: int)
    requires
        0 <= i < positions.len(),
        positions[i] < bits.len(),
        bits[positions[i] as int] == 0,
        bits.len() <= usize::MAX,
    ensures
        !probes_present(bits, positions),
{
    assert((positions[i] as usize) as int == positions[i] as int);
}

/// A key that tests present still does after more probes are set.
pub proof fn lemma_present_stays(bits: Seq<u8>, probed: Seq<u64>, later: Seq<u64>)
    requires
        probes_present(bits, probed),
        forall|j: int| 0 <= j < later.len() ==> #[trigger] later[j] < bits.len(),
    ensures
        probes_present(set_ones(bits, later), probed),
{
    let after = set_ones(bits, later);
    lemma_set_ones(bits, later);
    assert forall|i: int| 0 <= i < probed.len() implies !((#[trigger] probed[i]) as usize as int
        >= 0 && (probed[i] as usize) < after.len() && after[probed[i] as usize as int] == 0) by {
        if (probed[i] as usize) < after.len() {
            let q = probed[i] as usize as int;
            assert(bits[q] != 0);
        }
    }
}

/// An added key is never reported absent: after its probes are set, it
/// tests present, and stays present whatever probes are set after.
pub proof fn lemma_no_false_negatives(v: BloomView, key: Seq<u8>, later: Seq<u64>)
    requires
        bloom_wf(v),
        forall|j: int| 0 <= j < later.len() ==> #[trigger] later[j] < v.2.len(),
    ensures
        probes_present(
            set_ones(set_ones(v.2, key_positions(key, v.1, v.0)), later),
            key_positions(key, v.1, v.0),
        ),
{
    let ps = key_positions(key, v.1, v.0);
    let once = set_ones(v.2, ps);
    lemma_positions_in_range(v, key);
    lemma_set_ones(v.2, ps);
    lemma_set_ones(once, later);
    let twice = set_ones(once, later);
    assert forall|i: int| 0 <= i < ps.len() implies !((#[trigger] ps[i]) as usize as int >= 0 && (
    ps[i] as usize) < twice.len() && twice[ps[i] as usize as int] == 0) by {
        assert(ps[i] < v.2.len());
        assert(once[ps[i] as int] == 1);
    }
}

} // verus!
