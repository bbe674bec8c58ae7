//! The key/value pair and its binary encoding.
use vstd::prelude::*;
use crate::bytes_reader::{ByteReader, ByteReaderError, decode_key_val};
use crate::encoding::{be_bytes, lemma_be_bytes_len, lemma_be_value_of_bytes, lemma_pow256_values, push_be_u64};
use crate::entries::{Entry, bytes_opt};

verus! {

/// A key with its value, `None` for a deleted key.
pub struct KeyValue {
    pub key: Vec<u8>,
    pub value: Option<Vec<u8>>,
}

impl View for KeyValue {
    type V = Entry;

    open spec fn view(&self) -> Entry {
        (self.key@, bytes_opt(self.value))
    }
}

/// The encoding of an entry: the key's length in eight big-endian bytes, the
/// key, then the value's length in eight big-endian bytes and the value, a
/// length of zero where there is no value.
pub open spec fn key_val_bytes(e: Entry) -> Seq<u8> {
    be_bytes(e.0.len(), 8) + e.0 + match e.1 {
        Some(v) => be_bytes(v.len(), 8) + v,
        None => be_bytes(0, 8),
    }
}

/// An entry as decoding gives it back: a present but empty value decodes as
/// no value.
pub open spec fn normalized(e: Entry) -> Entry {
    (
        e.0,
        match e.1 {
            Some(v) => if v.len() == 0 {
                None
            } else {
                Some(v)
            },
            None => None,
        },
    )
}

/// Decoding the encoding of a pair, wherever it stands and whatever follows
/// it, gives the pair back (an empty value as no value) and stops right
/// after it.
pub proof fn lemma_key_val_roundtrip(kv: KeyValue, before: Seq<u8>, rest: Seq<u8>)
    ensures
        decode_key_val(before + key_val_bytes(kv@) + rest, before.len() as int) == (
            Some(normalized(kv@)),
            before.len() + key_val_bytes(kv@).len() as int,
        ),
{
    let e = kv@;
    let data = before + key_val_bytes(e) + rest;
    let b = before.len() as int;
    let klen = e.0.len();
    lemma_pow256_values();
    assert(klen == kv.key.len());
    lemma_be_bytes_len(klen, 8);
    lemma_be_value_of_bytes(klen, 8);
    assert(data.subrange(b, b + 8) =~= be_bytes(klen, 8));
    assert(data.subrange(b + 8, b + 8 + klen) =~= e.0);
    let p2 = b + 8 + klen;
    match kv.value {
        Some(v) => {
            let vlen = v@.len();
            assert(vlen == v.len());
            lemma_be_bytes_len(vlen, 8);
            lemma_be_value_of_bytes(vlen, 8);
            assert(data.subrange(p2, p2 + 8) =~= be_bytes(vlen, 8));
            assert(data.subrange(p2 + 8, p2 + 8 + vlen) =~= v@);
        },
        None => {
            lemma_be_bytes_len(0, 8);
            lemma_be_value_of_bytes(0, 8);
            assert(data.subrange(p2, p2 + 8) =~= be_bytes(0, 8));
        },
    }
}

impl KeyValue {
    /// Encodes the pair.
    pub fn to_bytes(&self) -> (r: Vec<u8>)
        ensures
            r@ == key_val_bytes(self@),
    {
        let mut bin_arr: Vec<u8> = Vec::new();
        push_be_u64(&mut bin_arr, self.key.len() as u64);
        bin_arr.extend_from_slice(self.key.as_slice());
        match &self.value {
            Some(val) => {
                push_be_u64(&mut bin_arr, val.len() as u64);
                bin_arr.extend_from_slice(val.as_slice());
            },
            None => {
                let empty_val_size: usize = 0;
                push_be_u64(&mut bin_arr, empty_val_size as u64);
            },
        }
        assert(bin_arr@ =~= key_val_bytes(self@));
        bin_arr
    }

    /// Decodes the pair that `bytes` start with; bytes after it are ignored.
    pub fn from_bytes(bytes: &[u8]) -> (r: Result<Self, ByteReaderError>)
        ensures
            match r {
                Ok(kv) => decode_key_val(bytes@, 0).0 == Some(kv@),
                Err(e) => decode_key_val(bytes@, 0).0 is None && e == ByteReaderError::InvalidData,
            },
    {
        let mut breader = ByteReader::new(bytes);
        let key_val = breader.read_key_val()?;
        Ok(key_val)
    }
}

} // verus!
