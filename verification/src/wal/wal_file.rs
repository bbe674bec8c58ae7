//! The header of a log file.
use vstd::prelude::*;
use crate::encoding::{
    be_bytes, be_u32_from, be_value, lemma_be_bytes_of_value, lemma_be_value_of_bytes,
    lemma_pow256_values, push_be_u32,
};

verus! {

/// The header that starts every log file: the file's sequence number.
pub struct WalFileHeader {
    pub seq_no: u32,
}

impl WalFileHeader {
    /// Encodes the header: the sequence number in four big-endian bytes.
    pub fn to_bytes(&self) -> (r: Vec<u8>)
        ensures
            r@ == be_bytes(self.seq_no as nat, 4),
    {
        let mut bytes: Vec<u8> = Vec::with_capacity(4);
        push_be_u32(&mut bytes, self.seq_no);
        assert(bytes@ =~= be_bytes(self.seq_no as nat, 4));
        bytes
    }

    /// Decodes a header from the first four bytes of a log file.
    pub fn from_bytes(bytes: &[u8]) -> (r: Self)
        requires
            bytes@.len() == 4,
        ensures
            r.seq_no == be_value(bytes@),
    {
        WalFileHeader { seq_no: be_u32_from(bytes) }
    }
}

/// Decoding an encoded header gives it back, and each four bytes are the
/// encoding of the header they decode to.
pub proof fn lemma_header_roundtrip(h: WalFileHeader, bytes: Seq<u8>)
    ensures
        be_value(be_bytes(h.seq_no as nat, 4)) == h.seq_no,
        bytes.len() == 4 ==> be_bytes(be_value(bytes), 4) == bytes,
{
    lemma_pow256_values();
    lemma_be_value_of_bytes(h.seq_no as nat, 4);
    lemma_be_bytes_of_value(bytes);
}

} // verus!
