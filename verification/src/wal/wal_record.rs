//! Log records and their binary encoding.
use vstd::prelude::*;
use vstd::std_specs::convert::FromSpecImpl;
use crate::bytes_reader::{ByteReader, ByteReaderError, decode_key_val};
use crate::encoding::{
    be_bytes, be_value, lemma_be_bytes_len, lemma_be_value_of_bytes, lemma_pow256_values,
    push_be_u32,
};
use crate::entries::Entry;
use crate::types::{KeyValue, key_val_bytes, lemma_key_val_roundtrip, normalized};

verus! {

/// Why a log record could not be decoded.
#[derive(Debug)]
pub enum WalError {
    /// The operation byte names no operation.
    InvalidOperationType(u8),
    /// The record is cut short.
    ByteReaderError(ByteReaderError),
}

impl From<ByteReaderError> for WalError {
    fn from(err: ByteReaderError) -> (r: Self) {
        WalError::ByteReaderError(err)
    }
}

impl FromSpecImpl<ByteReaderError> for WalError {
    open spec fn obeys_from_spec() -> bool {
        true
    }

    open spec fn from_spec(err: ByteReaderError) -> Self {
        WalError::ByteReaderError(err)
    }
}

/// The change that a record logs.
#[allow(non_camel_case_types)]
#[derive(Clone, Copy, Debug, PartialEq, Eq, Structural)]
pub enum OperationTypeEnum {
    INSERT,
    UPDATE,
    DELETE,
}

/// The byte that stands for each operation.
pub open spec fn op_code(op: OperationTypeEnum) -> u8 {
    match op {
        OperationTypeEnum::INSERT => 0,
        OperationTypeEnum::UPDATE => 1,
        OperationTypeEnum::DELETE => 2,
    }
}

impl OperationTypeEnum {
    /// The operation that a byte stands for.
    pub fn from_u8(val: u8) -> (r: Result<Self, WalError>)
        ensures
            match r {
                Ok(op) => val <= 2 && op_code(op) == val,
                Err(e) => val > 2 && e == WalError::InvalidOperationType(val),
            },
    {
        match val {
            0 => Ok(OperationTypeEnum::INSERT),
            1 => Ok(OperationTypeEnum::UPDATE),
            2 => Ok(OperationTypeEnum::DELETE),
            _ => Err(WalError::InvalidOperationType(val)),
        }
    }

    /// The byte that stands for the operation.
    pub fn to_u8(&self) -> (r: u8)
        ensures
            r == op_code(*self),
    {
        match self {
            OperationTypeEnum::INSERT => 0,
            OperationTypeEnum::UPDATE => 1,
            OperationTypeEnum::DELETE => 2,
        }
    }
}

/// One logged change: its term and index, the operation, and the key and
/// value it concerns.
pub struct WalRecord {
    pub term: u32,
    pub index: u32,
    pub op_type: OperationTypeEnum,
    pub key_val: KeyValue,
}

/// The model of a record: term, index, operation byte and entry.
pub type WalRecordView = (u32, u32, u8, Entry);

impl View for WalRecord {
    type V = WalRecordView;

    open spec fn view(&self) -> WalRecordView {
        (self.term, self.index, op_code(self.op_type), self.key_val@)
    }
}

/// The encoding of a record: the term and the index in four big-endian bytes
/// each, the operation byte, then the encoding of the entry.
pub open spec fn wal_record_bytes(r: WalRecordView) -> Seq<u8> {
    be_bytes(r.0 as nat, 4) + be_bytes(r.1 as nat, 4) + seq![r.2] + key_val_bytes(r.3)
}

/// The record that `data` starts with, or the error that decoding meets.
pub open spec fn decode_wal_record(data: Seq<u8>) -> Result<WalRecordView, WalError> {
    if data.len() < 9 {
        Err(WalError::ByteReaderError(ByteReaderError::InvalidData))
    } else if data[8] > 2 {
        Err(WalError::InvalidOperationType(data[8]))
    } else {
        match decode_key_val(data, 9).0 {
            Some(e) => Ok(
                (
                    be_value(data.subrange(0, 4)) as u32,
                    be_value(data.subrange(4, 8)) as u32,
                    data[8],
                    e,
                ),
            ),
            None => Err(WalError::ByteReaderError(ByteReaderError::InvalidData)),
        }
    }
}

/// `n` steps of the reflected CRC-32C register: each shifts the register
/// right by one bit and, where the bit shifted out was one, xors in the
/// reflected polynomial `0x82F63B78` (`0x1EDC6F41` reflected).
pub open spec fn crc32c_shift(c: u32, n: nat) -> u32
    decreases n,
{
    if n == 0 {
        c
    } else {
        crc32c_shift(
            if c & 1 == 1 {
                (c >> 1u32) ^ 0x82F6_3B78u32
            } else {
                c >> 1u32
            },
            (n - 1) as nat,
        )
    }
}

/// The CRC-32C register after the bytes, from the initial value
/// `0xFFFFFFFF`: each byte is xored into the low bits and eight steps
/// follow.
pub open spec fn crc32c_register(bytes: Seq<u8>) -> u32
    decreases bytes.len(),
{
    if bytes.len() == 0 {
        0xFFFF_FFFFu32
    } else {
        crc32c_shift(crc32c_register(bytes.drop_last()) ^ (bytes.last() as u32), 8)
    }
}

/// The CRC-32/ISCSI checksum (CRC-32C) of `bytes`: the final register
/// xored with `0xFFFFFFFF`.
pub open spec fn crc32_iscsi(bytes: Seq<u8>) -> u32 {
    crc32c_register(bytes) ^ 0xFFFF_FFFFu32
}

/// Calls `crc::Crc::<u32>::new(&crc::CRC_32_ISCSI).checksum(bytes)`: the
/// crate's CRC-32/ISCSI parameters (polynomial `0x1EDC6F41`, initial value
/// and final xor `0xFFFFFFFF`, input and output reflected) make it the
/// bitwise CRC that `crc32_iscsi` states.
#[verifier::external_body]
fn crc32_iscsi_checksum(bytes: &[u8]) -> (r: u32)
    ensures
        r == crc32_iscsi(bytes@),
{
    let crc = crc::Crc::<u32>::new(&crc::CRC_32_ISCSI);
    crc.checksum(bytes)
}

impl WalRecord {
    /// Encodes the record.
    pub fn to_bytes(&self) -> (r: Vec<u8>)
        ensures
            r@ == wal_record_bytes(self@),
    {
        let mut key_val_bytes = self.key_val.to_bytes();
        let mut bytes: Vec<u8> = Vec::with_capacity(9);
        push_be_u32(&mut bytes, self.term);
        push_be_u32(&mut bytes, self.index);
        bytes.push(self.op_type.to_u8());
        bytes.append(&mut key_val_bytes);
        assert(bytes@ =~= wal_record_bytes(self@));
        bytes
    }

    /// The CRC-32/ISCSI checksum of `bytes`.
    pub fn checksum(bytes: &[u8]) -> (r: u32)
        ensures
            r == crc32_iscsi(bytes@),
    {
        let checksum: u32 = crc32_iscsi_checksum(bytes);
        checksum
    }

    /// Decodes the record that `bytes` start with; bytes after it are ignored.
    pub fn from_bytes(bytes: &[u8]) -> (r: Result<Self, WalError>)
        ensures
            match r {
                Ok(rec) => decode_wal_record(bytes@) == Ok::<WalRecordView, WalError>(rec@),
                Err(e) => decode_wal_record(bytes@) == Err::<WalRecordView, WalError>(e),
            },
    {
        let mut breader = ByteReader::new(bytes);
        let term = match breader.read_u32() {
            Ok(v) => v,
            Err(e) => return Err(WalError::from(e)),
        };
        let index = match breader.read_u32() {
            Ok(v) => v,
            Err(e) => return Err(WalError::from(e)),
        };
        let op_byte = match breader.read_u8() {
            Ok(v) => v,
            Err(e) => return Err(WalError::from(e)),
        };
        let op_type = OperationTypeEnum::from_u8(op_byte)?;
        let key_val = match breader.read_key_val() {
            Ok(kv) => kv,
            Err(e) => return Err(WalError::from(e)),
        };
        Ok(WalRecord { term, index, op_type, key_val })
    }
}

/// Decoding the encoding of a record, whatever follows it, gives the record
/// back, an empty value coming back as no value.
pub proof fn lemma_wal_record_roundtrip(rec: WalRecord, rest: Seq<u8>)
    ensures
        decode_wal_record(wal_record_bytes(rec@) + rest) == Ok::<WalRecordView, WalError>(
            (rec.term, rec.index, op_code(rec.op_type), normalized(rec.key_val@)),
        ),
{
    let v = rec@;
    let head = be_bytes(v.0 as nat, 4) + be_bytes(v.1 as nat, 4) + seq![v.2];
    let data = wal_record_bytes(v) + rest;
    lemma_pow256_values();
    lemma_be_bytes_len(v.0 as nat, 4);
    lemma_be_bytes_len(v.1 as nat, 4);
    lemma_be_value_of_bytes(v.0 as nat, 4);
    lemma_be_value_of_bytes(v.1 as nat, 4);
    assert(data =~= head + key_val_bytes(v.3) + rest);
    assert(data.subrange(0, 4) =~= be_bytes(v.0 as nat, 4));
    assert(data.subrange(4, 8) =~= be_bytes(v.1 as nat, 4));
    assert(data[8] == v.2);
    lemma_key_val_roundtrip(rec.key_val, head, rest);
}

} // verus!
