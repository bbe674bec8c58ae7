use lsm_tree::file_names::data_file_name_bytes;
use lsm_tree::types::KeyValue;
use lsm_tree::wal::bytes_reader::{ByteReader as WalByteReader, ByteReaderError as WalByteReaderError};
use lsm_tree::wal::wal_file::WalFileHeader;
use lsm_tree::wal::wal_manager::{FIRST_SEQ_NO, file_to_create, latest_file_position, start_file};
use lsm_tree::wal::wal_record::{OperationTypeEnum, WalError, WalRecord};
use lsm_tree::bytes_reader::ByteReaderError;

#[test]
fn test_create() {
    let header = WalFileHeader { seq_no: 1 };
    assert_eq!(header.to_bytes(), vec![0, 0, 0, 1]);
}

#[test]
fn wal_header_bytes_round_trip() {
    let header = WalFileHeader { seq_no: 0x0102_0304 };
    let bytes = header.to_bytes();
    assert_eq!(bytes, vec![1, 2, 3, 4]);
    assert_eq!(WalFileHeader::from_bytes(&bytes).seq_no, 0x0102_0304);
}

fn record(op: OperationTypeEnum, key: &[u8], value: Option<&[u8]>) -> WalRecord {
    WalRecord {
        term: 7,
        index: 258,
        op_type: op,
        key_val: KeyValue { key: key.to_vec(), value: value.map(|v| v.to_vec()) },
    }
}

#[test]
fn wal_record_encoding_layout() {
    let rec = record(OperationTypeEnum::UPDATE, b"k", Some(b"vv"));
    let bytes = rec.to_bytes();
    let mut expected = vec![0, 0, 0, 7, 0, 0, 1, 2, 1];
    expected.extend_from_slice(&[0, 0, 0, 0, 0, 0, 0, 1, b'k']);
    expected.extend_from_slice(&[0, 0, 0, 0, 0, 0, 0, 2, b'v', b'v']);
    assert_eq!(bytes, expected);
}

#[test]
fn wal_record_round_trip() {
    for op in [OperationTypeEnum::INSERT, OperationTypeEnum::UPDATE, OperationTypeEnum::DELETE] {
        let rec = record(op, b"Rahul", Some(b"Ahir"));
        let mut bytes = rec.to_bytes();
        bytes.extend_from_slice(&[9, 9, 9]);
        let back = WalRecord::from_bytes(&bytes).ok().unwrap();
        assert_eq!(back.term, 7);
        assert_eq!(back.index, 258);
        assert_eq!(back.op_type, op);
        assert_eq!(back.key_val.key, b"Rahul".to_vec());
        assert_eq!(back.key_val.value, Some(b"Ahir".to_vec()));
    }
}

#[test]
fn wal_record_deleted_value_round_trip() {
    let rec = record(OperationTypeEnum::DELETE, b"gone", None);
    let back = WalRecord::from_bytes(&rec.to_bytes()).ok().unwrap();
    assert_eq!(back.key_val.value, None);
    let empty = record(OperationTypeEnum::INSERT, b"e", Some(b""));
    let back = WalRecord::from_bytes(&empty.to_bytes()).ok().unwrap();
    assert_eq!(back.key_val.value, None);
}

#[test]
fn wal_record_invalid_operation() {
    let mut bytes = record(OperationTypeEnum::INSERT, b"k", Some(b"v")).to_bytes();
    bytes[8] = 3;
    match WalRecord::from_bytes(&bytes) {
        Err(WalError::InvalidOperationType(3)) => {}
        _ => panic!("expected an invalid operation"),
    }
}

#[test]
fn wal_record_cut_short() {
    let bytes = record(OperationTypeEnum::INSERT, b"key", Some(b"value")).to_bytes();
    for cut in [0, 5, 8, 9, 16, bytes.len() - 1] {
        match WalRecord::from_bytes(&bytes[..cut]) {
            Err(WalError::ByteReaderError(ByteReaderError::InvalidData)) => {}
            _ => panic!("expected invalid data at {}", cut),
        }
    }
}

#[test]
fn wal_operation_codes() {
    assert_eq!(OperationTypeEnum::INSERT.to_u8(), 0);
    assert_eq!(OperationTypeEnum::UPDATE.to_u8(), 1);
    assert_eq!(OperationTypeEnum::DELETE.to_u8(), 2);
    assert_eq!(OperationTypeEnum::from_u8(2).ok(), Some(OperationTypeEnum::DELETE));
    assert!(OperationTypeEnum::from_u8(200).is_err());
}

#[test]
fn wal_checksum_is_crc32c() {
    assert_eq!(WalRecord::checksum(b"123456789"), 0xE306_9283);
    assert_eq!(WalRecord::checksum(b""), 0);
}

#[test]
fn wal_latest_file_is_first_greatest() {
    assert_eq!(latest_file_position(&[]), None);
    assert_eq!(latest_file_position(&[3, 9, 2, 9]), Some(1));
    assert_eq!(latest_file_position(&[5]), Some(0));
}

#[test]
fn wal_byte_reader_reads() {
    let bytes = [0u8, 0, 0, 5, 7, 0, 0, 0, 0, 0, 0, 1, 0, b'h', b'i', 0xff];
    let mut reader = WalByteReader::new(&bytes);
    assert_eq!(reader.read_u32().ok(), Some(5));
    assert_eq!(reader.read_u8().ok(), Some(7));
    assert_eq!(reader.read_usize().ok(), Some(256));
    assert_eq!(reader.read_str(2).ok(), Some("hi".to_string()));
    assert_eq!(reader.read_str(1).err(), Some(WalByteReaderError::InvalidUtf8));
    assert_eq!(reader.read_u8().err(), Some(WalByteReaderError::InvalidData));
}

#[test]
fn data_file_names() {
    assert_eq!(data_file_name_bytes(1, b"wal"), b"1_data.wal".to_vec());
    assert_eq!(data_file_name_bytes(0, b"sst"), b"0_data.sst".to_vec());
    assert_eq!(data_file_name_bytes(4294967295, b"wal"), b"4294967295_data.wal".to_vec());
}

#[test]
fn wal_start_and_next_files() {
    assert_eq!(start_file(Some(7)), (7, false));
    assert_eq!(start_file(None), (FIRST_SEQ_NO, true));
    assert_eq!(FIRST_SEQ_NO, 1);
    assert_eq!(file_to_create(true, 4), None);
    assert_eq!(file_to_create(false, 4), Some(5));
}
