use lsm_tree::bytes_reader::{ByteReader, ByteReaderError, FooterByteReader};
use lsm_tree::types::KeyValue;

#[test]
fn reader_reads_big_endian_numbers() {
    let bytes = [1u8, 2, 3, 4, 9, 0, 0, 0, 0, 0, 0, 0x12, 0x34];
    let mut reader = ByteReader::new(&bytes);
    assert!(!reader.is_finished());
    assert_eq!(reader.read_u32().ok(), Some(0x0102_0304));
    assert_eq!(reader.read_u8().ok(), Some(9));
    assert_eq!(reader.read_usize().ok(), Some(0x1234));
    assert!(reader.is_finished());
    assert_eq!(reader.read_u8().err(), Some(ByteReaderError::InvalidData));
}

#[test]
fn reader_u64_takes_eight_bytes() {
    let bytes = [0u8, 0, 0, 0, 0, 0, 1, 2, 9];
    let mut reader = ByteReader::new(&bytes);
    assert_eq!(reader.read_u64().ok(), Some(0x0102));
    // one byte remains: too few for another
    assert_eq!(reader.read_u64().err(), Some(ByteReaderError::InvalidData));
    assert_eq!(reader.read_u8().ok(), Some(9));
    assert!(reader.is_finished());
    assert_eq!(reader.read_u64().err(), Some(ByteReaderError::InvalidData));
}

#[test]
fn reader_failed_read_keeps_position() {
    let bytes = [1u8, 2, 3];
    let mut reader = ByteReader::new(&bytes);
    assert_eq!(reader.read_u32().err(), Some(ByteReaderError::InvalidData));
    assert_eq!(reader.read_bytes_vec(4).err(), Some(ByteReaderError::InvalidData));
    assert_eq!(reader.read_bytes_vec(3).ok(), Some(vec![1, 2, 3]));
    assert!(reader.is_finished());
}

#[test]
fn reader_strings() {
    let bytes = "héllo".as_bytes().to_vec();
    let mut reader = ByteReader::new(&bytes);
    assert_eq!(reader.read_str(bytes.len()).ok(), Some("héllo".to_string()));
    let bad = [0xc3u8, 0x28];
    let mut reader = ByteReader::new(&bad);
    assert_eq!(reader.read_str(2).err(), Some(ByteReaderError::InvalidUtf8));
    assert!(reader.is_finished());
    let mut reader = ByteReader::new(&bad);
    assert_eq!(reader.read_str(3).err(), Some(ByteReaderError::InvalidData));
}

#[test]
fn footer_reader_reads_backward() {
    let bytes = [0xaau8, 0, 0, 0, 0, 0, 0, 0, 2, 0, 0, 0, 1];
    let mut reader = FooterByteReader::new(&bytes);
    assert_eq!(reader.read_u32().ok(), Some(1));
    assert_eq!(reader.read_usize().ok(), Some(2));
    assert_eq!(reader.read_usize().err(), Some(ByteReaderError::InvalidData));
    assert_eq!(reader.read_bytes_vec(1).ok(), Some(vec![0xaa]));
    assert_eq!(reader.read_u32().err(), Some(ByteReaderError::InvalidData));
}

#[test]
fn key_value_encoding_layout() {
    let kv = KeyValue { key: b"ab".to_vec(), value: Some(b"xyz".to_vec()) };
    assert_eq!(
        kv.to_bytes(),
        vec![0, 0, 0, 0, 0, 0, 0, 2, b'a', b'b', 0, 0, 0, 0, 0, 0, 0, 3, b'x', b'y', b'z']
    );
    let none = KeyValue { key: b"a".to_vec(), value: None };
    assert_eq!(none.to_bytes(), vec![0, 0, 0, 0, 0, 0, 0, 1, b'a', 0, 0, 0, 0, 0, 0, 0, 0]);
}

#[test]
fn key_value_round_trip() {
    let kv = KeyValue { key: b"key".to_vec(), value: Some(b"value".to_vec()) };
    let mut bytes = kv.to_bytes();
    bytes.push(42);
    let back = KeyValue::from_bytes(&bytes).ok().unwrap();
    assert_eq!(back.key, b"key".to_vec());
    assert_eq!(back.value, Some(b"value".to_vec()));
    let empty = KeyValue { key: Vec::new(), value: Some(Vec::new()) };
    let back = KeyValue::from_bytes(&empty.to_bytes()).ok().unwrap();
    assert_eq!(back.key, Vec::<u8>::new());
    assert_eq!(back.value, None);
}

#[test]
fn key_value_cut_short() {
    let kv = KeyValue { key: b"key".to_vec(), value: Some(b"value".to_vec()) };
    let bytes = kv.to_bytes();
    for cut in [0, 7, 8, 10, 11, 18, bytes.len() - 1] {
        assert_eq!(KeyValue::from_bytes(&bytes[..cut]).err(), Some(ByteReaderError::InvalidData));
    }
}

#[test]
fn reader_key_value_position() {
    let a = KeyValue { key: b"a".to_vec(), value: Some(b"1".to_vec()) };
    let b = KeyValue { key: b"bb".to_vec(), value: None };
    let mut bytes = a.to_bytes();
    bytes.extend_from_slice(&b.to_bytes());
    let mut reader = ByteReader::new(&bytes);
    let first = reader.read_key_val().ok().unwrap();
    let second = reader.read_key_val().ok().unwrap();
    assert_eq!(first.key, b"a".to_vec());
    assert_eq!(second.key, b"bb".to_vec());
    assert_eq!(second.value, None);
    assert!(reader.is_finished());
}
