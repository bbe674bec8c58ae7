use lsm_tree::bytes_reader::ByteReaderError;
use lsm_tree::mem_table::MemTable;
use lsm_tree::mem_table::btree_mem_table::BTreeMemTable;
use lsm_tree::sst::block_builder::{MAX_BLOCK_SIZE, SSTBlock};
use lsm_tree::sst::bloom_filter::BloomFilter;
use lsm_tree::sst::sst_builder::SSTBuilder;
use lsm_tree::types::KeyValue;

fn kv(key: &[u8], value: &[u8]) -> KeyValue {
    KeyValue { key: key.to_vec(), value: Some(value.to_vec()) }
}

#[test]
fn block_encoding_notes_restarts() {
    let mut block = SSTBlock::new();
    assert!(block.add(&kv(b"a", b"1")));
    assert!(block.add(&kv(b"b", b"2")));
    let bytes = block.to_binary();
    let record_len = 16 + 1 + 1;
    let mut expected = kv(b"a", b"1").to_bytes();
    expected.extend_from_slice(&kv(b"b", b"2").to_bytes());
    // one restart at offset zero, in four bytes, then the count
    expected.extend_from_slice(&[0, 0, 0, 0]);
    expected.extend_from_slice(&[0, 0, 0, 1]);
    assert_eq!(bytes.len(), 2 * record_len + 4 + 4);
    assert_eq!(bytes, expected);
}

#[test]
fn block_second_restart_after_sixteen_records() {
    let mut block = SSTBlock::new();
    for i in 0..17u8 {
        assert!(block.add(&kv(&[i], b"v")));
    }
    let bytes = block.to_binary();
    let n = bytes.len();
    assert_eq!(&bytes[n - 4..], &[0, 0, 0, 2]);
    // the second restart points at the seventeenth record
    assert_eq!(&bytes[n - 8..n - 4], &(16u32 * 18).to_be_bytes());
    assert_eq!(&bytes[n - 12..n - 8], &0u32.to_be_bytes());
    assert_eq!(n, 17 * 18 + 2 * 4 + 4);
}

#[test]
fn block_refuses_past_its_size() {
    // 4045 + 16 + 4 + 4 == 4069: the largest key a new block takes
    let mut b1 = SSTBlock::new();
    assert!(b1.add(&KeyValue { key: vec![0u8; 4045], value: None }));
    assert_eq!(b1.to_binary().len(), MAX_BLOCK_SIZE);
    let mut b2 = SSTBlock::new();
    assert!(!b2.add(&KeyValue { key: vec![0u8; 4046], value: None }));
    assert_eq!(b2.to_binary(), vec![0, 0, 0, 0]);
    assert!(b2.is_empty());
    let mut second = SSTBlock::new();
    let fits = vec![7u8; MAX_BLOCK_SIZE - 16 - 16 - 1 - 8];
    assert!(second.add(&kv(b"", b"")));
    assert!(second.add(&kv(b"k", &fits)));
    assert_eq!(second.to_binary().len(), MAX_BLOCK_SIZE);
    assert!(!second.add(&kv(b"", b"")));
}

#[test]
fn block_decoding() {
    let block = SSTBlock::new();
    assert!(SSTBlock::from_binary(&block.to_binary()).is_ok());
    let raw = [1u8, 2, 3, 0, 0, 0, 0];
    let decoded = SSTBlock::from_binary(&raw).ok().unwrap();
    assert_eq!(decoded.to_binary(), raw.to_vec());
    let mut with_restarts = SSTBlock::new();
    for i in 0..20u8 {
        assert!(with_restarts.add(&kv(&[i], b"value")));
    }
    let bytes = with_restarts.to_binary();
    let back = SSTBlock::from_binary(&bytes).ok().unwrap();
    assert_eq!(back.to_binary(), bytes);
}

#[test]
fn bloom_filter_sets_bits_and_encodes() {
    let mut filter = BloomFilter::with_sizes(1, 3);
    assert!(!filter.is_present(b"key"));
    assert_eq!(filter.to_bytes(), vec![0, 0, 0, 0, 0, 0, 0, 3, 0, 0, 0, 0, 0, 0, 0, 1, 0]);
    filter.add(b"key");
    assert!(filter.is_present(b"key"));
    assert!(filter.is_present(b"other"));
    let bytes = filter.to_bytes();
    assert_eq!(bytes, vec![0, 0, 0, 0, 0, 0, 0, 3, 0, 0, 0, 0, 0, 0, 0, 1, 1]);
    let back = BloomFilter::from_bytes(&bytes).ok().unwrap();
    assert_eq!(back.to_bytes(), bytes);
}

#[test]
fn bloom_filter_without_probes() {
    let mut filter = BloomFilter::with_sizes(0, 0);
    filter.add(b"anything");
    assert!(filter.is_present(b"anything"));
    assert_eq!(filter.to_bytes(), vec![0u8; 16]);
}

#[test]
fn bloom_filter_probe_position_is_xxh64() {
    let key = b"probe me";
    let position = (xxhash_rust::xxh64::xxh64(key, 0) % 64) as usize;
    let mut filter = BloomFilter::with_sizes(64, 1);
    assert!(!filter.is_present(key));
    filter.add(key);
    assert!(filter.is_present(key));
    let bytes = filter.to_bytes();
    let mut expected = vec![0, 0, 0, 0, 0, 0, 0, 1, 0, 0, 0, 0, 0, 0, 0, 64];
    let mut bits = vec![0u8; 64];
    bits[position] = 1;
    expected.extend_from_slice(&bits);
    assert_eq!(bytes, expected);
}

#[test]
fn bloom_filter_double_hashing_probes() {
    let key = b"two probes";
    let h1 = xxhash_rust::xxh64::xxh64(key, 0);
    let h2 = xxhash_rust::xxh64::xxh64(key, 10);
    let mut filter = BloomFilter::with_sizes(1000, 2);
    filter.add(key);
    let bytes = filter.to_bytes();
    let mut bits = vec![0u8; 1000];
    bits[(h1 % 1000) as usize] = 1;
    bits[(h1.wrapping_add(h2) % 1000) as usize] = 1;
    assert_eq!(&bytes[16..], &bits[..]);
    assert!(filter.is_present(key));
}

#[test]
fn bloom_filter_keeps_added_keys_present() {
    let mut filter = BloomFilter::with_sizes(100, 3);
    let keys: Vec<Vec<u8>> = (0..30u8).map(|i| vec![i, i + 1]).collect();
    for key in &keys {
        filter.add(key);
    }
    for key in &keys {
        assert!(filter.is_present(key));
    }
}

#[test]
fn bloom_filter_decoding_errors() {
    assert_eq!(BloomFilter::from_bytes(&[0u8; 15]).err(), Some(ByteReaderError::InvalidData));
    let bad = [0u8, 0, 0, 0, 0, 0, 0, 1, 0, 0, 0, 0, 0, 0, 0, 0];
    assert_eq!(BloomFilter::from_bytes(&bad).err(), Some(ByteReaderError::InvalidData));
    // a size of two bits with three bytes after it
    let short = [0u8, 0, 0, 0, 0, 0, 0, 1, 0, 0, 0, 0, 0, 0, 0, 2, 0, 0, 0];
    assert_eq!(BloomFilter::from_bytes(&short).err(), Some(ByteReaderError::InvalidData));
}

#[test]
fn table_from_mem_table_layout() {
    let mut table = BTreeMemTable::new();
    table.put(b"b".to_vec(), b"2".to_vec());
    table.put(b"a".to_vec(), b"1".to_vec());
    let sst = SSTBuilder::new_from_mem_table(&table, BloomFilter::with_sizes(0, 0));
    let bytes = sst.to_bytes();
    let mut block = SSTBlock::new();
    block.add(&kv(b"a", b"1"));
    block.add(&kv(b"b", b"2"));
    let mut expected = block.to_binary();
    let data_len = expected.len();
    expected.extend_from_slice(&(data_len as u64).to_be_bytes());
    expected.extend_from_slice(&[0u8; 16]);
    expected.extend_from_slice(&(data_len as u64).to_be_bytes());
    expected.extend_from_slice(&((data_len + 8) as u64).to_be_bytes());
    expected.extend_from_slice(&((data_len + 8) as u64).to_be_bytes());
    expected.extend_from_slice(&((data_len + 24) as u64).to_be_bytes());
    assert_eq!(bytes, expected);
}

#[test]
fn table_splits_blocks() {
    let mut table = BTreeMemTable::new();
    for i in 0..20u8 {
        table.put(vec![i], vec![b'x'; 300]);
    }
    let sst = SSTBuilder::try_new_from_mem_table(&table, BloomFilter::with_sizes(0, 0)).unwrap();
    let bytes = sst.to_bytes();
    let n = bytes.len();
    let index_start = u64::from_be_bytes(bytes[n - 32..n - 24].try_into().unwrap()) as usize;
    let index_end = u64::from_be_bytes(bytes[n - 24..n - 16].try_into().unwrap()) as usize;
    // a record is 317 bytes: a block takes twelve of them
    assert_eq!((index_end - index_start) / 8, 2);
}

#[test]
fn table_filter_holds_every_key() {
    let mut table = BTreeMemTable::new();
    for i in 0..10u8 {
        table.put(vec![b'k', i], b"v".to_vec());
    }
    let sst = SSTBuilder::try_new_from_mem_table(&table, BloomFilter::with_sizes(64, 3)).unwrap();
    let bytes = sst.to_bytes();
    let n = bytes.len();
    let bloom_start = u64::from_be_bytes(bytes[n - 16..n - 8].try_into().unwrap()) as usize;
    let bloom_end = u64::from_be_bytes(bytes[n - 8..n].try_into().unwrap()) as usize;
    let filter = BloomFilter::from_bytes(&bytes[bloom_start..bloom_end]).ok().unwrap();
    for i in 0..10u8 {
        assert!(filter.is_present(&[b'k', i]));
    }
}

#[test]
fn table_decoding() {
    // one block of three record bytes and no restarts
    let mut bytes = vec![1u8, 2, 3, 0, 0, 0, 0];
    // the index: the block ends at 7
    bytes.extend_from_slice(&7u64.to_be_bytes());
    // a filter with no probes and no bytes
    bytes.extend_from_slice(&[0u8; 16]);
    // index start and end, filter start and end
    bytes.extend_from_slice(&7u64.to_be_bytes());
    bytes.extend_from_slice(&15u64.to_be_bytes());
    bytes.extend_from_slice(&15u64.to_be_bytes());
    bytes.extend_from_slice(&31u64.to_be_bytes());
    let sst = SSTBuilder::from_bytes(&bytes).ok().unwrap();
    assert_eq!(sst.to_bytes(), bytes);
    assert_eq!(SSTBuilder::from_bytes(&bytes[..31]).err(), Some(ByteReaderError::InvalidData));
}

#[test]
fn table_decoding_refuses_reversed_filter_positions() {
    let mut bytes = vec![0u8, 0, 0, 0];
    bytes.extend_from_slice(&4u64.to_be_bytes());
    bytes.extend_from_slice(&[0u8; 16]);
    bytes.extend_from_slice(&4u64.to_be_bytes());
    bytes.extend_from_slice(&12u64.to_be_bytes());
    bytes.extend_from_slice(&28u64.to_be_bytes());
    bytes.extend_from_slice(&12u64.to_be_bytes());
    assert_eq!(SSTBuilder::from_bytes(&bytes).err(), Some(ByteReaderError::InvalidData));
}

#[test]
fn table_file_reads_back() {
    let mut table = BTreeMemTable::new();
    for i in 0..40u8 {
        table.put(vec![i], vec![b'x'; 200]);
    }
    let sst = SSTBuilder::try_new_from_mem_table(&table, BloomFilter::with_sizes(0, 0)).unwrap();
    let bytes = sst.to_bytes();
    let back = SSTBuilder::from_bytes(&bytes).ok().unwrap();
    assert_eq!(back.to_bytes(), bytes);
}

#[test]
fn table_keeps_records_larger_than_a_block() {
    let mut table = BTreeMemTable::new();
    table.put(b"a".to_vec(), b"1".to_vec());
    table.put(b"b".to_vec(), vec![b'x'; 5000]);
    table.put(b"c".to_vec(), b"3".to_vec());
    let sst = SSTBuilder::try_new_from_mem_table(&table, BloomFilter::with_sizes(0, 0)).unwrap();
    let bytes = sst.to_bytes();
    let n = bytes.len();
    let index_start = u64::from_be_bytes(bytes[n - 32..n - 24].try_into().unwrap()) as usize;
    let index_end = u64::from_be_bytes(bytes[n - 24..n - 16].try_into().unwrap()) as usize;
    // the large record takes a block of its own
    assert_eq!((index_end - index_start) / 8, 3);
    let mut expected = Vec::new();
    let mut first = SSTBlock::new();
    assert!(first.add(&kv(b"a", b"1")));
    expected.extend_from_slice(&first.to_binary());
    let big = kv(b"b", &vec![b'x'; 5000]);
    assert!(!SSTBlock::new().add(&big));
    expected.extend_from_slice(&SSTBlock::from_record(&big).to_binary());
    let mut last = SSTBlock::new();
    assert!(last.add(&kv(b"c", b"3")));
    expected.extend_from_slice(&last.to_binary());
    assert_eq!(&bytes[..index_start], &expected[..]);
}

#[test]
fn block_restarts_mark_every_sixteenth_record() {
    let mut block = SSTBlock::new();
    let mut starts = Vec::new();
    let mut len = 0u32;
    for i in 0..40u8 {
        let record = kv(&vec![i; (i % 5) as usize], b"v");
        if i % 16 == 0 {
            starts.push(len);
        }
        len += record.to_bytes().len() as u32;
        assert!(block.add(&record));
    }
    let bytes = block.to_binary();
    let n = bytes.len();
    assert_eq!(&bytes[n - 4..], &3u32.to_be_bytes());
    let mut offsets = Vec::new();
    for start in &starts {
        offsets.extend_from_slice(&start.to_be_bytes());
    }
    assert_eq!(&bytes[n - 16..n - 4], &offsets[..]);
    assert_eq!(n, len as usize + 3 * 4 + 4);
}

#[test]
fn table_oversized_first_record_opens_no_empty_block() {
    let mut table = BTreeMemTable::new();
    table.put(b"a".to_vec(), vec![b'x'; 5000]);
    table.put(b"b".to_vec(), b"2".to_vec());
    let sst = SSTBuilder::try_new_from_mem_table(&table, BloomFilter::with_sizes(0, 0)).unwrap();
    let bytes = sst.to_bytes();
    let n = bytes.len();
    let index_start = u64::from_be_bytes(bytes[n - 32..n - 24].try_into().unwrap()) as usize;
    let index_end = u64::from_be_bytes(bytes[n - 24..n - 16].try_into().unwrap()) as usize;
    assert_eq!((index_end - index_start) / 8, 2);
    let mut expected = SSTBlock::from_record(&kv(b"a", &vec![b'x'; 5000])).to_binary();
    let mut second = SSTBlock::new();
    assert!(second.add(&kv(b"b", b"2")));
    expected.extend_from_slice(&second.to_binary());
    assert_eq!(&bytes[..index_start], &expected[..]);
    let back = SSTBuilder::from_bytes(&bytes).ok().unwrap();
    assert_eq!(back.to_bytes(), bytes);
}

#[test]
fn checked_decoders_refuse_short_restart_tables() {
    // a count of five restarts with no room for them
    let block = [0u8, 0, 0, 5];
    assert!(!SSTBlock::is_decodable(&block));
    assert_eq!(SSTBlock::try_from_binary(&block).err(), Some(ByteReaderError::InvalidData));
    assert_eq!(SSTBlock::try_from_binary(&[0u8, 0, 1]).err(), Some(ByteReaderError::InvalidData));
    let good = [9u8, 0, 0, 0, 0];
    assert!(SSTBlock::is_decodable(&good));
    assert_eq!(SSTBlock::try_from_binary(&good).ok().unwrap().to_binary(), good.to_vec());
    let mut bytes = block.to_vec();
    bytes.extend_from_slice(&4u64.to_be_bytes());
    bytes.extend_from_slice(&[0u8; 16]);
    bytes.extend_from_slice(&4u64.to_be_bytes());
    bytes.extend_from_slice(&12u64.to_be_bytes());
    bytes.extend_from_slice(&12u64.to_be_bytes());
    bytes.extend_from_slice(&28u64.to_be_bytes());
    assert_eq!(SSTBuilder::try_from_bytes(&bytes).err(), Some(ByteReaderError::InvalidData));
}

#[test]
fn checked_table_decoder_reads_written_tables() {
    let mut table = BTreeMemTable::new();
    table.put(b"k".to_vec(), b"v".to_vec());
    let sst = SSTBuilder::try_new_from_mem_table(&table, BloomFilter::with_sizes(8, 2)).unwrap();
    let bytes = sst.to_bytes();
    let back = SSTBuilder::try_from_bytes(&bytes).ok().unwrap();
    assert_eq!(back.to_bytes(), bytes);
}
