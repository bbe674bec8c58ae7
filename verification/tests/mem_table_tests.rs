use lsm_tree::mem_table::MemTable;
use lsm_tree::mem_table::btree_mem_table::BTreeMemTable;
use lsm_tree::mem_table::skip_list_mem_table::SkipListMemTable;

fn exercise<M: MemTable>(table: &mut M) {
    table.put(b"banana".to_vec(), b"yellow".to_vec());
    table.put(b"apple".to_vec(), b"red".to_vec());
    table.put(b"cherry".to_vec(), b"dark".to_vec());
    table.put(b"apple".to_vec(), b"green".to_vec());
    assert_eq!(table.get(b"apple"), Some("green".to_string()));
    assert_eq!(table.get(b"banana"), Some("yellow".to_string()));
    assert_eq!(table.get(b"durian"), None);
    assert_eq!(table.size(), 3);
    table.put(b"bad".to_vec(), vec![0xff, 0xfe]);
    assert_eq!(table.get(b"bad"), None);
}

#[test]
fn btree_put_get_delete() {
    let mut table = BTreeMemTable::new();
    exercise(&mut table);
    table.delete(b"banana");
    table.delete(b"nothing");
    assert_eq!(table.get(b"banana"), None);
    assert_eq!(table.size(), 3);
    let all = table.get_all_keys();
    let keys: Vec<Vec<u8>> = all.iter().map(|(k, _)| k.clone()).collect();
    assert_eq!(keys, vec![b"apple".to_vec(), b"bad".to_vec(), b"cherry".to_vec()]);
    assert_eq!(all[0].1, Some(b"green".to_vec()));
}

#[test]
fn skip_list_put_get_delete() {
    let mut table = SkipListMemTable::new();
    exercise(&mut table);
    assert_eq!(table.get_bytes_size(), 5 + 5 + 6 + 6 + 6 + 4 + 3 + 2);
    table.delete(b"banana");
    table.delete(b"nothing");
    assert_eq!(table.get(b"banana"), None);
    // a deleted key keeps its node
    assert_eq!(table.size(), 4);
    assert_eq!(table.get_bytes_size(), 5 + 5 + 6 + 6 + 4 + 3 + 2);
    let all = table.get_all_keys();
    let keys: Vec<Vec<u8>> = all.iter().map(|(k, _)| k.clone()).collect();
    assert_eq!(
        keys,
        vec![b"apple".to_vec(), b"bad".to_vec(), b"banana".to_vec(), b"cherry".to_vec()]
    );
    assert_eq!(all[2].1, None);
    table.put(b"banana".to_vec(), b"back".to_vec());
    assert_eq!(table.get(b"banana"), Some("back".to_string()));
    assert_eq!(table.size(), 4);
}

#[test]
fn skip_list_many_keys_in_order() {
    let mut table = SkipListMemTable::new();
    let mut expected = Vec::new();
    for i in 0..500u32 {
        let n = (i * 7919) % 500;
        let key = format!("key{:05}", n).into_bytes();
        table.put(key.clone(), format!("v{}", n).into_bytes());
        expected.push(key);
    }
    expected.sort();
    let keys: Vec<Vec<u8>> = table.get_all_keys().into_iter().map(|(k, _)| k).collect();
    assert_eq!(keys, expected);
    assert_eq!(table.size(), 500);
    for n in 0..500u32 {
        let key = format!("key{:05}", n).into_bytes();
        assert_eq!(table.get(&key), Some(format!("v{}", n)));
    }
    assert_eq!(table.get(b"key"), None);
    assert_eq!(table.get(b"key00499x"), None);
}

#[test]
fn btree_many_keys_in_order() {
    let mut table = BTreeMemTable::new();
    for i in 0..300u32 {
        let n = (i * 37) % 300;
        table.put(format!("{}", n).into_bytes(), format!("{}", n * 2).into_bytes());
    }
    assert_eq!(table.size(), 300);
    let all = table.get_all_keys();
    for w in all.windows(2) {
        assert!(w[0].0 < w[1].0);
    }
    assert_eq!(table.get(b"299"), Some("598".to_string()));
    for n in 0..300u32 {
        table.delete(format!("{}", n).as_bytes());
    }
    assert_eq!(table.size(), 0);
}

#[test]
fn keys_order_as_byte_strings() {
    let mut table = BTreeMemTable::new();
    table.put(b"ab".to_vec(), b"2".to_vec());
    table.put(b"a".to_vec(), b"1".to_vec());
    table.put(b"".to_vec(), b"0".to_vec());
    table.put(b"b".to_vec(), b"3".to_vec());
    let keys: Vec<Vec<u8>> = table.get_all_keys().into_iter().map(|(k, _)| k).collect();
    assert_eq!(keys, vec![b"".to_vec(), b"a".to_vec(), b"ab".to_vec(), b"b".to_vec()]);
}

fn listing<M: MemTable>(table: &M) -> Vec<(Vec<u8>, Option<Vec<u8>>)> {
    table.get_all_keys()
}

fn check_listing_after_put<M: MemTable>(table: &mut M) {
    table.put(b"b".to_vec(), b"2".to_vec());
    table.put(b"d".to_vec(), b"4".to_vec());
    let before = listing(table);
    // a new key goes in at its sorted place
    table.put(b"c".to_vec(), b"3".to_vec());
    let mut expected = before.clone();
    expected.insert(1, (b"c".to_vec(), Some(b"3".to_vec())));
    assert_eq!(listing(table), expected);
    assert_eq!(table.size(), 3);
    // a listed key has its pair replaced
    table.put(b"b".to_vec(), b"two".to_vec());
    expected[0] = (b"b".to_vec(), Some(b"two".to_vec()));
    assert_eq!(listing(table), expected);
    assert_eq!(table.size(), 3);
}

#[test]
fn btree_listing_after_put_and_delete() {
    let mut table = BTreeMemTable::new();
    check_listing_after_put(&mut table);
    let before = listing(&table);
    table.delete(b"c");
    let mut expected = before.clone();
    expected.remove(1);
    assert_eq!(listing(&table), expected);
    // deleting an absent key changes nothing
    table.delete(b"zzz");
    assert_eq!(listing(&table), expected);
    assert_eq!(table.size(), 2);
}

#[test]
fn skip_list_listing_after_put_and_delete() {
    let mut table = SkipListMemTable::new();
    check_listing_after_put(&mut table);
    let before = listing(&table);
    let bytes = table.get_bytes_size();
    table.delete(b"c");
    let mut expected = before.clone();
    // the pair becomes a tombstone
    expected[1] = (b"c".to_vec(), None);
    assert_eq!(listing(&table), expected);
    assert_eq!(table.size(), 3);
    assert_eq!(table.get_bytes_size(), bytes - 1);
    table.delete(b"zzz");
    assert_eq!(listing(&table), expected);
}

fn check_reads_after_writes<M: MemTable>(table: &mut M) {
    table.put(b"x".to_vec(), b"1".to_vec());
    table.put(b"y".to_vec(), b"2".to_vec());
    table.delete(b"x");
    table.put(b"y".to_vec(), b"3".to_vec());
    table.put(b"z".to_vec(), b"4".to_vec());
    table.delete(b"z");
    table.put(b"z".to_vec(), b"5".to_vec());
    assert_eq!(table.get(b"x"), None);
    assert_eq!(table.get(b"y"), Some("3".to_string()));
    assert_eq!(table.get(b"z"), Some("5".to_string()));
    assert_eq!(table.get(b"w"), None);
}

#[test]
fn reads_follow_the_last_write() {
    check_reads_after_writes(&mut BTreeMemTable::new());
    check_reads_after_writes(&mut SkipListMemTable::new());
}
