use lsm_tree::mem_table::btree_mem_table::BTreeMemTable;
use lsm_tree::storage::StorageState;
use lsm_tree::wal::wal_record::OperationTypeEnum;

#[test]
fn storage_numbers_records() {
    let mut state = StorageState::new(BTreeMemTable::new());
    let first = state.put_record(b"Rahul", b"Ahir");
    assert_eq!(first.index, 0);
    assert_eq!(first.term, 0);
    assert_eq!(first.op_type, OperationTypeEnum::INSERT);
    assert_eq!(first.key_val.value, Some(b"Ahir".to_vec()));
    assert_eq!(state.get(b"Rahul"), None);
    state.apply_put(b"Rahul".to_vec(), b"Ahir".to_vec());
    assert_eq!(state.get(b"Rahul"), Some("Ahir".to_string()));
    let second = state.delete_record(b"Rahul");
    assert_eq!(second.index, 1);
    assert_eq!(second.op_type, OperationTypeEnum::DELETE);
    assert_eq!(second.key_val.value, None);
    assert_eq!(state.get(b"Rahul"), Some("Ahir".to_string()));
    state.apply_delete(b"Rahul");
    assert_eq!(state.get(b"Rahul"), None);
}
