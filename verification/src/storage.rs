//! The storage engine's own state: the term and the next log index, and the
//! memory table that each logged change is applied to.
use vstd::prelude::*;
use crate::mem_table::{MemTable, stored_text};
use crate::types::KeyValue;
use crate::wal::wal_record::{OperationTypeEnum, WalRecord, op_code};

verus! {

/// Where the engine keeps its files.
pub struct StorageOptions {
    pub wal_file_path: String,
}

/// The term, the index of the next log record, and the memory table.
pub struct StorageState<M: MemTable> {
    term: u32,
    index: u32,
    mem_table: M,
}

/// Copies a byte slice into a vector.
fn bytes_to_vec(bytes: &[u8]) -> (r: Vec<u8>)
    ensures
        r@ == bytes@,
{
    vstd::slice::slice_to_vec(bytes)
}

impl<M: MemTable> StorageState<M> {
    /// The term of the records.
    pub closed spec fn term(&self) -> u32 {
        self.term
    }

    /// The index that the next record gets.
    pub closed spec fn next_index(&self) -> u32 {
        self.index
    }

    /// The memory table.
    pub closed spec fn table(&self) -> M {
        self.mem_table
    }

    /// The index that the next record gets.
    pub fn current_index(&self) -> (r: u32)
        ensures
            r == self.next_index(),
    {
        self.index
    }

    /// The memory table.
    pub fn mem_table(&self) -> (r: &M)
        ensures
            *r == self.table(),
    {
        &self.mem_table
    }

    /// Starts at term zero and index zero over `mem_table`.
    pub fn new(mem_table: M) -> (r: Self)
        ensures
            r.term() == 0,
            r.next_index() == 0,
            r.table() == mem_table,
    {
        StorageState { term: 0, index: 0, mem_table }
    }

    /// The record that logs a put of `value` under `key`; it takes the next
    /// index.
    pub fn put_record(&mut self, key: &[u8], value: &[u8]) -> (r: WalRecord)
        requires
            old(self).next_index() < u32::MAX,
        ensures
            r@ == (old(self).term(), old(self).next_index(), op_code(OperationTypeEnum::INSERT), (
                key@,
                Some(value@),
            )),
            final(self).next_index() == old(self).next_index() + 1,
            final(self).term() == old(self).term(),
            final(self).table() == old(self).table(),
    {
        let current_index = self.index;
        self.index = self.index + 1;
        WalRecord {
            term: self.term,
            index: current_index,
            op_type: OperationTypeEnum::INSERT,
            key_val: KeyValue { key: bytes_to_vec(key), value: Some(bytes_to_vec(value)) },
        }
    }

    /// Applies a logged put to the memory table.
    pub fn apply_put(&mut self, key: Vec<u8>, value: Vec<u8>)
        requires
            old(self).table().inv(),
            old(self).table().can_put(key@, value@),
        ensures
            final(self).table().inv(),
            final(self).table().entries() == old(self).table().entries().insert(key@, Some(value@)),
            final(self).next_index() == old(self).next_index(),
            final(self).term() == old(self).term(),
    {
        self.mem_table.put(key, value);
    }

    /// The text stored under `key`.
    pub fn get(&self, key: &[u8]) -> (r: Option<String>)
        requires
            self.table().inv(),
        ensures
            match r {
                Some(s) => stored_text(self.table().entries(), key@) == Some(s@),
                None => stored_text(self.table().entries(), key@) is None,
            },
    {
        self.mem_table.get(key)
    }

    /// The record that logs a deletion of `key`; it takes the next index
    /// and leaves the memory table as it is, so that the record can be
    /// written before the deletion is applied.
    pub fn delete_record(&mut self, key: &[u8]) -> (r: WalRecord)
        requires
            old(self).next_index() < u32::MAX,
        ensures
            r@ == (old(self).term(), old(self).next_index(), op_code(OperationTypeEnum::DELETE), (
                key@,
                None::<Seq<u8>>,
            )),
            final(self).next_index() == old(self).next_index() + 1,
            final(self).term() == old(self).term(),
            final(self).table() == old(self).table(),
    {
        let current_index = self.index;
        self.index = self.index + 1;
        WalRecord {
            term: self.term,
            index: current_index,
            op_type: OperationTypeEnum::DELETE,
            key_val: KeyValue { key: bytes_to_vec(key), value: None },
        }
    }

    /// Applies a logged deletion to the memory table.
    pub fn apply_delete(&mut self, key: &[u8])
        requires
            old(self).table().inv(),
        ensures
            final(self).table().inv(),
            final(self).table().entries().remove(key@) == old(self).table().entries().remove(key@),
            !final(self).table().entries().contains_key(key@) || final(self).table().entries()[key@] is None,
            final(self).next_index() == old(self).next_index(),
            final(self).term() == old(self).term(),
    {
        self.mem_table.delete(key);
    }
}

} // verus!
