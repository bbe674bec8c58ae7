//! A memory table kept as one vector of entries in increasing key order,
//! the ordered map of the engine.
use vstd::prelude::*;
use crate::entries::{
    Entry, copy_bytes, copy_value, entries_of, entries_view, entry_of, has_key,
    lemma_entries_at, lemma_entries_len, sorted_keys,
};
use crate::keys::{KeyOrder, compare_keys, key_lt, lemma_key_lt_transitive};
use crate::mem_table::MemTable;
use crate::text::string_from_utf8;

verus! {

/// An ordered map from keys to values.
pub struct BTreeMemTable {
    store: Vec<(Vec<u8>, Option<Vec<u8>>)>,
}

impl BTreeMemTable {
    /// The entries of the map in key order.
    pub closed spec fn kv_seq(&self) -> Seq<Entry> {
        entries_view(self.store@)
    }

    /// The keys increase strictly along the store, and every stored key has
    /// a value.
    pub closed spec fn wf(&self) -> bool {
        &&& sorted_keys(self.kv_seq())
        &&& forall|i: int| 0 <= i < self.kv_seq().len() ==> (#[trigger] self.kv_seq()[i]).1 is Some
    }

    /// Creates an empty map.
    pub fn new() -> (r: Self)
        ensures
            r.wf(),
            r.entries() == Map::<Seq<u8>, Option<Seq<u8>>>::empty(),
    {
        let r = BTreeMemTable { store: Vec::new() };
        assert(r.kv_seq() =~= Seq::<Entry>::empty());
        assert(r.entries() =~= Map::<Seq<u8>, Option<Seq<u8>>>::empty());
        r
    }

    /// The first position whose key is not below `key`, and whether the key
    /// there is `key`.
    fn find(&self, key: &[u8]) -> (r: (usize, bool))
        requires
            self.wf(),
        ensures
            r.0 <= self.kv_seq().len(),
            forall|i: int| 0 <= i < r.0 ==> key_lt(#[trigger] self.kv_seq()[i].0, key@),
            forall|i: int| r.0 <= i < self.kv_seq().len() ==> !key_lt(#[trigger] self.kv_seq()[i].0, key@),
            r.1 <==> (r.0 < self.kv_seq().len() && self.kv_seq()[r.0 as int].0 == key@),
            r.1 <==> has_key(self.kv_seq(), key@),
    {
        let ghost s = self.kv_seq();
        let mut lo: usize = 0;
        let mut hi: usize = self.store.len();
        while lo < hi
            invariant
                s == self.kv_seq(),
                s.len() == self.store@.len(),
                self.wf(),
                lo <= hi <= s.len(),
                forall|i: int| 0 <= i < lo ==> key_lt(#[trigger] s[i].0, key@),
                forall|i: int| hi <= i < s.len() ==> !key_lt(#[trigger] s[i].0, key@),
            decreases hi - lo,
        {
            let mid = lo + (hi - lo) / 2;
            assert(s[mid as int].0 == self.store@[mid as int].0@);
            match compare_keys(self.store[mid].0.as_slice(), key) {
                KeyOrder::Less => {
                    assert forall|i: int| 0 <= i < mid + 1 implies key_lt(#[trigger] s[i].0, key@) by {
                        if i < mid {
                            lemma_key_lt_transitive(s[i].0, s[mid as int].0, key@);
                        }
                    }
                    lo = mid + 1;
                },
                _ => {
                    assert forall|i: int| mid <= i < s.len() implies !key_lt(#[trigger] s[i].0, key@) by {
                        if i > mid && key_lt(s[i].0, key@) {
                            lemma_key_lt_transitive(s[mid as int].0, s[i].0, key@);
                        }
                    }
                    hi = mid;
                },
            }
        }
        if lo < self.store.len() {
            assert(s[lo as int].0 == self.store@[lo as int].0@);
            let found = compare_keys(self.store[lo].0.as_slice(), key) == KeyOrder::Equal;
            proof {
                if !found {
                    assert forall|i: int| 0 <= i < s.len() implies (#[trigger] s[i]).0 != key@ by {
                        crate::keys::lemma_key_lt_irreflexive(key@);
                        if i > lo {
                            crate::keys::lemma_key_lt_total(s[lo as int].0, key@);
                            lemma_key_lt_transitive(key@, s[lo as int].0, s[i].0);
                        }
                    }
                } else {
                    assert(s[lo as int].0 == key@);
                }
            }
            (lo, found)
        } else {
            assert forall|i: int| 0 <= i < s.len() implies (#[trigger] s[i]).0 != key@ by {
                crate::keys::lemma_key_lt_irreflexive(key@);
            }
            (lo, false)
        }
    }
}

impl MemTable for BTreeMemTable {
    open spec fn entries(&self) -> Map<Seq<u8>, Option<Seq<u8>>> {
        entries_of(self.kv_seq())
    }

    open spec fn inv(&self) -> bool {
        self.wf()
    }

    open spec fn can_put(&self, key: Seq<u8>, value: Seq<u8>) -> bool {
        true
    }

    fn put(&mut self, key: Vec<u8>, value: Vec<u8>) {
        let (pos, found) = self.find(key.as_slice());
        let ghost s = self.kv_seq();
        let ghost e: Entry = (key@, Some(value@));
        if found {
            self.store[pos].1 = Some(value);
            proof {
                assert(self.kv_seq() =~= s.update(pos as int, (s[pos as int].0, Some(value@))));
                crate::entries::lemma_entries_update(s, pos as int, Some(value@));
            }
        } else {
            let ghost k = key@;
            self.store.insert(pos, (key, Some(value)));
            proof {
                assert forall|i: int| pos <= i < s.len() implies key_lt(k, #[trigger] s[i].0) by {
                    assert(s[i].0 != k);
                    crate::keys::lemma_key_lt_total(s[i].0, k);
                }
                assert(self.kv_seq() =~= s.insert(pos as int, e));
                crate::entries::lemma_entries_insert(s, pos as int, e);
            }
        }
        proof {
            assert forall|i: int| 0 <= i < self.kv_seq().len() implies (
            #[trigger] self.kv_seq()[i]).1 is Some by {
                if !found && i > pos {
                    assert(self.kv_seq()[i] == s[i - 1]);
                } else if i != pos {
                    assert(self.kv_seq()[i] == s[i]);
                }
            }
        }
    }

    fn get(&self, key: &[u8]) -> (r: Option<String>) {
        let (pos, found) = self.find(key);
        if !found {
            proof {
                crate::entries::lemma_entries_absent(self.kv_seq(), key@);
            }
            return None;
        }
        proof {
            lemma_entries_at(self.kv_seq(), pos as int);
        }
        match &self.store[pos].1 {
            Some(v) => string_from_utf8(copy_bytes(v)),
            None => None,
        }
    }

    fn delete(&mut self, key: &[u8])
        ensures
            final(self).entries() == old(self).entries().remove(key@),
    {
        let (pos, found) = self.find(key);
        let ghost s = self.kv_seq();
        if found {
            self.store.remove(pos);
            proof {
                assert(self.kv_seq() =~= s.remove(pos as int));
                crate::entries::lemma_entries_remove(s, pos as int);
                assert forall|i: int| 0 <= i < self.kv_seq().len() implies (
                #[trigger] self.kv_seq()[i]).1 is Some by {
                    if i >= pos {
                        assert(self.kv_seq()[i] == s[i + 1]);
                    } else {
                        assert(self.kv_seq()[i] == s[i]);
                    }
                }
            }
        } else {
            proof {
                crate::entries::lemma_entries_absent(s, key@);
                assert(self.entries().remove(key@) =~= self.entries());
            }
        }
    }

    fn size(&self) -> (n: usize) {
        proof {
            lemma_entries_len(self.kv_seq());
        }
        self.store.len()
    }

    fn get_all_keys(&self) -> (r: Vec<(Vec<u8>, Option<Vec<u8>>)>) {
        let mut key_vals: Vec<(Vec<u8>, Option<Vec<u8>>)> = Vec::new();
        let mut i: usize = 0;
        while i < self.store.len()
            invariant
                i <= self.store@.len(),
                entries_view(key_vals@) == self.kv_seq().subrange(0, i as int),
            decreases self.store@.len() - i,
        {
            let ghost pre = key_vals@;
            let key = copy_bytes(&self.store[i].0);
            let value = copy_value(&self.store[i].1);
            key_vals.push((key, value));
            assert(entries_view(key_vals@) =~= entries_view(pre).push(entry_of((key, value))));
            assert(entries_view(key_vals@) =~= self.kv_seq().subrange(0, i + 1));
            i = i + 1;
        }
        assert(self.kv_seq().subrange(0, i as int) =~= self.kv_seq());
        key_vals
    }
}

} // verus!
