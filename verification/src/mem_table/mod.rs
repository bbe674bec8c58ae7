//! Memory tables: the sorted in-memory store that takes writes before they
//! are flushed to a sorted string table.
use vstd::prelude::*;
use crate::entries::{
    Entry, entries_of, entries_view, has_key, is_sorted_place, lemma_entries_insert,
    lemma_entries_remove, lemma_entries_update, lemma_sorted_listing_unique,
    lemma_sorted_place_exists, position_of, sorted_keys,
};
use crate::text::utf8_text;

pub mod btree_mem_table;
pub mod skip_list_mem_table;

verus! {

/// The text of the value that `entries` holds for `key`: `None` where the
/// key is absent, deleted, or its value is not valid UTF-8.
pub open spec fn stored_text(entries: Map<Seq<u8>, Option<Seq<u8>>>, key: Seq<u8>) -> Option<
    Seq<char>,
> {
    if entries.contains_key(key) {
        match entries[key] {
            Some(v) => utf8_text(v),
            None => None,
        }
    } else {
        None
    }
}

/// A read after a put gives the text of the value put.
pub proof fn lemma_get_after_put(entries: Map<Seq<u8>, Option<Seq<u8>>>, key: Seq<u8>, value: Seq<u8>)
    ensures
        stored_text(entries.insert(key, Some(value)), key) == utf8_text(value),
{
}

/// A put or a delete of one key leaves what every other key reads.
pub proof fn lemma_other_keys_unchanged(
    before: Map<Seq<u8>, Option<Seq<u8>>>,
    after: Map<Seq<u8>, Option<Seq<u8>>>,
    key: Seq<u8>,
    other: Seq<u8>,
)
    requires
        after.remove(key) == before.remove(key),
        other != key,
    ensures
        stored_text(after, other) == stored_text(before, other),
{
    assert(after.remove(key).contains_key(other) == after.contains_key(other));
    assert(before.remove(key).contains_key(other) == before.contains_key(other));
    if after.contains_key(other) {
        assert(after.remove(key)[other] == after[other]);
        assert(before.remove(key)[other] == before[other]);
    }
}

/// A read after a delete finds nothing.
pub proof fn lemma_get_after_delete(after: Map<Seq<u8>, Option<Seq<u8>>>, key: Seq<u8>)
    requires
        !after.contains_key(key) || after[key] is None,
    ensures
        stored_text(after, key) is None,
{
}

/// A put adds one to the number of keys exactly when the key is new.
pub proof fn lemma_size_after_put(
    entries: Map<Seq<u8>, Option<Seq<u8>>>,
    key: Seq<u8>,
    value: Option<Seq<u8>>,
)
    requires
        entries.dom().finite(),
    ensures
        entries.insert(key, value).dom().len() == entries.dom().len() + if entries.contains_key(
            key,
        ) {
            0int
        } else {
            1int
        },
{
    assert(entries.insert(key, value).dom() =~= entries.dom().insert(key));
}

/// The sorted listing `after` is `before` with the key `k` set to `v`: the
/// pair of `k` replaced where `k` is listed, else `(k, v)` inserted at the
/// place of `k`, every other pair where it was.
pub open spec fn listing_set(
    before: Seq<Entry>,
    after: Seq<Entry>,
    k: Seq<u8>,
    v: Option<Seq<u8>>,
) -> bool {
    if has_key(before, k) {
        after == before.update(position_of(before, k), (k, v))
    } else {
        exists|ip: int| is_sorted_place(before, k, ip) && after == before.insert(ip, (k, v))
    }
}

/// The sorted listing `after` is `before` without the pair of `k`, or
/// `before` itself where `k` is not listed.
pub open spec fn listing_removed(before: Seq<Entry>, after: Seq<Entry>, k: Seq<u8>) -> bool {
    if has_key(before, k) {
        after == before.remove(position_of(before, k))
    } else {
        after == before
    }
}

/// Setting a key in a table's entries sets it in the table's sorted
/// listing: `get_all_keys` after a put (or after a delete that leaves a
/// tombstone) is the listing before with the key's pair replaced, or with
/// the new pair inserted at its sorted place, and one longer exactly when
/// the key was new.
pub proof fn lemma_listing_after_set(
    before: Seq<Entry>,
    after: Seq<Entry>,
    k: Seq<u8>,
    v: Option<Seq<u8>>,
)
    requires
        sorted_keys(before),
        sorted_keys(after),
        entries_of(after) == entries_of(before).insert(k, v),
    ensures
        listing_set(before, after, k, v),
        after.len() == before.len() + if has_key(before, k) {
            0int
        } else {
            1int
        },
{
    if has_key(before, k) {
        let i = position_of(before, k);
        lemma_entries_update(before, i, v);
        lemma_sorted_listing_unique(after, before.update(i, (k, v)));
    } else {
        lemma_sorted_place_exists(before, k);
        let ip = choose|ip: int| is_sorted_place(before, k, ip);
        lemma_entries_insert(before, ip, (k, v));
        lemma_sorted_listing_unique(after, before.insert(ip, (k, v)));
    }
}

/// Removing a key from a table's entries removes its pair from the table's
/// sorted listing and leaves the rest in order; removing an absent key
/// changes nothing.
pub proof fn lemma_listing_after_remove(before: Seq<Entry>, after: Seq<Entry>, k: Seq<u8>)
    requires
        sorted_keys(before),
        sorted_keys(after),
        entries_of(after) == entries_of(before).remove(k),
    ensures
        listing_removed(before, after, k),
        after.len() == before.len() - if has_key(before, k) {
            1int
        } else {
            0int
        },
{
    if has_key(before, k) {
        let i = position_of(before, k);
        lemma_entries_remove(before, i);
        lemma_sorted_listing_unique(after, before.remove(i));
    } else {
        assert(entries_of(before).remove(k) =~= entries_of(before));
        lemma_sorted_listing_unique(after, before);
    }
}

/// A delete that leaves a tombstone: where the key is listed its pair
/// becomes `(k, None)`, else the listing stays as it was.
pub proof fn lemma_listing_after_tombstone(before: Seq<Entry>, after: Seq<Entry>, k: Seq<u8>)
    requires
        sorted_keys(before),
        sorted_keys(after),
        entries_of(after) == if entries_of(before).contains_key(k) {
            entries_of(before).insert(k, None)
        } else {
            entries_of(before)
        },
    ensures
        has_key(before, k) ==> after == before.update(position_of(before, k), (k, None)),
        !has_key(before, k) ==> after == before,
{
    if has_key(before, k) {
        lemma_listing_after_set(before, after, k, None);
    } else {
        lemma_sorted_listing_unique(after, before);
    }
}

/// One write to a table: a put of the value, or a delete (`None`).
pub type Write = (Seq<u8>, Option<Seq<u8>>);

/// What the last write to `key` among `ws` was: `None` where none was to
/// `key`, else the value put, or `None` inside for a delete.
pub open spec fn last_write(ws: Seq<Write>, key: Seq<u8>) -> Option<Option<Seq<u8>>>
    decreases ws.len(),
{
    if ws.len() == 0 {
        None
    } else if ws.last().0 == key {
        Some(ws.last().1)
    } else {
        last_write(ws.drop_last(), key)
    }
}

/// The entries after a write, as `put` and `delete` of every memory table
/// state them: a put sets the value; a delete leaves the key absent or with
/// no value, and every other key as it was.
pub open spec fn write_done(
    before: Map<Seq<u8>, Option<Seq<u8>>>,
    after: Map<Seq<u8>, Option<Seq<u8>>>,
    w: Write,
) -> bool {
    match w.1 {
        Some(v) => after == before.insert(w.0, Some(v)),
        None => after.remove(w.0) == before.remove(w.0) && (!after.contains_key(w.0)
            || after[w.0] is None),
    }
}

/// After a run of puts and deletes on an empty table, a key reads as the
/// text of the value of its last put, unless a delete of it came after;
/// a key never put reads as nothing.
pub proof fn lemma_reads_after_writes(
    states: Seq<Map<Seq<u8>, Option<Seq<u8>>>>,
    ws: Seq<Write>,
    key: Seq<u8>,
)
    requires
        states.len() == ws.len() + 1,
        states[0] == Map::<Seq<u8>, Option<Seq<u8>>>::empty(),
        forall|i: int| 0 <= i < ws.len() ==> write_done(states[i], states[i + 1], #[trigger] ws[i]),
    ensures
        stored_text(states.last(), key) == match last_write(ws, key) {
            Some(Some(v)) => utf8_text(v),
            _ => None,
        },
    decreases ws.len(),
{
    if ws.len() > 0 {
        let n = ws.len() - 1;
        let w = ws[n];
        let before = states[n];
        let after = states[n + 1];
        assert(write_done(before, after, w));
        let ps = states.drop_last();
        let pw = ws.drop_last();
        assert forall|i: int| 0 <= i < pw.len() implies write_done(
            ps[i],
            ps[i + 1],
            #[trigger] pw[i],
        ) by {
            assert(write_done(states[i], states[i + 1], ws[i]));
        }
        lemma_reads_after_writes(ps, pw, key);
        if w.0 == key {
            match w.1 {
                Some(v) => lemma_get_after_put(before, key, v),
                None => lemma_get_after_delete(after, key),
            }
        } else {
            if let Some(v) = w.1 {
                assert(after.remove(w.0) =~= before.remove(w.0));
            }
            lemma_other_keys_unchanged(before, after, w.0, key);
        }
    }
}

/// A sorted in-memory store of keys and values.
pub trait MemTable {
    /// The keys the table holds, each with its value, `None` for a key whose
    /// value was deleted but which the table still lists.
    spec fn entries(&self) -> Map<Seq<u8>, Option<Seq<u8>>>;

    /// The table's internal invariant.
    spec fn inv(&self) -> bool;

    /// Whether the table's byte counters can take this key and value.
    spec fn can_put(&self, key: Seq<u8>, value: Seq<u8>) -> bool;

    /// Stores `value` under `key`, replacing any earlier value.
    fn put(&mut self, key: Vec<u8>, value: Vec<u8>)
        requires
            old(self).inv(),
            old(self).can_put(key@, value@),
        ensures
            final(self).inv(),
            final(self).entries() == old(self).entries().insert(key@, Some(value@)),
    ;

    /// The value stored under `key`, as text.
    fn get(&self, key: &[u8]) -> (r: Option<String>)
        requires
            self.inv(),
        ensures
            match r {
                Some(s) => stored_text(self.entries(), key@) == Some(s@),
                None => stored_text(self.entries(), key@) is None,
            },
    ;

    /// Deletes the value stored under `key`.
    fn delete(&mut self, key: &[u8])
        requires
            old(self).inv(),
        ensures
            final(self).inv(),
            final(self).entries().remove(key@) == old(self).entries().remove(key@),
            !final(self).entries().contains_key(key@) || final(self).entries()[key@] is None,
    ;

    /// The number of keys the table lists.
    fn size(&self) -> (n: usize)
        requires
            self.inv(),
        ensures
            n == self.entries().dom().len(),
    ;

    /// Every listed key with its value, in increasing key order.
    fn get_all_keys(&self) -> (r: Vec<(Vec<u8>, Option<Vec<u8>>)>)
        requires
            self.inv(),
        ensures
            sorted_keys(entries_view(r@)),
            entries_of(entries_view(r@)) == self.entries(),
    ;
}

} // verus!
