//! Sorted key/value sequences and the maps they stand for: the common model
//! of every memory table.
use vstd::prelude::*;
use crate::keys::{key_lt, lemma_key_lt_irreflexive, lemma_key_lt_total, lemma_key_lt_transitive};

verus! {

/// One stored entry: a key and its value, `None` for a deleted key.
pub type Entry = (Seq<u8>, Option<Seq<u8>>);

/// The keys of `s` strictly increase.
pub open spec fn sorted_keys(s: Seq<Entry>) -> bool {
    forall|i: int, j: int| 0 <= i < j < s.len() ==> key_lt(#[trigger] s[i].0, #[trigger] s[j].0)
}

/// Some entry of `s` has the key `k`.
pub open spec fn has_key(s: Seq<Entry>, k: Seq<u8>) -> bool {
    exists|i: int| 0 <= i < s.len() && (#[trigger] s[i]).0 == k
}

/// A position of `s` that holds the key `k`, where there is one.
pub open spec fn position_of(s: Seq<Entry>, k: Seq<u8>) -> int {
    choose|i: int| 0 <= i < s.len() && (#[trigger] s[i]).0 == k
}

/// The map from each key of `s` to its value.
pub open spec fn entries_of(s: Seq<Entry>) -> Map<Seq<u8>, Option<Seq<u8>>> {
    Map::new(|k: Seq<u8>| has_key(s, k), |k: Seq<u8>| s[position_of(s, k)].1)
}

/// In a sorted sequence a key stands at one position only.
pub proof fn lemma_sorted_unique(s: Seq<Entry>, i: int, j: int)
    requires
        sorted_keys(s),
        0 <= i < s.len(),
        0 <= j < s.len(),
        s[i].0 == s[j].0,
    ensures
        i == j,
{
    lemma_key_lt_irreflexive(s[i].0);
    if i < j {
        assert(key_lt(s[i].0, s[j].0));
    } else if j < i {
        assert(key_lt(s[j].0, s[i].0));
    }
}

/// The map holds each entry of a sorted sequence.
pub proof fn lemma_entries_at(s: Seq<Entry>, i: int)
    requires
        sorted_keys(s),
        0 <= i < s.len(),
    ensures
        entries_of(s).contains_key(s[i].0),
        entries_of(s)[s[i].0] == s[i].1,
{
    let k = s[i].0;
    assert(has_key(s, k));
    let j = position_of(s, k);
    lemma_sorted_unique(s, i, j);
}

/// A key at no position is not in the map.
pub proof fn lemma_entries_absent(s: Seq<Entry>, k: Seq<u8>)
    requires
        forall|i: int| 0 <= i < s.len() ==> (#[trigger] s[i]).0 != k,
    ensures
        !entries_of(s).contains_key(k),
{
}

/// Two sorted sequences agree up to position `k` when they stand for the
/// same map.
proof fn lemma_listing_prefix(s1: Seq<Entry>, s2: Seq<Entry>, k: int)
    requires
        sorted_keys(s1),
        sorted_keys(s2),
        entries_of(s1) == entries_of(s2),
        s1.len() == s2.len(),
        0 <= k < s1.len(),
    ensures
        forall|i: int| 0 <= i <= k ==> s1[i] == s2[i],
    decreases k,
{
    if k > 0 {
        lemma_listing_prefix(s1, s2, k - 1);
    }
    let a = s1[k].0;
    let b = s2[k].0;
    lemma_entries_at(s1, k);
    lemma_entries_at(s2, k);
    assert(entries_of(s2).contains_key(a));
    assert(entries_of(s1).contains_key(b));
    let j = position_of(s2, a);
    let j1 = position_of(s1, b);
    lemma_entries_at(s2, j);
    lemma_entries_at(s1, j1);
    if j < k {
        assert(s1[j] == s2[j]);
        lemma_sorted_unique(s1, j, k);
    }
    if j1 < k {
        assert(s1[j1] == s2[j1]);
        lemma_sorted_unique(s2, j1, k);
    }
    if a != b {
        if j > k && j1 > k {
            assert(key_lt(b, a));
            assert(key_lt(a, b));
            crate::keys::lemma_key_lt_asymmetric(a, b);
        } else if j == k {
            assert(s2[k].0 == a);
        } else {
            assert(s1[k].0 == b);
        }
    }
}

/// A map has one sorted listing.
pub proof fn lemma_sorted_listing_unique(s1: Seq<Entry>, s2: Seq<Entry>)
    requires
        sorted_keys(s1),
        sorted_keys(s2),
        entries_of(s1) == entries_of(s2),
    ensures
        s1 == s2,
{
    lemma_entries_len(s1);
    lemma_entries_len(s2);
    if s1.len() > 0 {
        lemma_listing_prefix(s1, s2, s1.len() - 1);
    }
    assert(s1 =~= s2);
}

/// Inserting a new key at its sorted place inserts it into the map.
pub proof fn lemma_entries_insert(s: Seq<Entry>, ip: int, e: Entry)
    requires
        sorted_keys(s),
        0 <= ip <= s.len(),
        forall|i: int| 0 <= i < ip ==> key_lt(#[trigger] s[i].0, e.0),
        forall|i: int| ip <= i < s.len() ==> key_lt(e.0, #[trigger] s[i].0),
    ensures
        sorted_keys(s.insert(ip, e)),
        entries_of(s.insert(ip, e)) =~= entries_of(s).insert(e.0, e.1),
{
    let t = s.insert(ip, e);
    assert(sorted_keys(t)) by {
        assert forall|i: int, j: int| 0 <= i < j < t.len() implies key_lt(
            #[trigger] t[i].0,
            #[trigger] t[j].0,
        ) by {
            if i < ip && j > ip {
                lemma_key_lt_transitive(s[i].0, e.0, s[j - 1].0);
            }
        }
    }
    assert forall|k: Seq<u8>| #[trigger] entries_of(t).contains_key(k) <==> entries_of(
        s,
    ).insert(e.0, e.1).contains_key(k) by {
        if has_key(s, k) {
            let i = choose|i: int| 0 <= i < s.len() && (#[trigger] s[i]).0 == k;
            if i < ip {
                assert(t[i] == s[i]);
            } else {
                assert(t[i + 1] == s[i]);
            }
        }
        if k == e.0 {
            assert(t[ip] == e);
        }
    }
    assert forall|k: Seq<u8>| #[trigger] entries_of(t).contains_key(k) implies entries_of(t)[k]
        == entries_of(s).insert(e.0, e.1)[k] by {
        let j = position_of(t, k);
        lemma_entries_at(t, j);
        if j < ip {
            lemma_entries_at(s, j);
            lemma_key_lt_irreflexive(k);
        } else if j > ip {
            lemma_entries_at(s, j - 1);
            lemma_key_lt_irreflexive(k);
        }
    }
}

/// Replacing the value at a position replaces it in the map.
pub proof fn lemma_entries_update(s: Seq<Entry>, i: int, v: Option<Seq<u8>>)
    requires
        sorted_keys(s),
        0 <= i < s.len(),
    ensures
        sorted_keys(s.update(i, (s[i].0, v))),
        entries_of(s.update(i, (s[i].0, v))) =~= entries_of(s).insert(s[i].0, v),
{
    let t = s.update(i, (s[i].0, v));
    assert(sorted_keys(t)) by {
        assert forall|a: int, b: int| 0 <= a < b < t.len() implies key_lt(
            #[trigger] t[a].0,
            #[trigger] t[b].0,
        ) by {
            assert(t[a].0 == s[a].0 && t[b].0 == s[b].0);
        }
    }
    assert forall|k: Seq<u8>| #[trigger] entries_of(t).contains_key(k) <==> entries_of(
        s,
    ).insert(s[i].0, v).contains_key(k) by {
        if has_key(s, k) {
            let j = choose|j: int| 0 <= j < s.len() && (#[trigger] s[j]).0 == k;
            assert(t[j].0 == k);
        }
        if has_key(t, k) {
            let j = choose|j: int| 0 <= j < t.len() && (#[trigger] t[j]).0 == k;
            assert(s[j].0 == k);
        }
        if k == s[i].0 {
            assert(t[i].0 == k);
        }
    }
    assert forall|k: Seq<u8>| #[trigger] entries_of(t).contains_key(k) implies entries_of(t)[k]
        == entries_of(s).insert(s[i].0, v)[k] by {
        let j = position_of(t, k);
        lemma_entries_at(t, j);
        if j != i {
            lemma_entries_at(s, j);
            assert(s[j].0 != s[i].0) by {
                if s[j].0 == s[i].0 {
                    lemma_sorted_unique(s, i, j);
                }
            }
        }
    }
}

/// Removing a position removes its key from the map.
pub proof fn lemma_entries_remove(s: Seq<Entry>, i: int)
    requires
        sorted_keys(s),
        0 <= i < s.len(),
    ensures
        sorted_keys(s.remove(i)),
        entries_of(s.remove(i)) =~= entries_of(s).remove(s[i].0),
{
    let t = s.remove(i);
    assert(sorted_keys(t)) by {
        assert forall|a: int, b: int| 0 <= a < b < t.len() implies key_lt(
            #[trigger] t[a].0,
            #[trigger] t[b].0,
        ) by {
            let a0 = if a < i {
                a
            } else {
                a + 1
            };
            let b0 = if b < i {
                b
            } else {
                b + 1
            };
            assert(t[a] == s[a0] && t[b] == s[b0]);
        }
    }
    assert forall|k: Seq<u8>| #[trigger] entries_of(t).contains_key(k) <==> entries_of(s).remove(
        s[i].0,
    ).contains_key(k) by {
        if has_key(s, k) && k != s[i].0 {
            let j = choose|j: int| 0 <= j < s.len() && (#[trigger] s[j]).0 == k;
            if j < i {
                assert(t[j] == s[j]);
            } else {
                assert(t[j - 1] == s[j]);
            }
        }
        if has_key(t, k) {
            let j = choose|j: int| 0 <= j < t.len() && (#[trigger] t[j]).0 == k;
            let j0 = if j < i {
                j
            } else {
                j + 1
            };
            assert(s[j0] == t[j]);
            if k == s[i].0 {
                lemma_sorted_unique(s, i, j0);
            }
        }
    }
    assert forall|k: Seq<u8>| #[trigger] entries_of(t).contains_key(k) implies entries_of(t)[k]
        == entries_of(s).remove(s[i].0)[k] by {
        let j = position_of(t, k);
        lemma_entries_at(t, j);
        let j0 = if j < i {
            j
        } else {
            j + 1
        };
        assert(s[j0] == t[j]);
        lemma_entries_at(s, j0);
    }
}

/// `ip` is where the key `k` goes in `s`: every key before it is below `k`,
/// every key from it on above `k`.
pub open spec fn is_sorted_place(s: Seq<Entry>, k: Seq<u8>, ip: int) -> bool {
    &&& 0 <= ip <= s.len()
    &&& forall|i: int| 0 <= i < ip ==> key_lt(#[trigger] s[i].0, k)
    &&& forall|i: int| ip <= i < s.len() ==> key_lt(k, #[trigger] s[i].0)
}

/// A key absent from a sorted sequence has a place in it.
pub proof fn lemma_sorted_place_exists(s: Seq<Entry>, k: Seq<u8>)
    requires
        sorted_keys(s),
        !has_key(s, k),
    ensures
        exists|ip: int| is_sorted_place(s, k, ip),
    decreases s.len(),
{
    if s.len() == 0 {
        assert(is_sorted_place(s, k, 0));
    } else {
        let n = s.len() - 1;
        let p = s.drop_last();
        assert(!has_key(p, k)) by {
            if has_key(p, k) {
                let i = choose|i: int| 0 <= i < p.len() && (#[trigger] p[i]).0 == k;
                assert(s[i].0 == k);
            }
        }
        lemma_sorted_place_exists(p, k);
        let ip = choose|ip: int| is_sorted_place(p, k, ip);
        let last = s[n].0;
        assert(last != k);
        lemma_key_lt_total(last, k);
        if key_lt(last, k) {
            assert forall|i: int| 0 <= i < s.len() implies key_lt(#[trigger] s[i].0, k) by {
                if i < n {
                    lemma_key_lt_transitive(s[i].0, last, k);
                }
            }
            assert(is_sorted_place(s, k, s.len() as int));
        } else {
            assert forall|i: int| 0 <= i < ip implies key_lt(#[trigger] s[i].0, k) by {
                assert(s[i] == p[i]);
            }
            assert forall|i: int| ip <= i < s.len() implies key_lt(k, #[trigger] s[i].0) by {
                if i < n {
                    assert(s[i] == p[i]);
                }
            }
            assert(is_sorted_place(s, k, ip));
        }
    }
}

/// A sorted sequence has as many entries as its map has keys.
pub proof fn lemma_entries_len(s: Seq<Entry>)
    requires
        sorted_keys(s),
    ensures
        entries_of(s).dom().finite(),
        entries_of(s).dom().len() == s.len(),
{
    let ks = s.map_values(|e: Entry| e.0);
    assert(ks.no_duplicates()) by {
        assert forall|i: int, j: int|
            0 <= i < ks.len() && 0 <= j < ks.len() && i != j implies ks[i] != ks[j] by {
            if ks[i] == ks[j] {
                lemma_sorted_unique(s, i, j);
            }
        }
    }
    ks.unique_seq_to_set();
    assert forall|k: Seq<u8>| #[trigger] entries_of(s).dom().contains(k) <==> ks.to_set().contains(
        k,
    ) by {
        if has_key(s, k) {
            let i = choose|i: int| 0 <= i < s.len() && (#[trigger] s[i]).0 == k;
            assert(ks[i] == k);
        }
        if ks.contains(k) {
            let i = choose|i: int| 0 <= i < ks.len() && ks[i] == k;
            assert(s[i].0 == k);
        }
    }
    assert(entries_of(s).dom() =~= ks.to_set());
    vstd::seq_lib::seq_to_set_is_finite(ks);
}


/// The model of an optional stored value.
pub open spec fn bytes_opt(o: Option<Vec<u8>>) -> Option<Seq<u8>> {
    match o {
        Some(v) => Some(v@),
        None => None,
    }
}

/// The model of a stored key/value pair.
pub open spec fn entry_of(e: (Vec<u8>, Option<Vec<u8>>)) -> Entry {
    (e.0@, bytes_opt(e.1))
}

/// The model of a sequence of stored key/value pairs.
pub open spec fn entries_view(v: Seq<(Vec<u8>, Option<Vec<u8>>)>) -> Seq<Entry> {
    v.map_values(|e: (Vec<u8>, Option<Vec<u8>>)| entry_of(e))
}

/// The number of bytes an entry holds: its key and its value, if any.
pub open spec fn entry_size(e: Entry) -> nat {
    e.0.len() + match e.1 {
        Some(v) => v.len(),
        None => 0,
    }
}

/// The number of bytes all entries of `s` hold.
pub open spec fn entries_size(s: Seq<Entry>) -> nat
    decreases s.len(),
{
    if s.len() == 0 {
        0
    } else {
        entries_size(s.drop_last()) + entry_size(s.last())
    }
}

pub proof fn lemma_entries_size_insert(s: Seq<Entry>, i: int, e: Entry)
    requires
        0 <= i <= s.len(),
    ensures
        entries_size(s.insert(i, e)) == entries_size(s) + entry_size(e),
    decreases s.len(),
{
    if i == s.len() {
        assert(s.insert(i, e).drop_last() =~= s);
    } else {
        assert(s.insert(i, e).drop_last() =~= s.drop_last().insert(i, e));
        lemma_entries_size_insert(s.drop_last(), i, e);
    }
}

pub proof fn lemma_entries_size_update(s: Seq<Entry>, i: int, e: Entry)
    requires
        0 <= i < s.len(),
    ensures
        entry_size(s[i]) <= entries_size(s),
        entries_size(s.update(i, e)) == entries_size(s) - entry_size(s[i]) + entry_size(e),
    decreases s.len(),
{
    if i == s.len() - 1 {
        assert(s.update(i, e).drop_last() =~= s.drop_last());
    } else {
        assert(s.update(i, e).drop_last() =~= s.drop_last().update(i, e));
        lemma_entries_size_update(s.drop_last(), i, e);
    }
}

/// Copies a byte vector.
pub fn copy_bytes(v: &Vec<u8>) -> (r: Vec<u8>)
    ensures
        r@ == v@,
{
    let mut r: Vec<u8> = Vec::new();
    let mut i: usize = 0;
    while i < v.len()
        invariant
            i <= v@.len(),
            r@ == v@.subrange(0, i as int),
        decreases v@.len() - i,
    {
        r.push(v[i]);
        i = i + 1;
        assert(r@ =~= v@.subrange(0, i as int));
    }
    assert(v@ =~= v@.subrange(0, v@.len() as int));
    r
}

/// Copies an optional byte vector.
pub fn copy_value(v: &Option<Vec<u8>>) -> (r: Option<Vec<u8>>)
    ensures
        bytes_opt(r) == bytes_opt(*v),
{
    match v {
        Some(b) => Some(copy_bytes(b)),
        None => None,
    }
}

} // verus!
