//! A skip list memory table kept in an arena of nodes. Node 0 is the head;
//! every other node holds one key, and a deleted key keeps its node with no
//! value.
use vstd::prelude::*;
use crate::entries::{
    Entry, bytes_opt, copy_bytes, copy_value, entries_of, entries_size, entries_view, entry_of,
    has_key, lemma_entries_at, lemma_entries_len, position_of, sorted_keys,
};
use crate::mem_table::MemTable;
use crate::text::string_from_utf8;
use crate::keys::{
    KeyOrder, compare_keys, key_lt, lemma_key_lt_irreflexive, lemma_key_lt_transitive,
};

verus! {

/// The greatest height a node can have.
pub const MAX_HEIGHT: usize = 20;

/// One key of the skip list, with its value and its forward links, one per
/// level of the node.
pub struct SkipListNode {
    key: Vec<u8>,
    value: Option<Vec<u8>>,
    next: Vec<Option<usize>>,
}

/// A skip list over an arena of nodes.
pub struct SkipListMemTable {
    nodes: Vec<SkipListNode>,
    head: usize,
    current_height: usize,
    total_keys: usize,
    total_bytes_size: usize,
    /// The nodes other than the head, in increasing key order.
    order: Ghost<Seq<usize>>,
}

/// The first position at or after `from` whose height exceeds `l`, or the
/// length of `hs` where there is none.
pub open spec fn first_at(hs: Seq<nat>, l: nat, from: int) -> int
    decreases hs.len() - from,
{
    if from >= hs.len() {
        hs.len() as int
    } else if 0 <= from && hs[from] > l {
        from
    } else {
        first_at(hs, l, from + 1)
    }
}

pub proof fn lemma_first_at_props(hs: Seq<nat>, l: nat, from: int)
    requires
        0 <= from <= hs.len(),
    ensures
        from <= first_at(hs, l, from) <= hs.len(),
        first_at(hs, l, from) < hs.len() ==> hs[first_at(hs, l, from)] > l,
        forall|r: int| from <= r < first_at(hs, l, from) ==> hs[r] <= l,
    decreases hs.len() - from,
{
    if from < hs.len() && hs[from] <= l {
        lemma_first_at_props(hs, l, from + 1);
    }
}

pub proof fn lemma_first_at_char(hs: Seq<nat>, l: nat, from: int, q: int)
    requires
        0 <= from <= q <= hs.len(),
        q < hs.len() ==> hs[q] > l,
        forall|r: int| from <= r < q ==> hs[r] <= l,
    ensures
        first_at(hs, l, from) == q,
    decreases q - from,
{
    if from < q {
        lemma_first_at_char(hs, l, from + 1, q);
    }
}

/// Scanning from at or after an insertion point sees every position shifted
/// by one.
pub proof fn lemma_first_at_after_insert(hs: Seq<nat>, ip: int, h: nat, l: nat, from: int)
    requires
        0 <= ip <= from <= hs.len(),
    ensures
        first_at(hs.insert(ip, h), l, from + 1) == first_at(hs, l, from) + 1,
{
    let hs2 = hs.insert(ip, h);
    let q = first_at(hs, l, from);
    lemma_first_at_props(hs, l, from);
    assert forall|r: int| from + 1 <= r < q + 1 implies hs2[r] <= l by {
        assert(hs2[r] == hs[r - 1]);
    }
    if q < hs.len() {
        assert(hs2[q + 1] == hs[q]);
    }
    lemma_first_at_char(hs2, l, from + 1, q + 1);
}

/// Scanning from before an insertion point: the inserted height is found
/// when it reaches the level and nothing before it does; otherwise the old
/// answer stands, shifted past the insertion point.
pub proof fn lemma_first_at_before_insert(hs: Seq<nat>, ip: int, h: nat, l: nat, from: int)
    requires
        0 <= from <= ip <= hs.len(),
    ensures
        first_at(hs, l, from) < ip ==> first_at(hs.insert(ip, h), l, from) == first_at(
            hs,
            l,
            from,
        ),
        first_at(hs, l, from) >= ip && h > l ==> first_at(hs.insert(ip, h), l, from) == ip,
        first_at(hs, l, from) >= ip && h <= l ==> first_at(hs.insert(ip, h), l, from) == first_at(
            hs,
            l,
            from,
        ) + 1,
{
    let hs2 = hs.insert(ip, h);
    let q = first_at(hs, l, from);
    lemma_first_at_props(hs, l, from);
    if q < ip {
        assert forall|r: int| from <= r < q implies hs2[r] <= l by {
            assert(hs2[r] == hs[r]);
        }
        assert(hs2[q] == hs[q]);
        lemma_first_at_char(hs2, l, from, q);
    } else if h > l {
        assert forall|r: int| from <= r < ip implies hs2[r] <= l by {
            assert(hs2[r] == hs[r]);
        }
        lemma_first_at_char(hs2, l, from, ip);
    } else {
        assert forall|r: int| from <= r < q + 1 implies hs2[r] <= l by {
            if r < ip {
                assert(hs2[r] == hs[r]);
            } else if r > ip {
                assert(hs2[r] == hs[r - 1]);
            }
        }
        if q < hs.len() {
            assert(hs2[q + 1] == hs[q]);
        }
        lemma_first_at_char(hs2, l, from, q + 1);
    }
}

/// The link that node `x` has at level `l` once the levels below `done` of
/// a new node `n` are spliced in after the nodes `upd`.
spec fn spliced_link(
    base: SkipListMemTable,
    upd: Seq<usize>,
    n: usize,
    x: usize,
    l: int,
    done: int,
) -> Option<usize> {
    if l < done {
        if x == n {
            base.link(upd[l], l)
        } else if x == upd[l] {
            Some(n)
        } else {
            base.link(x, l)
        }
    } else {
        base.link(x, l)
    }
}

/// The facts that a search for the predecessors of an absent key gives,
/// which place the key at position `ps[0] + 1` of the key order.
spec fn predecessors_ok(pre: SkipListMemTable, ps: Seq<int>, upd: Seq<usize>, key: Seq<u8>) -> bool {
    &&& ps.len() == pre.current_height
    &&& upd.len() == pre.current_height
    &&& forall|l: int|
        0 <= l < pre.current_height ==> {
            let p = #[trigger] ps[l];
            let q = first_at(pre.heights(), l as nat, p + 1);
            &&& -1 <= p < pre.order@.len()
            &&& upd[l] == pre.node_at(p)
            &&& p >= 0 ==> pre.ht(pre.order@[p]) > l && key_lt(pre.kv_seq()[p].0, key)
            &&& q == pre.order@.len() || !key_lt(pre.kv_seq()[q].0, key)
        }
}

/// Where an absent key goes: every key before position `ip` is smaller,
/// every key from it on is greater, and at each level the predecessor lies
/// before `ip` with no node of that level between it and `ip`.
proof fn lemma_predecessors_place(pre: SkipListMemTable, ps: Seq<int>, upd: Seq<usize>, key: Seq<u8>)
    requires
        pre.wf(),
        predecessors_ok(pre, ps, upd, key),
        !has_key(pre.kv_seq(), key),
    ensures
        0 <= ps[0] + 1 <= pre.order@.len(),
        forall|i: int| 0 <= i < ps[0] + 1 ==> key_lt(#[trigger] pre.kv_seq()[i].0, key),
        forall|i: int|
            ps[0] + 1 <= i < pre.order@.len() ==> key_lt(key, #[trigger] pre.kv_seq()[i].0),
        forall|l: int|
            0 <= l < pre.current_height ==> #[trigger] ps[l] < ps[0] + 1 && first_at(
                pre.heights(),
                l as nat,
                ps[l] + 1,
            ) >= ps[0] + 1,
{
    let s = pre.kv_seq();
    let hs = pre.heights();
    let len = s.len() as int;
    let p0 = ps[0];
    let ip = p0 + 1;
    assert(ps[0] == p0);
    lemma_first_at_props(hs, 0, ip);
    if ip < len {
        assert(hs[ip] >= 1);
        lemma_first_at_char(hs, 0, ip, ip);
        assert(s[ip].0 != key);
        crate::keys::lemma_key_lt_total(s[ip].0, key);
    }
    assert forall|i: int| 0 <= i < ip implies key_lt(#[trigger] s[i].0, key) by {
        if i < p0 {
            lemma_key_lt_transitive(s[i].0, s[p0].0, key);
        }
    }
    assert forall|i: int| ip <= i < len implies key_lt(key, #[trigger] s[i].0) by {
        if i > ip {
            lemma_key_lt_transitive(key, s[ip].0, s[i].0);
        }
    }
    assert forall|l: int| 0 <= l < pre.current_height implies #[trigger] ps[l] < ip && first_at(
        hs,
        l as nat,
        ps[l] + 1,
    ) >= ip by {
        let pl = ps[l];
        let ql = first_at(hs, l as nat, pl + 1);
        lemma_first_at_props(hs, l as nat, pl + 1);
        if pl >= ip {
            crate::keys::lemma_key_lt_asymmetric(s[pl].0, key);
        }
        if ql < ip {
            assert(key_lt(s[ql].0, key));
        }
    }
}

/// Two positions hold the same node only when they are the same position.
proof fn lemma_node_at_injective(t: SkipListMemTable, a: int, b: int)
    requires
        t.wf(),
        -1 <= a < t.order@.len(),
        -1 <= b < t.order@.len(),
        t.node_at(a) == t.node_at(b),
    ensures
        a == b,
{
    if a >= 0 && b >= 0 {
        assert(t.kv_seq()[a].0 == t.kv_seq()[b].0);
        crate::entries::lemma_sorted_unique(t.kv_seq(), a, b);
    } else if a >= 0 {
        assert(t.order@[a] >= 1);
    } else if b >= 0 {
        assert(t.order@[b] >= 1);
    }
}

/// Splicing a new node of height `h` after the predecessors of its absent
/// key keeps the list well formed, with the new entry at position `ip`.
proof fn lemma_splice_wf(
    pre: SkipListMemTable,
    post: SkipListMemTable,
    ps: Seq<int>,
    upd: Seq<usize>,
    n: usize,
    h: nat,
    key: Seq<u8>,
    value: Seq<u8>,
)
    requires
        pre.wf(),
        predecessors_ok(pre, ps, upd, key),
        !has_key(pre.kv_seq(), key),
        1 <= h <= pre.current_height,
        n == pre.nodes@.len(),
        post.head == 0,
        post.current_height == pre.current_height,
        post.nodes@.len() == n + 1,
        forall|x: int|
            0 <= x < n ==> (#[trigger] post.nodes@[x]).key == pre.nodes@[x].key
                && post.nodes@[x].value == pre.nodes@[x].value && post.nodes@[x].next@.len()
                == pre.nodes@[x].next@.len(),
        post.nodes@[n as int].key@ == key,
        bytes_opt(post.nodes@[n as int].value) == Some(value),
        post.nodes@[n as int].next@.len() == h,
        forall|x: usize, l: int|
            0 <= x <= n && 0 <= l < post.ht(x) ==> #[trigger] post.link(x, l) == if x == n {
                pre.link(upd[l], l)
            } else if l < h && x == upd[l] {
                Some(n)
            } else {
                pre.link(x, l)
            },
        post.order@ == pre.order@.insert(ps[0] + 1, n),
        post.total_keys == pre.total_keys + 1,
        post.total_bytes_size == pre.total_bytes_size + key.len() + value.len(),
    ensures
        post.wf(),
        post.kv_seq() == pre.kv_seq().insert(ps[0] + 1, (key, Some(value))),
{
    lemma_predecessors_place(pre, ps, upd, key);
    let s = pre.kv_seq();
    let hs = pre.heights();
    let len = s.len() as int;
    let ip = ps[0] + 1;
    let e: Entry = (key, Some(value));
    // the order and the heights gain the new node at `ip`
    assert forall|p: int| 0 <= p < len implies pre.order@[p] < n by {}
    assert(post.kv_seq() =~= s.insert(ip, e)) by {
        assert forall|p: int| 0 <= p < len + 1 implies #[trigger] post.kv_seq()[p] == s.insert(
            ip,
            e,
        )[p] by {
            if p < ip {
                assert(post.order@[p] == pre.order@[p]);
            } else if p > ip {
                assert(post.order@[p] == pre.order@[p - 1]);
            }
        }
    }
    let hs2 = post.heights();
    assert(hs2 =~= hs.insert(ip, h)) by {
        assert forall|p: int| 0 <= p < len + 1 implies #[trigger] hs2[p] == hs.insert(ip, h)[p] by {
            if p < ip {
                assert(post.order@[p] == pre.order@[p]);
            } else if p > ip {
                assert(post.order@[p] == pre.order@[p - 1]);
            }
        }
    }
    crate::entries::lemma_entries_insert(s, ip, e);
    crate::entries::lemma_entries_size_insert(s, ip, e);
    // every link leads to the next node of its level in the new order
    assert forall|p2: int, l: int|
        -1 <= p2 < post.order@.len() && 0 <= l < post.ht(post.node_at(p2)) implies #[trigger] post.link(
        post.node_at(p2),
        l,
    ) == post.link_to(first_at(hs2, l as nat, p2 + 1)) by {
        let x = post.node_at(p2);
        if p2 == ip {
            assert(x == n);
            let pl = ps[l];
            let ql = first_at(hs, l as nat, pl + 1);
            lemma_first_at_props(hs, l as nat, pl + 1);
            lemma_first_at_char(hs, l as nat, ip, ql);
            lemma_first_at_after_insert(hs, ip, h, l as nat, ip);
            assert(pre.link(pre.node_at(pl), l) == pre.link_to(first_at(hs, l as nat, pl + 1)));
            if ql < len {
                assert(post.order@[ql + 1] == pre.order@[ql]);
            }
        } else {
            let p = if p2 < ip {
                p2
            } else {
                p2 - 1
            };
            if p2 >= 0 && p2 < ip {
                assert(post.order@[p2] == pre.order@[p2]);
            } else if p2 > ip {
                assert(post.order@[p2] == pre.order@[p2 - 1]);
            }
            assert(x == pre.node_at(p));
            assert(x < n);
            assert(post.ht(x) == pre.ht(x));
            let q = first_at(hs, l as nat, p + 1);
            lemma_first_at_props(hs, l as nat, p + 1);
            assert(pre.link(pre.node_at(p), l) == pre.link_to(q));
            if l < h && x == upd[l] {
                lemma_node_at_injective(pre, p, ps[l]);
                lemma_first_at_before_insert(hs, ip, h, l as nat, p + 1);
            } else if p >= ip {
                lemma_first_at_after_insert(hs, ip, h, l as nat, p + 1);
                if q < len {
                    assert(post.order@[q + 1] == pre.order@[q]);
                }
            } else {
                lemma_first_at_before_insert(hs, ip, h, l as nat, p + 1);
                if q < ip {
                    assert(post.order@[q] == pre.order@[q]);
                } else if h <= l {
                    if q < len {
                        assert(post.order@[q + 1] == pre.order@[q]);
                    }
                } else {
                    // the predecessor at this level is the only node that
                    // reaches past the insertion point
                    let pl = ps[l];
                    lemma_first_at_props(hs, l as nat, pl + 1);
                    if p < pl {
                        assert(hs[pl] == pre.ht(pre.order@[pl]));
                    } else if p > pl {
                        assert(hs[p] == pre.ht(pre.order@[p]));
                    }
                }
            }
        }
    }
    assert forall|p: int| 0 <= p < post.order@.len() implies 1 <= #[trigger] post.order@[p]
        < post.nodes@.len() by {
        if p < ip {
            assert(post.order@[p] == pre.order@[p]);
        } else if p > ip {
            assert(post.order@[p] == pre.order@[p - 1]);
        }
    }
    assert forall|p: int| 0 <= p < post.order@.len() implies 1 <= #[trigger] post.heights()[p]
        <= post.current_height by {
        if p < ip {
            assert(hs2[p] == hs[p]);
        } else if p > ip {
            assert(hs2[p] == hs[p - 1]);
        }
    }
    assert(post.ht(0) == pre.ht(0));
}

/// A random bit. Calls `rand::random::<bool>()`, which draws from the
/// thread-local generator; nothing is claimed of the bit it returns.
#[verifier::external_body]
fn random_bool() -> bool {
    rand::random::<bool>()
}

impl SkipListMemTable {
    /// The number of levels of node `x`.
    pub closed spec fn ht(&self, x: usize) -> nat {
        self.nodes@[x as int].next@.len()
    }

    /// The heights of the keyed nodes, in key order.
    pub closed spec fn heights(&self) -> Seq<nat> {
        Seq::new(self.order@.len(), |p: int| self.ht(self.order@[p]))
    }

    /// The node at position `p` of the key order, the head at position -1.
    pub closed spec fn node_at(&self, p: int) -> usize {
        if p < 0 {
            0
        } else {
            self.order@[p]
        }
    }

    /// The link to the node at position `q`, none past the last one.
    pub closed spec fn link_to(&self, q: int) -> Option<usize> {
        if q < self.order@.len() {
            Some(self.order@[q])
        } else {
            None
        }
    }

    /// The link of node `x` at level `l`.
    pub closed spec fn link(&self, x: usize, l: int) -> Option<usize> {
        self.nodes@[x as int].next@[l]
    }

    /// The key/value pairs of the list, in key order.
    pub closed spec fn kv_seq(&self) -> Seq<Entry> {
        Seq::new(
            self.order@.len(),
            |p: int|
                (
                    self.nodes@[self.order@[p] as int].key@,
                    bytes_opt(self.nodes@[self.order@[p] as int].value),
                ),
        )
    }

    /// Every link of every level leads to the next node in key order that
    /// reaches that level.
    pub closed spec fn links_ok(&self) -> bool {
        forall|p: int, l: int|
            -1 <= p < self.order@.len() && 0 <= l < self.ht(self.node_at(p)) ==> #[trigger] self.link(
                self.node_at(p),
                l,
            ) == self.link_to(first_at(self.heights(), l as nat, p + 1))
    }

    /// The well-formedness of the list.
    pub closed spec fn wf(&self) -> bool {
        &&& self.head == 0
        &&& self.nodes@.len() == self.order@.len() + 1
        &&& 1 <= self.current_height <= MAX_HEIGHT
        &&& self.ht(0) == self.current_height
        &&& forall|p: int|
            0 <= p < self.order@.len() ==> 1 <= #[trigger] self.order@[p] < self.nodes@.len()
        &&& forall|p: int|
            0 <= p < self.order@.len() ==> 1 <= #[trigger] self.heights()[p] <= self.current_height
        &&& sorted_keys(self.kv_seq())
        &&& self.links_ok()
        &&& self.total_keys == self.order@.len()
        &&& self.total_bytes_size == entries_size(self.kv_seq())
    }

    /// Creates a list with a head node of one level and no keys.
    pub fn new() -> (r: Self)
        ensures
            r.wf(),
            r.entries() == Map::<Seq<u8>, Option<Seq<u8>>>::empty(),
            r.bytes_size() == 0,
    {
        let mut nodes: Vec<SkipListNode> = Vec::new();
        nodes.push(SkipListNode { key: Vec::new(), value: None, next: vec![None; 1] });
        let r = SkipListMemTable {
            nodes,
            head: 0,
            current_height: 1,
            total_keys: 0,
            total_bytes_size: 0,
            order: Ghost(Seq::empty()),
        };
        assert(r.kv_seq() =~= Seq::<Entry>::empty());
        assert forall|p: int, l: int|
            -1 <= p < r.order@.len() && 0 <= l < r.ht(r.node_at(p)) implies #[trigger] r.link(
            r.node_at(p),
            l,
        ) == r.link_to(first_at(r.heights(), l as nat, p + 1)) by {
            assert(r.link(0, 0) == None::<usize>);
        }
        assert(r.entries() =~= Map::<Seq<u8>, Option<Seq<u8>>>::empty());
        r
    }

    /// Finds the node that holds `key`.
    fn get_node_idx_by_key(&self, key: &[u8]) -> (r: Option<usize>)
        requires
            self.wf(),
        ensures
            r is Some <==> has_key(self.kv_seq(), key@),
            r matches Some(x) ==> x == self.order@[position_of(self.kv_seq(), key@)],
    {
        let ghost hs = self.heights();
        let ghost len = self.order@.len() as int;
        let mut current_idx = self.head;
        let ghost mut cur_pos: int = -1;
        let mut level = self.current_height;
        while level > 0
            invariant
                self.wf(),
                hs == self.heights(),
                len == self.order@.len(),
                level <= self.current_height,
                -1 <= cur_pos < len,
                current_idx == self.node_at(cur_pos),
                cur_pos >= 0 ==> self.ht(current_idx) >= level && key_lt(
                    self.kv_seq()[cur_pos].0,
                    key@,
                ),
                level < self.current_height ==> {
                    let q = first_at(hs, level as nat, cur_pos + 1);
                    q == len || key_lt(key@, self.kv_seq()[q].0)
                },
            decreases level,
        {
            level = level - 1;
            loop
                invariant
                    self.wf(),
                    hs == self.heights(),
                    len == self.order@.len(),
                    level < self.current_height,
                    -1 <= cur_pos < len,
                    current_idx == self.node_at(cur_pos),
                    cur_pos >= 0 ==> self.ht(current_idx) > level && key_lt(
                        self.kv_seq()[cur_pos].0,
                        key@,
                    ),
                ensures
                    -1 <= cur_pos < len,
                    current_idx == self.node_at(cur_pos),
                    cur_pos >= 0 ==> self.ht(current_idx) > level && key_lt(
                        self.kv_seq()[cur_pos].0,
                        key@,
                    ),
                    ({
                        let q = first_at(hs, level as nat, cur_pos + 1);
                        q == len || key_lt(key@, self.kv_seq()[q].0)
                    }),
                decreases len - cur_pos,
            {
                proof {
                    lemma_first_at_props(hs, level as nat, cur_pos + 1);
                    if cur_pos < 0 {
                        assert(self.ht(self.node_at(cur_pos)) == self.current_height);
                    }
                    assert(self.link(self.node_at(cur_pos), level as int) == self.link_to(
                        first_at(hs, level as nat, cur_pos + 1),
                    ));
                }
                let ghost q = first_at(hs, level as nat, cur_pos + 1);
                let next_idx = if level < self.nodes[current_idx].next.len() {
                    self.nodes[current_idx].next[level]
                } else {
                    None
                };
                match next_idx {
                    Some(next_idx) => {
                        assert(self.kv_seq()[q].0 == self.nodes@[next_idx as int].key@);
                        match compare_keys(self.nodes[next_idx].key.as_slice(), key) {
                            KeyOrder::Less => {
                                current_idx = next_idx;
                                proof {
                                    cur_pos = q;
                                    assert(hs[q] == self.ht(self.order@[q]));
                                }
                            },
                            KeyOrder::Equal => {
                                proof {
                                    assert(has_key(self.kv_seq(), key@));
                                    let p = position_of(self.kv_seq(), key@);
                                    crate::entries::lemma_sorted_unique(self.kv_seq(), p, q);
                                }
                                return Some(next_idx);
                            },
                            KeyOrder::Greater => {
                                break ;
                            },
                        }
                    },
                    None => {
                        break ;
                    },
                }
            }
        }
        proof {
            let s = self.kv_seq();
            lemma_first_at_props(hs, 0, cur_pos + 1);
            if cur_pos + 1 < len {
                assert(hs[cur_pos + 1] >= 1);
                lemma_first_at_char(hs, 0, cur_pos + 1, cur_pos + 1);
            } else {
                lemma_first_at_char(hs, 0, cur_pos + 1, len);
            }
            assert forall|i: int| 0 <= i < s.len() implies (#[trigger] s[i]).0 != key@ by {
                lemma_key_lt_irreflexive(key@);
                if i < cur_pos {
                    lemma_key_lt_transitive(s[i].0, s[cur_pos].0, key@);
                } else if i > cur_pos + 1 {
                    lemma_key_lt_transitive(key@, s[cur_pos + 1].0, s[i].0);
                }
            }
        }
        None
    }

    /// The last node before `key` at each level of the list, with its
    /// position in key order.
    fn get_nearest_node_idxes_by_key(&self, key: &[u8]) -> (r: (Vec<usize>, Ghost<Seq<int>>))
        requires
            self.wf(),
        ensures
            r.0@.len() == self.current_height,
            r.1@.len() == self.current_height,
            forall|l: int|
                0 <= l < self.current_height ==> {
                    let p = #[trigger] r.1@[l];
                    let q = first_at(self.heights(), l as nat, p + 1);
                    &&& -1 <= p < self.order@.len()
                    &&& r.0@[l] == self.node_at(p)
                    &&& p >= 0 ==> self.ht(self.order@[p]) > l && key_lt(self.kv_seq()[p].0, key@)
                    &&& q == self.order@.len() || !key_lt(self.kv_seq()[q].0, key@)
                },
    {
        let ghost hs = self.heights();
        let ghost len = self.order@.len() as int;
        let mut update = vec![self.head; self.current_height];
        let ghost mut ps: Seq<int> = Seq::new(self.current_height as nat, |l: int| -1int);
        let mut current_idx = self.head;
        let ghost mut cur_pos: int = -1;
        let mut level = self.current_height;
        while level > 0
            invariant
                self.wf(),
                hs == self.heights(),
                len == self.order@.len(),
                level <= self.current_height,
                update@.len() == self.current_height,
                ps.len() == self.current_height,
                -1 <= cur_pos < len,
                current_idx == self.node_at(cur_pos),
                cur_pos >= 0 ==> self.ht(current_idx) >= level && key_lt(
                    self.kv_seq()[cur_pos].0,
                    key@,
                ),
                forall|l: int|
                    level <= l < self.current_height ==> {
                        let p = #[trigger] ps[l];
                        let q = first_at(hs, l as nat, p + 1);
                        &&& -1 <= p < len
                        &&& update@[l] == self.node_at(p)
                        &&& p >= 0 ==> self.ht(self.order@[p]) > l && key_lt(
                            self.kv_seq()[p].0,
                            key@,
                        )
                        &&& q == len || !key_lt(self.kv_seq()[q].0, key@)
                    },
            decreases level,
        {
            level = level - 1;
            loop
                invariant
                    self.wf(),
                    hs == self.heights(),
                    len == self.order@.len(),
                    level < self.current_height,
                    -1 <= cur_pos < len,
                    current_idx == self.node_at(cur_pos),
                    cur_pos >= 0 ==> self.ht(current_idx) > level && key_lt(
                        self.kv_seq()[cur_pos].0,
                        key@,
                    ),
                ensures
                    -1 <= cur_pos < len,
                    current_idx == self.node_at(cur_pos),
                    cur_pos >= 0 ==> self.ht(current_idx) > level && key_lt(
                        self.kv_seq()[cur_pos].0,
                        key@,
                    ),
                    ({
                        let q = first_at(hs, level as nat, cur_pos + 1);
                        q == len || !key_lt(self.kv_seq()[q].0, key@)
                    }),
                decreases len - cur_pos,
            {
                proof {
                    lemma_first_at_props(hs, level as nat, cur_pos + 1);
                    if cur_pos < 0 {
                        assert(self.ht(self.node_at(cur_pos)) == self.current_height);
                    }
                    assert(self.link(self.node_at(cur_pos), level as int) == self.link_to(
                        first_at(hs, level as nat, cur_pos + 1),
                    ));
                }
                let ghost q = first_at(hs, level as nat, cur_pos + 1);
                let next_idx = if level < self.nodes[current_idx].next.len() {
                    self.nodes[current_idx].next[level]
                } else {
                    None
                };
                match next_idx {
                    Some(next_idx) => {
                        assert(self.kv_seq()[q].0 == self.nodes@[next_idx as int].key@);
                        match compare_keys(self.nodes[next_idx].key.as_slice(), key) {
                            KeyOrder::Less => {
                                current_idx = next_idx;
                                proof {
                                    cur_pos = q;
                                    assert(hs[q] == self.ht(self.order@[q]));
                                }
                            },
                            KeyOrder::Equal | KeyOrder::Greater => {
                                break ;
                            },
                        }
                    },
                    None => {
                        break ;
                    },
                }
            }
            update[level] = current_idx;
            proof {
                ps = ps.update(level as int, cur_pos);
            }
        }
        (update, Ghost(ps))
    }

    /// The number of bytes that the keys and values of the list hold.
    pub closed spec fn bytes_size(&self) -> nat {
        entries_size(self.kv_seq())
    }

    /// Draws the height of a new node: one, plus one for each of a run of
    /// heads of fair coin tosses, at most `MAX_HEIGHT`.
    fn random_height(&self) -> (h: usize)
        ensures
            1 <= h <= MAX_HEIGHT,
    {
        let mut height: usize = 1;
        loop
            invariant
                1 <= height <= MAX_HEIGHT,
            decreases MAX_HEIGHT - height,
        {
            if height >= MAX_HEIGHT {
                break ;
            }
            if !random_bool() {
                break ;
            }
            height = height + 1;
        }
        height
    }

    /// Raises the head to `h` levels where it has fewer; the new levels link
    /// to nothing.
    fn grow_head(&mut self, h: usize)
        requires
            old(self).wf(),
            1 <= h <= MAX_HEIGHT,
        ensures
            final(self).wf(),
            final(self).kv_seq() == old(self).kv_seq(),
            final(self).order@ == old(self).order@,
            final(self).heights() == old(self).heights(),
            final(self).current_height >= h,
            final(self).current_height >= old(self).current_height,
            final(self).nodes@.len() == old(self).nodes@.len(),
    {
        if h > self.current_height {
            let ghost pre = *self;
            let head = self.head;
            self.nodes[head].next.resize(h, None);
            self.current_height = h;
            proof {
                let hs = pre.heights();
                assert forall|x: int| 0 <= x < self.nodes@.len() && x != 0 implies self.nodes@[x]
                    == pre.nodes@[x] by {}
                assert forall|p: int| 0 <= p < self.order@.len() implies self.order@[p] != 0 by {}
                assert(self.kv_seq() =~= pre.kv_seq());
                assert(self.heights() =~= hs);
                assert forall|p: int, l: int|
                    -1 <= p < self.order@.len() && 0 <= l < self.ht(
                        self.node_at(p),
                    ) implies #[trigger] self.link(self.node_at(p), l) == self.link_to(
                    first_at(self.heights(), l as nat, p + 1),
                ) by {
                    if p == -1 && l >= pre.current_height {
                        assert forall|r: int| 0 <= r < hs.len() implies hs[r] <= l by {}
                        lemma_first_at_char(hs, l as nat, 0, hs.len() as int);
                        assert(self.nodes@[0].next@[l] == None::<usize>);
                    } else if p == -1 {
                        assert(self.nodes@[0].next@.subrange(0, pre.ht(0) as int)[l] == self.link(
                            0,
                            l,
                        ));
                        assert(pre.link(pre.node_at(p), l) == pre.link_to(
                            first_at(hs, l as nat, p + 1),
                        ));
                    } else {
                        assert(pre.link(pre.node_at(p), l) == pre.link_to(
                            first_at(hs, l as nat, p + 1),
                        ));
                    }
                }
            }
        }
    }

    /// Adds a node for a key that the list does not hold.
    fn insert_new(&mut self, key: Vec<u8>, value: Vec<u8>)
        requires
            old(self).wf(),
            !has_key(old(self).kv_seq(), key@),
            old(self).bytes_size() + key@.len() + value@.len() <= usize::MAX,
        ensures
            final(self).wf(),
            exists|ip: int|
                0 <= ip <= old(self).kv_seq().len() && final(self).kv_seq() == old(
                    self,
                ).kv_seq().insert(ip, (key@, Some(value@))),
    {
        let node_height = self.random_height();
        self.grow_head(node_height);
        let ghost pre = *self;
        let (update, Ghost(ps)) = self.get_nearest_node_idxes_by_key(key.as_slice());
        proof {
            lemma_predecessors_place(pre, ps, update@, key@);
        }
        let new_node_idx = self.nodes.len();
        let key_len = key.len();
        let value_len = value.len();
        let ghost key_v = key@;
        let ghost value_v = value@;
        let new_node = SkipListNode { key, value: Some(value), next: vec![None; node_height] };
        self.nodes.push(new_node);
        let ghost base = *self;
        let mut level: usize = 0;
        while level < node_height
            invariant
                pre.wf(),
                predecessors_ok(pre, ps, update@, key_v),
                node_height <= pre.current_height,
                level <= node_height,
                new_node_idx == pre.nodes@.len(),
                self.head == pre.head,
                self.current_height == pre.current_height,
                self.order@ == pre.order@,
                self.total_keys == pre.total_keys,
                self.total_bytes_size == pre.total_bytes_size,
                self.nodes@.len() == new_node_idx + 1,
                base.nodes@.len() == new_node_idx + 1,
                forall|x: int|
                    0 <= x < pre.nodes@.len() ==> base.nodes@[x] == pre.nodes@[x],
                base.nodes@[new_node_idx as int].next@.len() == node_height,
                forall|l: int|
                    0 <= l < node_height ==> base.nodes@[new_node_idx as int].next@[l] == None::<
                        usize,
                    >,
                forall|x: int|
                    0 <= x <= new_node_idx ==> (#[trigger] self.nodes@[x]).key == base.nodes@[x].key
                        && self.nodes@[x].value == base.nodes@[x].value
                        && self.nodes@[x].next@.len() == base.nodes@[x].next@.len(),
                forall|x: usize, l: int|
                    0 <= x <= new_node_idx && 0 <= l < base.ht(x) ==> #[trigger] self.link(x, l)
                        == spliced_link(base, update@, new_node_idx, x, l, level as int),
            decreases node_height - level,
        {
            let prev_idx = update[level];
            proof {
                let pl = ps[level as int];
                assert(update@[level as int] == pre.node_at(pl));
                if pl >= 0 {
                    assert(pre.order@[pl] < pre.nodes@.len());
                }
                assert(self.link(prev_idx, level as int) == base.link(prev_idx, level as int));
            }
            let ghost before = *self;
            let next_idx = self.nodes[prev_idx].next[level];
            self.nodes[prev_idx].next[level] = Some(new_node_idx);
            self.nodes[new_node_idx].next[level] = next_idx;
            proof {
                assert(prev_idx < new_node_idx);
                assert forall|x: int|
                    0 <= x <= new_node_idx implies (#[trigger] self.nodes@[x]).key == base.nodes@[x].key
                    && self.nodes@[x].value == base.nodes@[x].value && self.nodes@[x].next@.len()
                    == base.nodes@[x].next@.len() by {
                    assert(before.nodes@[x].key == base.nodes@[x].key);
                }
                assert forall|x: usize, l: int|
                    0 <= x <= new_node_idx && 0 <= l < base.ht(x) implies #[trigger] self.link(x, l)
                    == spliced_link(base, update@, new_node_idx, x, l, level + 1) by {
                    assert(before.link(x, l) == spliced_link(
                        base,
                        update@,
                        new_node_idx,
                        x,
                        l,
                        level as int,
                    ));
                    assert(before.nodes@[x as int].next@.len() == base.nodes@[x as int].next@.len());
                    if x == prev_idx && l == level {
                    } else if x == new_node_idx && l == level {
                    } else {
                        assert(self.link(x, l) == before.link(x, l));
                    }
                }
            }
            level = level + 1;
        }
        let ghost linked = *self;
        proof {
            assert forall|x: usize, l: int|
                0 <= x <= new_node_idx && 0 <= l < linked.ht(x) implies #[trigger] linked.link(x, l)
                == spliced_link(base, update@, new_node_idx, x, l, node_height as int) by {
                assert(linked.nodes@[x as int].next@.len() == base.nodes@[x as int].next@.len());
            }
        }
        self.total_keys = self.total_keys + 1;
        self.total_bytes_size = self.total_bytes_size + key_len + value_len;
        proof {
            assert(self.nodes@ == linked.nodes@);
            self.order@ = pre.order@.insert(ps[0] + 1, new_node_idx);
            assert forall|x: usize, l: int|
                0 <= x <= new_node_idx && 0 <= l < self.ht(x) implies #[trigger] self.link(x, l)
                == if x == new_node_idx {
                pre.link(update@[l], l)
            } else if l < node_height && x == update@[l] {
                Some(new_node_idx)
            } else {
                pre.link(x, l)
            } by {
                assert(linked.link(x, l) == self.link(x, l));
                assert(spliced_link(base, update@, new_node_idx, x, l, node_height as int)
                    == self.link(x, l));
                if x == new_node_idx {
                    let pl = ps[l];
                    if pl >= 0 {
                        assert(pre.order@[pl] < pre.nodes@.len());
                    }
                }
            }
            lemma_splice_wf(
                pre,
                *self,
                ps,
                update@,
                new_node_idx,
                node_height as nat,
                key_v,
                value_v,
            );
        }
    }

    /// The number of bytes that the keys and values of the list hold: the
    /// sum over its sorted listing of each key's length and its value's.
    pub fn get_bytes_size(&self) -> (r: usize)
        requires
            self.wf(),
        ensures
            r == self.bytes_size(),
            forall|s: Seq<Entry>|
                sorted_keys(s) && entries_of(s) == self.entries() ==> r == entries_size(s),
    {
        proof {
            assert forall|s: Seq<Entry>|
                sorted_keys(s) && entries_of(s) == self.entries() implies self.total_bytes_size
                == entries_size(s) by {
                crate::entries::lemma_sorted_listing_unique(s, self.kv_seq());
            }
        }
        self.total_bytes_size
    }
}

/// The number of bytes of an optional value.
pub open spec fn value_size(v: Option<Seq<u8>>) -> nat {
    match v {
        Some(b) => b.len(),
        None => 0,
    }
}

impl MemTable for SkipListMemTable {
    open spec fn entries(&self) -> Map<Seq<u8>, Option<Seq<u8>>> {
        entries_of(self.kv_seq())
    }

    open spec fn inv(&self) -> bool {
        self.wf()
    }

    /// The byte counter takes the new key and value, less the old value.
    open spec fn can_put(&self, key: Seq<u8>, value: Seq<u8>) -> bool {
        if self.entries().contains_key(key) {
            self.bytes_size() - value_size(self.entries()[key]) + value.len() <= usize::MAX
        } else {
            self.bytes_size() + key.len() + value.len() <= usize::MAX
        }
    }

    fn put(&mut self, key: Vec<u8>, value: Vec<u8>)
        ensures
            final(self).bytes_size() == old(self).bytes_size() - value_size(
                old(self).entries().get(key@).unwrap_or(None),
            ) + (if old(self).entries().contains_key(key@) {
                0
            } else {
                key@.len()
            }) + value@.len(),
    {
        // find and replace if existing node
        if let Some(node_idx) = self.get_node_idx_by_key(key.as_slice()) {
            let ghost pre = *self;
            let ghost p = position_of(pre.kv_seq(), key@);
            proof {
                lemma_entries_at(pre.kv_seq(), p);
                crate::entries::lemma_entries_size_update(
                    pre.kv_seq(),
                    p,
                    (key@, Some(value@)),
                );
                crate::entries::lemma_entries_update(pre.kv_seq(), p, Some(value@));
            }
            let old_value_size = match &self.nodes[node_idx].value {
                Some(v) => v.len(),
                None => 0,
            };
            let new_value_size = value.len();
            self.nodes[node_idx].value = Some(value);
            self.total_bytes_size = self.total_bytes_size - old_value_size;
            self.total_bytes_size = self.total_bytes_size + new_value_size;
            proof {
                assert forall|q: int| 0 <= q < pre.order@.len() && q != p implies pre.order@[q]
                    != node_idx by {
                    if pre.order@[q] == node_idx {
                        crate::entries::lemma_sorted_unique(pre.kv_seq(), p, q);
                    }
                }
                assert(self.kv_seq() =~= pre.kv_seq().update(p, (key@, Some(value@))));
                assert(self.heights() =~= pre.heights());
                assert forall|q: int, l: int|
                    -1 <= q < self.order@.len() && 0 <= l < self.ht(
                        self.node_at(q),
                    ) implies #[trigger] self.link(self.node_at(q), l) == self.link_to(
                    first_at(self.heights(), l as nat, q + 1),
                ) by {
                    assert(pre.link(pre.node_at(q), l) == pre.link_to(
                        first_at(pre.heights(), l as nat, q + 1),
                    ));
                }
                assert forall|q: int| 0 <= q < self.order@.len() implies 1 <= #[trigger] self.heights()[q]
                    <= self.current_height by {
                    assert(pre.heights()[q] == self.heights()[q]);
                }
            }
            return ;
        }
        proof {
            crate::entries::lemma_entries_absent(self.kv_seq(), key@);
        }
        let ghost pre = *self;
        self.insert_new(key, value);
        proof {
            let ip = choose|ip: int|
                0 <= ip <= pre.kv_seq().len() && self.kv_seq() == pre.kv_seq().insert(
                    ip,
                    (key@, Some(value@)),
                );
            assert forall|i: int| 0 <= i < pre.kv_seq().len() implies (#[trigger] pre.kv_seq()[i]).0
                != key@ by {}
            let s = pre.kv_seq();
            // the new key sits between smaller and greater keys
            assert forall|i: int| 0 <= i < ip implies key_lt(#[trigger] s[i].0, key@) by {
                assert(self.kv_seq()[i] == s[i]);
                assert(self.kv_seq()[ip].0 == key@);
            }
            assert forall|i: int| ip <= i < s.len() implies key_lt(key@, #[trigger] s[i].0) by {
                assert(self.kv_seq()[i + 1] == s[i]);
                assert(self.kv_seq()[ip].0 == key@);
            }
            crate::entries::lemma_entries_insert(s, ip, (key@, Some(value@)));
            crate::entries::lemma_entries_size_insert(s, ip, (key@, Some(value@)));
        }
    }

    fn get(&self, key: &[u8]) -> (r: Option<String>) {
        let node_idx = match self.get_node_idx_by_key(key) {
            Some(i) => i,
            None => {
                proof {
                    crate::entries::lemma_entries_absent(self.kv_seq(), key@);
                }
                return None;
            },
        };
        proof {
            let p = position_of(self.kv_seq(), key@);
            lemma_entries_at(self.kv_seq(), p);
        }
        match &self.nodes[node_idx].value {
            Some(v) => string_from_utf8(copy_bytes(v)),
            None => None,
        }
    }

    fn delete(&mut self, key: &[u8])
        ensures
            final(self).entries() == if old(self).entries().contains_key(key@) {
                old(self).entries().insert(key@, None)
            } else {
                old(self).entries()
            },
            final(self).bytes_size() == old(self).bytes_size() - value_size(
                old(self).entries().get(key@).unwrap_or(None),
            ),
    {
        if let Some(node_idx) = self.get_node_idx_by_key(key) {
            let ghost pre = *self;
            let ghost p = position_of(pre.kv_seq(), key@);
            proof {
                lemma_entries_at(pre.kv_seq(), p);
                crate::entries::lemma_entries_size_update(pre.kv_seq(), p, (key@, None));
                crate::entries::lemma_entries_update(pre.kv_seq(), p, None);
            }
            let old_value_size = match &self.nodes[node_idx].value {
                Some(v) => v.len(),
                None => 0,
            };
            self.total_bytes_size = self.total_bytes_size - old_value_size;
            self.nodes[node_idx].value = None;
            proof {
                assert forall|q: int| 0 <= q < pre.order@.len() && q != p implies pre.order@[q]
                    != node_idx by {
                    if pre.order@[q] == node_idx {
                        crate::entries::lemma_sorted_unique(pre.kv_seq(), p, q);
                    }
                }
                assert(self.kv_seq() =~= pre.kv_seq().update(p, (key@, None)));
                assert(self.heights() =~= pre.heights());
                assert forall|q: int, l: int|
                    -1 <= q < self.order@.len() && 0 <= l < self.ht(
                        self.node_at(q),
                    ) implies #[trigger] self.link(self.node_at(q), l) == self.link_to(
                    first_at(self.heights(), l as nat, q + 1),
                ) by {
                    assert(pre.link(pre.node_at(q), l) == pre.link_to(
                        first_at(pre.heights(), l as nat, q + 1),
                    ));
                }
                assert forall|q: int| 0 <= q < self.order@.len() implies 1 <= #[trigger] self.heights()[q]
                    <= self.current_height by {
                    assert(pre.heights()[q] == self.heights()[q]);
                }
            }
        } else {
            proof {
                crate::entries::lemma_entries_absent(self.kv_seq(), key@);
            }
        }
    }

    fn size(&self) -> (n: usize) {
        proof {
            lemma_entries_len(self.kv_seq());
        }
        self.total_keys
    }

    fn get_all_keys(&self) -> (r: Vec<(Vec<u8>, Option<Vec<u8>>)>) {
        let ghost hs = self.heights();
        let ghost s = self.kv_seq();
        let mut result: Vec<(Vec<u8>, Option<Vec<u8>>)> = Vec::new();
        proof {
            lemma_first_at_char(hs, 0, 0, 0);
            assert(self.link(self.node_at(-1), 0) == self.link_to(first_at(hs, 0, 0)));
        }
        let mut current = self.nodes[self.head].next[0];
        let ghost mut i: int = 0;
        loop
            invariant
                self.wf(),
                hs == self.heights(),
                s == self.kv_seq(),
                0 <= i <= s.len(),
                current == self.link_to(i),
                entries_view(result@) == s.subrange(0, i),
            ensures
                entries_view(result@) == s,
            decreases s.len() - i,
        {
            match current {
                Some(idx) => {
                    let ghost pre_result = result@;
                    let key = copy_bytes(&self.nodes[idx].key);
                    let value = copy_value(&self.nodes[idx].value);
                    result.push((key, value));
                    proof {
                        assert(entries_view(result@) =~= s.subrange(0, i + 1)) by {
                            assert(entries_view(result@) =~= entries_view(pre_result).push(
                                entry_of((key, value)),
                            ));
                        }
                        lemma_first_at_char(hs, 0, i + 1, i + 1);
                        assert(hs[i] >= 1);
                        assert(self.link(self.node_at(i), 0) == self.link_to(
                            first_at(hs, 0, i + 1),
                        ));
                    }
                    current = self.nodes[idx].next[0];
                    proof {
                        i = i + 1;
                    }
                },
                None => {
                    assert(s.subrange(0, i) =~= s);
                    break ;
                },
            }
        }
        result
    }
}

} // verus!
