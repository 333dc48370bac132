//! The tree: a concrete key type, the node envelope over the tiers, the
//! recursive lookup semantics (`lookup_hist`), and the persistent insert,
//! remove and point-in-time read operations with their invariants.

use std::sync::Arc;
use vstd::pervasive::unreached;
use vstd::prelude::*;

use crate::node::{
    is_max_child_ts, max64, FlatNode, LeafValue, Node256, Node48, NodeTrait, Timestamp, TwigNode,
};
use crate::prefix::{prefix_eq, Prefix};

verus! {

/// A variable-length byte-sequence key: the key shape the tree routes on.
pub struct VariableSizedKey {
    pub data: Vec<u8>,
}

impl VariableSizedKey {
    /// A key holding the given bytes.
    pub fn from_slice(src: &[u8]) -> (r: Self)
        ensures
            r.pwf(),
            r.spec_bytes() == src@,
    {
        let mut data: Vec<u8> = Vec::new();
        let n = src.len();
        let mut i: usize = 0;
        while i < n
            invariant
                n == src@.len(),
                i <= n,
                data@.len() == i,
                forall|j: int| 0 <= j < i ==> data@[j] == src@[j],
            decreases n - i,
        {
            data.push(src[i]);
            i = i + 1;
        }
        proof {
            assert(data@ =~= src@);
        }
        VariableSizedKey { data }
    }

    /// A key holding `v` as eight big-endian bytes.
    pub fn from_u64(v: u64) -> (r: Self)
        ensures
            r.pwf(),
            r.spec_bytes().len() == 8,
            forall|i: int|
                0 <= i < 8 ==> r.spec_bytes()[i] == ((v >> ((7 - i) * 8)) & 0xff) as u8,
    {
        let mut data: Vec<u8> = Vec::new();
        let mut i: usize = 0;
        while i < 8
            invariant
                i <= 8,
                data@.len() == i,
                forall|j: int| 0 <= j < i ==> data@[j] == ((v >> ((7 - j) * 8)) & 0xff) as u8,
            decreases 8 - i,
        {
            let shift: u64 = (7 - i as u64) * 8;
            let byte: u8 = ((v >> shift) & 0xff) as u8;
            data.push(byte);
            i = i + 1;
        }
        VariableSizedKey { data }
    }

    /// The key starting at offset `off`.
    pub fn sub_key(&self, off: usize) -> (r: Self)
        requires
            self.pwf(),
            off <= self.spec_bytes().len(),
        ensures
            r.pwf(),
            r.spec_bytes() == self.spec_bytes().subrange(off as int, self.spec_bytes().len() as int),
    {
        let mut data: Vec<u8> = Vec::new();
        let n = self.data.len();
        let mut i: usize = off;
        while i < n
            invariant
                self.pwf(),
                n == self.spec_bytes().len(),
                off <= i <= n,
                data@.len() == i - off,
                forall|j: int| 0 <= j < i - off ==> data@[j] == self.spec_bytes()[j + off],
            decreases n - i,
        {
            data.push(self.data[i]);
            i = i + 1;
        }
        proof {
            assert(data@ =~= self.spec_bytes().subrange(
                off as int,
                self.spec_bytes().len() as int,
            ));
        }
        VariableSizedKey { data }
    }

    /// The key holding bytes `[from, to)` of this key.
    pub fn sub_range(&self, from: usize, to: usize) -> (r: Self)
        requires
            self.pwf(),
            from <= to <= self.spec_bytes().len(),
        ensures
            r.pwf(),
            r.spec_bytes() == self.spec_bytes().subrange(from as int, to as int),
    {
        let mut data: Vec<u8> = Vec::new();
        let mut i: usize = from;
        while i < to
            invariant
                self.pwf(),
                from <= i <= to <= self.spec_bytes().len(),
                data@.len() == i - from,
                forall|j: int| 0 <= j < i - from ==> data@[j] == self.spec_bytes()[j + from],
            decreases to - i,
        {
            data.push(self.data[i]);
            i = i + 1;
        }
        proof {
            assert(data@ =~= self.spec_bytes().subrange(from as int, to as int));
        }
        VariableSizedKey { data }
    }

    /// The length of the longest common prefix of `self` starting at `from`
    /// and `other` starting at 0.
    pub fn common_prefix_len(&self, from: usize, other: &VariableSizedKey) -> (r: usize)
        requires
            self.pwf(),
            other.pwf(),
            from <= self.spec_bytes().len(),
        ensures
            r <= self.spec_bytes().len() - from,
            r <= other.spec_bytes().len(),
            forall|j: int| 0 <= j < r ==> self.spec_bytes()[from + j] == other.spec_bytes()[j],
            r < self.spec_bytes().len() - from && r < other.spec_bytes().len()
                ==> self.spec_bytes()[from + r] != other.spec_bytes()[r as int],
    {
        let n = self.data.len();
        let m = other.data.len();
        let mut r: usize = 0;
        while from + r < n && r < m && self.data[from + r] == other.data[r]
            invariant
                self.pwf(),
                other.pwf(),
                n == self.spec_bytes().len(),
                m == other.spec_bytes().len(),
                from <= n,
                r <= n - from,
                r <= m,
                forall|j: int| 0 <= j < r ==> self.spec_bytes()[from + j] == other.spec_bytes()[j],
            decreases n - from - r,
        {
            r = r + 1;
        }
        r
    }
}

impl Prefix for VariableSizedKey {
    open spec fn spec_bytes(&self) -> Seq<u8> {
        self.data@
    }

    open spec fn pwf(&self) -> bool {
        true
    }

    fn duplicate(&self) -> (r: Self) {
        VariableSizedKey::from_slice(self.data.as_slice())
    }

    fn length(&self) -> (r: usize) {
        self.data.len()
    }

    fn at(&self, i: usize) -> (r: u8) {
        self.data[i]
    }
}

/// The reasons an operation on the tree can fail.
#[derive(Debug, PartialEq, Eq, Structural)]
pub enum TrieError {
    KeyNotFound,
    SnapshotNotFound,
    SnapshotAlreadyClosed,
    InvalidPrefix,
}

/// The concrete shape of one node: a terminal twig or one of the four
/// adaptive interior tiers.
pub enum NodeType<V> {
    Twig(TwigNode<VariableSizedKey, V>),
    Node4(FlatNode<VariableSizedKey, Node<V>, 4>),
    Node16(FlatNode<VariableSizedKey, Node<V>, 16>),
    Node48(Node48<VariableSizedKey, Node<V>>),
    Node256(Node256<VariableSizedKey, Node<V>>),
}

/// The node envelope: one tree node of any tier.
pub struct Node<V> {
    pub node_type: NodeType<V>,
}

impl<V> Timestamp for Node<V> {
    open spec fn spec_ts(&self) -> u64 {
        match self.node_type {
            NodeType::Twig(ref t) => t.ts,
            NodeType::Node4(ref n) => n.ts,
            NodeType::Node16(ref n) => n.ts,
            NodeType::Node48(ref n) => n.ts,
            NodeType::Node256(ref n) => n.ts,
        }
    }

    fn ts(&self) -> u64 {
        match self.node_type {
            NodeType::Twig(ref t) => t.ts,
            NodeType::Node4(ref n) => n.ts,
            NodeType::Node16(ref n) => n.ts,
            NodeType::Node48(ref n) => n.ts,
            NodeType::Node256(ref n) => n.ts,
        }
    }
}

impl<V> Node<V> {
    /// The node's compressed path prefix.
    pub open spec fn prefix_bytes(&self) -> Seq<u8> {
        match self.node_type {
            NodeType::Twig(ref t) => t.prefix.spec_bytes(),
            NodeType::Node4(ref n) => n.prefix.spec_bytes(),
            NodeType::Node16(ref n) => n.prefix.spec_bytes(),
            NodeType::Node48(ref n) => n.prefix.spec_bytes(),
            NodeType::Node256(ref n) => n.prefix.spec_bytes(),
        }
    }

    pub open spec fn spec_is_twig(&self) -> bool {
        self.node_type is Twig
    }

    /// The children of an interior node, by routing byte.
    pub open spec fn kids(&self) -> Map<u8, Node<V>> {
        match self.node_type {
            NodeType::Twig(_) => Map::empty(),
            NodeType::Node4(ref n) => n.children(),
            NodeType::Node16(ref n) => n.children(),
            NodeType::Node48(ref n) => n.children(),
            NodeType::Node256(ref n) => n.children(),
        }
    }

    /// The number of children of an interior node.
    pub open spec fn kid_count(&self) -> nat {
        match self.node_type {
            NodeType::Twig(_) => 0,
            NodeType::Node4(ref n) => n.child_count(),
            NodeType::Node16(ref n) => n.child_count(),
            NodeType::Node48(ref n) => n.child_count(),
            NodeType::Node256(ref n) => n.child_count(),
        }
    }

    /// Which shape this node has: 0 for a twig, then the four interior
    /// tiers in ascending capacity.
    pub open spec fn tier(&self) -> int {
        match self.node_type {
            NodeType::Twig(_) => 0,
            NodeType::Node4(_) => 1,
            NodeType::Node16(_) => 2,
            NodeType::Node48(_) => 3,
            NodeType::Node256(_) => 4,
        }
    }

    /// Tier occupancy: each interior tier holds more children than the next
    /// smaller tier could, so the adaptive layout is never wasteful.
    pub open spec fn occupancy_ok(&self) -> bool {
        &&& (self.tier() == 1 ==> self.kid_count() >= 2)
        &&& (self.tier() == 2 ==> self.kid_count() >= 5)
        &&& (self.tier() == 3 ==> self.kid_count() >= 17)
        &&& (self.tier() == 4 ==> self.kid_count() >= 49)
    }

    /// The timestamped entries of a twig, as `(key bytes, value, ts)`.
    pub open spec fn twig_entries(&self) -> Seq<LeafValue<VariableSizedKey, V>> {
        match self.node_type {
            NodeType::Twig(ref t) => t.entries(),
            _ => Seq::empty(),
        }
    }

    /// Structural well-formedness of this node alone (not of the subtree).
    pub open spec fn shallow_wf(&self) -> bool {
        match self.node_type {
            NodeType::Twig(ref t) => t.twig_wf(),
            NodeType::Node4(ref n) => n.nwf(),
            NodeType::Node16(ref n) => n.nwf(),
            NodeType::Node48(ref n) => n.nwf(),
            NodeType::Node256(ref n) => n.nwf(),
        }
    }

    pub fn is_twig(&self) -> (r: bool)
        ensures
            r == self.spec_is_twig(),
    {
        match self.node_type {
            NodeType::Twig(_) => true,
            _ => false,
        }
    }
}

/// The history that a lookup for `key`, starting at offset `depth`, reaches
/// in the subtree under `n`: the matching twig's entries for that key, or the
/// empty sequence when the descent fails. This sequence is what the tree
/// semantically stores under `key`.
pub open spec fn lookup_hist<V>(n: Node<V>, key: Seq<u8>, depth: int) -> Seq<
    LeafValue<VariableSizedKey, V>,
>
    decreases key.len() - depth,
{
    let p = n.prefix_bytes();
    if depth < 0 || depth + p.len() > key.len() || key.subrange(depth, depth + p.len() as int) != p {
        Seq::empty()
    } else if n.spec_is_twig() {
        twig_hist(n.twig_entries(), key)
    } else if depth + p.len() == key.len() {
        Seq::empty()
    } else {
        let b = key[depth + p.len() as int];
        if n.kids().dom().contains(b) {
            lookup_hist(n.kids()[b], key, depth + p.len() + 1)
        } else {
            Seq::empty()
        }
    }
}

/// The entries of a twig that record exactly `key`, in stored order.
pub open spec fn twig_hist<V>(
    entries: Seq<LeafValue<VariableSizedKey, V>>,
    key: Seq<u8>,
) -> Seq<LeafValue<VariableSizedKey, V>>
    decreases entries.len(),
{
    if entries.len() == 0 {
        Seq::empty()
    } else {
        let rest = twig_hist(entries.drop_last(), key);
        if entries.last().key.spec_bytes() == key {
            rest.push(entries.last())
        } else {
            rest
        }
    }
}

/// A fresh twig holding one entry `(key, value, ts)` under the path suffix
/// `prefix`.
fn make_twig<V>(prefix: VariableSizedKey, key: &VariableSizedKey, value: V, ts: u64) -> (r: Node<
    V,
>)
    ensures
        r.spec_is_twig(),
        r.node_ok(),
        r.deep_ok(),
        r.prefix_bytes() == prefix.spec_bytes(),
        r.twig_entries().len() == 1,
        r.twig_entries()[0].key.spec_bytes() == key.spec_bytes(),
        r.twig_entries()[0].value == value,
        r.twig_entries()[0].ts == ts,
        r.spec_ts() == ts,
        r.kids() =~= Map::<u8, Node<V>>::empty(),
        forall|base: Seq<u8>|
            base + prefix.spec_bytes() == key.spec_bytes() ==> #[trigger] keys_placed(r, base),
{
    let t0: TwigNode<VariableSizedKey, V> = TwigNode::new(prefix);
    let t1 = t0.insert(key, value, ts);
    let r = Node { node_type: NodeType::Twig(t1) };
    proof {
        let kb = key.spec_bytes();
        assert(!(exists|i: int| t0.at_key_ts(kb, ts, i)));
        let p = choose|p: int|
            {
                &&& 0 <= p <= t0.entries().len()
                &&& forall|j: int| 0 <= j < p ==> (#[trigger] t0.entries()[j]).ts < ts
                &&& (p < t0.entries().len() ==> t0.entries()[p].ts >= ts)
                &&& #[trigger] t1.entries()[p].key.spec_bytes() == kb
                &&& t1.entries()[p].value == value
                &&& t1.entries()[p].ts == ts
                &&& forall|j: int| 0 <= j < p ==> t1.entries()[j] == t0.entries()[j]
                &&& forall|j: int|
                    p <= j < t0.entries().len() ==> t1.entries()[j + 1] == t0.entries()[j]
            };
        assert(p == 0);
        assert(t1.entries().len() == 1);
        assert(t1.is_entries_max_ts(t1.ts));
        assert(t1.ts == ts);
        lemma_deep_ok_fold(r);
        assert forall|base: Seq<u8>| base + r.prefix_bytes() == key.spec_bytes() implies
            #[trigger] keys_placed(r, base) by {
            assert(r.twig_entries()[0].key.spec_bytes() == base + r.prefix_bytes());
        }
    }
    r
}

/// Membership in the per-key history: it holds exactly the entries whose key
/// matches.
pub proof fn lemma_twig_hist_props<V>(entries: Seq<LeafValue<VariableSizedKey, V>>, key: Seq<u8>)
    ensures
        forall|i: int|
            0 <= i < twig_hist(entries, key).len() ==> (#[trigger] twig_hist(entries, key).index(
                i,
            )).key.spec_bytes() == key && entries.contains(twig_hist(entries, key)[i]),
        forall|j: int|
            0 <= j < entries.len() && (#[trigger] entries[j]).key.spec_bytes() == key ==> twig_hist(
                entries,
                key,
            ).contains(entries[j]),
    decreases entries.len(),
{
    if entries.len() > 0 {
        let sub = entries.drop_last();
        lemma_twig_hist_props(sub, key);
        let out = twig_hist(entries, key);
        let rest = twig_hist(sub, key);
        assert forall|i: int| 0 <= i < out.len() implies (#[trigger] out[i]).key.spec_bytes() == key
            && entries.contains(out[i]) by {
            if entries.last().key.spec_bytes() == key && i == out.len() - 1 {
                assert(out[i] == entries.last());
                assert(entries[entries.len() - 1] == entries.last());
            } else {
                assert(out[i] == rest[i]);
                assert(sub.contains(rest[i]));
                let j = choose|j: int| 0 <= j < sub.len() && sub[j] == rest[i];
                assert(entries[j] == rest[i]);
            }
        }
        assert forall|j: int|
            0 <= j < entries.len() && (#[trigger] entries[j]).key.spec_bytes() == key implies
            out.contains(entries[j]) by {
            if j == entries.len() - 1 {
                assert(out[out.len() - 1] == entries.last());
            } else {
                assert(sub[j] == entries[j]);
                assert(rest.contains(sub[j]));
                let a = choose|a: int| 0 <= a < rest.len() && rest[a] == sub[j];
                if entries.last().key.spec_bytes() == key {
                    assert(out[a] == rest[a]);
                } else {
                    assert(out[a] == rest[a]);
                }
            }
        }
    }
}

/// `t` is the maximum timestamp among `entries`, or 0 with a positive
/// timestamp in none of them.
pub open spec fn entries_max_ok<V>(entries: Seq<LeafValue<VariableSizedKey, V>>, t: u64) -> bool {
    &&& forall|i: int| 0 <= i < entries.len() ==> (#[trigger] entries[i]).ts <= t
    &&& (t == 0 || exists|i: int| 0 <= i < entries.len() && (#[trigger] entries[i]).ts == t)
}

/// The node reached from `n` by following the routing bytes of `path`.
pub open spec fn node_at<V>(n: Node<V>, path: Seq<u8>) -> Option<Node<V>>
    decreases path.len(),
{
    if path.len() == 0 {
        Some(n)
    } else if n.kids().dom().contains(path[0]) {
        node_at(n.kids()[path[0]], path.subrange(1, path.len() as int))
    } else {
        None
    }
}

impl<V> Node<V> {
    /// This node's own timestamp aggregation is right: an interior node's
    /// `ts` is the maximum over its children, a twig's the maximum over its
    /// entries (0 when it has none).
    pub open spec fn node_ts_ok(&self) -> bool {
        if self.spec_is_twig() {
            if self.twig_entries().len() == 0 {
                self.spec_ts() == 0
            } else {
                entries_max_ok(self.twig_entries(), self.spec_ts())
            }
        } else {
            is_max_child_ts(self.kids(), self.spec_ts())
        }
    }

    /// One node is in order: structurally well-formed, timestamp aggregation
    /// right, and a twig's entries all record one key, each timestamp once.
    pub open spec fn node_ok(&self) -> bool {
        &&& self.shallow_wf()
        &&& self.node_ts_ok()
        &&& self.occupancy_ok()
        &&& (self.spec_is_twig() ==> {
            &&& forall|i: int, j: int|
                0 <= i < self.twig_entries().len() && 0 <= j < self.twig_entries().len() ==> (
                #[trigger] self.twig_entries()[i]).key.spec_bytes() == (
                #[trigger] self.twig_entries()[j]).key.spec_bytes()
            &&& forall|i: int, j: int|
                0 <= i < j < self.twig_entries().len() ==> (#[trigger] self.twig_entries()[i]).ts
                    != (#[trigger] self.twig_entries()[j]).ts
        })
    }

    /// Every node of the subtree is in order.
    pub open spec fn deep_ok(&self) -> bool {
        forall|path: Seq<u8>|
            (#[trigger] node_at(*self, path)) is Some ==> node_at(*self, path).unwrap().node_ok()
    }

    /// The node's prefix length.
    pub fn plen(&self) -> (r: usize)
        requires
            self.shallow_wf(),
        ensures
            r == self.prefix_bytes().len(),
    {
        match self.node_type {
            NodeType::Twig(ref t) => t.prefix.length(),
            NodeType::Node4(ref n) => n.prefix.length(),
            NodeType::Node16(ref n) => n.prefix.length(),
            NodeType::Node48(ref n) => n.prefix.length(),
            NodeType::Node256(ref n) => n.prefix.length(),
        }
    }

    /// The prefix byte at index `i`.
    pub fn pat(&self, i: usize) -> (r: u8)
        requires
            self.shallow_wf(),
            i < self.prefix_bytes().len(),
        ensures
            r == self.prefix_bytes()[i as int],
    {
        match self.node_type {
            NodeType::Twig(ref t) => t.prefix.at(i),
            NodeType::Node4(ref n) => n.prefix.at(i),
            NodeType::Node16(ref n) => n.prefix.at(i),
            NodeType::Node48(ref n) => n.prefix.at(i),
            NodeType::Node256(ref n) => n.prefix.at(i),
        }
    }

    /// The node's prefix as a key value.
    pub fn prefix_key(&self) -> (r: &VariableSizedKey)
        ensures
            r.spec_bytes() == self.prefix_bytes(),
            r.pwf(),
    {
        match self.node_type {
            NodeType::Twig(ref t) => &t.prefix,
            NodeType::Node4(ref n) => &n.prefix,
            NodeType::Node16(ref n) => &n.prefix,
            NodeType::Node48(ref n) => &n.prefix,
            NodeType::Node256(ref n) => &n.prefix,
        }
    }

    /// The same node under another path prefix.
    pub fn with_prefix(&self, prefix: VariableSizedKey) -> (r: Node<V>)
        requires
            self.shallow_wf(),
        ensures
            r.shallow_wf(),
            r.prefix_bytes() == prefix.spec_bytes(),
            r.kids() == self.kids(),
            r.kid_count() == self.kid_count(),
            r.twig_entries() == self.twig_entries(),
            r.spec_is_twig() == self.spec_is_twig(),
            r.spec_ts() == self.spec_ts(),
            r.tier() == self.tier(),
    {
        match self.node_type {
            NodeType::Twig(ref t) => Node { node_type: NodeType::Twig(t.with_prefix(prefix)) },
            NodeType::Node4(ref n) => Node { node_type: NodeType::Node4(n.with_prefix(prefix)) },
            NodeType::Node16(ref n) => Node { node_type: NodeType::Node16(n.with_prefix(prefix)) },
            NodeType::Node48(ref n) => Node { node_type: NodeType::Node48(n.with_prefix(prefix)) },
            NodeType::Node256(ref n) => Node {
                node_type: NodeType::Node256(n.with_prefix(prefix)),
            },
        }
    }

    /// The length of the longest common prefix of `key[depth..]` and this
    /// node's prefix.
    pub fn cpl_with_key(&self, key: &VariableSizedKey, depth: usize) -> (c: usize)
        requires
            self.shallow_wf(),
            depth <= key.spec_bytes().len(),
        ensures
            c == common_len(
                key.spec_bytes().subrange(depth as int, key.spec_bytes().len() as int),
                self.prefix_bytes(),
            ),
    {
        let ghost rest = key.spec_bytes().subrange(depth as int, key.spec_bytes().len() as int);
        let ghost p = self.prefix_bytes();
        let klen = key.length();
        let plen = self.plen();
        let mut c: usize = 0;
        while depth + c < klen && c < plen && key.at(depth + c) == self.pat(c)
            invariant
                self.shallow_wf(),
                depth <= klen,
                klen == key.spec_bytes().len(),
                plen == p.len(),
                p == self.prefix_bytes(),
                rest == key.spec_bytes().subrange(depth as int, klen as int),
                c <= klen - depth,
                c <= plen,
                forall|j: int| 0 <= j < c ==> rest[j] == p[j],
            decreases klen - depth - c,
        {
            c = c + 1;
        }
        proof {
            lemma_common_len(rest, p);
            let cl = common_len(rest, p);
            assert(rest.len() == klen - depth);
            if c < rest.len() && c < plen {
                assert(rest[c as int] != p[c as int]);
            }
            if cl < c {
                assert(rest[cl] == p[cl]);
                assert(false);
            }
            if cl > c {
                assert(rest[c as int] == p[c as int]);
                assert(false);
            }
        }
        c
    }

    /// The children as `(routing byte, child)` pairs in ascending byte
    /// order; a twig has none.
    pub fn iter(&self) -> (r: Vec<(u8, &Arc<Node<V>>)>)
        requires
            self.shallow_wf(),
        ensures
            r@.len() == self.kid_count(),
            forall|a: int, b: int| 0 <= a < b < r@.len() ==> r@[a].0 < r@[b].0,
            forall|a: int|
                0 <= a < r@.len() ==> self.kids().dom().contains(#[trigger] r@[a].0) && *r@[a].1
                    == self.kids()[r@[a].0],
            forall|b: u8|
                #[trigger] self.kids().dom().contains(b) ==> exists|a: int|
                    0 <= a < r@.len() && r@[a].0 == b,
    {
        match self.node_type {
            NodeType::Twig(_) => {
                let r: Vec<(u8, &Arc<Node<V>>)> = Vec::new();
                proof {
                    assert(self.kids() =~= Map::<u8, Node<V>>::empty());
                }
                r
            }
            NodeType::Node4(ref n) => n.iter(),
            NodeType::Node16(ref n) => n.iter(),
            NodeType::Node48(ref n) => n.iter(),
            NodeType::Node256(ref n) => n.iter(),
        }
    }

    /// The child routed by `key`, if any.
    pub fn find_kid(&self, key: u8) -> (r: Option<&Arc<Node<V>>>)
        requires
            self.shallow_wf(),
        ensures
            match r {
                Some(c) => self.kids().dom().contains(key) && **c == self.kids()[key],
                None => !self.kids().dom().contains(key),
            },
    {
        match self.node_type {
            NodeType::Twig(_) => None,
            NodeType::Node4(ref n) => n.find_child(key),
            NodeType::Node16(ref n) => n.find_child(key),
            NodeType::Node48(ref n) => n.find_child(key),
            NodeType::Node256(ref n) => n.find_child(key),
        }
    }
}

/// A subtree in order is in order at the root and below every child.
pub proof fn lemma_deep_ok_unfold<V>(n: Node<V>)
    requires
        n.deep_ok(),
    ensures
        n.node_ok(),
        forall|b: u8| #[trigger] n.kids().dom().contains(b) ==> n.kids()[b].deep_ok(),
{
    assert(node_at(n, Seq::<u8>::empty()) == Some(n));
    assert forall|b: u8| #[trigger] n.kids().dom().contains(b) implies n.kids()[b].deep_ok() by {
        let kid = n.kids()[b];
        assert forall|path: Seq<u8>| (#[trigger] node_at(kid, path)) is Some implies node_at(
            kid,
            path,
        ).unwrap().node_ok() by {
            let full = seq![b] + path;
            assert(full.len() > 0 && full[0] == b);
            assert(full.subrange(1, full.len() as int) =~= path);
            assert(node_at(n, full) == node_at(kid, path));
        }
    }
}

/// A tree whose every node is in order stays so when restricted to a child,
/// and conversely a root in order with children in order is in order.
pub proof fn lemma_deep_ok_fold<V>(n: Node<V>)
    requires
        n.node_ok(),
        forall|b: u8| #[trigger] n.kids().dom().contains(b) ==> n.kids()[b].deep_ok(),
    ensures
        n.deep_ok(),
{
    assert forall|path: Seq<u8>| (#[trigger] node_at(n, path)) is Some implies node_at(
        n,
        path,
    ).unwrap().node_ok() by {
        if path.len() == 0 {
            assert(node_at(n, path) == Some(n));
        } else {
            let b = path[0];
            assert(n.kids().dom().contains(b));
            let rest = path.subrange(1, path.len() as int);
            assert(node_at(n, path) == node_at(n.kids()[b], rest));
            assert(n.kids()[b].deep_ok());
            assert(node_at(n.kids()[b], rest) is Some);
        }
    }
}

/// Every entry of a twig that records `key` is the whole history.
pub proof fn lemma_twig_hist_same_key<V>(entries: Seq<LeafValue<VariableSizedKey, V>>, kb: Seq<u8>)
    requires
        forall|i: int| 0 <= i < entries.len() ==> (#[trigger] entries[i]).key.spec_bytes() == kb,
    ensures
        twig_hist(entries, kb) == entries,
    decreases entries.len(),
{
    if entries.len() > 0 {
        lemma_twig_hist_same_key(entries.drop_last(), kb);
        assert(entries[entries.len() - 1] == entries.last());
        assert(twig_hist(entries, kb) =~= entries);
    }
}

/// A twig whose entries all record another key contributes nothing to `k`.
pub proof fn lemma_twig_hist_no_match<V>(
    entries: Seq<LeafValue<VariableSizedKey, V>>,
    k: Seq<u8>,
)
    requires
        forall|i: int| 0 <= i < entries.len() ==> (#[trigger] entries[i]).key.spec_bytes() != k,
    ensures
        twig_hist(entries, k) == Seq::<LeafValue<VariableSizedKey, V>>::empty(),
    decreases entries.len(),
{
    if entries.len() > 0 {
        lemma_twig_hist_no_match(entries.drop_last(), k);
        assert(entries[entries.len() - 1] == entries.last());
    }
}

/// The length of the longest common prefix of two byte sequences.
pub open spec fn common_len(a: Seq<u8>, b: Seq<u8>) -> int
    decreases a.len(),
{
    if a.len() == 0 || b.len() == 0 || a[0] != b[0] {
        0
    } else {
        1 + common_len(a.subrange(1, a.len() as int), b.subrange(1, b.len() as int))
    }
}

pub proof fn lemma_common_len(a: Seq<u8>, b: Seq<u8>)
    ensures
        0 <= common_len(a, b) <= a.len(),
        common_len(a, b) <= b.len(),
        forall|j: int| 0 <= j < common_len(a, b) ==> a[j] == b[j],
        common_len(a, b) < a.len() && common_len(a, b) < b.len() ==> a[common_len(a, b)]
            != b[common_len(a, b)],
    decreases a.len(),
{
    if a.len() > 0 && b.len() > 0 && a[0] == b[0] {
        let ta = a.subrange(1, a.len() as int);
        let tb = b.subrange(1, b.len() as int);
        lemma_common_len(ta, tb);
        let c = common_len(a, b);
        assert forall|j: int| 0 <= j < c implies a[j] == b[j] by {
            if j > 0 {
                assert(ta[j - 1] == tb[j - 1]);
            }
        }
        if c < a.len() && c < b.len() {
            assert(ta[c - 1] != tb[c - 1]);
        }
    }
}

/// Whether the tree under `n` can take `key` from offset `depth`: the
/// descent either reaches an upsert or a clean split. It cannot when the key
/// runs out inside a node's compressed prefix, or when the key nests with a
/// twig's key (one a proper prefix of the other).
pub open spec fn can_insert<V>(n: Node<V>, key: Seq<u8>, depth: int) -> bool
    decreases key.len() - depth,
{
    let p = n.prefix_bytes();
    let c = common_len(key.subrange(depth, key.len() as int), p);
    if depth < 0 || depth > key.len() {
        false
    } else if c < p.len() {
        depth + c < key.len()
    } else if n.spec_is_twig() {
        depth + c == key.len() && (n.twig_entries().len() == 0 || n.twig_entries()[0].key.spec_bytes()
            == key)
    } else if depth + c >= key.len() {
        false
    } else {
        let b = key[depth + c];
        if n.kids().dom().contains(b) {
            can_insert(n.kids()[b], key, depth + c + 1)
        } else {
            true
        }
    }
}

/// How a key's history changes when `(value, ts)` is recorded: an entry with
/// the same timestamp is replaced in place; otherwise the new entry sits
/// before the first entry that is not older. `kb` is the recorded key.
pub open spec fn is_hist_insert<V>(
    h0: Seq<LeafValue<VariableSizedKey, V>>,
    h1: Seq<LeafValue<VariableSizedKey, V>>,
    kb: Seq<u8>,
    value: V,
    ts: u64,
) -> bool {
    if exists|i: int| 0 <= i < h0.len() && (#[trigger] h0[i]).ts == ts {
        &&& h1.len() == h0.len()
        &&& exists|i: int|
            {
                &&& 0 <= i < h0.len()
                &&& (#[trigger] h0[i]).ts == ts
                &&& forall|j: int| 0 <= j < i ==> h0[j].ts != ts
                &&& h1[i].key.spec_bytes() == kb
                &&& h1[i].value == value
                &&& h1[i].ts == ts
                &&& forall|j: int| 0 <= j < h0.len() && j != i ==> h1[j] == h0[j]
            }
    } else {
        &&& h1.len() == h0.len() + 1
        &&& exists|p: int|
            {
                &&& 0 <= p <= h0.len()
                &&& forall|j: int| 0 <= j < p ==> (#[trigger] h0[j]).ts < ts
                &&& (p < h0.len() ==> h0[p].ts >= ts)
                &&& #[trigger] h1[p].key.spec_bytes() == kb
                &&& h1[p].value == value
                &&& h1[p].ts == ts
                &&& forall|j: int| 0 <= j < p ==> h1[j] == h0[j]
                &&& forall|j: int| p <= j < h0.len() ==> h1[j + 1] == h0[j]
            }
    }
}

/// Two nodes with the same children and entries, where `m`'s prefix is the
/// tail of `n`'s past position `cc`, reach the same history once the head of
/// `n`'s prefix has been matched.
pub proof fn lemma_hist_reprefix<V>(n: Node<V>, m: Node<V>, key: Seq<u8>, depth: int, cc: int)
    requires
        0 <= depth,
        0 <= cc < n.prefix_bytes().len(),
        m.kids() == n.kids(),
        m.twig_entries() == n.twig_entries(),
        m.spec_is_twig() == n.spec_is_twig(),
        m.prefix_bytes() == n.prefix_bytes().subrange(cc + 1, n.prefix_bytes().len() as int),
        depth + cc < key.len(),
        key.subrange(depth, depth + cc) == n.prefix_bytes().subrange(0, cc),
        key[depth + cc] == n.prefix_bytes()[cc],
    ensures
        lookup_hist(n, key, depth) == lookup_hist(m, key, depth + cc + 1),
{
    let p = n.prefix_bytes();
    let pl = p.len() as int;
    let mp = m.prefix_bytes();
    let d2 = depth + cc + 1;
    assert(mp.len() == pl - cc - 1);
    if depth + pl <= key.len() && key.subrange(depth, depth + pl) == p {
        assert(key.subrange(d2, d2 + mp.len()) =~= mp) by {
            assert forall|j: int| 0 <= j < mp.len() implies key[d2 + j] == mp[j] by {
                assert(key.subrange(depth, depth + pl)[cc + 1 + j] == p[cc + 1 + j]);
            }
        }
        if n.spec_is_twig() {
            assert(lookup_hist(n, key, depth) == twig_hist(n.twig_entries(), key));
            assert(lookup_hist(m, key, d2) == twig_hist(m.twig_entries(), key));
        } else if depth + pl == key.len() {
            assert(d2 + mp.len() == key.len());
        } else {
            let b = key[depth + pl];
            assert(d2 + mp.len() == depth + pl);
            if n.kids().dom().contains(b) {
                assert(lookup_hist(n, key, depth) == lookup_hist(n.kids()[b], key, depth + pl + 1));
                assert(lookup_hist(m, key, d2) == lookup_hist(m.kids()[b], key, d2 + mp.len() + 1));
            }
        }
    } else {
        // the descent fails on both sides
        assert(lookup_hist(n, key, depth) =~= Seq::<LeafValue<VariableSizedKey, V>>::empty());
        if d2 + mp.len() <= key.len() {
            if key.subrange(d2, d2 + mp.len()) == mp {
                // assembling the pieces would make the whole prefix match
                assert(key.subrange(depth, depth + pl) =~= p) by {
                    assert forall|j: int| 0 <= j < pl implies key.subrange(depth, depth + pl)[j]
                        == p[j] by {
                        if j < cc {
                            assert(key.subrange(depth, depth + cc)[j] == p.subrange(0, cc)[j]);
                        } else if j == cc {
                        } else {
                            assert(key.subrange(d2, d2 + mp.len())[j - cc - 1] == mp[j - cc - 1]);
                        }
                    }
                }
                assert(false);
            }
            assert(lookup_hist(m, key, d2) =~= Seq::<LeafValue<VariableSizedKey, V>>::empty());
        } else {
            assert(lookup_hist(m, key, d2) =~= Seq::<LeafValue<VariableSizedKey, V>>::empty());
        }
    }
}

/// Inserting a child moves the maximum child timestamp to the larger of the
/// old maximum and the new child's.
proof fn lemma_is_max_insert<V>(m: Map<u8, Node<V>>, t: u64, b: u8, c: Node<V>)
    requires
        is_max_child_ts(m, t),
        !m.dom().contains(b),
    ensures
        is_max_child_ts(m.insert(b, c), max64(t, c.spec_ts())),
{
    let m2 = m.insert(b, c);
    let t2 = max64(t, c.spec_ts());
    assert forall|k: u8| m2.dom().contains(k) implies m2[k].spec_ts() <= t2 by {
        if k != b {
            assert(m[k].spec_ts() <= t);
        }
    }
    if t2 != 0 {
        if c.spec_ts() == t2 {
            assert(m2.dom().contains(b) && m2[b].spec_ts() == t2);
        } else {
            assert(t == t2 && t != 0);
            let k = choose|k: u8| m.dom().contains(k) && m[k].spec_ts() == t;
            assert(m2.dom().contains(k) && m2[k].spec_ts() == t2);
        }
    }
}

/// Add a child to an interior node, growing the tier first when it is full:
/// a flat node of four becomes one of sixteen, sixteen becomes the indirect
/// 48-slot node, and that becomes the direct 256-slot node.
fn interior_add<V>(n: &Node<V>, b: u8, child: Node<V>) -> (r: Node<V>)
    requires
        n.node_ok(),
        !n.spec_is_twig(),
        !n.kids().dom().contains(b),
    ensures
        r.shallow_wf(),
        !r.spec_is_twig(),
        r.prefix_bytes() == n.prefix_bytes(),
        r.kids() == n.kids().insert(b, child),
        r.twig_entries() == n.twig_entries(),
        is_max_child_ts(r.kids(), r.spec_ts()),
        r.occupancy_ok(),
        r.kid_count() == n.kid_count() + 1,
{
    proof {
        lemma_is_max_insert(n.kids(), n.spec_ts(), b, child);
    }
    match n.node_type {
        NodeType::Twig(_) => {
            proof {
                assert(false);
            }
            unreached()
        }
        NodeType::Node4(ref n4) => {
            if n4.num_children() == n4.size() {
                let wider = n4.resize::<16>();
                proof {
                    let m = choose|m: u64|
                        #[trigger] is_max_child_ts(n4.children(), m) && wider.ts == max64(n4.ts, m);
                    if n4.ts != 0 {
                        let k = choose|k: u8|
                            n4.children().dom().contains(k) && n4.children()[k].spec_ts() == n4.ts;
                        assert(n4.children()[k].spec_ts() <= m);
                    }
                    assert(n4.ts <= m);
                    assert(wider.ts == m);
                    lemma_is_max_insert(wider.children(), m, b, child);
                }
                Node { node_type: NodeType::Node16(wider.add_child(b, child)) }
            } else {
                Node { node_type: NodeType::Node4(n4.add_child(b, child)) }
            }
        }
        NodeType::Node16(ref n16) => {
            if n16.num_children() == n16.size() {
                let wider = n16.grow();
                proof {
                    lemma_is_max_insert(wider.children(), wider.ts, b, child);
                }
                Node { node_type: NodeType::Node48(wider.add_child(b, child)) }
            } else {
                Node { node_type: NodeType::Node16(n16.add_child(b, child)) }
            }
        }
        NodeType::Node48(ref n48) => {
            if n48.num_children() == 48 {
                let wider = n48.grow();
                proof {
                    lemma_is_max_insert(wider.children(), wider.ts, b, child);
                }
                Node { node_type: NodeType::Node256(wider.add_child(b, child)) }
            } else {
                Node { node_type: NodeType::Node48(n48.add_child(b, child)) }
            }
        }
        NodeType::Node256(ref n256) => {
            proof {
                crate::node::lemma_count_some_missing(n256.slots(), b as int, 256);
            }
            Node { node_type: NodeType::Node256(n256.add_child(b, child)) }
        }
    }
}

/// Overwrite the child under `b` of an interior node.
fn interior_replace<V>(n: &Node<V>, b: u8, child: Node<V>) -> (r: Node<V>)
    requires
        n.shallow_wf(),
        !n.spec_is_twig(),
        n.kids().dom().contains(b),
    ensures
        r.shallow_wf(),
        !r.spec_is_twig(),
        r.prefix_bytes() == n.prefix_bytes(),
        r.kids() == n.kids().insert(b, child),
        r.twig_entries() == n.twig_entries(),
        is_max_child_ts(r.kids(), r.spec_ts()),
        r.tier() == n.tier(),
        r.kid_count() == n.kid_count(),
{
    match n.node_type {
        NodeType::Twig(_) => {
            proof {
                assert(false);
            }
            unreached()
        }
        NodeType::Node4(ref n4) => Node {
            node_type: NodeType::Node4(n4.replace_child(b, Arc::new(child))),
        },
        NodeType::Node16(ref n16) => Node {
            node_type: NodeType::Node16(n16.replace_child(b, Arc::new(child))),
        },
        NodeType::Node48(ref n48) => Node {
            node_type: NodeType::Node48(n48.replace_child(b, Arc::new(child))),
        },
        NodeType::Node256(ref n256) => Node {
            node_type: NodeType::Node256(n256.replace_child(b, Arc::new(child))),
        },
    }
}

/// Remove the child under `b` from an interior node that keeps at least two
/// children afterwards, shrinking the tier when its occupancy falls below
/// the band: the direct 256-slot node shrinks to the indirect one at 48, the
/// indirect one to a flat sixteen at 16, and that to a flat four at 4.
fn interior_delete<V>(n: &Node<V>, b: u8) -> (r: Node<V>)
    requires
        n.node_ok(),
        !n.spec_is_twig(),
        n.kids().dom().contains(b),
        n.kid_count() >= 3,
    ensures
        r.shallow_wf(),
        !r.spec_is_twig(),
        r.prefix_bytes() == n.prefix_bytes(),
        r.kids() == n.kids().remove(b),
        r.twig_entries() == n.twig_entries(),
        is_max_child_ts(r.kids(), r.spec_ts()),
        r.occupancy_ok(),
        r.kid_count() == n.kid_count() - 1,
{
    match n.node_type {
        NodeType::Twig(_) => {
            proof {
                assert(false);
            }
            unreached()
        }
        NodeType::Node4(ref n4) => Node { node_type: NodeType::Node4(n4.delete_child(b)) },
        NodeType::Node16(ref n16) => {
            let d = n16.delete_child(b);
            if d.num_children() <= 4 {
                let s = d.resize::<4>();
                proof {
                    let m = choose|m: u64|
                        #[trigger] is_max_child_ts(d.children(), m) && s.ts == max64(d.ts, m);
                    if d.ts != 0 {
                        let k = choose|k: u8|
                            d.children().dom().contains(k) && d.children()[k].spec_ts() == d.ts;
                        assert(d.children()[k].spec_ts() <= m);
                    }
                    assert(d.ts <= m);
                    if m != 0 {
                        let k = choose|k: u8|
                            d.children().dom().contains(k) && d.children()[k].spec_ts() == m;
                        assert(d.children()[k].spec_ts() <= d.ts);
                    }
                    assert(s.ts == d.ts);
                }
                Node { node_type: NodeType::Node4(s) }
            } else {
                Node { node_type: NodeType::Node16(d) }
            }
        }
        NodeType::Node48(ref n48) => {
            let d = n48.delete_child(b);
            if d.num_children() <= 16 {
                Node { node_type: NodeType::Node16(d.shrink::<16>()) }
            } else {
                Node { node_type: NodeType::Node48(d) }
            }
        }
        NodeType::Node256(ref n256) => {
            let d = n256.delete_child(b);
            if d.num_children() <= 48 {
                Node { node_type: NodeType::Node48(d.shrink()) }
            } else {
                Node { node_type: NodeType::Node256(d) }
            }
        }
    }
}

/// What a lookup returns, relative to the history it reaches: `None` when
/// every recorded timestamp is newer than `bound`, else the value and
/// timestamp of the newest entry not newer than `bound`.
pub open spec fn is_hist_sel<V>(
    h: Seq<LeafValue<VariableSizedKey, V>>,
    bound: u64,
    r: Option<(V, u64)>,
) -> bool {
    match r {
        None => forall|i: int| 0 <= i < h.len() ==> (#[trigger] h[i]).ts > bound,
        Some(p) => {
            &&& p.1 <= bound
            &&& exists|i: int|
                0 <= i < h.len() && (#[trigger] h[i]).value == p.0 && h[i].ts == p.1
            &&& forall|i: int| 0 <= i < h.len() && (#[trigger] h[i]).ts <= bound ==> h[i].ts <= p.1
        },
    }
}

/// Look `key` up under `n`, matching from offset `depth`, reading the newest
/// value whose timestamp is at most `bound`.
pub fn node_get<V: Copy>(n: &Node<V>, key: &VariableSizedKey, depth: usize, bound: u64) -> (r:
    Option<(V, u64)>)
    requires
        n.deep_ok(),
        depth <= key.spec_bytes().len(),
    ensures
        is_hist_sel(lookup_hist(*n, key.spec_bytes(), depth as int), bound, r),
    decreases key.spec_bytes().len() - depth,
{
    proof {
        lemma_deep_ok_unfold(*n);
    }
    let ghost kb = key.spec_bytes();
    let ghost h = lookup_hist(*n, kb, depth as int);
    let plen = n.plen();
    let klen = key.length();
    if plen > klen - depth {
        return None;
    }
    // compare the node's prefix against key[depth..]
    let mut i: usize = 0;
    while i < plen
        invariant
            n.deep_ok(),
            n.shallow_wf(),
            depth <= klen,
            klen == key.spec_bytes().len(),
            kb == key.spec_bytes(),
            plen == n.prefix_bytes().len(),
            plen <= klen - depth,
            i <= plen,
            forall|j: int| 0 <= j < i ==> kb[depth + j] == n.prefix_bytes()[j],
        decreases plen - i,
    {
        if key.at(depth + i) != n.pat(i) {
            proof {
                assert(kb.subrange(depth as int, depth + plen as int)[i as int] != n.prefix_bytes()[i as int]);
            }
            return None;
        }
        i = i + 1;
    }
    proof {
        assert(kb.subrange(depth as int, depth + plen as int) =~= n.prefix_bytes());
    }
    match n.node_type {
        NodeType::Twig(ref t) => {
            let leaf = t.get_value_by_ts(key, bound);
            proof {
                assert(h == twig_hist(t.entries(), kb));
                lemma_twig_hist_props(t.entries(), kb);
                match &leaf {
                    Some(lv) => {
                        let i = choose|i: int|
                            #[trigger] t.latest_bounded(kb, bound, i) && *lv == t.entries()[i];
                        assert(t.entries()[i].key.spec_bytes() == kb);
                        assert(h.contains(t.entries()[i]));
                        let a = choose|a: int| 0 <= a < h.len() && h[a] == t.entries()[i];
                        assert(h[a].value == lv.value && h[a].ts == lv.ts);
                        assert forall|a2: int| 0 <= a2 < h.len() && (#[trigger] h[a2]).ts <= bound
                            implies h[a2].ts <= lv.ts by {
                            assert(t.entries().contains(h[a2]));
                            let j = choose|j: int|
                                0 <= j < t.entries().len() && t.entries()[j] == h[a2];
                            assert(t.at_key(kb, j));
                            assert(t.entries()[j].ts <= t.entries()[i].ts);
                        }
                    }
                    None => {
                        assert forall|a2: int| 0 <= a2 < h.len() implies (#[trigger] h[a2]).ts
                            > bound by {
                            assert(t.entries().contains(h[a2]));
                            let j = choose|j: int|
                                0 <= j < t.entries().len() && t.entries()[j] == h[a2];
                            assert(t.at_key(kb, j));
                        }
                    }
                }
            }
            match leaf {
                Some(lv) => Some((lv.value, lv.ts)),
                None => None,
            }
        }
        _ => {
            if depth + plen == klen {
                return None;
            }
            let b = key.at(depth + plen);
            match n.find_kid(b) {
                Some(c) => {
                    proof {
                        assert(h == lookup_hist(n.kids()[b], kb, depth + plen + 1));
                    }
                    node_get(c, key, depth + plen + 1, bound)
                }
                None => None,
            }
        }
    }
}

/// Record `(key, value, ts)` in the subtree under `n`, matching the key from
/// offset `depth`. The given tree is left untouched; the result is a fresh
/// subtree, or `None` exactly when the tree cannot take the key (see
/// `can_insert`). On success the key's history changes as `is_hist_insert`
/// says and every other key reads exactly as before.
#[verifier::rlimit(100)]
pub fn node_insert<V: Copy>(
    n: &Node<V>,
    key: &VariableSizedKey,
    value: V,
    ts: u64,
    depth: usize,
) -> (r: Option<Node<V>>)
    requires
        n.deep_ok(),
        depth <= key.spec_bytes().len(),
    ensures
        r is Some <==> can_insert(*n, key.spec_bytes(), depth as int),
        r is Some ==> {
            let rn = r.unwrap();
            &&& rn.deep_ok()
            &&& is_hist_insert(
                lookup_hist(*n, key.spec_bytes(), depth as int),
                lookup_hist(rn, key.spec_bytes(), depth as int),
                key.spec_bytes(),
                value,
                ts,
            )
            &&& forall|k: Seq<u8>|
                k != key.spec_bytes() ==> lookup_hist(rn, k, depth as int) == lookup_hist(
                    *n,
                    k,
                    depth as int,
                )
            &&& keys_placed(*n, key.spec_bytes().subrange(0, depth as int)) ==> keys_placed(
                rn,
                key.spec_bytes().subrange(0, depth as int),
            )
        },
    decreases key.spec_bytes().len() - depth,
{
    proof {
        lemma_deep_ok_unfold(*n);
    }
    let ghost kb = key.spec_bytes();
    let ghost base0 = kb.subrange(0, depth as int);
    let ghost rest = kb.subrange(depth as int, kb.len() as int);
    let ghost p = n.prefix_bytes();
    let klen = key.length();
    let plen = n.plen();
    let c = n.cpl_with_key(key, depth);
    proof {
        lemma_common_len(rest, p);
        assert(forall|j: int| 0 <= j < rest.len() ==> rest[j] == kb[depth + j]);
    }
    if c < plen {
        if depth + c < klen {
            // the key diverges inside this node's prefix: split it
            let ghost dd = depth as int;
            let ghost cc = c as int;
            let parent_prefix = n.prefix_key().sub_range(0, c);
            let rekey = n.prefix_key().sub_range(c + 1, plen);
            let m_old = n.with_prefix(rekey);
            let ghost gm = m_old;
            let twn = make_twig(key.sub_range(depth + c + 1, klen), key, value, ts);
            let ghost gtw = twn;
            let b_old = n.pat(c);
            let b_new = key.at(depth + c);
            proof {
                assert(rest[cc] != p[cc]);
                assert(b_old != b_new);
            }
            let m4: FlatNode<VariableSizedKey, Node<V>, 4> = FlatNode::new(parent_prefix);
            let m4 = m4.add_child(b_old, m_old);
            let m4 = m4.add_child(b_new, twn);
            let rn = Node { node_type: NodeType::Node4(m4) };
            proof {
                let pp = p.subrange(0, cc);
                assert(rn.kids() =~= Map::<u8, Node<V>>::empty().insert(b_old, gm).insert(
                    b_new,
                    gtw,
                ));
                // the new parent is in order, and so is everything below it
                assert(is_max_child_ts(Map::<u8, Node<V>>::empty(), 0u64));
                lemma_is_max_insert(Map::<u8, Node<V>>::empty(), 0u64, b_old, gm);
                lemma_is_max_insert(
                    Map::<u8, Node<V>>::empty().insert(b_old, gm),
                    max64(0u64, gm.spec_ts()),
                    b_new,
                    gtw,
                );
                assert(rn.spec_ts() == max64(max64(0u64, gm.spec_ts()), gtw.spec_ts()));
                assert(gm.node_ok());
                lemma_deep_ok_fold(gm);
                lemma_deep_ok_fold(rn);
                // the inserted key now reads the one fresh entry
                assert(rn.prefix_bytes() == pp);
                assert(pp.len() == cc);
                assert(kb.subrange(dd, dd + cc) =~= pp);
                assert(kb[dd + cc] == b_new);
                assert(rn.kids().dom().contains(b_new) && rn.kids()[b_new] == gtw);
                assert(lookup_hist(rn, kb, dd) == lookup_hist(gtw, kb, dd + cc + 1));
                assert(kb.subrange(dd + cc + 1, klen as int) =~= gtw.prefix_bytes());
                assert(gtw.prefix_bytes().len() == klen - dd - cc - 1);
                assert(lookup_hist(gtw, kb, dd + cc + 1) == twig_hist(gtw.twig_entries(), kb));
                assert(lookup_hist(rn, kb, dd) == twig_hist(gtw.twig_entries(), kb));
                lemma_twig_hist_same_key(gtw.twig_entries(), kb);
                // and it read nothing before
                if dd + p.len() <= klen as int {
                    assert(kb.subrange(dd, dd + p.len() as int)[cc] == rest[cc]);
                    assert(kb.subrange(dd, dd + p.len() as int) != p);
                }
                assert(lookup_hist(*n, kb, dd) =~= Seq::<
                    LeafValue<VariableSizedKey, V>,
                >::empty());
                // every other key reads as before
                assert forall|k: Seq<u8>| k != kb implies lookup_hist(rn, k, dd) == lookup_hist(
                    *n,
                    k,
                    dd,
                ) by {
                    let e = Seq::<LeafValue<VariableSizedKey, V>>::empty();
                    if dd + cc > k.len() {
                        assert(lookup_hist(rn, k, dd) =~= e);
                        assert(lookup_hist(*n, k, dd) =~= e);
                    } else if k.subrange(dd, dd + cc) != pp {
                        assert(lookup_hist(rn, k, dd) =~= e);
                        let sk = k.subrange(dd, dd + cc);
                        if forall|j0: int| 0 <= j0 < cc ==> #[trigger] sk[j0] == pp[j0] {
                            assert(sk =~= pp);
                            assert(false);
                        }
                        let j0 = choose|j0: int| 0 <= j0 < cc && #[trigger] sk[j0] != pp[j0];
                        if dd + p.len() <= k.len() {
                            assert(k.subrange(dd, dd + p.len() as int)[j0] == k[dd + j0]);
                            assert(sk[j0] == k[dd + j0]);
                            assert(k.subrange(dd, dd + p.len() as int)[j0] != p[j0]);
                            assert(lookup_hist(*n, k, dd) =~= e);
                        } else {
                            assert(lookup_hist(*n, k, dd) =~= e);
                        }
                    } else if dd + cc == k.len() {
                        assert(lookup_hist(rn, k, dd) =~= e);
                        assert(lookup_hist(*n, k, dd) =~= e);
                    } else {
                        let b = k[dd + cc];
                        assert(forall|j: int|
                            0 <= j < cc ==> k[dd + j] == (#[trigger] k.subrange(dd, dd + cc)[j]));
                        if b == b_old {
                            lemma_hist_reprefix(*n, gm, k, dd, cc);
                            assert(lookup_hist(rn, k, dd) == lookup_hist(gm, k, dd + cc + 1));
                        } else if b == b_new {
                            assert(lookup_hist(rn, k, dd) == lookup_hist(gtw, k, dd + cc + 1));
                            lemma_twig_hist_no_match(gtw.twig_entries(), k);
                            assert(lookup_hist(gtw, k, dd + cc + 1) =~= e);
                            if dd + p.len() <= k.len() {
                                assert(k.subrange(dd, dd + p.len() as int)[cc] == b);
                                assert(lookup_hist(*n, k, dd) =~= e);
                            } else {
                                assert(lookup_hist(*n, k, dd) =~= e);
                            }
                        } else {
                            assert(lookup_hist(rn, k, dd) =~= e);
                            if dd + p.len() <= k.len() {
                                assert(k.subrange(dd, dd + p.len() as int)[cc] == b);
                                assert(lookup_hist(*n, k, dd) =~= e);
                            } else {
                                assert(lookup_hist(*n, k, dd) =~= e);
                            }
                        }
                    }
                }
                // the keys keep their placement discipline
                if keys_placed(*n, base0) {
                    assert(base0 + p =~= (base0 + pp + seq![b_old]) + gm.prefix_bytes());
                    lemma_placed_reprefix(*n, gm, base0, base0 + pp + seq![b_old]);
                    assert((base0 + pp + seq![b_new]) + gtw.prefix_bytes() =~= kb);
                    assert(keys_placed(gtw, base0 + pp + seq![b_new]));
                    assert forall|b2: u8| #[trigger] rn.kids().dom().contains(b2) implies
                        keys_placed(rn.kids()[b2], base0 + rn.prefix_bytes() + seq![b2]) by {
                        if b2 == b_old {
                            assert(rn.kids()[b2] == gm);
                        } else {
                            assert(b2 == b_new);
                            assert(rn.kids()[b2] == gtw);
                        }
                    }
                    lemma_placed_fold(rn, base0);
                }
            }
            Some(rn)
        } else {
            // the key ends inside this node's prefix
            None
        }
    } else {
        match n.node_type {
            NodeType::Twig(ref t) => {
                if depth + c == klen {
                    let fits = if t.values.len() == 0 {
                        true
                    } else {
                        proof {
                            assert(t.entries()[0] == *t.values@[0]);
                        }
                        prefix_eq(&t.values[0].key, key)
                    };
                    if fits {
                        let t2 = t.insert(key, value, ts);
                        let ghost gt2 = t2;
                        let rn = Node { node_type: NodeType::Twig(t2) };
                        proof {
                            let dd = depth as int;
                            assert(rest =~= p);
                            assert(kb.subrange(dd, dd + p.len() as int) =~= p);
                            assert(rn.prefix_bytes() == p);
                            assert(lookup_hist(*n, kb, dd) == twig_hist(t.entries(), kb));
                            assert(lookup_hist(rn, kb, dd) == twig_hist(gt2.entries(), kb));
                            assert(forall|i: int|
                                0 <= i < t.entries().len() ==> (
                                #[trigger] t.entries()[i]).key.spec_bytes() == kb);
                            lemma_upsert_shape(*t, gt2, *key, value, ts);
                            lemma_twig_hist_same_key(gt2.entries(), kb);
                            if t.entries().len() > 0 {
                                lemma_twig_hist_same_key(t.entries(), kb);
                            } else {
                                lemma_twig_hist_no_match(t.entries(), kb);
                            }
                            assert(is_hist_insert(
                                lookup_hist(*n, kb, dd),
                                lookup_hist(rn, kb, dd),
                                kb,
                                value,
                                ts,
                            ));
                            assert forall|k: Seq<u8>| k != kb implies lookup_hist(rn, k, dd)
                                == lookup_hist(*n, k, dd) by {
                                let e = Seq::<LeafValue<VariableSizedKey, V>>::empty();
                                if dd + p.len() <= k.len() && k.subrange(dd, dd + p.len() as int)
                                    == p {
                                    lemma_twig_hist_no_match(gt2.entries(), k);
                                    lemma_twig_hist_no_match(t.entries(), k);
                                } else {
                                    assert(lookup_hist(rn, k, dd) =~= e);
                                    assert(lookup_hist(*n, k, dd) =~= e);
                                }
                            }
                            lemma_deep_ok_fold(rn);
                            if keys_placed(*n, base0) {
                                assert(kb =~= base0 + p);
                                assert(keys_placed(rn, base0));
                            }
                        }
                        Some(rn)
                    } else {
                        None
                    }
                } else {
                    // the key extends past this twig's key: the two nest
                    None
                }
            }
            _ => {
                if depth + c == klen {
                    // the key ends exactly at this interior node
                    None
                } else {
                    let ghost dd = depth as int;
                    let ghost cc = c as int;
                    let b = key.at(depth + c);
                    proof {
                        assert(rest =~= kb.subrange(dd, klen as int));
                        assert(kb.subrange(dd, dd + p.len() as int) =~= p);
                    }
                    match n.find_kid(b) {
                        Some(ch) => {
                            let ghost gkid = n.kids()[b];
                            let sub = node_insert(ch, key, value, ts, depth + c + 1);
                            match sub {
                                Some(nc) => {
                                    let ghost gnc = nc;
                                    let rn = interior_replace(n, b, nc);
                                    proof {
                                        assert(lookup_hist(*n, kb, dd) == lookup_hist(
                                            gkid,
                                            kb,
                                            dd + cc + 1,
                                        ));
                                        assert(lookup_hist(rn, kb, dd) == lookup_hist(
                                            gnc,
                                            kb,
                                            dd + cc + 1,
                                        ));
                                        assert forall|k: Seq<u8>| k != kb implies lookup_hist(
                                            rn,
                                            k,
                                            dd,
                                        ) == lookup_hist(*n, k, dd) by {
                                            let e = Seq::<LeafValue<VariableSizedKey, V>>::empty();
                                            if dd + p.len() <= k.len() && k.subrange(
                                                dd,
                                                dd + p.len() as int,
                                            ) == p && dd + p.len() < k.len() {
                                                let b2 = k[dd + p.len() as int];
                                                if b2 == b {
                                                    assert(lookup_hist(rn, k, dd) == lookup_hist(
                                                        gnc,
                                                        k,
                                                        dd + cc + 1,
                                                    ));
                                                    assert(lookup_hist(*n, k, dd) == lookup_hist(
                                                        gkid,
                                                        k,
                                                        dd + cc + 1,
                                                    ));
                                                } else {
                                                    if n.kids().dom().contains(b2) {
                                                        assert(rn.kids()[b2] == n.kids()[b2]);
                                                    }
                                                }
                                            } else {
                                                assert(lookup_hist(rn, k, dd) =~= e);
                                                assert(lookup_hist(*n, k, dd) =~= e);
                                            }
                                        }
                                        lemma_deep_ok_fold(rn);
                                        if keys_placed(*n, base0) {
                                            lemma_kids_placed_at(*n, base0, 0, b);
                                            assert(base0 + p + seq![b] =~= kb.subrange(
                                                0,
                                                dd + cc + 1,
                                            ));
                                            assert(keys_placed(gnc, base0 + p + seq![b]));
                                            assert forall|b2: u8| #[trigger] rn.kids().dom().contains(
                                                b2,
                                            ) implies keys_placed(
                                                rn.kids()[b2],
                                                base0 + rn.prefix_bytes() + seq![b2],
                                            ) by {
                                                if b2 != b {
                                                    lemma_kids_placed_at(*n, base0, 0, b2);
                                                    assert(rn.kids()[b2] == n.kids()[b2]);
                                                }
                                            }
                                            lemma_placed_fold(rn, base0);
                                        }
                                    }
                                    Some(rn)
                                }
                                None => None,
                            }
                        }
                        None => {
                            let twn = make_twig(key.sub_range(depth + c + 1, klen), key, value, ts);
                            let ghost gtw = twn;
                            let rn = interior_add(n, b, twn);
                            proof {
                                assert(kb.subrange(dd + cc + 1, klen as int)
                                    =~= gtw.prefix_bytes());
                                assert(lookup_hist(rn, kb, dd) == lookup_hist(
                                    gtw,
                                    kb,
                                    dd + cc + 1,
                                ));
                                assert(lookup_hist(gtw, kb, dd + cc + 1) == twig_hist(
                                    gtw.twig_entries(),
                                    kb,
                                ));
                                lemma_twig_hist_same_key(gtw.twig_entries(), kb);
                                assert(lookup_hist(*n, kb, dd) =~= Seq::<
                                    LeafValue<VariableSizedKey, V>,
                                >::empty());
                                assert forall|k: Seq<u8>| k != kb implies lookup_hist(rn, k, dd)
                                    == lookup_hist(*n, k, dd) by {
                                    let e = Seq::<LeafValue<VariableSizedKey, V>>::empty();
                                    if dd + p.len() <= k.len() && k.subrange(dd, dd + p.len() as int)
                                        == p && dd + p.len() < k.len() {
                                        let b2 = k[dd + p.len() as int];
                                        if b2 == b {
                                            assert(lookup_hist(rn, k, dd) == lookup_hist(
                                                gtw,
                                                k,
                                                dd + cc + 1,
                                            ));
                                            lemma_twig_hist_no_match(gtw.twig_entries(), k);
                                            assert(lookup_hist(gtw, k, dd + cc + 1) =~= e);
                                            assert(lookup_hist(*n, k, dd) =~= e);
                                        } else {
                                            if n.kids().dom().contains(b2) {
                                                assert(rn.kids()[b2] == n.kids()[b2]);
                                            }
                                        }
                                    } else {
                                        assert(lookup_hist(rn, k, dd) =~= e);
                                        assert(lookup_hist(*n, k, dd) =~= e);
                                    }
                                }
                                lemma_deep_ok_fold(rn);
                                if keys_placed(*n, base0) {
                                    assert((base0 + p + seq![b]) + gtw.prefix_bytes() =~= kb);
                                    assert(keys_placed(gtw, base0 + p + seq![b]));
                                    assert forall|b2: u8| #[trigger] rn.kids().dom().contains(
                                        b2,
                                    ) implies keys_placed(
                                        rn.kids()[b2],
                                        base0 + rn.prefix_bytes() + seq![b2],
                                    ) by {
                                        if b2 != b {
                                            lemma_kids_placed_at(*n, base0, 0, b2);
                                            assert(rn.kids()[b2] == n.kids()[b2]);
                                        } else {
                                            assert(rn.kids()[b2] == gtw);
                                        }
                                    }
                                    lemma_placed_fold(rn, base0);
                                }
                            }
                            Some(rn)
                        }
                    }
                }
            }
        }
    }
}

/// How an upsert reshapes a twig whose entries all carry the recorded key:
/// the entry list changes exactly as the key's history does, the one key and
/// the distinct timestamps are kept, and the list is no longer empty.
proof fn lemma_upsert_shape<V>(
    t: TwigNode<VariableSizedKey, V>,
    t2: TwigNode<VariableSizedKey, V>,
    key: VariableSizedKey,
    value: V,
    ts: u64,
)
    requires
        t.insert_post(key, value, ts, t2),
        forall|i: int|
            0 <= i < t.entries().len() ==> (#[trigger] t.entries()[i]).key.spec_bytes()
                == key.spec_bytes(),
        forall|i: int, j: int|
            0 <= i < j < t.entries().len() ==> (#[trigger] t.entries()[i]).ts != (
            #[trigger] t.entries()[j]).ts,
    ensures
        forall|i: int|
            0 <= i < t2.entries().len() ==> (#[trigger] t2.entries()[i]).key.spec_bytes()
                == key.spec_bytes(),
        forall|i: int, j: int|
            0 <= i < j < t2.entries().len() ==> (#[trigger] t2.entries()[i]).ts != (
            #[trigger] t2.entries()[j]).ts,
        is_hist_insert(t.entries(), t2.entries(), key.spec_bytes(), value, ts),
        t2.entries().len() > 0,
{
    let kb = key.spec_bytes();
    let e0 = t.entries();
    let e1 = t2.entries();
    if exists|i: int| t.at_key_ts(kb, ts, i) {
        let i = choose|i: int|
            {
                &&& #[trigger] t.at_key_ts(kb, ts, i)
                &&& forall|j: int| 0 <= j < i ==> !t.at_key_ts(kb, ts, j)
                &&& t2.entries()[i].key.spec_bytes() == kb
                &&& t2.entries()[i].value == value
                &&& t2.entries()[i].ts == ts
                &&& forall|j: int|
                    0 <= j < t.entries().len() && j != i ==> t2.entries()[j] == t.entries()[j]
            };
        assert(0 <= i < e0.len() && e0[i].ts == ts);
        assert forall|j: int| 0 <= j < i implies (#[trigger] e0[j]).ts != ts by {
            assert(!t.at_key_ts(kb, ts, j));
        }
        assert(exists|a: int| 0 <= a < e0.len() && (#[trigger] e0[a]).ts == ts);
        assert(is_hist_insert(e0, e1, kb, value, ts));
        assert forall|a: int, b2: int| 0 <= a < b2 < e1.len() implies (#[trigger] e1[a]).ts != (
        #[trigger] e1[b2]).ts by {
            if a != i && b2 != i {
                assert(e1[a] == e0[a] && e1[b2] == e0[b2]);
            } else if a == i {
                assert(e1[b2] == e0[b2]);
                assert(e0[i].ts == ts);
            } else {
                assert(e1[a] == e0[a]);
                assert(e0[i].ts == ts);
            }
        }
    } else {
        assert forall|a: int| 0 <= a < e0.len() implies (#[trigger] e0[a]).ts != ts by {
            if e0[a].ts == ts {
                assert(t.at_key_ts(kb, ts, a));
            }
        }
        let pp = choose|pp: int|
            {
                &&& 0 <= pp <= t.entries().len()
                &&& forall|j: int| 0 <= j < pp ==> (#[trigger] t.entries()[j]).ts < ts
                &&& (pp < t.entries().len() ==> t.entries()[pp].ts >= ts)
                &&& #[trigger] t2.entries()[pp].key.spec_bytes() == kb
                &&& t2.entries()[pp].value == value
                &&& t2.entries()[pp].ts == ts
                &&& forall|j: int| 0 <= j < pp ==> t2.entries()[j] == t.entries()[j]
                &&& forall|j: int|
                    pp <= j < t.entries().len() ==> t2.entries()[j + 1] == t.entries()[j]
            };
        assert(is_hist_insert(e0, e1, kb, value, ts));
        assert forall|a: int| 0 <= a < e1.len() implies (#[trigger] e1[a]).key.spec_bytes() == kb
            by {
            if a < pp {
                assert(e1[a] == e0[a]);
            } else if a > pp {
                assert(e1[a] == e0[a - 1]);
            }
        }
        assert forall|a: int, b2: int| 0 <= a < b2 < e1.len() implies (#[trigger] e1[a]).ts != (
        #[trigger] e1[b2]).ts by {
            if a < pp {
                assert(e1[a] == e0[a]);
            } else if a > pp {
                assert(e1[a] == e0[a - 1]);
            }
            if b2 < pp {
                assert(e1[b2] == e0[b2]);
            } else if b2 > pp {
                assert(e1[b2] == e0[b2 - 1]);
            }
        }
    }
}

/// A child of a well-formed interior node is a structural part of it.
pub proof fn lemma_kid_decreases<V>(n: Node<V>, b: u8)
    requires
        n.shallow_wf(),
        n.kids().dom().contains(b),
    ensures
        decreases_to!(n => n.kids().index(b)),
{
    match n.node_type {
        NodeType::Twig(_) => {
            assert(false);
        }
        NodeType::Node4(f) => {
            crate::node::lemma_flat_child_decreases(f, b);
            assert(decreases_to!(n => n.node_type));
            assert(decreases_to!(n.node_type => f));
        }
        NodeType::Node16(f) => {
            crate::node::lemma_flat_child_decreases(f, b);
            assert(decreases_to!(n => n.node_type));
            assert(decreases_to!(n.node_type => f));
        }
        NodeType::Node48(f) => {
            crate::node::lemma_n48_child_decreases(f, b);
            assert(decreases_to!(n => n.node_type));
            assert(decreases_to!(n.node_type => f));
        }
        NodeType::Node256(f) => {
            crate::node::lemma_n256_child_decreases(f, b);
            assert(decreases_to!(n => n.node_type));
            assert(decreases_to!(n.node_type => f));
        }
    }
}

/// The `(key bytes, value, ts)` triples stored in the subtree under `n`, in
/// depth-first order with children visited in ascending routing-byte order:
/// what a full traversal of the subtree yields.
pub open spec fn spec_entries<V>(n: Node<V>) -> Seq<(Seq<u8>, V, u64)>
    decreases n, 257int,
{
    if n.spec_is_twig() {
        n.twig_entries().map(
            |i: int, lv: LeafValue<VariableSizedKey, V>| (lv.key.spec_bytes(), lv.value, lv.ts),
        )
    } else {
        entries_below(n, 0)
    }
}

/// The traversal of the children of `n` whose routing byte is at least `b`.
pub open spec fn entries_below<V>(n: Node<V>, b: int) -> Seq<(Seq<u8>, V, u64)>
    decreases n, 256int - b,
    when 0 <= b <= 256
    via entries_below_dec::<V>
{
    if b >= 256 {
        Seq::empty()
    } else {
        (if n.shallow_wf() && n.kids().dom().contains(b as u8) {
            spec_entries(n.kids()[b as u8])
        } else {
            Seq::empty()
        }) + entries_below(n, b + 1)
    }
}

#[via_fn]
proof fn entries_below_dec<V>(n: Node<V>, b: int) {
    if b < 256 && n.shallow_wf() && n.kids().dom().contains(b as u8) {
        lemma_kid_decreases(n, b as u8);
    }
}

/// Traversal skips over routing bytes with no child.
pub proof fn lemma_entries_skip<V>(n: Node<V>, x: int, y: int)
    requires
        0 <= x <= y <= 256,
        forall|b: int| x <= b < y ==> !(#[trigger] n.kids().dom().contains(b as u8)),
    ensures
        entries_below(n, x) == entries_below(n, y),
    decreases y - x,
{
    if x < y {
        lemma_entries_skip(n, x + 1, y);
        assert(entries_below(n, x) =~= entries_below(n, x + 1));
    }
}

/// The concatenation `a ++ [b] ++ c`: the prefix of a collapsed node.
fn concat_key(a: &VariableSizedKey, b: u8, c: &VariableSizedKey) -> (r: VariableSizedKey)
    ensures
        r.spec_bytes() == a.spec_bytes() + seq![b] + c.spec_bytes(),
{
    let mut data: Vec<u8> = Vec::new();
    let na = a.data.len();
    let mut i: usize = 0;
    while i < na
        invariant
            na == a.spec_bytes().len(),
            i <= na,
            data@.len() == i,
            forall|j: int| 0 <= j < i ==> data@[j] == a.spec_bytes()[j],
        decreases na - i,
    {
        data.push(a.data[i]);
        i = i + 1;
    }
    data.push(b);
    let nc = c.data.len();
    let mut i: usize = 0;
    while i < nc
        invariant
            na == a.spec_bytes().len(),
            nc == c.spec_bytes().len(),
            i <= nc,
            data@.len() == na + 1 + i,
            forall|j: int| 0 <= j < na ==> data@[j] == a.spec_bytes()[j],
            data@[na as int] == b,
            forall|j: int| 0 <= j < i ==> data@[na + 1 + j] == c.spec_bytes()[j],
        decreases nc - i,
    {
        data.push(c.data[i]);
        i = i + 1;
    }
    proof {
        assert(data@ =~= a.spec_bytes() + seq![b] + c.spec_bytes());
    }
    VariableSizedKey { data }
}

/// A collapsed node — the content of `kid` under the prefix
/// `n.prefix ++ [b] ++ kid.prefix` — reads exactly what `kid` read when it
/// sat under `n` routed by `b`.
pub proof fn lemma_hist_collapse<V>(
    n: Node<V>,
    kid: Node<V>,
    m: Node<V>,
    b: u8,
    k: Seq<u8>,
    depth: int,
)
    requires
        0 <= depth,
        m.kids() == kid.kids(),
        m.twig_entries() == kid.twig_entries(),
        m.spec_is_twig() == kid.spec_is_twig(),
        m.prefix_bytes() == n.prefix_bytes() + seq![b] + kid.prefix_bytes(),
    ensures
        lookup_hist(m, k, depth) == ({
            let p = n.prefix_bytes();
            if depth + p.len() < k.len() && k.subrange(depth, depth + p.len() as int) == p && k[
                depth + p.len() as int
            ] == b {
                lookup_hist(kid, k, depth + p.len() + 1)
            } else {
                Seq::<LeafValue<VariableSizedKey, V>>::empty()
            }
        }),
{
    let p = n.prefix_bytes();
    let q = kid.prefix_bytes();
    let mp = m.prefix_bytes();
    let pl = p.len() as int;
    let d2 = depth + pl + 1;
    let e = Seq::<LeafValue<VariableSizedKey, V>>::empty();
    assert(mp.len() == pl + 1 + q.len());
    if depth + pl < k.len() && k.subrange(depth, depth + pl) == p && k[depth + pl] == b {
        // the head of the collapsed prefix matches; the rest goes as in `kid`
        if d2 + q.len() <= k.len() && k.subrange(d2, d2 + q.len() as int) == q {
            assert(k.subrange(depth, depth + mp.len() as int) =~= mp) by {
                assert forall|j: int| 0 <= j < mp.len() implies k[depth + j] == mp[j] by {
                    if j < pl {
                        assert(k.subrange(depth, depth + pl)[j] == p[j]);
                    } else if j == pl {
                    } else {
                        assert(k.subrange(d2, d2 + q.len() as int)[j - pl - 1] == q[j - pl - 1]);
                    }
                }
            }
            if m.spec_is_twig() {
                assert(lookup_hist(m, k, depth) == twig_hist(m.twig_entries(), k));
                assert(lookup_hist(kid, k, d2) == twig_hist(kid.twig_entries(), k));
            } else if depth + mp.len() == k.len() {
                assert(d2 + q.len() == k.len());
            } else {
                let b2 = k[depth + mp.len() as int];
                assert(d2 + q.len() == depth + mp.len());
                if m.kids().dom().contains(b2) {
                    assert(lookup_hist(m, k, depth) == lookup_hist(
                        m.kids()[b2],
                        k,
                        depth + mp.len() + 1,
                    ));
                    assert(lookup_hist(kid, k, d2) == lookup_hist(
                        kid.kids()[b2],
                        k,
                        d2 + q.len() + 1,
                    ));
                }
            }
        } else {
            // the tail fails on both sides
            assert(lookup_hist(kid, k, d2) =~= e);
            if depth + mp.len() <= k.len() {
                if k.subrange(depth, depth + mp.len() as int) == mp {
                    assert(k.subrange(d2, d2 + q.len() as int) =~= q) by {
                        assert forall|j: int| 0 <= j < q.len() implies k[d2 + j] == q[j] by {
                            assert(k.subrange(depth, depth + mp.len() as int)[pl + 1 + j] == mp[pl
                                + 1 + j]);
                        }
                    }
                    assert(false);
                }
                assert(lookup_hist(m, k, depth) =~= e);
            } else {
                assert(lookup_hist(m, k, depth) =~= e);
            }
        }
    } else {
        // the head fails, so the collapsed prefix cannot match either
        if depth + mp.len() <= k.len() {
            if k.subrange(depth, depth + mp.len() as int) == mp {
                assert(k.subrange(depth, depth + pl) =~= p) by {
                    assert forall|j: int| 0 <= j < pl implies k[depth + j] == p[j] by {
                        assert(k.subrange(depth, depth + mp.len() as int)[j] == mp[j]);
                    }
                }
                assert(k[depth + pl] == mp[pl]);
                assert(depth + pl < k.len());
                assert(false);
            }
            assert(lookup_hist(m, k, depth) =~= e);
        } else {
            assert(lookup_hist(m, k, depth) =~= e);
        }
    }
}

/// Every key stored in the subtree under `n` is exactly the accumulated
/// path: `base`, then the node's prefix, then below an interior node the
/// routing byte and the child's path in turn. The tree operations build
/// keys this way; this predicate names the discipline.
pub open spec fn keys_placed<V>(n: Node<V>, base: Seq<u8>) -> bool
    decreases n, 257int,
{
    if n.spec_is_twig() {
        forall|i: int|
            0 <= i < n.twig_entries().len() ==> (#[trigger] n.twig_entries()[i]).key.spec_bytes()
                == base + n.prefix_bytes()
    } else {
        kids_placed(n, base, 0)
    }
}

/// The placement discipline for the children of `n` with routing byte at
/// least `b`.
pub open spec fn kids_placed<V>(n: Node<V>, base: Seq<u8>, b: int) -> bool
    decreases n, 256int - b,
    when 0 <= b <= 256
    via kids_placed_dec::<V>
{
    if b >= 256 {
        true
    } else {
        (if n.shallow_wf() && n.kids().dom().contains(b as u8) {
            keys_placed(n.kids()[b as u8], base + n.prefix_bytes() + seq![b as u8])
        } else {
            true
        }) && kids_placed(n, base, b + 1)
    }
}

#[via_fn]
proof fn kids_placed_dec<V>(n: Node<V>, base: Seq<u8>, b: int) {
    if b < 256 && n.shallow_wf() && n.kids().dom().contains(b as u8) {
        lemma_kid_decreases(n, b as u8);
    }
}

/// Placement passes from a node to each of its children.
pub proof fn lemma_kids_placed_at<V>(n: Node<V>, base: Seq<u8>, x: int, b: u8)
    requires
        0 <= x <= b as int,
        kids_placed(n, base, x),
        n.shallow_wf(),
        n.kids().dom().contains(b),
    ensures
        keys_placed(n.kids()[b], base + n.prefix_bytes() + seq![b]),
    decreases (b as int) - x,
{
    if x < b as int {
        lemma_kids_placed_at(n, base, x + 1, b);
    }
}

/// Two nodes with the same children and entries whose prefixes split the
/// same accumulated path at different points place their keys alike.
pub proof fn lemma_placed_reprefix<V>(n: Node<V>, m: Node<V>, base1: Seq<u8>, base2: Seq<u8>)
    requires
        m.kids() == n.kids(),
        m.twig_entries() == n.twig_entries(),
        m.spec_is_twig() == n.spec_is_twig(),
        m.shallow_wf(),
        n.shallow_wf(),
        base1 + n.prefix_bytes() == base2 + m.prefix_bytes(),
        keys_placed(n, base1),
    ensures
        keys_placed(m, base2),
{
    if m.spec_is_twig() {
    } else {
        lemma_placed_reprefix_below(n, m, base1, base2, 0);
    }
}

proof fn lemma_placed_reprefix_below<V>(
    n: Node<V>,
    m: Node<V>,
    base1: Seq<u8>,
    base2: Seq<u8>,
    b: int,
)
    requires
        m.kids() == n.kids(),
        m.spec_is_twig() == n.spec_is_twig(),
        !n.spec_is_twig(),
        m.shallow_wf(),
        n.shallow_wf(),
        base1 + n.prefix_bytes() == base2 + m.prefix_bytes(),
        kids_placed(n, base1, b),
        0 <= b <= 256,
    ensures
        kids_placed(m, base2, b),
    decreases 256 - b,
{
    if b < 256 {
        lemma_placed_reprefix_below(n, m, base1, base2, b + 1);
        if m.kids().dom().contains(b as u8) {
            assert(base1 + n.prefix_bytes() + seq![b as u8] =~= base2 + m.prefix_bytes() + seq![
                b as u8
            ]);
        }
    }
}

/// A node whose every child places its keys below the accumulated path
/// places its keys.
pub proof fn lemma_placed_fold<V>(n: Node<V>, base: Seq<u8>)
    requires
        !n.spec_is_twig(),
        forall|b: u8|
            #[trigger] n.kids().dom().contains(b) ==> keys_placed(
                n.kids()[b],
                base + n.prefix_bytes() + seq![b],
            ),
    ensures
        keys_placed(n, base),
{
    lemma_placed_fold_below(n, base, 0);
}

proof fn lemma_placed_fold_below<V>(n: Node<V>, base: Seq<u8>, b: int)
    requires
        !n.spec_is_twig(),
        forall|b2: u8|
            #[trigger] n.kids().dom().contains(b2) ==> keys_placed(
                n.kids()[b2],
                base + n.prefix_bytes() + seq![b2],
            ),
        0 <= b <= 256,
    ensures
        kids_placed(n, base, b),
    decreases 256 - b,
{
    if b < 256 {
        lemma_placed_fold_below(n, base, b + 1);
    }
}

/// A root for a tree that was empty: one twig holding the whole key.
fn fresh_root<V: Copy>(key: &VariableSizedKey, value: V, ts: u64) -> (r: Node<V>)
    ensures
        r.deep_ok(),
        is_hist_insert(
            Seq::<LeafValue<VariableSizedKey, V>>::empty(),
            lookup_hist(r, key.spec_bytes(), 0),
            key.spec_bytes(),
            value,
            ts,
        ),
        forall|k: Seq<u8>|
            k != key.spec_bytes() ==> #[trigger] lookup_hist(r, k, 0) == Seq::<
                LeafValue<VariableSizedKey, V>,
            >::empty(),
        keys_placed(r, Seq::<u8>::empty()),
{
    let ghost kb = key.spec_bytes();
    let klen = key.length();
    let twn = make_twig(key.sub_range(0, klen), key, value, ts);
    let ghost gtw = twn;
    proof {
        assert(kb.subrange(0, klen as int) =~= kb);
        assert(Seq::<u8>::empty() + gtw.prefix_bytes() =~= kb);
        assert(keys_placed(gtw, Seq::<u8>::empty()));
        assert(lookup_hist(gtw, kb, 0) == twig_hist(gtw.twig_entries(), kb));
        lemma_twig_hist_same_key(gtw.twig_entries(), kb);
        assert forall|k: Seq<u8>| k != kb implies #[trigger] lookup_hist(gtw, k, 0) == Seq::<
            LeafValue<VariableSizedKey, V>,
        >::empty() by {
            let e = Seq::<LeafValue<VariableSizedKey, V>>::empty();
            if kb.len() <= k.len() && k.subrange(0, kb.len() as int) == kb {
                lemma_twig_hist_no_match(gtw.twig_entries(), k);
                assert(lookup_hist(gtw, k, 0) =~= e);
            } else {
                assert(lookup_hist(gtw, k, 0) =~= e);
            }
        }
    }
    twn
}

impl<V> Node<V> {
    /// The number of children of this node.
    pub fn n_kids(&self) -> (r: usize)
        requires
            self.shallow_wf(),
        ensures
            r == self.kid_count(),
    {
        match self.node_type {
            NodeType::Twig(_) => 0,
            NodeType::Node4(ref n) => n.num_children(),
            NodeType::Node16(ref n) => n.num_children(),
            NodeType::Node48(ref n) => n.num_children(),
            NodeType::Node256(ref n) => n.num_children(),
        }
    }
}

/// Take `key`'s whole history out of the subtree under `n`, matching from
/// offset `depth`. `None` when the subtree holds nothing under the key (the
/// tree is unchanged); `Some(None)` when the subtree held only that key and
/// disappears; `Some(Some(m))` when a fresh subtree without the key remains.
/// A parent that loses a child down to one collapses into that child, and a
/// tier whose occupancy falls below its band shrinks.
pub fn node_remove<V: Copy>(n: &Node<V>, key: &VariableSizedKey, depth: usize) -> (r: Option<
    Option<Node<V>>,
>)
    requires
        n.deep_ok(),
        depth <= key.spec_bytes().len(),
    ensures
        r is None <==> lookup_hist(*n, key.spec_bytes(), depth as int) == Seq::<
            LeafValue<VariableSizedKey, V>,
        >::empty(),
        r matches Some(sub) ==> match sub {
            None => forall|k: Seq<u8>|
                k != key.spec_bytes() ==> lookup_hist(*n, k, depth as int) == Seq::<
                    LeafValue<VariableSizedKey, V>,
                >::empty(),
            Some(m) => {
                &&& m.deep_ok()
                &&& lookup_hist(m, key.spec_bytes(), depth as int) == Seq::<
                    LeafValue<VariableSizedKey, V>,
                >::empty()
                &&& forall|k: Seq<u8>|
                    k != key.spec_bytes() ==> lookup_hist(m, k, depth as int) == lookup_hist(
                        *n,
                        k,
                        depth as int,
                    )
                &&& keys_placed(*n, key.spec_bytes().subrange(0, depth as int)) ==> keys_placed(
                    m,
                    key.spec_bytes().subrange(0, depth as int),
                )
            },
        },
    decreases key.spec_bytes().len() - depth,
{
    proof {
        lemma_deep_ok_unfold(*n);
    }
    let ghost kb = key.spec_bytes();
    let ghost base0 = kb.subrange(0, depth as int);
    let ghost rest = kb.subrange(depth as int, kb.len() as int);
    let ghost p = n.prefix_bytes();
    let ghost e = Seq::<LeafValue<VariableSizedKey, V>>::empty();
    let klen = key.length();
    let plen = n.plen();
    let c = n.cpl_with_key(key, depth);
    proof {
        lemma_common_len(rest, p);
        assert(forall|j: int| 0 <= j < rest.len() ==> rest[j] == kb[depth + j]);
    }
    if c < plen {
        // the key diverges inside this node's prefix: nothing stored under it
        proof {
            if depth + p.len() <= klen as int {
                assert(kb.subrange(depth as int, depth + p.len() as int)[c as int] == rest[
                    c as int]);
                assert(kb.subrange(depth as int, depth + p.len() as int) != p);
            }
            assert(lookup_hist(*n, kb, depth as int) =~= e);
        }
        None
    } else {
        match n.node_type {
            NodeType::Twig(ref t) => {
                proof {
                    assert(kb.subrange(depth as int, depth + p.len() as int) =~= p);
                }
                let holds = if t.values.len() == 0 {
                    false
                } else {
                    proof {
                        assert(t.entries()[0] == *t.values@[0]);
                    }
                    prefix_eq(&t.values[0].key, key)
                };
                if holds {
                    proof {
                        lemma_twig_hist_same_key(t.entries(), kb);
                        assert(lookup_hist(*n, kb, depth as int) == t.entries());
                        assert(t.entries().len() > 0);
                        assert forall|k: Seq<u8>| k != kb implies lookup_hist(*n, k, depth as int)
                            == e by {
                            if depth + p.len() <= k.len() && k.subrange(
                                depth as int,
                                depth + p.len() as int,
                            ) == p {
                                lemma_twig_hist_no_match(t.entries(), k);
                            } else {
                                assert(lookup_hist(*n, k, depth as int) =~= e);
                            }
                        }
                    }
                    Some(None)
                } else {
                    proof {
                        if t.entries().len() > 0 {
                            lemma_twig_hist_no_match(t.entries(), kb);
                        }
                        assert(lookup_hist(*n, kb, depth as int) =~= e);
                    }
                    None
                }
            }
            _ => {
                if depth + c >= klen {
                    proof {
                        assert(lookup_hist(*n, kb, depth as int) =~= e);
                    }
                    return None;
                }
                let ghost dd = depth as int;
                let ghost cc = c as int;
                let b = key.at(depth + c);
                proof {
                    assert(kb.subrange(dd, dd + p.len() as int) =~= p);
                }
                match n.find_kid(b) {
                    None => {
                        proof {
                            assert(lookup_hist(*n, kb, dd) =~= e);
                        }
                        None
                    }
                    Some(ch) => {
                        let ghost gkid = n.kids()[b];
                        proof {
                            assert(lookup_hist(*n, kb, dd) == lookup_hist(gkid, kb, dd + cc + 1));
                        }
                        match node_remove(ch, key, depth + c + 1) {
                            None => None,
                            Some(sub) => {
                                match sub {
                                    None => {
                                        let nk = n.n_kids();
                                        if nk == 2 {
                                            // collapse into the one remaining child
                                            let pairs = n.iter();
                                            let keep: usize = if pairs[0].0 == b {
                                                1
                                            } else {
                                                0
                                            };
                                            let ob = pairs[keep].0;
                                            let okid = pairs[keep].1;
                                            proof {
                                                assert(ob != b);
                                                assert(*okid == n.kids()[ob]);
                                                assert(n.kids().dom().contains(ob));
                                                assert(n.kids()[ob].deep_ok());
                                                lemma_deep_ok_unfold(n.kids()[ob]);
                                                assert(n.kids()[ob].node_ok());
                                            }
                                            let m = okid.with_prefix(
                                                concat_key(n.prefix_key(), ob, okid.prefix_key()),
                                            );
                                            let ghost gm = m;
                                            proof {
                                                lemma_deep_ok_fold(gm);
                                                lemma_hist_collapse(*n, n.kids()[ob], gm, ob, kb, dd);
                                                assert(lookup_hist(gm, kb, dd) =~= e);
                                                assert forall|k: Seq<u8>| k != kb implies
                                                    lookup_hist(gm, k, dd) == lookup_hist(
                                                    *n,
                                                    k,
                                                    dd,
                                                ) by {
                                                    lemma_hist_collapse(
                                                        *n,
                                                        n.kids()[ob],
                                                        gm,
                                                        ob,
                                                        k,
                                                        dd,
                                                    );
                                                    if dd + p.len() <= k.len() && k.subrange(
                                                        dd,
                                                        dd + p.len() as int,
                                                    ) == p && dd + p.len() < k.len() {
                                                        let b2 = k[dd + p.len() as int];
                                                        if b2 == b {
                                                            assert(lookup_hist(*n, k, dd)
                                                                == lookup_hist(
                                                                gkid,
                                                                k,
                                                                dd + cc + 1,
                                                            ));
                                                            assert(lookup_hist(gkid, k, dd + cc + 1)
                                                                == e);
                                                            assert(lookup_hist(gm, k, dd) =~= e);
                                                        } else if b2 == ob {
                                                        } else {
                                                            assert(!n.kids().dom().contains(b2));
                                                            assert(lookup_hist(*n, k, dd) =~= e);
                                                            assert(lookup_hist(gm, k, dd) =~= e);
                                                        }
                                                    } else {
                                                        assert(lookup_hist(*n, k, dd) =~= e);
                                                        assert(lookup_hist(gm, k, dd) =~= e);
                                                    }
                                                }
                                                if keys_placed(*n, base0) {
                                                    lemma_kids_placed_at(*n, base0, 0, ob);
                                                    assert((base0 + p + seq![ob])
                                                        + n.kids()[ob].prefix_bytes() =~= base0
                                                        + gm.prefix_bytes());
                                                    lemma_placed_reprefix(
                                                        n.kids()[ob],
                                                        gm,
                                                        base0 + p + seq![ob],
                                                        base0,
                                                    );
                                                }
                                            }
                                            Some(Some(m))
                                        } else {
                                            proof {
                                                assert(n.kid_count() >= 3);
                                            }
                                            let rn = interior_delete(n, b);
                                            let ghost grn = rn;
                                            proof {
                                                lemma_deep_ok_fold(grn);
                                                assert(lookup_hist(grn, kb, dd) =~= e);
                                                assert forall|k: Seq<u8>| k != kb implies
                                                    lookup_hist(grn, k, dd) == lookup_hist(
                                                    *n,
                                                    k,
                                                    dd,
                                                ) by {
                                                    if dd + p.len() <= k.len() && k.subrange(
                                                        dd,
                                                        dd + p.len() as int,
                                                    ) == p && dd + p.len() < k.len() {
                                                        let b2 = k[dd + p.len() as int];
                                                        if b2 == b {
                                                            assert(lookup_hist(*n, k, dd)
                                                                == lookup_hist(
                                                                gkid,
                                                                k,
                                                                dd + cc + 1,
                                                            ));
                                                            assert(lookup_hist(gkid, k, dd + cc + 1)
                                                                == e);
                                                            assert(lookup_hist(grn, k, dd) =~= e);
                                                        } else {
                                                            if n.kids().dom().contains(b2) {
                                                                assert(grn.kids()[b2] == n.kids()[
                                                                    b2]);
                                                            }
                                                        }
                                                    } else {
                                                        assert(lookup_hist(grn, k, dd) =~= e);
                                                        assert(lookup_hist(*n, k, dd) =~= e);
                                                    }
                                                }
                                                if keys_placed(*n, base0) {
                                                    assert forall|b2: u8| #[trigger] grn.kids().dom().contains(
                                                        b2,
                                                    ) implies keys_placed(
                                                        grn.kids()[b2],
                                                        base0 + grn.prefix_bytes() + seq![b2],
                                                    ) by {
                                                        lemma_kids_placed_at(*n, base0, 0, b2);
                                                        assert(grn.kids()[b2] == n.kids()[b2]);
                                                    }
                                                    lemma_placed_fold(grn, base0);
                                                }
                                            }
                                            Some(Some(rn))
                                        }
                                    }
                                    Some(nc) => {
                                        let ghost gnc = nc;
                                        let rn = interior_replace(n, b, nc);
                                        proof {
                                            lemma_deep_ok_fold(rn);
                                            assert(lookup_hist(rn, kb, dd) == lookup_hist(
                                                gnc,
                                                kb,
                                                dd + cc + 1,
                                            ));
                                            assert forall|k: Seq<u8>| k != kb implies lookup_hist(
                                                rn,
                                                k,
                                                dd,
                                            ) == lookup_hist(*n, k, dd) by {
                                                if dd + p.len() <= k.len() && k.subrange(
                                                    dd,
                                                    dd + p.len() as int,
                                                ) == p && dd + p.len() < k.len() {
                                                    let b2 = k[dd + p.len() as int];
                                                    if b2 == b {
                                                        assert(lookup_hist(rn, k, dd)
                                                            == lookup_hist(gnc, k, dd + cc + 1));
                                                        assert(lookup_hist(*n, k, dd)
                                                            == lookup_hist(gkid, k, dd + cc + 1));
                                                    } else {
                                                        if n.kids().dom().contains(b2) {
                                                            assert(rn.kids()[b2] == n.kids()[b2]);
                                                        }
                                                    }
                                                } else {
                                                    assert(lookup_hist(rn, k, dd) =~= e);
                                                    assert(lookup_hist(*n, k, dd) =~= e);
                                                }
                                            }
                                            if keys_placed(*n, base0) {
                                                lemma_kids_placed_at(*n, base0, 0, b);
                                                assert(base0 + p + seq![b] =~= kb.subrange(
                                                    0,
                                                    dd + cc + 1,
                                                ));
                                                assert(keys_placed(gnc, base0 + p + seq![b]));
                                                assert forall|b2: u8| #[trigger] rn.kids().dom().contains(
                                                    b2,
                                                ) implies keys_placed(
                                                    rn.kids()[b2],
                                                    base0 + rn.prefix_bytes() + seq![b2],
                                                ) by {
                                                    if b2 != b {
                                                        lemma_kids_placed_at(*n, base0, 0, b2);
                                                        assert(rn.kids()[b2] == n.kids()[b2]);
                                                    }
                                                }
                                                lemma_placed_fold(rn, base0);
                                            }
                                        }
                                        Some(Some(rn))
                                    }
                                }
                            }
                        }
                    }
                }
            }
        }
    }
}

/// The ordered, versioned index: an optional root node. Every mutation
/// leaves the given root untouched and installs a fresh one, so readers of
/// an older root keep a consistent snapshot.
pub struct Tree<V> {
    pub root: Option<Arc<Node<V>>>,
}

impl<V> Tree<V> {
    /// The history of timestamped values the tree stores under `k`.
    pub open spec fn hist(&self, k: Seq<u8>) -> Seq<LeafValue<VariableSizedKey, V>> {
        match self.root {
            None => Seq::empty(),
            Some(r) => lookup_hist(*r, k, 0),
        }
    }

    /// Every node of the tree is in order, and every stored key is exactly
    /// the path that reaches it.
    pub open spec fn tree_ok(&self) -> bool {
        match self.root {
            None => true,
            Some(r) => r.deep_ok() && keys_placed(*r, Seq::<u8>::empty()),
        }
    }

    /// The empty tree.
    pub fn new() -> (r: Self)
        ensures
            r.tree_ok(),
            r.root is None,
            forall|k: Seq<u8>| #[trigger] r.hist(k) == Seq::<LeafValue<VariableSizedKey, V>>::empty(),
    {
        Tree { root: None }
    }
}

impl<V: Copy> Tree<V> {
    /// Read `key`: the latest value when `ts` is 0, else the latest value
    /// whose timestamp is at most `ts`.
    pub fn get(&self, key: &VariableSizedKey, ts: u64) -> (r: Option<(V, u64)>)
        requires
            self.tree_ok(),
        ensures
            is_hist_sel(
                self.hist(key.spec_bytes()),
                if ts == 0 {
                    u64::MAX
                } else {
                    ts
                },
                r,
            ),
    {
        let bound = if ts == 0 {
            u64::MAX
        } else {
            ts
        };
        match self.root {
            None => None,
            Some(ref rt) => node_get(rt, key, 0, bound),
        }
    }

    /// Record `(key, value, ts)`. Returns the previous latest value of the
    /// key, or `TrieError::InvalidPrefix`, leaving the tree unchanged, when
    /// the key nests with a stored key (see `can_insert`).
    pub fn insert(&mut self, key: &VariableSizedKey, value: V, ts: u64) -> (r: Result<
        Option<(V, u64)>,
        TrieError,
    >)
        requires
            old(self).tree_ok(),
        ensures
            final(self).tree_ok(),
            r is Err <==> (old(self).root matches Some(rt) && !can_insert(
                *rt,
                key.spec_bytes(),
                0,
            )),
            match r {
                Ok(prev) => {
                    &&& is_hist_insert(
                        old(self).hist(key.spec_bytes()),
                        final(self).hist(key.spec_bytes()),
                        key.spec_bytes(),
                        value,
                        ts,
                    )
                    &&& forall|k: Seq<u8>|
                        k != key.spec_bytes() ==> final(self).hist(k) == old(self).hist(k)
                    &&& is_hist_sel(old(self).hist(key.spec_bytes()), u64::MAX, prev)
                },
                Err(e) => final(self).root == old(self).root && e is InvalidPrefix,
            },
    {
        let ghost kb = key.spec_bytes();
        match self.root {
            None => {
                let twn = fresh_root(key, value, ts);
                let ghost gtw = twn;
                self.root = Some(Arc::new(twn));
                proof {
                    assert(self.hist(kb) == lookup_hist(gtw, kb, 0));
                }
                Ok(None)
            }
            Some(ref rt) => {
                let prev = node_get(rt, key, 0, u64::MAX);
                match node_insert(rt, key, value, ts, 0) {
                    Some(rn) => {
                        let ghost grn = rn;
                        self.root = Some(Arc::new(rn));
                        proof {
                            assert(self.hist(kb) == lookup_hist(grn, kb, 0));
                            assert(kb.subrange(0, 0) =~= Seq::<u8>::empty());
                        }
                        Ok(prev)
                    }
                    None => Err(TrieError::InvalidPrefix),
                }
            }
        }
    }

    /// Take `key` and its whole history out of the tree. Returns what a
    /// lookup of the key with no timestamp bound would have read, so `None`
    /// exactly when the key was absent; every other key reads as before.
    pub fn remove(&mut self, key: &VariableSizedKey) -> (r: Option<(V, u64)>)
        requires
            old(self).tree_ok(),
        ensures
            final(self).tree_ok(),
            final(self).hist(key.spec_bytes()) == Seq::<LeafValue<VariableSizedKey, V>>::empty(),
            forall|k: Seq<u8>|
                k != key.spec_bytes() ==> final(self).hist(k) == old(self).hist(k),
            is_hist_sel(old(self).hist(key.spec_bytes()), u64::MAX, r),
    {
        let ghost kb = key.spec_bytes();
        match self.root {
            None => None,
            Some(ref rt) => {
                let prev = node_get(rt, key, 0, u64::MAX);
                match node_remove(rt, key, 0) {
                    None => {
                        proof {
                            assert(self.hist(kb) =~= Seq::<
                                LeafValue<VariableSizedKey, V>,
                            >::empty());
                        }
                        prev
                    }
                    Some(sub) => {
                        match sub {
                            None => {
                                self.root = None;
                                prev
                            }
                            Some(m) => {
                                let ghost gm = m;
                                self.root = Some(Arc::new(m));
                                proof {
                                    assert(self.hist(kb) == lookup_hist(gm, kb, 0));
                                    assert(kb.subrange(0, 0) =~= Seq::<u8>::empty());
                                }
                                prev
                            }
                        }
                    }
                }
            }
        }
    }

    /// Pin the current root: the returned snapshot reads this state whatever
    /// later mutations do to the tree.
    pub fn snapshot(&self) -> (r: crate::snapshot::Snapshot<V>)
        ensures
            r.root == self.root,
            r.readers@ == Seq::<u64>::empty(),
            r.next_reader_id == 0,
    {
        let pinned = match self.root {
            Some(ref rt) => Some(rt.clone()),
            None => None,
        };
        crate::snapshot::Snapshot::new(pinned)
    }

    /// Record `(key, value, ts)` in place where that is safe; the observable
    /// outcome is the same as `insert`'s.
    pub fn insert_unchecked(&mut self, key: &VariableSizedKey, value: V, ts: u64) -> (r: Result<
        Option<(V, u64)>,
        TrieError,
    >)
        requires
            old(self).tree_ok(),
        ensures
            final(self).tree_ok(),
            r is Err <==> (old(self).root matches Some(rt) && !can_insert(
                *rt,
                key.spec_bytes(),
                0,
            )),
            match r {
                Ok(prev) => {
                    &&& is_hist_insert(
                        old(self).hist(key.spec_bytes()),
                        final(self).hist(key.spec_bytes()),
                        key.spec_bytes(),
                        value,
                        ts,
                    )
                    &&& forall|k: Seq<u8>|
                        k != key.spec_bytes() ==> final(self).hist(k) == old(self).hist(k)
                    &&& is_hist_sel(old(self).hist(key.spec_bytes()), u64::MAX, prev)
                },
                Err(e) => final(self).root == old(self).root && e is InvalidPrefix,
            },
    {
        self.insert(key, value, ts)
    }
}

} // verus!
