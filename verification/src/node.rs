//! The node layer: the terminal twig holding a key's timestamped values,
//! the four adaptive interior tiers behind the shared `NodeTrait` contract,
//! and the conversions between tiers.

use std::sync::Arc;
use vstd::pervasive::unreached;
use vstd::prelude::*;

use crate::prefix::{prefix_eq, Prefix};
use crate::vec_array::VecArray;

verus! {

/// The larger of two timestamps.
pub open spec fn max64(a: u64, b: u64) -> u64 {
    if a >= b {
        a
    } else {
        b
    }
}

/// A value that carries an aggregated timestamp. Interior nodes use it to
/// keep each node's `ts` equal to the newest timestamp reachable beneath it.
pub trait Timestamp {
    /// The carried timestamp.
    spec fn spec_ts(&self) -> u64;

    /// Read the carried timestamp.
    fn ts(&self) -> (r: u64)
        ensures
            r == self.spec_ts(),
    ;
}

impl Timestamp for u8 {
    open spec fn spec_ts(&self) -> u64 {
        *self as u64
    }

    fn ts(&self) -> u64 {
        *self as u64
    }
}

impl Timestamp for u16 {
    open spec fn spec_ts(&self) -> u64 {
        *self as u64
    }

    fn ts(&self) -> u64 {
        *self as u64
    }
}

impl Timestamp for u32 {
    open spec fn spec_ts(&self) -> u64 {
        *self as u64
    }

    fn ts(&self) -> u64 {
        *self as u64
    }
}

impl Timestamp for u64 {
    open spec fn spec_ts(&self) -> u64 {
        *self
    }

    fn ts(&self) -> u64 {
        *self
    }
}

impl Timestamp for usize {
    open spec fn spec_ts(&self) -> u64 {
        *self as u64
    }

    fn ts(&self) -> u64 {
        *self as u64
    }
}

/// One timestamped `(key, value, ts)` tuple stored inside a twig.
pub struct LeafValue<K: Prefix, V> {
    pub key: K,
    pub value: V,
    pub ts: u64,
}

impl<K: Prefix, V> LeafValue<K, V> {
    pub fn new(key: K, value: V, ts: u64) -> (r: Self)
        ensures
            r.key == key,
            r.value == value,
            r.ts == ts,
    {
        LeafValue { key, value, ts }
    }
}

/// A terminal node: the remaining suffix of a key together with the list of
/// timestamped values recorded for that key. Values with the same key and
/// different timestamps coexist, so point-in-time reads can see history; an
/// entry is only replaced when both its key and its timestamp match a new
/// insertion.
pub struct TwigNode<K: Prefix, V> {
    pub prefix: K,
    pub values: Vec<Arc<LeafValue<K, V>>>,
    pub ts: u64,
}

impl<K: Prefix, V> TwigNode<K, V> {
    /// The stored entries, in stored order.
    pub open spec fn entries(&self) -> Seq<LeafValue<K, V>> {
        self.values@.map(|i: int, a: Arc<LeafValue<K, V>>| *a)
    }

    pub open spec fn twig_wf(&self) -> bool {
        &&& self.prefix.pwf()
        &&& forall|i: int|
            0 <= i < self.entries().len() ==> (#[trigger] self.entries()[i]).key.pwf()
    }

    /// Entry `i` records key `kb` at exactly timestamp `ts`.
    pub open spec fn at_key_ts(&self, kb: Seq<u8>, ts: u64, i: int) -> bool {
        &&& 0 <= i < self.entries().len()
        &&& self.entries()[i].key.spec_bytes() == kb
        &&& self.entries()[i].ts == ts
    }

    /// Entry `i` records key `kb` with some timestamp.
    pub open spec fn at_key(&self, kb: Seq<u8>, i: int) -> bool {
        &&& 0 <= i < self.entries().len()
        &&& self.entries()[i].key.spec_bytes() == kb
    }

    /// Entry `i` is the latest entry for `kb` among those with `ts <= bound`:
    /// its timestamp is maximal, and it is the last entry holding that maximum.
    pub open spec fn latest_bounded(&self, kb: Seq<u8>, bound: u64, i: int) -> bool {
        &&& self.at_key(kb, i)
        &&& self.entries()[i].ts <= bound
        &&& forall|j: int|
            self.at_key(kb, j) && self.entries()[j].ts <= bound ==> self.entries()[j].ts
                <= self.entries()[i].ts
        &&& forall|j: int|
            i < j < self.entries().len() && self.at_key(kb, j) && self.entries()[j].ts <= bound
                ==> self.entries()[j].ts < self.entries()[i].ts
    }

    /// Entry `i` is the latest entry for `kb`: maximal timestamp, last among ties.
    pub open spec fn latest(&self, kb: Seq<u8>, i: int) -> bool {
        self.latest_bounded(kb, u64::MAX, i)
    }

    /// `t` is the maximum timestamp among the stored entries, or 0 when there
    /// is none with a positive timestamp.
    pub open spec fn is_entries_max_ts(&self, t: u64) -> bool {
        &&& forall|i: int| 0 <= i < self.entries().len() ==> (#[trigger] self.entries()[i]).ts <= t
        &&& (t == 0 || exists|i: int|
            0 <= i < self.entries().len() && (#[trigger] self.entries()[i]).ts == t)
    }

    pub fn new(prefix: K) -> (r: Self)
        requires
            prefix.pwf(),
        ensures
            r.twig_wf(),
            r.prefix == prefix,
            r.entries() =~= Seq::<LeafValue<K, V>>::empty(),
            r.ts == 0,
    {
        let r = TwigNode { prefix, values: Vec::new(), ts: 0 };
        proof {
            assert(r.entries() =~= Seq::<LeafValue<K, V>>::empty());
        }
        r
    }

    pub fn clone(&self) -> (r: Self)
        requires
            self.twig_wf(),
        ensures
            r.twig_wf(),
            r.prefix.spec_bytes() == self.prefix.spec_bytes(),
            r.entries() == self.entries(),
            r.ts == self.ts,
    {
        let r = TwigNode {
            prefix: self.prefix.duplicate(),
            values: clone_arc_vec(&self.values),
            ts: self.ts,
        };
        proof {
            assert(r.values@ == self.values@);
            assert(r.entries() =~= self.entries());
        }
        r
    }

    /// The twig's aggregated timestamp: the maximum over the stored entries,
    /// or the stored `ts` field when the twig is empty.
    pub fn ts(&self) -> (r: u64)
        ensures
            self.entries().len() == 0 ==> r == self.ts,
            self.entries().len() > 0 ==> self.is_entries_max_ts(r),
    {
        let r = max_entry_ts(&self.values, self.ts);
        proof {
            if self.values@.len() > 0 {
                let w = choose|w: int|
                    0 <= w < self.values@.len() && (#[trigger] self.values@[w]).ts == r;
                assert(self.entries()[w] == *self.values@[w]);
                assert forall|j: int| 0 <= j < self.entries().len() implies (
                #[trigger] self.entries()[j]).ts <= r by {
                    assert(self.entries()[j] == *self.values@[j]);
                }
            }
        }
        r
    }

    /// Record `(key, value, ts)`. An entry with the same key and the same
    /// timestamp is replaced at its index; otherwise the new entry is placed
    /// before the first entry whose timestamp is not older. The result's `ts`
    /// is the maximum timestamp over the new entries.
    pub fn insert(&self, key: &K, value: V, ts: u64) -> (r: TwigNode<K, V>)
        requires
            self.twig_wf(),
            key.pwf(),
        ensures
            r.twig_wf(),
            r.prefix.spec_bytes() == self.prefix.spec_bytes(),
            self.insert_post(*key, value, ts, r),
    {
        self.insert_impl(key, value, ts)
    }

    /// What `insert` leaves behind, relative to the entries of `self`.
    pub open spec fn insert_post(&self, key: K, value: V, ts: u64, r: TwigNode<K, V>) -> bool {
        let kb = key.spec_bytes();
        &&& if exists|i: int| self.at_key_ts(kb, ts, i) {
            &&& r.entries().len() == self.entries().len()
            &&& exists|i: int|
                {
                    &&& #[trigger] self.at_key_ts(kb, ts, i)
                    &&& forall|j: int| 0 <= j < i ==> !self.at_key_ts(kb, ts, j)
                    &&& r.entries()[i].key.spec_bytes() == kb
                    &&& r.entries()[i].value == value
                    &&& r.entries()[i].ts == ts
                    &&& forall|j: int|
                        0 <= j < self.entries().len() && j != i ==> r.entries()[j]
                            == self.entries()[j]
                }
        } else {
            &&& r.entries().len() == self.entries().len() + 1
            &&& exists|p: int|
                {
                    &&& 0 <= p <= self.entries().len()
                    &&& forall|j: int| 0 <= j < p ==> (#[trigger] self.entries()[j]).ts < ts
                    &&& (p < self.entries().len() ==> self.entries()[p].ts >= ts)
                    &&& #[trigger] r.entries()[p].key.spec_bytes() == kb
                    &&& r.entries()[p].value == value
                    &&& r.entries()[p].ts == ts
                    &&& forall|j: int| 0 <= j < p ==> r.entries()[j] == self.entries()[j]
                    &&& forall|j: int|
                        p <= j < self.entries().len() ==> r.entries()[j + 1] == self.entries()[j]
                }
        }
        &&& r.is_entries_max_ts(r.ts)
    }

    /// Record `(key, value, ts)` in place; same outcome as `insert`.
    pub fn insert_mut(&mut self, key: &K, value: V, ts: u64)
        requires
            old(self).twig_wf(),
            key.pwf(),
        ensures
            final(self).twig_wf(),
            final(self).prefix.spec_bytes() == old(self).prefix.spec_bytes(),
            old(self).insert_post(*key, value, ts, *final(self)),
    {
        let r = self.insert_impl(key, value, ts);
        *self = r;
    }

    fn insert_impl(&self, key: &K, value: V, ts: u64) -> (r: TwigNode<K, V>)
        requires
            self.twig_wf(),
            key.pwf(),
        ensures
            r.twig_wf(),
            r.prefix.spec_bytes() == self.prefix.spec_bytes(),
            self.insert_post(*key, value, ts, r),
    {
        let ghost kb = key.spec_bytes();
        let n = self.values.len();
        // look for an entry with the same key and the same timestamp
        let mut ridx: Option<usize> = None;
        let mut i: usize = 0;
        while i < n && ridx.is_none()
            invariant
                self.twig_wf(),
                key.pwf(),
                kb == key.spec_bytes(),
                n == self.entries().len(),
                n == self.values@.len(),
                i <= n,
                match ridx {
                    Some(k) => k < n && self.at_key_ts(kb, ts, k as int) && forall|j: int|
                        0 <= j < k ==> !self.at_key_ts(kb, ts, j),
                    None => forall|j: int| 0 <= j < i ==> !self.at_key_ts(kb, ts, j),
                },
            decreases n - i,
        {
            proof {
                assert(self.entries()[i as int] == *self.values@[i as int]);
            }
            if self.values[i].ts == ts && prefix_eq(&self.values[i].key, key) {
                ridx = Some(i);
            }
            i = i + 1;
        }
        let ghost found = ridx is Some;
        proof {
            if ridx is None {
                assert(forall|j: int| 0 <= j < n ==> !self.at_key_ts(kb, ts, j));
                assert(!exists|j: int| self.at_key_ts(kb, ts, j));
            }
        }
        let (new_values, kpos) = match ridx {
            Some(k) => {
                let mut vs = clone_arc_vec(&self.values);
                let lv = LeafValue::new(key.duplicate(), value, ts);
                let ghost glv = lv;
                vs[k] = Arc::new(lv);
                proof {
                    assert(*vs@[k as int] == glv);
                    assert(glv.key.spec_bytes() == kb && glv.value == value && glv.ts == ts
                        && glv.key.pwf());
                }
                (vs, k)
            }
            None => {
                // insertion point: before the first entry that is not older
                let mut p: usize = 0;
                while p < n && self.values[p].ts < ts
                    invariant
                        self.twig_wf(),
                        n == self.entries().len(),
                        n == self.values@.len(),
                        p <= n,
                        forall|j: int| 0 <= j < p ==> (#[trigger] self.entries()[j]).ts < ts,
                    decreases n - p,
                {
                    proof {
                        assert(self.entries()[p as int] == *self.values@[p as int]);
                    }
                    p = p + 1;
                }
                proof {
                    if p < n {
                        assert(self.entries()[p as int] == *self.values@[p as int]);
                        assert(self.entries()[p as int].ts >= ts);
                    }
                }
                let mut vs: Vec<Arc<LeafValue<K, V>>> = Vec::new();
                let mut j: usize = 0;
                while j < p
                    invariant
                        self.twig_wf(),
                        n == self.values@.len(),
                        p <= n,
                        j <= p,
                        vs@.len() == j,
                        forall|a: int| 0 <= a < j ==> vs@[a] == self.values@[a],
                    decreases p - j,
                {
                    vs.push(clone_arc(&self.values[j]));
                    j = j + 1;
                }
                let lv = LeafValue::new(key.duplicate(), value, ts);
                let ghost glv = lv;
                vs.push(Arc::new(lv));
                let mut j: usize = p;
                while j < n
                    invariant
                        self.twig_wf(),
                        n == self.values@.len(),
                        p <= n,
                        p <= j <= n,
                        vs@.len() == j + 1,
                        forall|a: int| 0 <= a < p ==> vs@[a] == self.values@[a],
                        *vs@[p as int] == glv,
                        glv.key.spec_bytes() == kb,
                        glv.value == value,
                        glv.ts == ts,
                        glv.key.pwf(),
                        forall|a: int| p <= a < j ==> vs@[a + 1] == self.values@[a],
                    decreases n - j,
                {
                    vs.push(clone_arc(&self.values[j]));
                    j = j + 1;
                }
                (vs, p)
            }
        };
        let new_ts = max_entry_ts(&new_values, self.ts);
        let r = TwigNode { prefix: self.prefix.duplicate(), values: new_values, ts: new_ts };
        proof {
            let rents = r.entries();
            let ghost kp = kpos as int;
            assert forall|j: int| 0 <= j < rents.len() implies rents[j] == *r.values@[j] by {}
            assert forall|j: int| 0 <= j < self.entries().len() implies self.entries()[j]
                == *self.values@[j] by {}
            // well-formedness and the shape of the new entry list
            if found {
                let k = kp;
                assert(self.at_key_ts(kb, ts, k));
                assert(rents[k].key.spec_bytes() == kb && rents[k].value == value && rents[k].ts
                    == ts && rents[k].key.pwf());
                assert(forall|j: int|
                    0 <= j < self.entries().len() && j != k ==> rents[j] == self.entries()[j]);
            } else {
                let p = kp;
                assert(rents[p].key.spec_bytes() == kb && rents[p].value == value && rents[p].ts
                    == ts && rents[p].key.pwf());
                assert(forall|j: int| 0 <= j < p ==> rents[j] == self.entries()[j]);
                assert(forall|j: int|
                    p <= j < self.entries().len() ==> rents[j + 1] == self.entries()[j]);
            }
            assert forall|j: int| 0 <= j < rents.len() implies (#[trigger] rents[j]).key.pwf() by {
                if found {
                    if j != kp {
                        assert(rents[j] == self.entries()[j]);
                    }
                } else {
                    if j < kp {
                        assert(rents[j] == self.entries()[j]);
                    } else if j > kp {
                        assert(rents[j] == self.entries()[j - 1]);
                    }
                }
            }
            // the result's ts is the maximum entry timestamp
            let w = choose|w: int|
                0 <= w < r.values@.len() && (#[trigger] r.values@[w]).ts == new_ts;
            assert(rents[w].ts == new_ts);
            assert forall|j: int| 0 <= j < rents.len() implies (#[trigger] rents[j]).ts <= new_ts
                by {
                assert(rents[j] == *r.values@[j]);
            }
        }
        r
    }

    /// The same twig under another path prefix.
    pub fn with_prefix(&self, prefix: K) -> (r: Self)
        requires
            self.twig_wf(),
            prefix.pwf(),
        ensures
            r.twig_wf(),
            r.prefix == prefix,
            r.entries() == self.entries(),
            r.ts == self.ts,
    {
        let r = TwigNode { prefix, values: clone_arc_vec(&self.values), ts: self.ts };
        proof {
            assert(r.entries() =~= self.entries());
        }
        r
    }

    /// The latest entry recorded for `key`: maximal timestamp, last among ties.
    pub fn get_latest_leaf(&self, key: &K) -> (r: Option<Arc<LeafValue<K, V>>>)
        requires
            self.twig_wf(),
            key.pwf(),
        ensures
            match r {
                Some(lv) => exists|i: int|
                    #[trigger] self.latest(key.spec_bytes(), i) && *lv == self.entries()[i],
                None => forall|i: int| !self.at_key(key.spec_bytes(), i),
            },
    {
        let r = self.get_leaf_by_ts_impl(key, u64::MAX);
        proof {
            let kb = key.spec_bytes();
            match &r {
                Some(lv) => {
                    let i = choose|i: int|
                        #[trigger] self.latest_bounded(kb, u64::MAX, i) && **lv
                            == self.entries()[i];
                    assert(self.latest(kb, i));
                }
                None => {
                    assert forall|i: int| !self.at_key(kb, i) by {
                        if self.at_key(kb, i) {
                            assert(self.entries()[i].ts > u64::MAX);
                        }
                    }
                }
            }
        }
        r
    }

    /// The latest entry for `key` whose timestamp is at most `timestamp`.
    pub fn get_value_by_ts(&self, key: &K, timestamp: u64) -> (r: Option<Arc<LeafValue<K, V>>>)
        requires
            self.twig_wf(),
            key.pwf(),
        ensures
            match r {
                Some(lv) => exists|i: int|
                    #[trigger] self.latest_bounded(key.spec_bytes(), timestamp, i) && *lv
                        == self.entries()[i],
                None => forall|i: int|
                    self.at_key(key.spec_bytes(), i) ==> self.entries()[i].ts > timestamp,
            },
    {
        self.get_leaf_by_ts_impl(key, timestamp)
    }

    fn get_leaf_by_ts_impl(&self, key: &K, bound: u64) -> (r: Option<Arc<LeafValue<K, V>>>)
        requires
            self.twig_wf(),
            key.pwf(),
        ensures
            match r {
                Some(lv) => exists|i: int|
                    #[trigger] self.latest_bounded(key.spec_bytes(), bound, i) && *lv
                        == self.entries()[i],
                None => forall|i: int|
                    self.at_key(key.spec_bytes(), i) ==> self.entries()[i].ts > bound,
            },
    {
        let ghost kb = key.spec_bytes();
        let n = self.values.len();
        let mut best: Option<usize> = None;
        let mut i: usize = 0;
        while i < n
            invariant
                self.twig_wf(),
                key.pwf(),
                kb == key.spec_bytes(),
                n == self.entries().len(),
                i <= n,
                match best {
                    Some(b) => {
                        &&& self.at_key(kb, b as int)
                        &&& self.entries()[b as int].ts <= bound
                        &&& b < i
                        &&& forall|j: int|
                            0 <= j < i && self.at_key(kb, j) && self.entries()[j].ts <= bound
                                ==> self.entries()[j].ts <= self.entries()[b as int].ts
                        &&& forall|j: int|
                            b < j < i && self.at_key(kb, j) && self.entries()[j].ts <= bound
                                ==> self.entries()[j].ts < self.entries()[b as int].ts
                    },
                    None => forall|j: int|
                        0 <= j < i && self.at_key(kb, j) ==> self.entries()[j].ts > bound,
                },
            decreases n - i,
        {
            proof {
                assert(self.entries()[i as int] == *self.values@[i as int]);
            }
            if self.values[i].ts <= bound && prefix_eq(&self.values[i].key, key) {
                match best {
                    Some(b) => {
                        if self.values[i].ts >= self.values[b].ts {
                            best = Some(i);
                        }
                    }
                    None => {
                        best = Some(i);
                    }
                }
            }
            i = i + 1;
        }
        match best {
            Some(b) => {
                proof {
                    assert(self.entries()[b as int] == *self.values@[b as int]);
                    assert(self.latest_bounded(kb, bound, b as int));
                }
                Some(clone_arc(&self.values[b]))
            }
            None => None,
        }
    }

    /// The stored entries, in stored order.
    pub fn iter(&self) -> (r: Vec<Arc<LeafValue<K, V>>>)
        requires
            self.twig_wf(),
        ensures
            r@.len() == self.entries().len(),
            forall|i: int| 0 <= i < r@.len() ==> *r@[i] == self.entries()[i],
    {
        clone_arc_vec(&self.values)
    }
}

impl<K: Prefix, V: Copy> TwigNode<K, V> {
    /// The value of the latest entry recorded for `key`.
    pub fn get_latest_value(&self, key: &K) -> (r: Option<V>)
        requires
            self.twig_wf(),
            key.pwf(),
        ensures
            match r {
                Some(v) => exists|i: int|
                    #[trigger] self.latest(key.spec_bytes(), i) && v == self.entries()[i].value,
                None => forall|i: int| !self.at_key(key.spec_bytes(), i),
            },
    {
        match self.get_latest_leaf(key) {
            Some(lv) => Some(lv.value),
            None => None,
        }
    }
}

impl<K: Prefix, V> Timestamp for TwigNode<K, V> {
    open spec fn spec_ts(&self) -> u64 {
        self.ts
    }

    fn ts(&self) -> u64 {
        self.ts
    }
}

/// `t` is the maximum timestamp among the children of `m`, or 0 when no
/// child carries a positive timestamp.
pub open spec fn is_max_child_ts<N: Timestamp>(m: Map<u8, N>, t: u64) -> bool {
    &&& forall|k: u8| m.dom().contains(k) ==> m[k].spec_ts() <= t
    &&& (t == 0 || exists|k: u8| m.dom().contains(k) && m[k].spec_ts() == t)
}

/// The shared contract of the interior-node tiers: a container of children
/// keyed by one routing byte, with functional mutation. Every operation
/// leaves `self` untouched and returns a fresh node.
pub trait NodeTrait<N: Timestamp>: Sized {
    /// The children as a map from routing byte to child.
    spec fn children(&self) -> Map<u8, N>;

    /// The number of children.
    spec fn child_count(&self) -> nat;

    /// The node's aggregated timestamp.
    spec fn node_ts(&self) -> u64;

    /// Structural well-formedness.
    spec fn nwf(&self) -> bool;

    /// The tier can take no more children.
    spec fn is_full(&self) -> bool;

    fn clone(&self) -> (r: Self)
        requires
            self.nwf(),
        ensures
            r.nwf(),
            r.children() == self.children(),
            r.child_count() == self.child_count(),
            r.node_ts() == self.node_ts(),
            r.is_full() == self.is_full(),
    ;

    /// Insert a child under a byte that has no child yet; the node's `ts`
    /// rises to the child's if the child's is newer.
    fn add_child(&self, key: u8, node: N) -> (r: Self)
        requires
            self.nwf(),
            !self.children().dom().contains(key),
            !self.is_full(),
        ensures
            r.nwf(),
            r.children() == self.children().insert(key, node),
            r.child_count() == self.child_count() + 1,
            r.node_ts() == max64(self.node_ts(), node.spec_ts()),
    ;

    fn find_child(&self, key: u8) -> (r: Option<&Arc<N>>)
        requires
            self.nwf(),
        ensures
            match r {
                Some(c) => self.children().dom().contains(key) && **c == self.children()[key],
                None => !self.children().dom().contains(key),
            },
    ;

    /// Remove the child under `key`; the node's `ts` drops to the maximum
    /// over the remaining children.
    fn delete_child(&self, key: u8) -> (r: Self)
        requires
            self.nwf(),
            self.children().dom().contains(key),
        ensures
            r.nwf(),
            r.children() == self.children().remove(key),
            r.child_count() == self.child_count() - 1,
            is_max_child_ts(r.children(), r.node_ts()),
    ;

    /// Overwrite the child under `key`; the node's `ts` becomes the maximum
    /// over the new set of children, so it can drop.
    fn replace_child(&self, key: u8, node: Arc<N>) -> (r: Self)
        requires
            self.nwf(),
            self.children().dom().contains(key),
        ensures
            r.nwf(),
            r.children() == self.children().insert(key, *node),
            r.child_count() == self.child_count(),
            is_max_child_ts(r.children(), r.node_ts()),
    ;

    fn num_children(&self) -> (r: usize)
        requires
            self.nwf(),
        ensures
            r == self.child_count(),
    ;

    /// The tier's capacity.
    fn size(&self) -> (r: usize)
        requires
            self.nwf(),
    ;
}

/// Share one reference-counted leaf value.
fn clone_arc<T>(a: &Arc<T>) -> (r: Arc<T>)
    ensures
        r == *a,
{
    a.clone()
}

/// Share the child held in one slot, if any.
fn clone_opt_arc<T>(a: &Option<Arc<T>>) -> (r: Option<Arc<T>>)
    ensures
        r == *a,
{
    match a {
        Some(x) => Some(x.clone()),
        None => None,
    }
}

/// Share every element of a vector of reference-counted values.
fn clone_arc_vec<T>(v: &Vec<Arc<T>>) -> (r: Vec<Arc<T>>)
    ensures
        r@ == v@,
{
    let mut r: Vec<Arc<T>> = Vec::new();
    let n = v.len();
    let mut i: usize = 0;
    while i < n
        invariant
            n == v@.len(),
            i <= n,
            r@.len() == i,
            forall|j: int| 0 <= j < i ==> r@[j] == v@[j],
        decreases n - i,
    {
        r.push(v[i].clone());
        i = i + 1;
    }
    proof {
        assert(r@ =~= v@);
    }
    r
}

/// Copy a byte vector.
fn copy_bytes(v: &Vec<u8>) -> (r: Vec<u8>)
    ensures
        r@ == v@,
{
    let mut r: Vec<u8> = Vec::new();
    let n = v.len();
    let mut i: usize = 0;
    while i < n
        invariant
            n == v@.len(),
            i <= n,
            r@.len() == i,
            forall|j: int| 0 <= j < i ==> r@[j] == v@[j],
        decreases n - i,
    {
        r.push(v[i]);
        i = i + 1;
    }
    proof {
        assert(r@ =~= v@);
    }
    r
}

/// Share every slot of a child vector.
fn copy_slots<N>(v: &Vec<Option<Arc<N>>>) -> (r: Vec<Option<Arc<N>>>)
    ensures
        r@ == v@,
{
    let mut r: Vec<Option<Arc<N>>> = Vec::new();
    let n = v.len();
    let mut i: usize = 0;
    while i < n
        invariant
            n == v@.len(),
            i <= n,
            r@.len() == i,
            forall|j: int| 0 <= j < i ==> r@[j] == v@[j],
        decreases n - i,
    {
        r.push(clone_opt_arc(&v[i]));
        i = i + 1;
    }
    proof {
        assert(r@ =~= v@);
    }
    r
}

/// The first index in `keys[i..n]` that holds byte `b`.
pub open spec fn find_key_at(keys: Seq<u8>, n: int, i: int, b: u8) -> Option<int>
    decreases n - i,
{
    if i < 0 || i >= n {
        None
    } else if keys[i] == b {
        Some(i)
    } else {
        find_key_at(keys, n, i + 1, b)
    }
}

proof fn lemma_find_key_at(keys: Seq<u8>, n: int, i: int, b: u8)
    requires
        0 <= i,
        n <= keys.len(),
    ensures
        match find_key_at(keys, n, i, b) {
            Some(k) => i <= k < n && keys[k] == b && forall|j: int| i <= j < k ==> keys[j] != b,
            None => forall|j: int| i <= j < n ==> keys[j] != b,
        },
    decreases n - i,
{
    if i < n && keys[i] != b {
        lemma_find_key_at(keys, n, i + 1, b);
    }
}

/// A flat interior node: parallel arrays of routing bytes (kept sorted
/// ascending) and children, for the two small tiers.
pub struct FlatNode<P: Prefix, N: Timestamp, const WIDTH: usize> {
    pub prefix: P,
    pub ts: u64,
    pub keys: Vec<u8>,
    pub children: Vec<Option<Arc<N>>>,
    pub num_children: u8,
}

impl<P: Prefix, N: Timestamp, const WIDTH: usize> FlatNode<P, N, WIDTH> {
    pub open spec fn n(&self) -> int {
        self.num_children as int
    }

    pub open spec fn spec_keys(&self) -> Seq<u8> {
        self.keys@
    }

    pub open spec fn spec_slots(&self) -> Seq<Option<Arc<N>>> {
        self.children@
    }

    pub fn new(prefix: P) -> (r: Self)
        requires
            prefix.pwf(),
            WIDTH <= 255,
        ensures
            r.nwf(),
            r.prefix == prefix,
            r.ts == 0,
            r.children() =~= Map::<u8, N>::empty(),
            r.child_count() == 0,
            !r.is_full() || WIDTH == 0,
    {
        let mut keys: Vec<u8> = Vec::new();
        let mut children: Vec<Option<Arc<N>>> = Vec::new();
        let mut i: usize = 0;
        while i < WIDTH
            invariant
                i <= WIDTH,
                keys@.len() == i,
                children@.len() == i,
                forall|j: int| 0 <= j < i ==> children@[j] is None,
            decreases WIDTH - i,
        {
            keys.push(0);
            children.push(None);
            i = i + 1;
        }
        let r = FlatNode { prefix, ts: 0, keys, children, num_children: 0 };
        proof {
            assert(r.children() =~= Map::<u8, N>::empty());
        }
        r
    }

    /// Every routing byte in `keys[0..n]` points at the child stored at the
    /// same position; `children()` is that correspondence as a map.
    proof fn lemma_children_at(&self)
        requires
            self.nwf(),
        ensures
            forall|i: int|
                0 <= i < self.n() ==> self.children().dom().contains(#[trigger] self.spec_keys()[i])
                    && self.children()[self.spec_keys()[i]] == *self.spec_slots()[i].unwrap(),
            forall|b: u8|
                #[trigger] self.children().dom().contains(b) ==> exists|i: int|
                    0 <= i < self.n() && self.spec_keys()[i] == b,
    {
        assert forall|i: int| 0 <= i < self.n() implies self.children().dom().contains(
            #[trigger] self.spec_keys()[i],
        ) && self.children()[self.spec_keys()[i]] == *self.spec_slots()[i].unwrap() by {
            let b = self.spec_keys()[i];
            lemma_find_key_at(self.keys@, self.n(), 0, b);
            let f = find_key_at(self.keys@, self.n(), 0, b);
            if f is None {
                assert(self.keys@[i] != b);
            }
            let k = f.unwrap();
            if k != i {
                assert(self.keys@[k] == self.keys@[i]);
                assert(false);
            }
        }
        assert forall|b: u8| #[trigger] self.children().dom().contains(b) implies exists|i: int|
            0 <= i < self.n() && self.spec_keys()[i] == b by {
            lemma_find_key_at(self.keys@, self.n(), 0, b);
            let k = find_key_at(self.keys@, self.n(), 0, b).unwrap();
            assert(0 <= k < self.n() && self.spec_keys()[k] == b);
        }
    }

    /// The first position whose routing byte is greater than `key`, or the
    /// number of children when there is none: the insertion index that keeps
    /// the routing bytes ascending.
    fn find_pos(&self, key: u8) -> (r: usize)
        requires
            self.nwf(),
        ensures
            r <= self.n(),
            forall|j: int| 0 <= j < r ==> self.spec_keys()[j] <= key,
            r < self.n() ==> self.spec_keys()[r as int] > key,
    {
        let n = self.num_children as usize;
        let mut i: usize = 0;
        while i < n && self.keys[i] <= key
            invariant
                self.nwf(),
                n == self.n(),
                i <= n,
                forall|j: int| 0 <= j < i ==> self.spec_keys()[j] <= key,
            decreases n - i,
        {
            i = i + 1;
        }
        i
    }

    /// The position holding routing byte `key`, if present.
    fn index(&self, key: u8) -> (r: Option<usize>)
        requires
            self.nwf(),
        ensures
            match r {
                Some(i) => i < self.n() && self.spec_keys()[i as int] == key,
                None => forall|j: int| 0 <= j < self.n() ==> self.spec_keys()[j] != key,
            },
    {
        let n = self.num_children as usize;
        let mut i: usize = 0;
        while i < n
            invariant
                self.nwf(),
                n == self.n(),
                i <= n,
                forall|j: int| 0 <= j < i ==> self.spec_keys()[j] != key,
            decreases n - i,
        {
            if self.keys[i] == key {
                return Some(i);
            }
            i = i + 1;
        }
        None
    }

    /// The maximum timestamp among the children, or 0 with no children.
    pub fn max_child_ts(&self) -> (r: u64)
        requires
            self.nwf(),
        ensures
            is_max_child_ts(self.children(), r),
    {
        proof {
            self.lemma_children_at();
        }
        let n = self.num_children as usize;
        let mut m: u64 = 0;
        let mut i: usize = 0;
        while i < n
            invariant
                self.nwf(),
                n == self.n(),
                i <= n,
                forall|j: int|
                    0 <= j < i ==> (*#[trigger] self.spec_slots()[j].unwrap()).spec_ts() <= m,
                m == 0 || exists|j: int|
                    0 <= j < i && (*#[trigger] self.spec_slots()[j].unwrap()).spec_ts() == m,
            decreases n - i,
        {
            let c = self.children[i].as_ref().unwrap();
            let t = c.ts();
            if t > m {
                m = t;
            }
            i = i + 1;
        }
        proof {
            self.lemma_children_at();
            assert forall|k: u8| self.children().dom().contains(k) implies (
            self.children()[k]).spec_ts() <= m by {
                let i = choose|i: int| 0 <= i < self.n() && self.spec_keys()[i] == k;
                assert(self.children()[k] == *self.spec_slots()[i].unwrap());
            }
            if m != 0 {
                let j = choose|j: int|
                    0 <= j < self.n() && (*#[trigger] self.spec_slots()[j].unwrap()).spec_ts() == m;
                assert(self.children().dom().contains(self.spec_keys()[j]));
                assert(self.children()[self.spec_keys()[j]] == *self.spec_slots()[j].unwrap());
            }
        }
        m
    }

    /// Set `ts` to the maximum child timestamp; used after deletions and
    /// replacements, where the aggregate can drop.
    pub fn update_ts_to_max_child_ts(&mut self)
        requires
            old(self).nwf(),
        ensures
            final(self).nwf(),
            final(self).children() == old(self).children(),
            final(self).child_count() == old(self).child_count(),
            final(self).prefix == old(self).prefix,
            is_max_child_ts(final(self).children(), final(self).ts),
    {
        let m = self.max_child_ts();
        self.ts = m;
    }

    /// Raise `ts` to the maximum child timestamp if that is newer; used after
    /// bulk construction.
    pub fn update_ts(&mut self)
        requires
            old(self).nwf(),
        ensures
            final(self).nwf(),
            final(self).children() == old(self).children(),
            final(self).child_count() == old(self).child_count(),
            final(self).prefix == old(self).prefix,
            exists|m: u64|
                #[trigger] is_max_child_ts(old(self).children(), m) && final(self).ts == max64(
                    old(self).ts,
                    m,
                ),
    {
        let m = self.max_child_ts();
        if self.ts < m {
            self.ts = m;
        }
    }

    /// Raise `ts` to `new_ts` if that is newer.
    pub fn update_if_newer(&mut self, new_ts: u64)
        requires
            old(self).nwf(),
        ensures
            final(self).nwf(),
            final(self).children() == old(self).children(),
            final(self).child_count() == old(self).child_count(),
            final(self).prefix == old(self).prefix,
            final(self).ts == max64(old(self).ts, new_ts),
    {
        if new_ts > self.ts {
            self.ts = new_ts;
        }
    }

    /// The same node under another path prefix.
    pub fn with_prefix(&self, prefix: P) -> (r: Self)
        requires
            self.nwf(),
            prefix.pwf(),
        ensures
            r.nwf(),
            r.prefix == prefix,
            r.children() == self.children(),
            r.child_count() == self.child_count(),
            r.is_full() == self.is_full(),
            r.ts == self.ts,
    {
        let r = FlatNode {
            prefix,
            ts: self.ts,
            keys: copy_bytes(&self.keys),
            children: copy_slots(&self.children),
            num_children: self.num_children,
        };
        proof {
            assert(r.children() =~= self.children());
        }
        r
    }

    /// The same children in a flat node of another width.
    pub fn resize<const NEW_WIDTH: usize>(&self) -> (r: FlatNode<P, N, NEW_WIDTH>)
        requires
            self.nwf(),
            self.child_count() <= NEW_WIDTH,
            NEW_WIDTH <= 255,
        ensures
            r.nwf(),
            r.children() == self.children(),
            r.child_count() == self.child_count(),
            r.prefix.spec_bytes() == self.prefix.spec_bytes(),
            exists|m: u64|
                #[trigger] is_max_child_ts(self.children(), m) && r.ts == max64(self.ts, m),
    {
        let n = self.num_children as usize;
        let mut rkeys: Vec<u8> = Vec::new();
        let mut rchildren: Vec<Option<Arc<N>>> = Vec::new();
        let mut i: usize = 0;
        while i < NEW_WIDTH
            invariant
                self.nwf(),
                n == self.n(),
                n <= NEW_WIDTH,
                i <= NEW_WIDTH,
                rkeys@.len() == i,
                rchildren@.len() == i,
                forall|j: int| 0 <= j < i && j < n ==> rkeys@[j] == self.keys@[j],
                forall|j: int| 0 <= j < i && j < n ==> rchildren@[j] == self.children@[j],
                forall|j: int| n <= j < i ==> rchildren@[j] is None,
            decreases NEW_WIDTH - i,
        {
            if i < n {
                rkeys.push(self.keys[i]);
                rchildren.push(clone_opt_arc(&self.children[i]));
            } else {
                rkeys.push(0);
                rchildren.push(None);
            }
            i = i + 1;
        }
        let mut r = FlatNode::<P, N, NEW_WIDTH> {
            prefix: self.prefix.duplicate(),
            ts: self.ts,
            keys: rkeys,
            children: rchildren,
            num_children: self.num_children,
        };
        proof {
            assert(r.nwf());
            r.lemma_children_at();
            self.lemma_children_at();
            assert forall|b: u8| #[trigger] r.children().dom().contains(b) implies
                self.children().dom().contains(b) && r.children()[b] == self.children()[b] by {
                let i = choose|i: int| 0 <= i < r.num_children as int && r.spec_keys()[i] == b;
                assert(self.spec_keys()[i] == b);
                assert(r.children()[b] == *r.children@[i].unwrap());
                assert(self.children()[b] == *self.children@[i].unwrap());
            }
            assert forall|b: u8| #[trigger] self.children().dom().contains(b) implies
                r.children().dom().contains(b) by {
                let i = choose|i: int| 0 <= i < self.n() && self.spec_keys()[i] == b;
                assert(r.spec_keys()[i] == b);
            }
            assert(r.children().dom() =~= self.children().dom());
            assert(r.children() =~= self.children());
        }
        r.update_ts();
        r
    }

    /// The same children in an indirect 48-slot node. The result's `ts` is
    /// the maximum child timestamp.
    pub fn grow(&self) -> (r: Node48<P, N>)
        requires
            self.nwf(),
            self.child_count() <= 48,
        ensures
            r.nwf(),
            r.children() == self.children(),
            r.child_count() == self.child_count(),
            r.prefix.spec_bytes() == self.prefix.spec_bytes(),
            is_max_child_ts(r.children(), r.ts),
    {
        proof {
            self.lemma_children_at();
        }
        let n = self.num_children as usize;
        let mut n48 = Node48::new(self.prefix.duplicate());
        let mut i: usize = 0;
        while i < n
            invariant
                self.nwf(),
                n == self.n(),
                n <= 48,
                i <= n,
                n48.nwf(),
                n48.child_count() == i,
                n48.ts == 0,
                n48.prefix.spec_bytes() == self.prefix.spec_bytes(),
                forall|b: u8|
                    #[trigger] n48.children().dom().contains(b) <==> exists|a: int|
                        0 <= a < i && self.spec_keys()[a] == b,
                forall|a: int|
                    0 <= a < i ==> n48.children().index(#[trigger] self.spec_keys()[a])
                        == *self.spec_slots()[a].unwrap(),
            decreases n - i,
        {
            proof {
                self.lemma_children_at();
                if n48.children().dom().contains(self.spec_keys()[i as int]) {
                    let a = choose|a: int|
                        0 <= a < i && self.spec_keys()[a] == self.spec_keys()[i as int];
                    assert(false);
                }
            }
            let c = match self.children[i].as_ref() {
                Some(c) => c.clone(),
                None => {
                    proof {
                        assert(false);
                    }
                    unreached()
                }
            };
            let k = self.keys[i];
            n48.insert_child(k, c);
            proof {
                assert forall|b: u8| #[trigger] n48.children().dom().contains(b) implies exists|
                    a: int,
                | 0 <= a < i + 1 && self.spec_keys()[a] == b by {
                    if b != k {
                        let a = choose|a: int| 0 <= a < i && self.spec_keys()[a] == b;
                        assert(0 <= a < i + 1 && self.spec_keys()[a] == b);
                    } else {
                        assert(self.spec_keys()[i as int] == b);
                    }
                }
            }
            i = i + 1;
        }
        proof {
            self.lemma_children_at();
            assert forall|b: u8| #[trigger] self.children().dom().contains(b) implies
                n48.children().dom().contains(b) by {
                let a = choose|a: int| 0 <= a < n && self.spec_keys()[a] == b;
            }
            assert forall|b: u8| #[trigger] n48.children().dom().contains(b) implies
                self.children().dom().contains(b) && n48.children()[b] == self.children()[b] by {
                let a = choose|a: int| 0 <= a < n && self.spec_keys()[a] == b;
                assert(n48.children().index(self.spec_keys()[a]) == *self.spec_slots()[a].unwrap());
                assert(self.children()[b] == *self.spec_slots()[a].unwrap());
            }
            assert(n48.children().dom() =~= self.children().dom());
            assert(n48.children() =~= self.children());
        }
        n48.update_ts();
        proof {
            let m = choose|m: u64|
                #[trigger] is_max_child_ts(self.children(), m) && n48.ts == max64(0, m);
            assert(n48.ts == m);
        }
        n48
    }

    /// The children as `(routing byte, child)` pairs in ascending byte order.
    pub fn iter(&self) -> (r: Vec<(u8, &Arc<N>)>)
        requires
            self.nwf(),
        ensures
            r@.len() == self.child_count(),
            forall|a: int, b: int| 0 <= a < b < r@.len() ==> r@[a].0 < r@[b].0,
            forall|a: int|
                0 <= a < r@.len() ==> self.children().dom().contains(#[trigger] r@[a].0)
                    && *r@[a].1 == self.children()[r@[a].0],
            forall|b: u8|
                #[trigger] self.children().dom().contains(b) ==> exists|a: int|
                    0 <= a < r@.len() && r@[a].0 == b,
    {
        proof {
            self.lemma_children_at();
        }
        let n = self.num_children as usize;
        let mut r: Vec<(u8, &Arc<N>)> = Vec::new();
        let mut i: usize = 0;
        while i < n
            invariant
                self.nwf(),
                n == self.n(),
                i <= n,
                r@.len() == i,
                forall|a: int|
                    0 <= a < i ==> (#[trigger] r@[a]).0 == self.spec_keys()[a] && r@[a].1
                        == self.spec_slots()[a].unwrap(),
            decreases n - i,
        {
            let c = self.children[i].as_ref().unwrap();
            r.push((self.keys[i], c));
            i = i + 1;
        }
        proof {
            self.lemma_children_at();
            assert forall|b: u8| #[trigger] self.children().dom().contains(b) implies exists|a: int|
                0 <= a < r@.len() && r@[a].0 == b by {
                let i = choose|i: int| 0 <= i < self.n() && self.spec_keys()[i] == b;
                assert(r@[i].0 == b);
            }
        }
        r
    }
}

impl<P: Prefix, N: Timestamp, const WIDTH: usize> NodeTrait<N> for FlatNode<P, N, WIDTH> {
    open spec fn children(&self) -> Map<u8, N> {
        Map::new(
            |b: u8| find_key_at(self.keys@, self.num_children as int, 0, b) is Some,
            |b: u8|
                *self.children@[find_key_at(
                    self.keys@,
                    self.num_children as int,
                    0,
                    b,
                ).unwrap()].unwrap(),
        )
    }

    open spec fn child_count(&self) -> nat {
        self.num_children as nat
    }

    open spec fn node_ts(&self) -> u64 {
        self.ts
    }

    open spec fn nwf(&self) -> bool {
        &&& self.prefix.pwf()
        &&& WIDTH <= 255
        &&& self.keys@.len() == WIDTH
        &&& self.children@.len() == WIDTH
        &&& self.num_children as int <= WIDTH
        &&& forall|i: int, j: int|
            0 <= i < j < self.num_children as int ==> self.keys@[i] < self.keys@[j]
        &&& forall|i: int|
            0 <= i < WIDTH ==> ((#[trigger] self.children@[i]) is Some <==> i
                < self.num_children as int)
    }

    open spec fn is_full(&self) -> bool {
        self.num_children as int == WIDTH
    }

    fn clone(&self) -> (r: Self)
        ensures
            r.prefix.spec_bytes() == self.prefix.spec_bytes(),
    {
        let r = FlatNode {
            prefix: self.prefix.duplicate(),
            ts: self.ts,
            keys: copy_bytes(&self.keys),
            children: copy_slots(&self.children),
            num_children: self.num_children,
        };
        proof {
            assert(r.children() =~= self.children());
        }
        r
    }

    fn add_child(&self, key: u8, node: N) -> (r: Self)
        ensures
            r.prefix.spec_bytes() == self.prefix.spec_bytes(),
    {
        proof {
            self.lemma_children_at();
            lemma_find_key_at(self.keys@, self.n(), 0, key);
        }
        let node_ts = node.ts();
        let new_ts = if node_ts > self.ts {
            node_ts
        } else {
            self.ts
        };
        let idx = self.find_pos(key);
        let mut rkeys = copy_bytes(&self.keys);
        let mut rchildren = copy_slots(&self.children);
        // shift the tail one slot to the right
        let n = self.num_children as usize;
        let mut j: usize = n;
        while j > idx
            invariant
                self.nwf(),
                n == self.n(),
                n < WIDTH,
                idx <= j <= n,
                idx <= n,
                rkeys@.len() == WIDTH,
                rchildren@.len() == WIDTH,
                forall|a: int| 0 <= a < j ==> rkeys@[a] == self.keys@[a],
                forall|a: int| 0 <= a < j ==> rchildren@[a] == self.children@[a],
                forall|a: int| j < a <= n ==> rkeys@[a] == self.keys@[a - 1],
                forall|a: int| j < a <= n ==> rchildren@[a] == self.children@[a - 1],
                forall|a: int| n < a < WIDTH ==> rchildren@[a] == self.children@[a],
            decreases j,
        {
            let kv = rkeys[j - 1];
            let cv = clone_opt_arc(&rchildren[j - 1]);
            rkeys[j] = kv;
            rchildren[j] = cv;
            j = j - 1;
        }
        rkeys[idx] = key;
        rchildren[idx] = Some(Arc::new(node));
        let r = FlatNode {
            prefix: self.prefix.duplicate(),
            ts: new_ts,
            keys: rkeys,
            children: rchildren,
            num_children: self.num_children + 1,
        };
        proof {
            let rn = r.num_children as int;
            let nn = self.n();
            let ii = idx as int;
            // the routing bytes stay strictly ascending
            assert forall|a: int, b: int| 0 <= a < b < rn implies r.keys@[a] < r.keys@[b] by {
                if b < ii {
                } else if a < ii && b == ii {
                    assert(r.keys@[a] == self.keys@[a]);
                    assert(self.spec_keys()[a] <= key);
                    assert(self.spec_keys()[a] != key);
                } else if a < ii && b > ii {
                    assert(r.keys@[b] == self.keys@[b - 1]);
                } else if a == ii {
                    assert(r.keys@[b] == self.keys@[b - 1]);
                    assert(self.spec_keys()[b - 1] > key);
                } else {
                    assert(r.keys@[a] == self.keys@[a - 1]);
                    assert(r.keys@[b] == self.keys@[b - 1]);
                }
            }
            assert(r.nwf());
            r.lemma_children_at();
            assert forall|b: u8| #[trigger] r.children().dom().contains(b) implies
                self.children().insert(key, node).dom().contains(b) && r.children()[b]
                == self.children().insert(key, node)[b] by {
                lemma_find_key_at(r.keys@, rn, 0, b);
                lemma_find_key_at(self.keys@, nn, 0, b);
                let i = choose|i: int| 0 <= i < rn && r.spec_keys()[i] == b;
                assert(r.keys@[i] == b);
                if b == key {
                    assert(r.keys@[ii] == b);
                    assert(i == ii);
                    assert(r.children()[b] == *r.children@[ii].unwrap());
                } else {
                    if i < ii {
                        assert(self.keys@[i] == b);
                        assert(r.children()[b] == *r.children@[i].unwrap());
                        assert(self.children()[b] == *self.children@[i].unwrap());
                    } else {
                        assert(i > ii);
                        assert(self.keys@[i - 1] == b);
                        assert(r.children()[b] == *r.children@[i].unwrap());
                        assert(self.children()[b] == *self.children@[i - 1].unwrap());
                    }
                }
            }
            assert forall|b: u8| #[trigger] self.children().insert(key, node).dom().contains(b)
                implies r.children().dom().contains(b) by {
                lemma_find_key_at(r.keys@, rn, 0, b);
                if b == key {
                    assert(r.keys@[ii] == b);
                    if !r.children().dom().contains(b) {
                        assert(r.keys@[ii] != b);
                    }
                } else {
                    let i = choose|i: int| 0 <= i < nn && self.spec_keys()[i] == b;
                    if i < ii {
                        assert(r.keys@[i] == b);
                        if !r.children().dom().contains(b) {
                            assert(r.keys@[i] != b);
                        }
                    } else {
                        assert(r.keys@[i + 1] == b);
                        if !r.children().dom().contains(b) {
                            assert(r.keys@[i + 1] != b);
                        }
                    }
                }
            }
            assert(r.children().dom() =~= self.children().insert(key, node).dom());
            assert(r.children() =~= self.children().insert(key, node));
        }
        r
    }

    fn find_child(&self, key: u8) -> (r: Option<&Arc<N>>) {
        proof {
            self.lemma_children_at();
        }
        match self.index(key) {
            Some(i) => {
                proof {
                    lemma_find_key_at(self.keys@, self.n(), 0, key);
                    assert(self.children().dom().contains(key));
                }
                self.children[i].as_ref()
            }
            None => {
                proof {
                    lemma_find_key_at(self.keys@, self.n(), 0, key);
                    if self.children().dom().contains(key) {
                        let k = find_key_at(self.keys@, self.n(), 0, key).unwrap();
                        assert(self.spec_keys()[k] == key);
                    }
                }
                None
            }
        }
    }

    fn delete_child(&self, key: u8) -> (r: Self)
        ensures
            r.prefix.spec_bytes() == self.prefix.spec_bytes(),
    {
        proof {
            self.lemma_children_at();
            lemma_find_key_at(self.keys@, self.n(), 0, key);
        }
        let idx = match self.index(key) {
            Some(i) => i,
            None => {
                proof {
                    let k = find_key_at(self.keys@, self.n(), 0, key).unwrap();
                    assert(self.spec_keys()[k] == key);
                    assert(false);
                }
                0
            }
        };
        let mut rkeys = copy_bytes(&self.keys);
        let mut rchildren = copy_slots(&self.children);
        let n = self.num_children as usize;
        // shift the tail one slot to the left
        let mut j: usize = idx;
        while j + 1 < n
            invariant
                self.nwf(),
                n == self.n(),
                idx < n,
                self.spec_keys()[idx as int] == key,
                idx <= j <= n,
                j < n,
                rkeys@.len() == WIDTH,
                rchildren@.len() == WIDTH,
                forall|a: int| 0 <= a < idx ==> rkeys@[a] == self.keys@[a],
                forall|a: int| 0 <= a < idx ==> rchildren@[a] == self.children@[a],
                forall|a: int| idx <= a < j ==> rkeys@[a] == self.keys@[a + 1],
                forall|a: int| idx <= a < j ==> rchildren@[a] == self.children@[a + 1],
                forall|a: int| j <= a < WIDTH ==> rchildren@[a] == self.children@[a],
                forall|a: int| j <= a < WIDTH ==> rkeys@[a] == self.keys@[a],
            decreases n - j,
        {
            let kv = rkeys[j + 1];
            let cv = clone_opt_arc(&rchildren[j + 1]);
            rkeys[j] = kv;
            rchildren[j] = cv;
            j = j + 1;
        }
        // clear the vacated last slot
        rkeys[n - 1] = 0;
        rchildren[n - 1] = None;
        let mut r = FlatNode {
            prefix: self.prefix.duplicate(),
            ts: self.ts,
            keys: rkeys,
            children: rchildren,
            num_children: self.num_children - 1,
        };
        proof {
            let rn = r.num_children as int;
            let nn = self.n();
            let ii = idx as int;
            assert forall|a: int, b: int| 0 <= a < b < rn implies r.keys@[a] < r.keys@[b] by {
                if a >= ii {
                    assert(r.keys@[a] == self.keys@[a + 1]);
                }
                if b >= ii {
                    assert(r.keys@[b] == self.keys@[b + 1]);
                }
            }
            assert forall|i: int| 0 <= i < WIDTH implies ((#[trigger] r.children@[i]) is Some <==> i
                < rn) by {
                if i < ii {
                } else if i < rn {
                    assert(r.children@[i] == self.children@[i + 1]);
                } else if i == rn {
                } else {
                    assert(r.children@[i] == self.children@[i]);
                }
            }
            assert(r.nwf());
            r.lemma_children_at();
            assert forall|b: u8| #[trigger] r.children().dom().contains(b) implies
                self.children().remove(key).dom().contains(b) && r.children()[b]
                == self.children().remove(key)[b] by {
                lemma_find_key_at(r.keys@, rn, 0, b);
                lemma_find_key_at(self.keys@, nn, 0, b);
                let i = choose|i: int| 0 <= i < rn && r.spec_keys()[i] == b;
                assert(r.keys@[i] == b);
                if i < ii {
                    assert(self.keys@[i] == b);
                    assert(b != key);
                    assert(r.children()[b] == *r.children@[i].unwrap());
                    assert(self.children()[b] == *self.children@[i].unwrap());
                } else {
                    assert(self.keys@[i + 1] == b);
                    assert(b != key);
                    assert(r.children()[b] == *r.children@[i].unwrap());
                    assert(self.children()[b] == *self.children@[i + 1].unwrap());
                }
            }
            assert forall|b: u8| #[trigger] self.children().remove(key).dom().contains(b) implies
                r.children().dom().contains(b) by {
                lemma_find_key_at(r.keys@, rn, 0, b);
                let i = choose|i: int| 0 <= i < nn && self.spec_keys()[i] == b;
                assert(self.keys@[i] == b);
                assert(b != key);
                assert(i != ii);
                if i < ii {
                    assert(r.keys@[i] == b);
                    if !r.children().dom().contains(b) {
                        assert(r.keys@[i] != b);
                    }
                } else {
                    assert(r.keys@[i - 1] == b);
                    if !r.children().dom().contains(b) {
                        assert(r.keys@[i - 1] != b);
                    }
                }
            }
            assert(r.children().dom() =~= self.children().remove(key).dom());
            assert(r.children() =~= self.children().remove(key));
        }
        r.update_ts_to_max_child_ts();
        r
    }

    fn replace_child(&self, key: u8, node: Arc<N>) -> (r: Self)
        ensures
            r.prefix.spec_bytes() == self.prefix.spec_bytes(),
    {
        proof {
            self.lemma_children_at();
            lemma_find_key_at(self.keys@, self.n(), 0, key);
        }
        let idx = match self.index(key) {
            Some(i) => i,
            None => {
                proof {
                    let k = find_key_at(self.keys@, self.n(), 0, key).unwrap();
                    assert(self.spec_keys()[k] == key);
                    assert(false);
                }
                0
            }
        };
        let mut rchildren = copy_slots(&self.children);
        let ghost gnode = node;
        rchildren[idx] = Some(node);
        let mut r = FlatNode {
            prefix: self.prefix.duplicate(),
            ts: self.ts,
            keys: copy_bytes(&self.keys),
            children: rchildren,
            num_children: self.num_children,
        };
        proof {
            assert(r.nwf());
            r.lemma_children_at();
            self.lemma_children_at();
            assert forall|b: u8|
                r.children().dom().contains(b) == self.children().insert(
                    key,
                    *gnode,
                ).dom().contains(b) && (r.children().dom().contains(b) ==> r.children()[b]
                    == self.children().insert(key, *gnode)[b]) by {
                lemma_find_key_at(r.keys@, r.num_children as int, 0, b);
                lemma_find_key_at(self.keys@, self.n(), 0, b);
                if r.children().dom().contains(b) {
                    let i = choose|i: int|
                        0 <= i < r.num_children as int && r.spec_keys()[i] == b;
                    assert(r.children()[b] == *r.children@[i].unwrap());
                    if b != key {
                        assert(i != idx as int);
                        assert(self.children()[b] == *self.children@[i].unwrap());
                    } else {
                        assert(i == idx as int);
                    }
                }
            }
            assert(r.children() =~= self.children().insert(key, *gnode));
        }
        r.update_ts_to_max_child_ts();
        r
    }

    fn num_children(&self) -> (r: usize) {
        self.num_children as usize
    }

    fn size(&self) -> (r: usize)
        ensures
            r == WIDTH,
    {
        WIDTH
    }
}

impl<P: Prefix, N: Timestamp, const WIDTH: usize> Timestamp for FlatNode<P, N, WIDTH> {
    open spec fn spec_ts(&self) -> u64 {
        self.ts
    }

    fn ts(&self) -> u64 {
        self.ts
    }
}

/// How many of the first `i` slots are occupied.
pub open spec fn count_some<T>(s: Seq<Option<T>>, i: int) -> int
    decreases i,
{
    if i <= 0 {
        0
    } else {
        count_some(s, i - 1) + (if s[i - 1] is Some {
            1int
        } else {
            0int
        })
    }
}

proof fn lemma_count_some_update<T>(s: Seq<Option<T>>, k: int, v: Option<T>, i: int)
    requires
        0 <= k < s.len(),
        i <= s.len(),
    ensures
        count_some(s.update(k, v), i) == count_some(s, i) + (if k < i {
            (if v is Some {
                1int
            } else {
                0int
            }) - (if s[k] is Some {
                1int
            } else {
                0int
            })
        } else {
            0int
        }),
    decreases i,
{
    if i > 0 {
        lemma_count_some_update(s, k, v, i - 1);
    }
}

pub proof fn lemma_count_some_bounds<T>(s: Seq<Option<T>>, i: int)
    requires
        0 <= i <= s.len(),
    ensures
        0 <= count_some(s, i) <= i,
    decreases i,
{
    if i > 0 {
        lemma_count_some_bounds(s, i - 1);
    }
}

pub proof fn lemma_count_some_missing<T>(s: Seq<Option<T>>, k: int, i: int)
    requires
        0 <= k < i <= s.len(),
        s[k] is None,
    ensures
        count_some(s, i) < i,
    decreases i,
{
    if i - 1 == k {
        lemma_count_some_bounds(s, k);
    } else {
        lemma_count_some_missing(s, k, i - 1);
    }
}

proof fn lemma_count_some_mono<T>(s: Seq<Option<T>>, i: int, j: int)
    requires
        0 <= i <= j <= s.len(),
    ensures
        count_some(s, i) <= count_some(s, j),
    decreases j,
{
    if j > i {
        lemma_count_some_mono(s, i, j - 1);
    }
}

proof fn lemma_count_some_free_slot<T>(s: Seq<Option<T>>, i: int)
    requires
        0 <= i <= s.len(),
        count_some(s, i) < i,
    ensures
        exists|k: int| 0 <= k < i && s[k] is None,
    decreases i,
{
    if i > 0 {
        if s[i - 1] is None {
            assert(0 <= i - 1 < i && s[i - 1] is None);
        } else {
            lemma_count_some_free_slot(s, i - 1);
        }
    }
}

/// An indirect interior node: a 256-entry byte-to-slot index into a 48-slot
/// sparse child vector.
pub struct Node48<P: Prefix, N: Timestamp> {
    pub prefix: P,
    pub ts: u64,
    pub child_ptr_indexes: Box<VecArray<u8, 256>>,
    pub children: Box<VecArray<Arc<N>, 48>>,
    pub num_children: u8,
}

impl<P: Prefix, N: Timestamp> Node48<P, N> {
    pub open spec fn idxs(&self) -> Seq<Option<u8>> {
        self.child_ptr_indexes@
    }

    pub open spec fn slots(&self) -> Seq<Option<Arc<N>>> {
        self.children@
    }

    pub fn new(prefix: P) -> (r: Self)
        requires
            prefix.pwf(),
        ensures
            r.nwf(),
            r.prefix == prefix,
            r.ts == 0,
            r.children() =~= Map::<u8, N>::empty(),
            r.child_count() == 0,
            !r.is_full(),
    {
        let r = Node48 {
            prefix,
            ts: 0,
            child_ptr_indexes: Box::new(VecArray::new()),
            children: Box::new(VecArray::new()),
            num_children: 0,
        };
        proof {
            lemma_count_some_bounds(r.idxs(), 256);
            assert(count_some(r.idxs(), 256) == 0) by {
                lemma_count_some_all_none(r.idxs(), 256);
            }
            assert(count_some(r.slots(), 48) == 0) by {
                lemma_count_some_all_none(r.slots(), 48);
            }
            assert(r.children() =~= Map::<u8, N>::empty());
        }
        r
    }

    /// Place `node` under byte `key`, writing both the byte index and the
    /// first free child slot.
    pub fn insert_child(&mut self, key: u8, node: Arc<N>)
        requires
            old(self).nwf(),
            !old(self).children().dom().contains(key),
            !old(self).is_full(),
        ensures
            final(self).nwf(),
            final(self).children() == old(self).children().insert(key, *node),
            final(self).child_count() == old(self).child_count() + 1,
            final(self).prefix == old(self).prefix,
            final(self).ts == old(self).ts,
    {
        let ghost gnode = node;
        proof {
            lemma_count_some_bounds(self.slots(), 48);
            lemma_count_some_free_slot(self.slots(), 48);
        }
        let pos = self.children.first_free_pos();
        self.child_ptr_indexes.set(key as usize, pos as u8);
        self.children.set(pos, node);
        self.num_children = self.num_children + 1;
        proof {
            let os = old(self);
            lemma_count_some_update(os.idxs(), key as int, Some(pos as u8), 256);
            lemma_count_some_update(os.slots(), pos as int, Some(gnode), 48);
            assert(self.idxs() == os.idxs().update(key as int, Some(pos as u8)));
            assert(self.slots() == os.slots().update(pos as int, Some(gnode)));
            // no other byte referenced the freshly used slot
            assert forall|b: u8| b != key && self.idxs()[b as int] is Some implies
                self.idxs()[b as int] == os.idxs()[b as int] && os.idxs()[b as int].unwrap() as int
                != pos as int by {
                if os.idxs()[b as int].unwrap() as int == pos as int {
                    assert(os.slots()[pos as int] is Some);
                }
            }
            // every occupied slot is still referenced by exactly one byte
            assert forall|p: int| 0 <= p < 48 && (#[trigger] self.slots()[p]) is Some implies
                exists|b: int| 0 <= b < 256 && (#[trigger] self.idxs()[b]) == Some(p as u8) by {
                if p == pos as int {
                    assert(self.idxs()[key as int] == Some(p as u8));
                } else {
                    assert(os.slots()[p] is Some);
                    let b = choose|b: int| 0 <= b < 256 && (#[trigger] os.idxs()[b]) == Some(
                        p as u8,
                    );
                    assert(b != key as int);
                    assert(self.idxs()[b] == Some(p as u8));
                }
            }
            assert(self.nwf());
            assert forall|b: u8| #[trigger] self.children().dom().contains(b) implies
                os.children().insert(key, *gnode).dom().contains(b) && self.children()[b]
                == os.children().insert(key, *gnode)[b] by {
                if b != key {
                    assert(self.idxs()[b as int] == os.idxs()[b as int]);
                }
            }
            assert forall|b: u8| #[trigger] os.children().insert(key, *gnode).dom().contains(b)
                implies self.children().dom().contains(b) by {
                if b != key {
                    assert(self.idxs()[b as int] == os.idxs()[b as int]);
                }
            }
            assert(self.children().dom() =~= os.children().insert(key, *gnode).dom());
            assert(self.children() =~= os.children().insert(key, *gnode));
        }
    }

    /// The maximum timestamp among the children, or 0 with no children.
    pub fn max_child_ts(&self) -> (r: u64)
        requires
            self.nwf(),
        ensures
            is_max_child_ts(self.children(), r),
    {
        let mut m: u64 = 0;
        let mut b: usize = 0;
        while b < 256
            invariant
                self.nwf(),
                b <= 256,
                forall|k: int|
                    0 <= k < b && self.idxs()[k] is Some ==> (#[trigger] self.children().index(
                        k as u8,
                    )).spec_ts() <= m,
                m == 0 || exists|k: int|
                    0 <= k < b && self.idxs()[k] is Some && (#[trigger] self.children().index(
                        k as u8,
                    )).spec_ts() == m,
            decreases 256 - b,
        {
            match self.child_ptr_indexes.get(b) {
                Some(p) => {
                    let pv = *p;
                    match self.children.get(pv as usize) {
                        Some(c) => {
                            let t = c.ts();
                            proof {
                                let pidx = self.idxs()[b as int].unwrap() as int;
                                assert(self.children()[b as u8] == *self.slots()[pidx].unwrap());
                            }
                            if t > m {
                                m = t;
                            }
                        }
                        None => {
                            proof {
                                assert(self.idxs()[b as int] is Some);
                                assert(false);
                            }
                        }
                    }
                }
                None => {}
            }
            b = b + 1;
        }
        proof {
            assert forall|k: u8| self.children().dom().contains(k) implies (
            self.children()[k]).spec_ts() <= m by {
                assert(self.idxs()[k as int] is Some);
                assert(self.children()[(k as int) as u8].spec_ts() <= m);
            }
            if m != 0 {
                let k = choose|k: int|
                    0 <= k < 256 && self.idxs()[k] is Some && (#[trigger] self.children().index(
                        k as u8,
                    )).spec_ts() == m;
                assert(self.idxs()[(k as u8) as int] is Some);
                assert(self.children().dom().contains(k as u8));
            }
        }
        m
    }

    /// Set `ts` to the maximum child timestamp; used after deletions and
    /// replacements, where the aggregate can drop.
    pub fn update_ts_to_max_child_ts(&mut self)
        requires
            old(self).nwf(),
        ensures
            final(self).nwf(),
            final(self).children() == old(self).children(),
            final(self).child_count() == old(self).child_count(),
            final(self).prefix == old(self).prefix,
            is_max_child_ts(final(self).children(), final(self).ts),
    {
        let m = self.max_child_ts();
        self.ts = m;
    }

    /// Raise `ts` to the maximum child timestamp if that is newer; used after
    /// bulk construction.
    pub fn update_ts(&mut self)
        requires
            old(self).nwf(),
        ensures
            final(self).nwf(),
            final(self).children() == old(self).children(),
            final(self).child_count() == old(self).child_count(),
            final(self).prefix == old(self).prefix,
            exists|m: u64|
                #[trigger] is_max_child_ts(old(self).children(), m) && final(self).ts == max64(
                    old(self).ts,
                    m,
                ),
    {
        let m = self.max_child_ts();
        if self.ts < m {
            self.ts = m;
        }
    }

    /// Raise `ts` to `new_ts` if that is newer.
    pub fn update_if_newer(&mut self, new_ts: u64)
        requires
            old(self).nwf(),
        ensures
            final(self).nwf(),
            final(self).children() == old(self).children(),
            final(self).child_count() == old(self).child_count(),
            final(self).prefix == old(self).prefix,
            final(self).ts == max64(old(self).ts, new_ts),
    {
        if new_ts > self.ts {
            self.ts = new_ts;
        }
    }

    /// The same node under another path prefix.
    pub fn with_prefix(&self, prefix: P) -> (r: Self)
        requires
            self.nwf(),
            prefix.pwf(),
        ensures
            r.nwf(),
            r.prefix == prefix,
            r.children() == self.children(),
            r.child_count() == self.child_count(),
            r.is_full() == self.is_full(),
            r.ts == self.ts,
    {
        let r = Node48 {
            prefix,
            ts: self.ts,
            child_ptr_indexes: Box::new(copy_index_array(&self.child_ptr_indexes)),
            children: Box::new(copy_child_array(&self.children)),
            num_children: self.num_children,
        };
        proof {
            assert(r.children() =~= self.children());
        }
        r
    }

    /// The children as `(routing byte, child)` pairs in ascending byte order.
    pub fn iter(&self) -> (r: Vec<(u8, &Arc<N>)>)
        requires
            self.nwf(),
        ensures
            r@.len() == self.child_count(),
            forall|a: int, b: int| 0 <= a < b < r@.len() ==> r@[a].0 < r@[b].0,
            forall|a: int|
                0 <= a < r@.len() ==> self.children().dom().contains(#[trigger] r@[a].0)
                    && *r@[a].1 == self.children()[r@[a].0],
            forall|b: u8|
                #[trigger] self.children().dom().contains(b) ==> exists|a: int|
                    0 <= a < r@.len() && r@[a].0 == b,
    {
        let mut r: Vec<(u8, &Arc<N>)> = Vec::new();
        let mut b: usize = 0;
        while b < 256
            invariant
                self.nwf(),
                b <= 256,
                r@.len() == count_some(self.idxs(), b as int),
                forall|a: int| 0 <= a < r@.len() ==> (#[trigger] r@[a]).0 < b,
                forall|a1: int, a2: int| 0 <= a1 < a2 < r@.len() ==> r@[a1].0 < r@[a2].0,
                forall|a: int|
                    0 <= a < r@.len() ==> self.children().dom().contains(#[trigger] r@[a].0)
                        && *r@[a].1 == self.children()[r@[a].0],
                forall|k: int|
                    0 <= k < b && (#[trigger] self.idxs()[k]) is Some ==> exists|a: int|
                        0 <= a < r@.len() && r@[a].0 == k as u8,
            decreases 256 - b,
        {
            match self.child_ptr_indexes.get(b) {
                Some(p) => {
                    let pv = *p;
                    match self.children.get(pv as usize) {
                        Some(c) => {
                            proof {
                                let pidx = self.idxs()[b as int].unwrap() as int;
                                assert(self.children().index(b as u8) == *self.slots()[
                                    pidx].unwrap());
                                assert(self.children().dom().contains(b as u8));
                            }
                            let ghost osnap = r@;
                            r.push((b as u8, c));
                            proof {
                                assert forall|k: int|
                                    0 <= k < b + 1 && (#[trigger] self.idxs()[k]) is Some implies
                                    exists|a: int| 0 <= a < r@.len() && r@[a].0 == k as u8 by {
                                    if k < b {
                                        let a = choose|a: int|
                                            0 <= a < osnap.len() && (#[trigger] osnap[a]).0 == k as u8;
                                        assert(r@[a].0 == k as u8);
                                    } else {
                                        assert(r@[r@.len() - 1].0 == k as u8);
                                    }
                                }
                            }
                        }
                        None => {
                            proof {
                                assert(self.idxs()[b as int] is Some);
                                assert(false);
                            }
                        }
                    }
                }
                None => {}
            }
            b = b + 1;
        }
        proof {
            assert forall|k: u8| #[trigger] self.children().dom().contains(k) implies exists|a: int|
                0 <= a < r@.len() && r@[a].0 == k by {
                assert(self.idxs()[k as int] is Some);
                let a = choose|a: int| 0 <= a < r@.len() && r@[a].0 == (k as int) as u8;
                assert(r@[a].0 == k);
            }
        }
        r
    }

    /// The same children in a flat node of width `NEW_WIDTH`, routing bytes
    /// ascending. The result's `ts` is the maximum child timestamp.
    pub fn shrink<const NEW_WIDTH: usize>(&self) -> (r: FlatNode<P, N, NEW_WIDTH>)
        requires
            self.nwf(),
            self.child_count() <= NEW_WIDTH,
            NEW_WIDTH <= 255,
        ensures
            r.nwf(),
            r.children() == self.children(),
            r.child_count() == self.child_count(),
            r.prefix.spec_bytes() == self.prefix.spec_bytes(),
            is_max_child_ts(r.children(), r.ts),
    {
        let mut rkeys: Vec<u8> = Vec::new();
        let mut rchildren: Vec<Option<Arc<N>>> = Vec::new();
        let mut i: usize = 0;
        while i < NEW_WIDTH
            invariant
                i <= NEW_WIDTH,
                rkeys@.len() == i,
                rchildren@.len() == i,
                forall|j: int| 0 <= j < i ==> rchildren@[j] is None,
            decreases NEW_WIDTH - i,
        {
            rkeys.push(0);
            rchildren.push(None);
            i = i + 1;
        }
        let mut cnt: usize = 0;
        let mut b: usize = 0;
        while b < 256
            invariant
                self.nwf(),
                self.child_count() <= NEW_WIDTH <= 255,
                b <= 256,
                cnt == count_some(self.idxs(), b as int),
                cnt <= NEW_WIDTH,
                rkeys@.len() == NEW_WIDTH,
                rchildren@.len() == NEW_WIDTH,
                forall|a: int| 0 <= a < cnt ==> (#[trigger] rkeys@[a]) < b,
                forall|a1: int, a2: int| 0 <= a1 < a2 < cnt ==> rkeys@[a1] < rkeys@[a2],
                forall|a: int|
                    0 <= a < cnt ==> rchildren@[a] is Some && self.idxs()[(
                    #[trigger] rkeys@[a]) as int] is Some && *rchildren@[a].unwrap()
                        == self.children().index(rkeys@[a]),
                forall|k: int|
                    0 <= k < b && (#[trigger] self.idxs()[k]) is Some ==> exists|a: int|
                        0 <= a < cnt && rkeys@[a] == k as u8,
                forall|a: int| cnt <= a < NEW_WIDTH ==> rchildren@[a] is None,
            decreases 256 - b,
        {
            match self.child_ptr_indexes.get(b) {
                Some(p) => {
                    let pv = *p;
                    let c = match self.children.get(pv as usize) {
                        Some(c) => c.clone(),
                        None => {
                            proof {
                                assert(self.idxs()[b as int] is Some);
                                assert(false);
                            }
                            unreached()
                        }
                    };
                    proof {
                        lemma_count_some_mono(self.idxs(), b as int + 1, 256);
                        let pidx = self.idxs()[b as int].unwrap() as int;
                        assert(self.children().index(b as u8) == *self.slots()[pidx].unwrap());
                    }
                    let ghost okeys = rkeys@;
                    rkeys[cnt] = b as u8;
                    rchildren[cnt] = Some(c);
                    cnt = cnt + 1;
                    proof {
                        assert forall|k: int|
                            0 <= k < b + 1 && (#[trigger] self.idxs()[k]) is Some implies exists|
                            a: int,
                        | 0 <= a < cnt && rkeys@[a] == k as u8 by {
                            if k < b {
                                let a = choose|a: int|
                                    0 <= a < cnt - 1 && (#[trigger] okeys[a]) == k as u8;
                                assert(rkeys@[a] == okeys[a]);
                                assert(rkeys@[a] == k as u8);
                            } else {
                                assert(rkeys@[cnt - 1] == k as u8);
                            }
                        }
                    }
                }
                None => {}
            }
            b = b + 1;
        }
        let mut r = FlatNode::<P, N, NEW_WIDTH> {
            prefix: self.prefix.duplicate(),
            ts: 0,
            keys: rkeys,
            children: rchildren,
            num_children: self.num_children,
        };
        proof {
            assert(cnt == self.child_count());
            assert(r.prefix.pwf());
            assert(r.keys@.len() == NEW_WIDTH);
            assert(r.children@.len() == NEW_WIDTH);
            assert(r.num_children as int <= NEW_WIDTH);
            assert(forall|i: int, j: int|
                0 <= i < j < r.num_children as int ==> r.keys@[i] < r.keys@[j]);
            assert forall|i: int| 0 <= i < NEW_WIDTH implies ((#[trigger] r.children@[i]) is Some
                <==> i < r.num_children as int) by {
                if i < cnt {
                    let kk = rkeys@[i];
                    assert(self.idxs()[kk as int] is Some);
                    assert(rchildren@[i] is Some);
                } else {
                    assert(rchildren@[i] is None);
                }
            }
            assert(r.nwf());
            r.lemma_children_at();
            assert forall|k: u8| #[trigger] self.children().dom().contains(k) implies
                r.children().dom().contains(k) by {
                assert(self.idxs()[k as int] is Some);
                let a = choose|a: int| 0 <= a < cnt && rkeys@[a] == (k as int) as u8;
                assert(r.spec_keys()[a] == k);
            }
            assert forall|k: u8| #[trigger] r.children().dom().contains(k) implies
                self.children().dom().contains(k) && r.children()[k] == self.children()[k] by {
                let a = choose|a: int| 0 <= a < r.num_children as int && r.spec_keys()[a] == k;
                assert(rkeys@[a] == k);
                assert(self.idxs()[k as int] is Some);
                assert(r.children()[k] == *r.spec_slots()[a].unwrap());
                assert(*rchildren@[a].unwrap() == self.children().index(rkeys@[a]));
            }
            assert(r.children().dom() =~= self.children().dom());
            assert(r.children() =~= self.children());
        }
        r.update_ts();
        proof {
            let m = choose|m: u64|
                #[trigger] is_max_child_ts(self.children(), m) && r.ts == max64(0, m);
            assert(r.ts == m);
        }
        r
    }

    /// The same children in a direct 256-slot node. The result's `ts` is the
    /// maximum child timestamp.
    pub fn grow(&self) -> (r: Node256<P, N>)
        requires
            self.nwf(),
        ensures
            r.nwf(),
            r.children() == self.children(),
            r.child_count() == self.child_count(),
            r.prefix.spec_bytes() == self.prefix.spec_bytes(),
            is_max_child_ts(r.children(), r.ts),
    {
        let mut slots: VecArray<Arc<N>, 256> = VecArray::new();
        let mut b: usize = 0;
        while b < 256
            invariant
                self.nwf(),
                b <= 256,
                slots.wf(),
                count_some(slots@, b as int) == count_some(self.idxs(), b as int),
                forall|k: int|
                    0 <= k < b ==> ((#[trigger] slots@[k]) is Some <==> self.idxs()[k] is Some),
                forall|k: int|
                    0 <= k < b && self.idxs()[k] is Some ==> *(#[trigger] slots@[k]).unwrap()
                        == self.children().index(k as u8),
                forall|k: int| b <= k < 256 ==> (#[trigger] slots@[k]) is None,
            decreases 256 - b,
        {
            let ghost snap = slots@;
            match self.child_ptr_indexes.get(b) {
                Some(p) => {
                    let pv = *p;
                    let c = match self.children.get(pv as usize) {
                        Some(c) => c.clone(),
                        None => {
                            proof {
                                assert(self.idxs()[b as int] is Some);
                                assert(false);
                            }
                            unreached()
                        }
                    };
                    proof {
                        let pidx = self.idxs()[b as int].unwrap() as int;
                        assert(self.children().index(b as u8) == *self.slots()[pidx].unwrap());
                    }
                    slots.set(b, c);
                    proof {
                        lemma_count_some_update(snap, b as int, slots@[b as int], b as int);
                    }
                }
                None => {}
            }
            b = b + 1;
        }
        let mut r = Node256 {
            prefix: self.prefix.duplicate(),
            ts: 0,
            children: Box::new(slots),
            num_children: self.num_children as usize,
        };
        proof {
            assert(r.nwf());
            assert forall|k: u8|
                r.children().dom().contains(k) == self.children().dom().contains(k) && (
                r.children().dom().contains(k) ==> r.children()[k] == self.children()[k]) by {
                assert(r.slots()[k as int] is Some <==> self.idxs()[k as int] is Some);
                if self.idxs()[k as int] is Some {
                    assert(*r.slots()[(k as int)].unwrap() == self.children().index(
                        (k as int) as u8,
                    ));
                }
            }
            assert(r.children().dom() =~= self.children().dom());
            assert(r.children() =~= self.children());
        }
        r.update_ts();
        proof {
            let m = choose|m: u64|
                #[trigger] is_max_child_ts(self.children(), m) && r.ts == max64(0, m);
            assert(r.ts == m);
        }
        r
    }
}

impl<P: Prefix, N: Timestamp> NodeTrait<N> for Node48<P, N> {
    open spec fn children(&self) -> Map<u8, N> {
        Map::new(
            |b: u8| self.idxs()[b as int] is Some,
            |b: u8| *self.slots()[self.idxs()[b as int].unwrap() as int].unwrap(),
        )
    }

    open spec fn child_count(&self) -> nat {
        self.num_children as nat
    }

    open spec fn node_ts(&self) -> u64 {
        self.ts
    }

    open spec fn nwf(&self) -> bool {
        &&& self.prefix.pwf()
        &&& self.idxs().len() == 256
        &&& self.slots().len() == 48
        &&& self.num_children as int == count_some(self.idxs(), 256)
        &&& count_some(self.slots(), 48) == self.num_children as int
        &&& forall|b: int|
            0 <= b < 256 && (#[trigger] self.idxs()[b]) is Some ==> (self.idxs()[b].unwrap() < 48
                && self.slots()[self.idxs()[b].unwrap() as int] is Some)
        &&& forall|b1: int, b2: int|
            0 <= b1 < 256 && 0 <= b2 < 256 && b1 != b2 && (#[trigger] self.idxs()[b1]) is Some && (
            #[trigger] self.idxs()[b2]) is Some ==> self.idxs()[b1].unwrap()
                != self.idxs()[b2].unwrap()
        &&& forall|p: int|
            0 <= p < 48 && (#[trigger] self.slots()[p]) is Some ==> exists|b: int|
                0 <= b < 256 && (#[trigger] self.idxs()[b]) == Some(p as u8)
    }

    open spec fn is_full(&self) -> bool {
        self.num_children as int == 48
    }

    fn clone(&self) -> (r: Self)
        ensures
            r.prefix.spec_bytes() == self.prefix.spec_bytes(),
    {
        let r = Node48 {
            prefix: self.prefix.duplicate(),
            ts: self.ts,
            child_ptr_indexes: Box::new(copy_index_array(&self.child_ptr_indexes)),
            children: Box::new(copy_child_array(&self.children)),
            num_children: self.num_children,
        };
        proof {
            assert(r.children() =~= self.children());
        }
        r
    }

    fn add_child(&self, key: u8, node: N) -> (r: Self)
        ensures
            r.prefix.spec_bytes() == self.prefix.spec_bytes(),
    {
        let mut r = self.clone();
        let node_ts = node.ts();
        if node_ts > r.ts {
            r.ts = node_ts;
        }
        r.insert_child(key, Arc::new(node));
        r
    }

    fn find_child(&self, key: u8) -> (r: Option<&Arc<N>>) {
        match self.child_ptr_indexes.get(key as usize) {
            Some(p) => {
                let pv = *p;
                proof {
                    assert(self.idxs()[key as int] is Some);
                }
                self.children.get(pv as usize)
            }
            None => None,
        }
    }

    fn delete_child(&self, key: u8) -> (r: Self)
        ensures
            r.prefix.spec_bytes() == self.prefix.spec_bytes(),
    {
        let mut r = Node48 {
            prefix: self.prefix.duplicate(),
            ts: self.ts,
            child_ptr_indexes: Box::new(copy_index_array(&self.child_ptr_indexes)),
            children: Box::new(copy_child_array(&self.children)),
            num_children: self.num_children,
        };
        let pos = match self.child_ptr_indexes.get(key as usize) {
            Some(p) => *p,
            None => {
                proof {
                    assert(false);
                }
                0
            }
        };
        r.child_ptr_indexes.erase(key as usize);
        r.children.erase(pos as usize);
        proof {
            lemma_count_some_update(self.idxs(), key as int, None, 256);
            lemma_count_some_bounds(self.idxs().update(key as int, None), 256);
            lemma_count_some_update(self.slots(), pos as int, None, 48);
        }
        r.num_children = r.num_children - 1;
        proof {
            assert(r.idxs() == self.idxs().update(key as int, None));
            assert(r.slots() == self.slots().update(pos as int, None));
            assert forall|b: u8| b != key && self.idxs()[b as int] is Some implies
                self.idxs()[b as int].unwrap() != pos by {}
            assert forall|p: int| 0 <= p < 48 && (#[trigger] r.slots()[p]) is Some implies exists|
                b: int,
            | 0 <= b < 256 && (#[trigger] r.idxs()[b]) == Some(p as u8) by {
                assert(self.slots()[p] is Some);
                let b = choose|b: int|
                    0 <= b < 256 && (#[trigger] self.idxs()[b]) == Some(p as u8);
                assert(b != key as int);
                assert(r.idxs()[b] == Some(p as u8));
            }
            assert(r.nwf());
            assert forall|b: u8| #[trigger] r.children().dom().contains(b) implies
                self.children().remove(key).dom().contains(b) && r.children()[b]
                == self.children().remove(key)[b] by {
                assert(b != key);
                assert(r.idxs()[b as int] == self.idxs()[b as int]);
                assert(self.idxs()[b as int].unwrap() != pos);
            }
            assert forall|b: u8| #[trigger] self.children().remove(key).dom().contains(b) implies
                r.children().dom().contains(b) by {
                assert(b != key);
                assert(r.idxs()[b as int] == self.idxs()[b as int]);
            }
            assert(r.children().dom() =~= self.children().remove(key).dom());
            assert(r.children() =~= self.children().remove(key));
        }
        r.update_ts_to_max_child_ts();
        r
    }

    fn replace_child(&self, key: u8, node: Arc<N>) -> (r: Self)
        ensures
            r.prefix.spec_bytes() == self.prefix.spec_bytes(),
    {
        let mut r = Node48 {
            prefix: self.prefix.duplicate(),
            ts: self.ts,
            child_ptr_indexes: Box::new(copy_index_array(&self.child_ptr_indexes)),
            children: Box::new(copy_child_array(&self.children)),
            num_children: self.num_children,
        };
        let ghost gnode = node;
        let pos = match self.child_ptr_indexes.get(key as usize) {
            Some(p) => *p,
            None => {
                proof {
                    assert(false);
                }
                0
            }
        };
        r.children.set(pos as usize, node);
        proof {
            assert(r.idxs() == self.idxs());
            assert(r.slots() == self.slots().update(pos as int, Some(gnode)));
            lemma_count_some_update(self.slots(), pos as int, Some(gnode), 48);
            assert forall|p: int| 0 <= p < 48 && (#[trigger] r.slots()[p]) is Some implies exists|
                b: int,
            | 0 <= b < 256 && (#[trigger] r.idxs()[b]) == Some(p as u8) by {
                if p != pos as int {
                    assert(self.slots()[p] is Some);
                } else {
                    assert(r.idxs()[key as int] == Some(pos));
                }
            }
            assert(r.nwf());
            assert forall|b: u8| #[trigger] r.children().dom().contains(b) implies
                self.children().insert(key, *gnode).dom().contains(b) && r.children()[b]
                == self.children().insert(key, *gnode)[b] by {
                if b != key {
                    assert(self.idxs()[b as int].unwrap() != pos);
                }
            }
            assert forall|b: u8| #[trigger] self.children().insert(key, *gnode).dom().contains(b)
                implies r.children().dom().contains(b) by {}
            assert(r.children().dom() =~= self.children().insert(key, *gnode).dom());
            assert(r.children() =~= self.children().insert(key, *gnode));
        }
        r.update_ts_to_max_child_ts();
        r
    }

    fn num_children(&self) -> (r: usize) {
        self.num_children as usize
    }

    fn size(&self) -> (r: usize)
        ensures
            r == 48,
    {
        48
    }
}

impl<P: Prefix, N: Timestamp> Timestamp for Node48<P, N> {
    open spec fn spec_ts(&self) -> u64 {
        self.ts
    }

    fn ts(&self) -> u64 {
        self.ts
    }
}

/// The widest interior node: a child slot for every routing byte.
pub struct Node256<P: Prefix, N: Timestamp> {
    pub prefix: P,
    pub ts: u64,
    pub children: Box<VecArray<Arc<N>, 256>>,
    pub num_children: usize,
}

impl<P: Prefix, N: Timestamp> Node256<P, N> {
    pub open spec fn slots(&self) -> Seq<Option<Arc<N>>> {
        self.children@
    }

    pub fn new(prefix: P) -> (r: Self)
        requires
            prefix.pwf(),
        ensures
            r.nwf(),
            r.prefix == prefix,
            r.ts == 0,
            r.children() =~= Map::<u8, N>::empty(),
            r.child_count() == 0,
            !r.is_full(),
    {
        let r = Node256 { prefix, ts: 0, children: Box::new(VecArray::new()), num_children: 0 };
        proof {
            lemma_count_some_all_none(r.slots(), 256);
            assert(r.children() =~= Map::<u8, N>::empty());
        }
        r
    }

    /// Place `node` in the slot for byte `key`.
    fn insert_child(&mut self, key: u8, node: Arc<N>)
        requires
            old(self).nwf(),
            !old(self).children().dom().contains(key),
            !old(self).is_full(),
        ensures
            final(self).nwf(),
            final(self).children() == old(self).children().insert(key, *node),
            final(self).child_count() == old(self).child_count() + 1,
            final(self).prefix == old(self).prefix,
            final(self).ts == old(self).ts,
    {
        let ghost gnode = node;
        proof {
            lemma_count_some_bounds(self.slots(), 256);
        }
        self.children.set(key as usize, node);
        self.num_children = self.num_children + 1;
        proof {
            let os = old(self);
            lemma_count_some_update(os.slots(), key as int, Some(gnode), 256);
            assert(self.slots() == os.slots().update(key as int, Some(gnode)));
            assert(self.nwf());
            assert(self.children() =~= os.children().insert(key, *gnode));
        }
    }

    /// The maximum timestamp among the children, or 0 with no children.
    pub fn max_child_ts(&self) -> (r: u64)
        requires
            self.nwf(),
        ensures
            is_max_child_ts(self.children(), r),
    {
        let mut m: u64 = 0;
        let mut b: usize = 0;
        while b < 256
            invariant
                self.nwf(),
                b <= 256,
                forall|k: int|
                    0 <= k < b && self.slots()[k] is Some ==> (#[trigger] self.children().index(
                        k as u8,
                    )).spec_ts() <= m,
                m == 0 || exists|k: int|
                    0 <= k < b && self.slots()[k] is Some && (#[trigger] self.children().index(
                        k as u8,
                    )).spec_ts() == m,
            decreases 256 - b,
        {
            match self.children.get(b) {
                Some(c) => {
                    let t = c.ts();
                    proof {
                        assert(self.children()[b as u8] == *self.slots()[b as int].unwrap());
                    }
                    if t > m {
                        m = t;
                    }
                }
                None => {}
            }
            b = b + 1;
        }
        proof {
            assert forall|k: u8| self.children().dom().contains(k) implies (
            self.children()[k]).spec_ts() <= m by {
                assert(self.children()[(k as int) as u8].spec_ts() <= m);
            }
            if m != 0 {
                let k = choose|k: int|
                    0 <= k < 256 && self.slots()[k] is Some && (#[trigger] self.children().index(
                        k as u8,
                    )).spec_ts() == m;
                assert(self.slots()[(k as u8) as int] is Some);
                assert(self.children().dom().contains(k as u8));
            }
        }
        m
    }

    /// Set `ts` to the maximum child timestamp; used after deletions and
    /// replacements, where the aggregate can drop.
    pub fn update_ts_to_max_child_ts(&mut self)
        requires
            old(self).nwf(),
        ensures
            final(self).nwf(),
            final(self).children() == old(self).children(),
            final(self).child_count() == old(self).child_count(),
            final(self).prefix == old(self).prefix,
            is_max_child_ts(final(self).children(), final(self).ts),
    {
        let m = self.max_child_ts();
        self.ts = m;
    }

    /// Raise `ts` to the maximum child timestamp if that is newer; used after
    /// bulk construction.
    pub fn update_ts(&mut self)
        requires
            old(self).nwf(),
        ensures
            final(self).nwf(),
            final(self).children() == old(self).children(),
            final(self).child_count() == old(self).child_count(),
            final(self).prefix == old(self).prefix,
            exists|m: u64|
                #[trigger] is_max_child_ts(old(self).children(), m) && final(self).ts == max64(
                    old(self).ts,
                    m,
                ),
    {
        let m = self.max_child_ts();
        if self.ts < m {
            self.ts = m;
        }
    }

    /// Raise `ts` to `new_ts` if that is newer.
    pub fn update_if_newer(&mut self, new_ts: u64)
        requires
            old(self).nwf(),
        ensures
            final(self).nwf(),
            final(self).children() == old(self).children(),
            final(self).child_count() == old(self).child_count(),
            final(self).prefix == old(self).prefix,
            final(self).ts == max64(old(self).ts, new_ts),
    {
        if new_ts > self.ts {
            self.ts = new_ts;
        }
    }

    /// The same node under another path prefix.
    pub fn with_prefix(&self, prefix: P) -> (r: Self)
        requires
            self.nwf(),
            prefix.pwf(),
        ensures
            r.nwf(),
            r.prefix == prefix,
            r.children() == self.children(),
            r.child_count() == self.child_count(),
            r.is_full() == self.is_full(),
            r.ts == self.ts,
    {
        let r = Node256 {
            prefix,
            ts: self.ts,
            children: Box::new(copy_child_array(&self.children)),
            num_children: self.num_children,
        };
        proof {
            assert(r.children() =~= self.children());
        }
        r
    }

    /// The children as `(routing byte, child)` pairs in ascending byte order.
    pub fn iter(&self) -> (r: Vec<(u8, &Arc<N>)>)
        requires
            self.nwf(),
        ensures
            r@.len() == self.child_count(),
            forall|a: int, b: int| 0 <= a < b < r@.len() ==> r@[a].0 < r@[b].0,
            forall|a: int|
                0 <= a < r@.len() ==> self.children().dom().contains(#[trigger] r@[a].0)
                    && *r@[a].1 == self.children()[r@[a].0],
            forall|b: u8|
                #[trigger] self.children().dom().contains(b) ==> exists|a: int|
                    0 <= a < r@.len() && r@[a].0 == b,
    {
        let mut r: Vec<(u8, &Arc<N>)> = Vec::new();
        let mut b: usize = 0;
        while b < 256
            invariant
                self.nwf(),
                b <= 256,
                r@.len() == count_some(self.slots(), b as int),
                forall|a: int| 0 <= a < r@.len() ==> (#[trigger] r@[a]).0 < b,
                forall|a1: int, a2: int| 0 <= a1 < a2 < r@.len() ==> r@[a1].0 < r@[a2].0,
                forall|a: int|
                    0 <= a < r@.len() ==> self.children().dom().contains(#[trigger] r@[a].0)
                        && *r@[a].1 == self.children()[r@[a].0],
                forall|k: int|
                    0 <= k < b && (#[trigger] self.slots()[k]) is Some ==> exists|a: int|
                        0 <= a < r@.len() && r@[a].0 == k as u8,
            decreases 256 - b,
        {
            match self.children.get(b) {
                Some(c) => {
                    proof {
                        assert(self.children().index(b as u8) == *self.slots()[b as int].unwrap());
                        assert(self.children().dom().contains(b as u8));
                    }
                    let ghost osnap = r@;
                    r.push((b as u8, c));
                    proof {
                        assert forall|k: int|
                            0 <= k < b + 1 && (#[trigger] self.slots()[k]) is Some implies exists|
                            a: int,
                        | 0 <= a < r@.len() && r@[a].0 == k as u8 by {
                            if k < b {
                                let a = choose|a: int|
                                    0 <= a < osnap.len() && (#[trigger] osnap[a]).0 == k as u8;
                                assert(r@[a].0 == k as u8);
                            } else {
                                assert(r@[r@.len() - 1].0 == k as u8);
                            }
                        }
                    }
                }
                None => {}
            }
            b = b + 1;
        }
        proof {
            assert forall|k: u8| #[trigger] self.children().dom().contains(k) implies exists|a: int|
                0 <= a < r@.len() && r@[a].0 == k by {
                assert(self.slots()[k as int] is Some);
                let a = choose|a: int| 0 <= a < r@.len() && r@[a].0 == (k as int) as u8;
                assert(r@[a].0 == k);
            }
        }
        r
    }

    /// The same children in an indirect 48-slot node. The result's `ts` is
    /// the maximum child timestamp.
    pub fn shrink(&self) -> (r: Node48<P, N>)
        requires
            self.nwf(),
            self.child_count() <= 48,
        ensures
            r.nwf(),
            r.children() == self.children(),
            r.child_count() == self.child_count(),
            r.prefix.spec_bytes() == self.prefix.spec_bytes(),
            is_max_child_ts(r.children(), r.ts),
    {
        let mut n48 = Node48::new(self.prefix.duplicate());
        let mut b: usize = 0;
        while b < 256
            invariant
                self.nwf(),
                self.child_count() <= 48,
                b <= 256,
                n48.nwf(),
                n48.ts == 0,
                n48.child_count() == count_some(self.slots(), b as int),
                n48.prefix.spec_bytes() == self.prefix.spec_bytes(),
                forall|k: int|
                    0 <= k < b ==> (#[trigger] n48.children().dom().contains(k as u8)
                        <==> self.slots()[k] is Some),
                forall|k: int|
                    b <= k < 256 ==> !(#[trigger] n48.children().dom().contains(k as u8)),
                forall|k: int|
                    0 <= k < b && (#[trigger] self.slots()[k]) is Some ==> n48.children().index(
                        k as u8,
                    ) == *self.slots()[k].unwrap(),
            decreases 256 - b,
        {
            match self.children.get(b) {
                Some(c) => {
                    proof {
                        lemma_count_some_mono(self.slots(), b as int + 1, 256);
                        assert(self.slots()[b as int] is Some);
                        assert(!n48.children().dom().contains(b as u8));
                    }
                    let cc = c.clone();
                    n48.insert_child(b as u8, cc);
                    proof {
                        assert forall|k: int|
                            0 <= k < b + 1 implies (#[trigger] n48.children().dom().contains(
                            k as u8,
                        ) <==> self.slots()[k] is Some) by {
                            if k < b {
                                assert((k as u8) != (b as u8));
                            }
                        }
                        assert forall|k: int| b + 1 <= k < 256 implies !(
                        #[trigger] n48.children().dom().contains(k as u8)) by {
                            assert((k as u8) != (b as u8));
                        }
                    }
                }
                None => {}
            }
            b = b + 1;
        }
        proof {
            assert(n48.child_count() == self.child_count());
            assert forall|k: u8| #[trigger] self.children().dom().contains(k) implies
                n48.children().dom().contains(k) by {
                assert(self.slots()[k as int] is Some);
                assert(n48.children().dom().contains((k as int) as u8));
            }
            assert forall|k: u8| #[trigger] n48.children().dom().contains(k) implies
                self.children().dom().contains(k) && n48.children()[k] == self.children()[k] by {
                assert(n48.children().dom().contains((k as int) as u8));
                assert(self.slots()[k as int] is Some);
                assert(n48.children().index((k as int) as u8) == *self.slots()[k as int].unwrap());
            }
            assert(n48.children().dom() =~= self.children().dom());
            assert(n48.children() =~= self.children());
        }
        n48.update_ts();
        proof {
            let m = choose|m: u64|
                #[trigger] is_max_child_ts(self.children(), m) && n48.ts == max64(0, m);
            assert(n48.ts == m);
        }
        n48
    }
}

impl<P: Prefix, N: Timestamp> NodeTrait<N> for Node256<P, N> {
    open spec fn children(&self) -> Map<u8, N> {
        Map::new(
            |b: u8| self.slots()[b as int] is Some,
            |b: u8| *self.slots()[b as int].unwrap(),
        )
    }

    open spec fn child_count(&self) -> nat {
        self.num_children as nat
    }

    open spec fn node_ts(&self) -> u64 {
        self.ts
    }

    open spec fn nwf(&self) -> bool {
        &&& self.prefix.pwf()
        &&& self.slots().len() == 256
        &&& self.num_children == count_some(self.slots(), 256)
    }

    open spec fn is_full(&self) -> bool {
        self.num_children == 256
    }

    fn clone(&self) -> (r: Self)
        ensures
            r.prefix.spec_bytes() == self.prefix.spec_bytes(),
    {
        let r = Node256 {
            prefix: self.prefix.duplicate(),
            ts: self.ts,
            children: Box::new(copy_child_array(&self.children)),
            num_children: self.num_children,
        };
        proof {
            assert(r.children() =~= self.children());
        }
        r
    }

    fn add_child(&self, key: u8, node: N) -> (r: Self)
        ensures
            r.prefix.spec_bytes() == self.prefix.spec_bytes(),
    {
        let mut r = self.clone();
        let node_ts = node.ts();
        if node_ts > r.ts {
            r.ts = node_ts;
        }
        proof {
            assert(!r.children().dom().contains(key));
        }
        r.insert_child(key, Arc::new(node));
        r
    }

    fn find_child(&self, key: u8) -> (r: Option<&Arc<N>>) {
        self.children.get(key as usize)
    }

    fn delete_child(&self, key: u8) -> (r: Self)
        ensures
            r.prefix.spec_bytes() == self.prefix.spec_bytes(),
    {
        let mut r = Node256 {
            prefix: self.prefix.duplicate(),
            ts: self.ts,
            children: Box::new(copy_child_array(&self.children)),
            num_children: self.num_children,
        };
        proof {
            lemma_count_some_update(self.slots(), key as int, None, 256);
            lemma_count_some_bounds(self.slots().update(key as int, None), 256);
        }
        let removed = r.children.erase(key as usize);
        if removed.is_some() {
            r.num_children = r.num_children - 1;
        }
        proof {
            assert(r.slots() == self.slots().update(key as int, None));
            assert(r.nwf());
            assert(r.children() =~= self.children().remove(key));
        }
        r.update_ts_to_max_child_ts();
        r
    }

    fn replace_child(&self, key: u8, node: Arc<N>) -> (r: Self)
        ensures
            r.prefix.spec_bytes() == self.prefix.spec_bytes(),
    {
        let ghost gnode = node;
        let mut r = Node256 {
            prefix: self.prefix.duplicate(),
            ts: self.ts,
            children: Box::new(copy_child_array(&self.children)),
            num_children: self.num_children,
        };
        r.children.set(key as usize, node);
        proof {
            lemma_count_some_update(self.slots(), key as int, Some(gnode), 256);
            assert(r.slots() == self.slots().update(key as int, Some(gnode)));
            assert(r.nwf());
            assert(r.children() =~= self.children().insert(key, *gnode));
        }
        r.update_ts_to_max_child_ts();
        r
    }

    fn num_children(&self) -> (r: usize) {
        self.num_children
    }

    fn size(&self) -> (r: usize)
        ensures
            r == 256,
    {
        256
    }
}

impl<P: Prefix, N: Timestamp> Timestamp for Node256<P, N> {
    open spec fn spec_ts(&self) -> u64 {
        self.ts
    }

    fn ts(&self) -> u64 {
        self.ts
    }
}

proof fn lemma_count_some_all_none<T>(s: Seq<Option<T>>, i: int)
    requires
        i <= s.len(),
        forall|k: int| 0 <= k < i ==> s[k] is None,
    ensures
        count_some(s, i) == 0,
    decreases i,
{
    if i > 0 {
        lemma_count_some_all_none(s, i - 1);
    }
}

/// Copy a byte-to-slot index array.
fn copy_index_array(v: &VecArray<u8, 256>) -> (r: VecArray<u8, 256>)
    requires
        v.wf(),
    ensures
        r.wf(),
        r@ == v@,
{
    let mut r: VecArray<u8, 256> = VecArray::new();
    let mut i: usize = 0;
    while i < 256
        invariant
            v.wf(),
            r.wf(),
            i <= 256,
            forall|j: int| 0 <= j < i ==> r@[j] == v@[j],
            forall|j: int| i <= j < 256 ==> r@[j] is None,
        decreases 256 - i,
    {
        match v.get(i) {
            Some(x) => {
                let xv = *x;
                r.set(i, xv);
            }
            None => {}
        }
        i = i + 1;
    }
    proof {
        assert(r@ =~= v@);
    }
    r
}

/// Share every occupied slot of a child array.
fn copy_child_array<N, const W: usize>(v: &VecArray<Arc<N>, W>) -> (r: VecArray<Arc<N>, W>)
    requires
        v.wf(),
    ensures
        r.wf(),
        r@ == v@,
{
    let mut r: VecArray<Arc<N>, W> = VecArray::new();
    let mut i: usize = 0;
    while i < W
        invariant
            v.wf(),
            r.wf(),
            i <= W,
            forall|j: int| 0 <= j < i ==> r@[j] == v@[j],
            forall|j: int| i <= j < W ==> r@[j] is None,
        decreases W - i,
    {
        match v.get(i) {
            Some(x) => {
                let xv = x.clone();
                r.set(i, xv);
            }
            None => {}
        }
        i = i + 1;
    }
    proof {
        assert(r@ =~= v@);
    }
    r
}

/// A child of a flat node is a structural part of it, so recursion from a
/// node to one of its children terminates.
pub proof fn lemma_flat_child_decreases<P: Prefix, N: Timestamp, const WIDTH: usize>(
    f: FlatNode<P, N, WIDTH>,
    b: u8,
)
    requires
        f.nwf(),
        f.children().dom().contains(b),
    ensures
        decreases_to!(f => f.children().index(b)),
{
    f.lemma_children_at();
    lemma_find_key_at(f.keys@, f.n(), 0, b);
    let i = find_key_at(f.keys@, f.n(), 0, b).unwrap();
    assert(f.children().index(b) == *f.children@[i].unwrap());
    assert(decreases_to!(f => f.children));
    assert(decreases_to!(f.children => f.children[i]));
    assert(decreases_to!(f.children[i] => f.children@[i].unwrap()));
}

/// A child of an indirect 48-slot node is a structural part of it.
pub proof fn lemma_n48_child_decreases<P: Prefix, N: Timestamp>(f: Node48<P, N>, b: u8)
    requires
        f.nwf(),
        f.children().dom().contains(b),
    ensures
        decreases_to!(f => f.children().index(b)),
{
    let i = f.idxs()[b as int].unwrap() as int;
    assert(f.children().index(b) == *f.slots()[i].unwrap());
    assert(decreases_to!(f => f.children));
    (*f.children).lemma_el_decreases(i);
}

/// A child of a direct 256-slot node is a structural part of it.
pub proof fn lemma_n256_child_decreases<P: Prefix, N: Timestamp>(f: Node256<P, N>, b: u8)
    requires
        f.nwf(),
        f.children().dom().contains(b),
    ensures
        decreases_to!(f => f.children().index(b)),
{
    assert(f.children().index(b) == *f.slots()[b as int].unwrap());
    assert(decreases_to!(f => f.children));
    (*f.children).lemma_el_decreases(b as int);
}

/// The maximum timestamp among the entries, or `dflt` when there are none.
fn max_entry_ts<K: Prefix, V>(values: &Vec<Arc<LeafValue<K, V>>>, dflt: u64) -> (r: u64)
    ensures
        values@.len() == 0 ==> r == dflt,
        values@.len() > 0 ==> {
            &&& forall|i: int| 0 <= i < values@.len() ==> (#[trigger] values@[i]).ts <= r
            &&& exists|i: int| 0 <= i < values@.len() && (#[trigger] values@[i]).ts == r
        },
{
    let n = values.len();
    if n == 0 {
        return dflt;
    }
    let mut m: u64 = values[0].ts;
    let ghost mut w: int = 0;
    let mut i: usize = 1;
    while i < n
        invariant
            n == values@.len(),
            1 <= i <= n,
            0 <= w < i,
            values@[w].ts == m,
            forall|j: int| 0 <= j < i ==> (#[trigger] values@[j]).ts <= m,
        decreases n - i,
    {
        if values[i].ts > m {
            m = values[i].ts;
            proof {
                w = i as int;
            }
        }
        i = i + 1;
    }
    m
}

} // verus!
