//! Traversal: collecting a root's entries in depth-first, byte-ascending
//! order, the cursors over them, and the upper-bounded range traversal.

use std::sync::Arc;
use vstd::prelude::*;

use crate::art::{
    entries_below, lemma_entries_skip, lemma_kid_decreases, spec_entries, Node, NodeType, TrieError,
    VariableSizedKey,
};
use crate::prefix::Prefix;
use crate::snapshot::Snapshot;

verus! {

/// Two yielded triples carry the same key bytes, value and timestamp.
pub open spec fn triple_like<V>(a: (Vec<u8>, V, u64), b: (Vec<u8>, V, u64)) -> bool {
    a.0@ == b.0@ && a.1 == b.1 && a.2 == b.2
}

/// The collected triples carry the same keys, values and timestamps as the
/// specified traversal.
pub open spec fn triples_match<V>(r: Seq<(Vec<u8>, V, u64)>, s: Seq<(Seq<u8>, V, u64)>) -> bool {
    &&& r.len() == s.len()
    &&& forall|i: int|
        0 <= i < r.len() ==> (#[trigger] r[i]).0@ == s[i].0 && r[i].1 == s[i].1 && r[i].2 == s[i].2
}

/// Walk the subtree under `n` depth first, children in ascending
/// routing-byte order, and collect every stored `(key, value, ts)` triple.
pub fn collect_node<V: Copy>(n: &Node<V>) -> (r: Vec<(Vec<u8>, V, u64)>)
    requires
        n.deep_ok(),
    ensures
        triples_match(r@, spec_entries(*n)),
    decreases *n,
{
    proof {
        crate::art::lemma_deep_ok_unfold(*n);
    }
    match n.node_type {
        NodeType::Twig(ref t) => {
            let lvs = t.iter();
            let m = lvs.len();
            let mut r: Vec<(Vec<u8>, V, u64)> = Vec::new();
            let mut i: usize = 0;
            while i < m
                invariant
                    t.twig_wf(),
                    m == lvs@.len(),
                    m == t.entries().len(),
                    forall|j: int| 0 <= j < m ==> *(#[trigger] lvs@[j]) == t.entries()[j],
                    i <= m,
                    r@.len() == i,
                    forall|j: int|
                        0 <= j < i ==> (#[trigger] r@[j]).0@ == t.entries()[j].key.spec_bytes()
                            && r@[j].1 == t.entries()[j].value && r@[j].2 == t.entries()[j].ts,
                decreases m - i,
            {
                proof {
                    assert(t.entries()[i as int].key.pwf());
                }
                let kd = lvs[i].key.duplicate();
                let v = lvs[i].value;
                let ts = lvs[i].ts;
                r.push((kd.data, v, ts));
                i = i + 1;
            }
            proof {
                assert(triples_match(r@, spec_entries(*n)));
            }
            r
        }
        _ => {
            let pairs = n.iter();
            let np = pairs.len();
            let mut r: Vec<(Vec<u8>, V, u64)> = Vec::new();
            let ghost mut done_part: Seq<(Seq<u8>, V, u64)> = Seq::empty();
            let ghost mut nb: int = 0;
            let mut a: usize = 0;
            proof {
                assert(triples_match(r@, done_part));
            }
            while a < np
                invariant
                    n.deep_ok(),
                    n.shallow_wf(),
                    !n.spec_is_twig(),
                    forall|b: u8|
                        #[trigger] n.kids().dom().contains(b) ==> n.kids()[b].deep_ok(),
                    np == pairs@.len(),
                    forall|a1: int, a2: int| 0 <= a1 < a2 < np ==> pairs@[a1].0 < pairs@[a2].0,
                    forall|a1: int|
                        0 <= a1 < np ==> n.kids().dom().contains(#[trigger] pairs@[a1].0)
                            && *pairs@[a1].1 == n.kids()[pairs@[a1].0],
                    forall|b: u8|
                        #[trigger] n.kids().dom().contains(b) ==> exists|a1: int|
                            0 <= a1 < np && pairs@[a1].0 == b,
                    a <= np,
                    0 <= nb <= 256,
                    a > 0 ==> nb == pairs@[a as int - 1].0 + 1,
                    a == 0 ==> nb == 0,
                    triples_match(r@, done_part),
                    done_part + entries_below(*n, nb) == entries_below(*n, 0),
                decreases np - a,
            {
                let b = pairs[a].0;
                let ghost bb = b as int;
                proof {
                    // no child sits between the previous byte and this one
                    assert forall|x: int| nb <= x < bb implies !(
                    #[trigger] n.kids().dom().contains(x as u8)) by {
                        if n.kids().dom().contains(x as u8) {
                            let j = choose|j: int|
                                0 <= j < np && #[trigger] pairs@[j].0 == x as u8;
                            if j < a {
                                if a > 0 && j < a {
                                    assert(j <= a - 1);
                                    if j < a - 1 {
                                        assert(pairs@[j].0 < pairs@[a as int - 1].0);
                                    }
                                }
                                assert(false);
                            } else if j == a {
                                assert(false);
                            } else {
                                assert(pairs@[a as int].0 < pairs@[j].0);
                                assert(false);
                            }
                        }
                    }
                    lemma_entries_skip(*n, nb, bb);
                    assert(entries_below(*n, bb) == spec_entries(n.kids()[b]) + entries_below(
                        *n,
                        bb + 1,
                    ));
                    lemma_kid_decreases(*n, b);
                }
                let child = pairs[a].1;
                let mut sub = collect_node(child);
                let ghost sub_spec = spec_entries(n.kids()[b]);
                let ghost racc = r@;
                r.append(&mut sub);
                proof {
                    done_part = done_part + sub_spec;
                    nb = bb + 1;
                    assert forall|i: int| 0 <= i < r@.len() implies (#[trigger] r@[i]).0@
                        == done_part[i].0 && r@[i].1 == done_part[i].1 && r@[i].2
                        == done_part[i].2 by {
                        if i < racc.len() {
                            assert(r@[i] == racc[i]);
                        }
                    }
                    assert(done_part + entries_below(*n, nb) =~= entries_below(*n, 0));
                }
                a = a + 1;
            }
            proof {
                assert forall|x: int| nb <= x < 256 implies !(#[trigger] n.kids().dom().contains(
                    x as u8,
                )) by {
                    if n.kids().dom().contains(x as u8) {
                        let j = choose|j: int| 0 <= j < np && #[trigger] pairs@[j].0 == x as u8;
                        if np > 0 {
                            assert(j <= np - 1);
                            if j < np - 1 {
                                assert(pairs@[j].0 < pairs@[np - 1].0);
                            }
                            assert(pairs@[j].0 <= pairs@[np as int - 1].0);
                        }
                        assert(false);
                    }
                }
                lemma_entries_skip(*n, nb, 256);
                assert(entries_below(*n, 256) =~= Seq::<(Seq<u8>, V, u64)>::empty());
                assert(done_part =~= entries_below(*n, 0));
            }
            r
        }
    }
}

/// A traversal cursor over the entries of one root, in depth-first order
/// with children in ascending routing-byte order.
pub struct IterState<V> {
    pub entries: Vec<(Vec<u8>, V, u64)>,
    pub pos: usize,
}

impl<V: Copy> IterState<V> {
    /// What the cursor has still to yield.
    pub open spec fn remaining(&self) -> Seq<(Vec<u8>, V, u64)> {
        self.entries@.skip(self.pos as int)
    }

    /// A cursor over the whole subtree under `node`.
    pub fn new(node: &Node<V>) -> (r: Self)
        requires
            node.deep_ok(),
        ensures
            triples_match(r.entries@, spec_entries(*node)),
            r.pos == 0,
            r.remaining() == r.entries@,
    {
        let r = IterState { entries: collect_node(node), pos: 0 };
        proof {
            assert(r.remaining() =~= r.entries@);
        }
        r
    }

    /// The next entry, if one is left.
    pub fn next(&mut self) -> (r: Option<(Vec<u8>, V, u64)>)
        requires
            old(self).pos <= old(self).entries@.len(),
        ensures
            final(self).entries == old(self).entries,
            match r {
                Some(e) => {
                    &&& old(self).pos < old(self).entries@.len()
                    &&& triple_like(e, old(self).entries@[old(self).pos as int])
                    &&& final(self).pos == old(self).pos + 1
                },
                None => {
                    &&& old(self).pos == old(self).entries@.len()
                    &&& final(self).pos == old(self).pos
                },
            },
    {
        if self.pos < self.entries.len() {
            let kd = copy_byte_vec(&self.entries[self.pos].0);
            let v = self.entries[self.pos].1;
            let t = self.entries[self.pos].2;
            self.pos = self.pos + 1;
            Some((kd, v, t))
        } else {
            None
        }
    }
}

/// Copy a key's bytes.
fn copy_byte_vec(v: &Vec<u8>) -> (r: Vec<u8>)
    ensures
        r@ == v@,
{
    let mut r: Vec<u8> = Vec::new();
    let n = v.len();
    let mut i: usize = 0;
    while i < n
        invariant
            n == v@.len(),
            i <= n,
            r@.len() == i,
            forall|j: int| 0 <= j < i ==> r@[j] == v@[j],
        decreases n - i,
    {
        r.push(v[i]);
        i = i + 1;
    }
    proof {
        assert(r@ =~= v@);
    }
    r
}

/// An iterator over the `(key, value, ts)` entries reachable from one root.
pub struct Iter<V> {
    pub state: IterState<V>,
}

impl<V: Copy> Iter<V> {
    /// What the iterator has still to yield.
    pub open spec fn remaining(&self) -> Seq<(Vec<u8>, V, u64)> {
        self.state.remaining()
    }

    /// An iterator over the subtree under `node`, or an empty one.
    pub fn new(node: Option<&Arc<Node<V>>>) -> (r: Self)
        requires
            node matches Some(nd) ==> nd.deep_ok(),
        ensures
            r.state.pos <= r.state.entries@.len(),
            match node {
                Some(nd) => triples_match(r.remaining(), spec_entries(**nd)),
                None => r.remaining() == Seq::<(Vec<u8>, V, u64)>::empty(),
            },
    {
        match node {
            Some(nd) => {
                let st = IterState::new(nd);
                Iter { state: st }
            }
            None => {
                let st = IterState { entries: Vec::new(), pos: 0 };
                proof {
                    assert(st.remaining() =~= Seq::<(Vec<u8>, V, u64)>::empty());
                }
                Iter { state: st }
            }
        }
    }

    /// The next entry, if one is left.
    pub fn next(&mut self) -> (r: Option<(Vec<u8>, V, u64)>)
        requires
            old(self).state.pos <= old(self).state.entries@.len(),
        ensures
            final(self).state.pos <= final(self).state.entries@.len(),
            match r {
                Some(e) => old(self).remaining().len() > 0 && triple_like(
                    e,
                    old(self).remaining()[0],
                ) && final(self).remaining() == old(self).remaining().skip(1),
                None => old(self).remaining().len() == 0 && final(self).remaining() == old(
                    self,
                ).remaining(),
            },
    {
        let ghost orem = self.remaining();
        let r = self.state.next();
        proof {
            match &r {
                Some(e) => {
                    assert(orem[0] == old(self).state.entries@[old(self).state.pos as int]);
                    assert(self.remaining() =~= orem.skip(1));
                }
                None => {
                    assert(self.remaining() =~= orem);
                }
            }
        }
        r
    }
}

/// A pinned root with a reader id: hands out iterators over the pinned
/// state, and closes its reader on the snapshot when done.
pub struct IterationPointer<V> {
    pub id: u64,
    pub root: Arc<Node<V>>,
}

impl<V: Copy> IterationPointer<V> {
    /// A pointer over `root` for reader `id`.
    pub fn new(root: Arc<Node<V>>, id: u64) -> (r: Self)
        ensures
            r.id == id,
            *r.root == *root,
    {
        IterationPointer { id, root }
    }

    /// An iterator over the pinned root.
    pub fn iter(&self) -> (r: Iter<V>)
        requires
            self.root.deep_ok(),
        ensures
            r.state.pos <= r.state.entries@.len(),
            triples_match(r.remaining(), spec_entries(*self.root)),
    {
        Iter::new(Some(&self.root))
    }

    /// Close this pointer's reader on the snapshot it was opened from.
    pub fn close(&self, snap: &mut Snapshot<V>) -> (r: Result<(), TrieError>)
        ensures
            final(snap).root == old(snap).root,
            r is Ok <==> old(snap).readers@.contains(self.id),
            r is Ok ==> exists|i: int|
                {
                    &&& 0 <= i < old(snap).readers@.len()
                    &&& old(snap).readers@[i] == self.id
                    &&& forall|j: int| 0 <= j < i ==> old(snap).readers@[j] != self.id
                    &&& final(snap).readers@ == old(snap).readers@.remove(i)
                },
            r is Err ==> final(snap).readers@ == old(snap).readers@,
    {
        snap.close_reader(self.id)
    }
}

/// Where a bounded traversal stops: nowhere, at a key inclusively, or at a
/// key exclusively.
pub enum RangeEnd {
    Unbounded,
    Included(VariableSizedKey),
    Excluded(VariableSizedKey),
}

/// True when the bound tells the traversal to stop at `k`, and whether the
/// matching entry itself is still yielded.
pub open spec fn bound_stops_at(end: RangeEnd, k: Seq<u8>) -> bool {
    match end {
        RangeEnd::Unbounded => false,
        RangeEnd::Included(ek) => ek.spec_bytes() == k,
        RangeEnd::Excluded(ek) => ek.spec_bytes() == k,
    }
}

/// An iterator bounded above: yields the base iterator's entries until the
/// end bound is met; an inclusive bound yields the matching entry and then
/// stops, an exclusive bound stops without yielding it.
pub struct RangeIterator<V> {
    pub iter: Iter<V>,
    pub end_bound: RangeEnd,
    pub done: bool,
}

/// One step of a bounded traversal: what `r` is and how the state moves. A
/// finished traversal yields nothing; otherwise the base iterator's next
/// entry is yielded unless the end bound stops the traversal there — an
/// inclusive bound still yielding that entry, an exclusive one not.
pub open spec fn range_step<V: Copy>(
    o: RangeIterator<V>,
    f: RangeIterator<V>,
    r: Option<(Vec<u8>, V, u64)>,
) -> bool {
    &&& f.end_bound == o.end_bound
    &&& (o.done ==> r is None && f.done)
    &&& ((!o.done && o.iter.remaining().len() == 0) ==> ({
        &&& r is None
        &&& f.done
    }))
    &&& (!o.done && o.iter.remaining().len() > 0 ==> {
        let e = o.iter.remaining()[0];
        &&& f.iter.remaining() == o.iter.remaining().skip(1)
        &&& if bound_stops_at(o.end_bound, e.0@) {
            &&& f.done
            &&& (o.end_bound is Included ==> (r matches Some(x) && triple_like(x, e)))
            &&& (!(o.end_bound is Included) ==> r is None)
        } else {
            (r matches Some(x) && triple_like(x, e)) && f.done == o.done
        }
    })
}

impl<V: Copy> RangeIterator<V> {
    pub open spec fn wf(&self) -> bool {
        self.iter.state.pos <= self.iter.state.entries@.len()
    }

    /// A bounded iterator over `iter`'s entries.
    pub fn new(iter: Iter<V>, end_bound: RangeEnd) -> (r: Self)
        requires
            iter.state.pos <= iter.state.entries@.len(),
        ensures
            r.wf(),
            r.iter == iter,
            r.end_bound == end_bound,
            !r.done,
    {
        RangeIterator { iter, end_bound, done: false }
    }

    /// The next entry within the bound, if one is left.
    pub fn next(&mut self) -> (r: Option<(Vec<u8>, V, u64)>)
        requires
            old(self).wf(),
        ensures
            final(self).wf(),
            range_step(*old(self), *final(self), r),
    {
        if self.done {
            return None;
        }
        let nx = self.iter.next();
        match nx {
            None => {
                self.done = true;
                None
            }
            Some(e) => {
                let stop = match &self.end_bound {
                    RangeEnd::Unbounded => false,
                    RangeEnd::Included(ek) => bytes_eq(&e.0, &ek.data),
                    RangeEnd::Excluded(ek) => bytes_eq(&e.0, &ek.data),
                };
                if stop {
                    self.done = true;
                    match &self.end_bound {
                        RangeEnd::Included(_) => Some(e),
                        _ => None,
                    }
                } else {
                    Some(e)
                }
            }
        }
    }
}

/// True exactly when the two byte vectors hold the same bytes.
fn bytes_eq(a: &Vec<u8>, b: &Vec<u8>) -> (r: bool)
    ensures
        r <==> a@ == b@,
{
    let la = a.len();
    if la != b.len() {
        return false;
    }
    let mut i: usize = 0;
    while i < la
        invariant
            la == a@.len(),
            la == b@.len(),
            i <= la,
            forall|j: int| 0 <= j < i ==> a@[j] == b@[j],
        decreases la - i,
    {
        if a[i] != b[i] {
            return false;
        }
        i = i + 1;
    }
    proof {
        assert(a@ =~= b@);
    }
    true
}

/// A bounded traversal: either empty from the start, or a bounded iterator.
pub struct Range<V> {
    pub inner: Option<RangeIterator<V>>,
}

impl<V: Copy> Range<V> {
    pub open spec fn wf(&self) -> bool {
        self.inner matches Some(it) ==> it.wf()
    }

    /// A traversal that yields nothing.
    pub fn empty() -> (r: Self)
        ensures
            r.wf(),
            r.inner is None,
    {
        Range { inner: None }
    }

    /// A traversal over `iter`'s entries bounded by `end_bound`.
    pub fn for_iter(iter: Iter<V>, end_bound: RangeEnd) -> (r: Self)
        requires
            iter.state.pos <= iter.state.entries@.len(),
        ensures
            r.wf(),
            r.inner matches Some(it) && it.iter == iter && it.end_bound == end_bound && !it.done,
    {
        Range { inner: Some(RangeIterator::new(iter, end_bound)) }
    }

    /// The next entry within the bound, if one is left.
    pub fn next(&mut self) -> (r: Option<(Vec<u8>, V, u64)>)
        requires
            old(self).wf(),
        ensures
            final(self).wf(),
            old(self).inner is None ==> r is None && final(self).inner is None,
            old(self).inner matches Some(it) ==> (final(self).inner matches Some(it2) && range_step(
                it,
                it2,
                r,
            )),
    {
        match &mut self.inner {
            Some(it) => it.next(),
            None => None,
        }
    }
}

} // verus!
