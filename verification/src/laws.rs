//! The laws the library guarantees, stated and proved over the
//! specifications of the tree operations: round-trip and time-travel reads,
//! persistence, insert-then-delete identity, timestamp ancestry, tier
//! occupancy, and ordered, history-complete traversal.

use vstd::prelude::*;

use crate::art::{
    entries_below, is_hist_insert, is_hist_sel, keys_placed, kids_placed, lemma_kid_decreases,
    lemma_kids_placed_at, lookup_hist, node_at, spec_entries, Node, Tree, VariableSizedKey,
};
use crate::node::LeafValue;
use crate::prefix::Prefix;

verus! {

/// Strict lexicographic order on byte sequences; a proper prefix sorts
/// before its extensions.
pub open spec fn lex_lt(a: Seq<u8>, b: Seq<u8>) -> bool
    decreases a.len(),
{
    if b.len() == 0 {
        false
    } else if a.len() == 0 {
        true
    } else if a[0] < b[0] {
        true
    } else if a[0] > b[0] {
        false
    } else {
        lex_lt(a.subrange(1, a.len() as int), b.subrange(1, b.len() as int))
    }
}

/// `a` begins with `p`.
pub open spec fn starts_with(a: Seq<u8>, p: Seq<u8>) -> bool {
    a.len() >= p.len() && a.subrange(0, p.len() as int) == p
}

/// Sequences that agree on their first `m` bytes and then differ order by
/// the differing byte.
proof fn lemma_lex_at(a: Seq<u8>, b: Seq<u8>, m: int)
    requires
        0 <= m < a.len(),
        m < b.len(),
        forall|j: int| 0 <= j < m ==> a[j] == b[j],
        a[m] < b[m],
    ensures
        lex_lt(a, b),
    decreases m,
{
    if m > 0 {
        let ta = a.subrange(1, a.len() as int);
        let tb = b.subrange(1, b.len() as int);
        assert forall|j: int| 0 <= j < m - 1 implies ta[j] == tb[j] by {
            assert(a[j + 1] == b[j + 1]);
        }
        lemma_lex_at(ta, tb, m - 1);
    }
}

/// Ordered iteration: in a well-kept tree whose keys follow the placement
/// discipline, a traversal yields its keys in ascending lexicographic
/// order, entries with equal keys (one key's history) standing together.
/// Every yielded key begins with the accumulated path.
pub proof fn lemma_ordered_iteration<V>(n: Node<V>, base: Seq<u8>)
    requires
        n.deep_ok(),
        keys_placed(n, base),
    ensures
        forall|i: int|
            0 <= i < spec_entries(n).len() ==> starts_with(
                (#[trigger] spec_entries(n)[i]).0,
                base + n.prefix_bytes(),
            ),
        forall|i: int, j: int|
            0 <= i < j < spec_entries(n).len() ==> lex_lt(
                (#[trigger] spec_entries(n)[i]).0,
                (#[trigger] spec_entries(n)[j]).0,
            ) || spec_entries(n)[i].0 == spec_entries(n)[j].0,
    decreases n, 257int,
{
    crate::art::lemma_deep_ok_unfold(n);
    if n.spec_is_twig() {
        let pre = base + n.prefix_bytes();
        assert forall|i: int| 0 <= i < spec_entries(n).len() implies starts_with(
            (#[trigger] spec_entries(n)[i]).0,
            pre,
        ) by {
            assert(spec_entries(n)[i].0 == n.twig_entries()[i].key.spec_bytes());
            assert(spec_entries(n)[i].0 == pre);
            assert(pre.subrange(0, pre.len() as int) =~= pre);
        }
        assert forall|i: int, j: int| 0 <= i < j < spec_entries(n).len() implies lex_lt(
            (#[trigger] spec_entries(n)[i]).0,
            (#[trigger] spec_entries(n)[j]).0,
        ) || spec_entries(n)[i].0 == spec_entries(n)[j].0 by {
            assert(spec_entries(n)[i].0 == pre && spec_entries(n)[j].0 == pre);
        }
    } else {
        lemma_below_ordered(n, base, 0);
        assert(spec_entries(n) == entries_below(n, 0));
    }
}

/// The entries of a traversal that carry exactly the key `k`, in traversal
/// order.
pub open spec fn entries_for<V>(s: Seq<(Seq<u8>, V, u64)>, k: Seq<u8>) -> Seq<(Seq<u8>, V, u64)>
    decreases s.len(),
{
    if s.len() == 0 {
        Seq::empty()
    } else {
        let rest = entries_for(s.drop_last(), k);
        if s.last().0 == k {
            rest.push(s.last())
        } else {
            rest
        }
    }
}

/// A history's entries as `(key bytes, value, ts)` triples.
pub open spec fn lv_triples<V>(h: Seq<LeafValue<VariableSizedKey, V>>) -> Seq<(Seq<u8>, V, u64)> {
    h.map(|i: int, lv: LeafValue<VariableSizedKey, V>| (lv.key.spec_bytes(), lv.value, lv.ts))
}

/// Selecting a key's entries distributes over concatenation.
proof fn lemma_entries_for_add<V>(a: Seq<(Seq<u8>, V, u64)>, b: Seq<(Seq<u8>, V, u64)>, k: Seq<u8>)
    ensures
        entries_for(a + b, k) == entries_for(a, k) + entries_for(b, k),
    decreases b.len(),
{
    if b.len() == 0 {
        assert(a + b =~= a);
        assert(entries_for(a, k) + b =~= entries_for(a, k));
        assert(entries_for(b, k) =~= Seq::<(Seq<u8>, V, u64)>::empty());
        assert(entries_for(a, k) + entries_for(b, k) =~= entries_for(a, k));
    } else {
        lemma_entries_for_add(a, b.drop_last(), k);
        assert((a + b).drop_last() =~= a + b.drop_last());
        assert((a + b).last() == b.last());
        if b.last().0 == k {
            assert(entries_for(a, k) + entries_for(b, k) =~= (entries_for(a, k) + entries_for(
                b.drop_last(),
                k,
            )).push(b.last()));
        }
    }
}

/// A traversal with no entry for `k` contributes nothing to it.
proof fn lemma_entries_for_none<V>(s: Seq<(Seq<u8>, V, u64)>, k: Seq<u8>)
    requires
        forall|i: int| 0 <= i < s.len() ==> (#[trigger] s[i]).0 != k,
    ensures
        entries_for(s, k) == Seq::<(Seq<u8>, V, u64)>::empty(),
    decreases s.len(),
{
    if s.len() > 0 {
        lemma_entries_for_none(s.drop_last(), k);
        assert(s[s.len() - 1] == s.last());
    }
}

/// A traversal whose every entry carries `k` is selected whole.
proof fn lemma_entries_for_all<V>(s: Seq<(Seq<u8>, V, u64)>, k: Seq<u8>)
    requires
        forall|i: int| 0 <= i < s.len() ==> (#[trigger] s[i]).0 == k,
    ensures
        entries_for(s, k) == s,
    decreases s.len(),
{
    if s.len() > 0 {
        lemma_entries_for_all(s.drop_last(), k);
        assert(s[s.len() - 1] == s.last());
        assert(entries_for(s, k) =~= s);
    }
}

/// A subtree placed under a path that `k` does not begin with holds no
/// entry for `k`.
proof fn lemma_entries_not_here<V>(n: Node<V>, base: Seq<u8>, k: Seq<u8>)
    requires
        n.deep_ok(),
        keys_placed(n, base),
        !starts_with(k, base),
    ensures
        entries_for(spec_entries(n), k) == Seq::<(Seq<u8>, V, u64)>::empty(),
{
    lemma_ordered_iteration(n, base);
    let s = spec_entries(n);
    assert forall|i: int| 0 <= i < s.len() implies (#[trigger] s[i]).0 != k by {
        assert(starts_with(s[i].0, base + n.prefix_bytes()));
        if s[i].0 == k {
            assert(k.subrange(0, base.len() as int) =~= base) by {
                assert forall|j: int| 0 <= j < base.len() implies k[j] == base[j] by {
                    assert(k.subrange(0, (base + n.prefix_bytes()).len() as int)[j] == (base
                        + n.prefix_bytes())[j]);
                }
            }
            assert(false);
        }
    }
    lemma_entries_for_none(s, k);
}

/// A traversal reads back exactly what lookups read: the entries it yields
/// for any key `k` are precisely `k`'s stored history, in stored order.
pub proof fn lemma_traversal_reads_hist<V>(n: Node<V>, base: Seq<u8>, k: Seq<u8>)
    requires
        n.deep_ok(),
        keys_placed(n, base),
    ensures
        entries_for(spec_entries(n), k) == lv_triples(lookup_hist(n, k, base.len() as int)),
    decreases k.len() - base.len(), 257int,
{
    crate::art::lemma_deep_ok_unfold(n);
    let depth = base.len() as int;
    let p = n.prefix_bytes();
    let e = Seq::<(Seq<u8>, V, u64)>::empty();
    if n.spec_is_twig() {
        let s = spec_entries(n);
        let pre = base + p;
        if depth + p.len() <= k.len() && k.subrange(depth, depth + p.len() as int) == p && k
            == pre {
            assert forall|i: int| 0 <= i < s.len() implies (#[trigger] s[i]).0 == k by {
                assert(s[i].0 == n.twig_entries()[i].key.spec_bytes());
            }
            lemma_entries_for_all(s, k);
            crate::art::lemma_twig_hist_same_key(n.twig_entries(), k);
            assert(entries_for(s, k) =~= lv_triples(lookup_hist(n, k, depth)));
        } else {
            assert forall|i: int| 0 <= i < s.len() implies (#[trigger] s[i]).0 != k by {
                assert(s[i].0 == n.twig_entries()[i].key.spec_bytes());
                assert(s[i].0 == pre);
                if k == pre {
                    assert(k.subrange(depth, depth + p.len() as int) =~= p);
                }
            }
            lemma_entries_for_none(s, k);
            if depth + p.len() <= k.len() && k.subrange(depth, depth + p.len() as int) == p {
                assert forall|i: int| 0 <= i < n.twig_entries().len() implies (
                #[trigger] n.twig_entries()[i]).key.spec_bytes() != k by {
                    if k == pre {
                        assert(false);
                    }
                }
                crate::art::lemma_twig_hist_no_match(n.twig_entries(), k);
                assert(lv_triples(lookup_hist(n, k, depth)) =~= e);
            } else {
                assert(lookup_hist(n, k, depth) =~= Seq::<LeafValue<VariableSizedKey, V>>::empty());
                assert(lv_triples(lookup_hist(n, k, depth)) =~= e);
            }
        }
    } else {
        lemma_traversal_below(n, base, k, 0);
        assert(spec_entries(n) == entries_below(n, 0));
        if depth + p.len() <= k.len() && k.subrange(depth, depth + p.len() as int) == p && depth
            + p.len() < k.len() && n.kids().dom().contains(k[depth + p.len() as int]) && k[depth
            + p.len() as int] as int >= 0 {
        } else {
            if depth + p.len() > k.len() || k.subrange(depth, depth + p.len() as int) != p || depth
                + p.len() == k.len() {
                assert(lookup_hist(n, k, depth) =~= Seq::<
                    LeafValue<VariableSizedKey, V>,
                >::empty());
            } else {
                assert(!n.kids().dom().contains(k[depth + p.len() as int]));
                assert(lookup_hist(n, k, depth) =~= Seq::<
                    LeafValue<VariableSizedKey, V>,
                >::empty());
            }
            assert(lv_triples(lookup_hist(n, k, depth)) =~= e);
        }
    }
}

/// The traversal of the children with routing byte at least `b` reads back,
/// for any key `k`, exactly what the lookup that routes through such a child
/// reads.
proof fn lemma_traversal_below<V>(n: Node<V>, base: Seq<u8>, k: Seq<u8>, b: int)
    requires
        n.deep_ok(),
        !n.spec_is_twig(),
        kids_placed(n, base, 0),
        0 <= b <= 256,
    ensures
        entries_for(entries_below(n, b), k) == ({
            let depth = base.len() as int;
            let p = n.prefix_bytes();
            if depth + p.len() < k.len() && k.subrange(depth, depth + p.len() as int) == p
                && k[depth + p.len() as int] as int >= b && n.kids().dom().contains(
                k[depth + p.len() as int],
            ) {
                lv_triples(
                    lookup_hist(n.kids()[k[depth + p.len() as int]], k, depth + p.len() + 1),
                )
            } else {
                Seq::<(Seq<u8>, V, u64)>::empty()
            }
        }),
    decreases k.len() - base.len(), 256int - b,
{
    crate::art::lemma_deep_ok_unfold(n);
    let depth = base.len() as int;
    let p = n.prefix_bytes();
    let e = Seq::<(Seq<u8>, V, u64)>::empty();
    if b < 256 {
        lemma_traversal_below(n, base, k, b + 1);
        let tail = entries_below(n, b + 1);
        if n.kids().dom().contains(b as u8) {
            let kid = n.kids()[b as u8];
            let kbase = base + n.prefix_bytes() + seq![b as u8];
            lemma_kids_placed_at(n, base, 0, b as u8);
            let head = spec_entries(kid);
            assert(entries_below(n, b) == head + tail);
            lemma_entries_for_add(head, tail, k);
            let routed = depth + p.len() < k.len() && k.subrange(depth, depth + p.len() as int)
                == p && k[depth + p.len() as int] == b as u8;
            if routed {
                assert(kbase.len() == depth + p.len() + 1);
                assert(kbase.len() <= k.len());
                lemma_traversal_reads_hist(kid, kbase, k);
                assert(entries_for(head, k) == lv_triples(lookup_hist(n.kids()[k[depth
                    + p.len() as int]], k, depth + p.len() + 1)));
                assert(entries_for(tail, k) =~= e);
                assert(entries_for(entries_below(n, b), k) =~= entries_for(head, k));
            } else {
                // this child is not on `k`'s path
                assert(!starts_with(k, kbase)) by {
                    if starts_with(k, kbase) {
                        assert(k.len() >= kbase.len());
                        assert(k.subrange(depth, depth + p.len() as int) =~= p) by {
                            assert forall|j: int| 0 <= j < p.len() implies k[depth + j] == p[j] by {
                                assert(k.subrange(0, kbase.len() as int)[depth + j] == kbase[depth
                                    + j]);
                            }
                        }
                        assert(k[depth + p.len() as int] == kbase[depth + p.len() as int]) by {
                            assert(k.subrange(0, kbase.len() as int)[depth + p.len() as int]
                                == kbase[depth + p.len() as int]);
                        }
                        assert(depth + p.len() < k.len());
                        assert(false);
                    }
                }
                lemma_entries_not_here(kid, kbase, k);
                assert(entries_for(entries_below(n, b), k) =~= entries_for(tail, k));
            }
        } else {
            assert(entries_below(n, b) =~= tail);
        }
    } else {
        assert(entries_below(n, b) =~= e);
    }
}

/// Ordered iteration of a tree: a traversal of any root the tree operations
/// built yields its keys in ascending lexicographic order — strictly so
/// between distinct keys, while the entries of one key's history stand
/// together. `Tree::insert` and `Tree::remove` keep `tree_ok`, which carries
/// the placement discipline this rests on.
pub proof fn lemma_tree_ordered_iteration<V>(t: Tree<V>, root: Node<V>)
    requires
        t.tree_ok(),
        t.root matches Some(rt) && *rt == root,
    ensures
        forall|i: int, j: int|
            0 <= i < j < spec_entries(root).len() ==> lex_lt(
                (#[trigger] spec_entries(root)[i]).0,
                (#[trigger] spec_entries(root)[j]).0,
            ) || spec_entries(root)[i].0 == spec_entries(root)[j].0,
{
    assert(t.root matches Some(r) && r.deep_ok() && keys_placed(*r, Seq::<u8>::empty()));
    lemma_ordered_iteration(root, Seq::<u8>::empty());
}

/// The traversal of the children with routing byte at least `b`, in a
/// well-kept, placed subtree: every key extends the accumulated path by a
/// routing byte at least `b`, and the keys ascend.
proof fn lemma_below_ordered<V>(n: Node<V>, base: Seq<u8>, b: int)
    requires
        n.deep_ok(),
        !n.spec_is_twig(),
        kids_placed(n, base, 0),
        0 <= b <= 256,
    ensures
        forall|i: int|
            0 <= i < entries_below(n, b).len() ==> starts_with(
                (#[trigger] entries_below(n, b)[i]).0,
                base + n.prefix_bytes(),
            ) && (entries_below(n, b)[i]).0.len() > (base + n.prefix_bytes()).len() && (
            entries_below(n, b)[i]).0[(base + n.prefix_bytes()).len() as int] as int >= b,
        forall|i: int, j: int|
            0 <= i < j < entries_below(n, b).len() ==> lex_lt(
                (#[trigger] entries_below(n, b)[i]).0,
                (#[trigger] entries_below(n, b)[j]).0,
            ) || entries_below(n, b)[i].0 == entries_below(n, b)[j].0,
    decreases n, 256int - b,
{
    crate::art::lemma_deep_ok_unfold(n);
    let pre = base + n.prefix_bytes();
    if b < 256 {
        lemma_below_ordered(n, base, b + 1);
        let tail = entries_below(n, b + 1);
        if n.kids().dom().contains(b as u8) {
            let kid = n.kids()[b as u8];
            let kbase = base + n.prefix_bytes() + seq![b as u8];
            lemma_kids_placed_at(n, base, 0, b as u8);
            lemma_kid_decreases(n, b as u8);
            lemma_ordered_iteration(kid, kbase);
            let head = spec_entries(kid);
            let whole = entries_below(n, b);
            assert(whole == head + tail);
            let kpre = kbase + kid.prefix_bytes();
            assert forall|i: int| 0 <= i < whole.len() implies starts_with(
                (#[trigger] whole[i]).0,
                pre,
            ) && (whole[i]).0.len() > pre.len() && (whole[i]).0[pre.len() as int] as int >= b by {
                if i < head.len() {
                    assert(whole[i] == head[i]);
                    assert(starts_with(head[i].0, kpre));
                    assert(kpre.subrange(0, pre.len() as int) =~= pre);
                    assert(head[i].0.subrange(0, pre.len() as int) =~= pre) by {
                        assert forall|j2: int| 0 <= j2 < pre.len() implies (head[i].0)[j2] == pre.index(
                            j2,
                        ) by {
                            assert(head[i].0.subrange(0, kpre.len() as int)[j2] == kpre[j2]);
                        }
                    }
                    assert(head[i].0[pre.len() as int] == kpre[pre.len() as int]) by {
                        let pl = pre.len() as int;
                        assert(head[i].0.subrange(0, kpre.len() as int)[pl] == kpre[pl]);
                    }
                    assert(kpre[pre.len() as int] == b as u8);
                } else {
                    assert(whole[i] == tail[i - head.len()]);
                }
            }
            assert forall|i: int, j: int| 0 <= i < j < whole.len() implies lex_lt(
                (#[trigger] whole[i]).0,
                (#[trigger] whole[j]).0,
            ) || whole[i].0 == whole[j].0 by {
                if j < head.len() {
                    assert(whole[i] == head[i] && whole[j] == head[j]);
                } else if i >= head.len() {
                    assert(whole[i] == tail[i - head.len()] && whole[j] == tail[j - head.len()]);
                } else {
                    // a key under this byte sorts before one under a later byte
                    assert(whole[i] == head[i] && whole[j] == tail[j - head.len()]);
                    let pl = pre.len() as int;
                    assert(starts_with(head[i].0, kpre));
                    assert(head[i].0.subrange(0, kpre.len() as int)[pl] == kpre[pl]);
                    assert(kpre[pl] == b as u8);
                    assert(whole[i].0[pl] == b as u8);
                    assert(tail[j - head.len()].0[pl] as int >= b + 1);
                    assert(whole[j].0[pl] as int >= b + 1);
                    assert forall|j2: int| 0 <= j2 < pre.len() implies (whole[i].0)[j2] == (
                    whole[j].0)[j2] by {
                        assert(whole[i].0.subrange(0, pre.len() as int)[j2] == pre[j2]);
                        assert(whole[j].0.subrange(0, pre.len() as int)[j2] == pre[j2]);
                    }
                    lemma_lex_at(whole[i].0, whole[j].0, pre.len() as int);
                }
            }
        } else {
            assert(entries_below(n, b) =~= tail);
        }
    }
}

/// Round-trip: recording `(key, value, ts)` under a key that held nothing,
/// and then reading that key with no timestamp bound, yields exactly
/// `(value, ts)`. `Tree::insert` states the first premise of every mutation
/// and leaves every other key's history unchanged, so for a sequence of
/// distinct fresh keys this applies to each one in turn.
pub proof fn lemma_round_trip<V: Copy>(
    h0: Seq<LeafValue<VariableSizedKey, V>>,
    h1: Seq<LeafValue<VariableSizedKey, V>>,
    kb: Seq<u8>,
    value: V,
    ts: u64,
    r: Option<(V, u64)>,
)
    requires
        h0 == Seq::<LeafValue<VariableSizedKey, V>>::empty(),
        is_hist_insert(h0, h1, kb, value, ts),
        is_hist_sel(h1, u64::MAX, r),
    ensures
        r == Some((value, ts)),
{
    assert(!(exists|i: int| 0 <= i < h0.len() && (#[trigger] h0[i]).ts == ts));
    let p = choose|p: int|
        {
            &&& 0 <= p <= h0.len()
            &&& forall|j: int| 0 <= j < p ==> (#[trigger] h0[j]).ts < ts
            &&& (p < h0.len() ==> h0[p].ts >= ts)
            &&& #[trigger] h1[p].key.spec_bytes() == kb
            &&& h1[p].value == value
            &&& h1[p].ts == ts
            &&& forall|j: int| 0 <= j < p ==> h1[j] == h0[j]
            &&& forall|j: int| p <= j < h0.len() ==> h1[j + 1] == h0[j]
        };
    assert(p == 0);
    assert(h1.len() == 1);
    match r {
        None => {
            assert(h1[0].ts <= u64::MAX);
            assert(false);
        }
        Some(pr) => {
            let i = choose|i: int|
                0 <= i < h1.len() && (#[trigger] h1[i]).value == pr.0 && h1[i].ts == pr.1;
            assert(i == 0);
        }
    }
}

/// Insert-then-delete identity: recording a key the tree did not hold and
/// then taking that key out leaves every key's history exactly as it was, so
/// a traversal yields exactly the pre-existing entries. The premises are the
/// clauses `Tree::insert` (from `t0` to `t1`) and `Tree::remove` (from `t1`
/// to `t2`) establish.
pub proof fn lemma_insert_then_delete<V: Copy>(t0: Tree<V>, t1: Tree<V>, t2: Tree<V>, kb: Seq<u8>)
    requires
        t0.hist(kb) == Seq::<LeafValue<VariableSizedKey, V>>::empty(),
        forall|k: Seq<u8>| k != kb ==> t1.hist(k) == t0.hist(k),
        t2.hist(kb) == Seq::<LeafValue<VariableSizedKey, V>>::empty(),
        forall|k: Seq<u8>| k != kb ==> t2.hist(k) == t1.hist(k),
    ensures
        forall|k: Seq<u8>| #[trigger] t2.hist(k) == t0.hist(k),
{
    assert forall|k: Seq<u8>| #[trigger] t2.hist(k) == t0.hist(k) by {
        if k != kb {
            assert(t2.hist(k) == t1.hist(k));
            assert(t1.hist(k) == t0.hist(k));
        }
    }
}

/// Persistence: a mutation never changes what a previously taken root
/// reads, and in the new tree every key other than the mutated one reads
/// exactly as before. The first half is by construction: mutations build a
/// fresh root and the old `Tree` value is immutable; the second half is the
/// frame clause that `Tree::insert` establishes, restated here for one key.
pub proof fn lemma_persistence<V: Copy>(before: Tree<V>, after: Tree<V>, kb: Seq<u8>, k: Seq<u8>)
    requires
        forall|k2: Seq<u8>| k2 != kb ==> after.hist(k2) == before.hist(k2),
        k != kb,
    ensures
        after.hist(k) == before.hist(k),
        forall|bound: u64, r: Option<(V, u64)>|
            is_hist_sel(before.hist(k), bound, r) <==> #[trigger] is_hist_sel(
                after.hist(k),
                bound,
                r,
            ),
{
}

/// Timestamp monotone ancestry: in a well-kept tree, every node's `ts`
/// aggregates its children's — an interior node's `ts` is the maximum over
/// its children, a twig's the maximum over its entries (0 with none).
pub proof fn lemma_timestamp_ancestry<V>(t: Tree<V>, root: Node<V>, path: Seq<u8>, nd: Node<V>)
    requires
        t.tree_ok(),
        t.root matches Some(rt) && *rt == root,
        node_at(root, path) == Some(nd),
    ensures
        nd.node_ts_ok(),
{
    assert(t.root matches Some(r) && r.deep_ok());
    assert(node_at(root, path) is Some);
}

/// Tier occupancy: every reachable node holds a number of children within
/// its tier's band — a flat node of four holds 2 to 4, one of sixteen 5 to
/// 16, the indirect node 17 to 48, the direct node 49 to 256 — so a tier is
/// only ever used when the next smaller one could not hold its children.
pub proof fn lemma_tier_occupancy<V>(t: Tree<V>, root: Node<V>, path: Seq<u8>, nd: Node<V>)
    requires
        t.tree_ok(),
        t.root matches Some(rt) && *rt == root,
        node_at(root, path) == Some(nd),
    ensures
        nd.tier() == 1 ==> 2 <= nd.kid_count() <= 4,
        nd.tier() == 2 ==> 5 <= nd.kid_count() <= 16,
        nd.tier() == 3 ==> 17 <= nd.kid_count() <= 48,
        nd.tier() == 4 ==> 49 <= nd.kid_count() <= 256,
{
    assert(t.root matches Some(r) && r.deep_ok());
    assert(node_at(root, path) is Some);
    assert(nd.node_ok());
    match nd.node_type {
        crate::art::NodeType::Twig(_) => {}
        crate::art::NodeType::Node4(ref n) => {
            assert(n.num_children as int <= 4);
        }
        crate::art::NodeType::Node16(ref n) => {
            assert(n.num_children as int <= 16);
        }
        crate::art::NodeType::Node48(ref n) => {
            crate::node::lemma_count_some_bounds(n.slots(), 48);
            assert(n.num_children as int == crate::node::count_some(n.slots(), 48));
        }
        crate::art::NodeType::Node256(ref n) => {
            crate::node::lemma_count_some_bounds(n.slots(), 256);
        }
    }
}

/// Time-travel, newest side: after recording `(value, ts)` under a key, a
/// bounded read with `ts <= bound` that finds no younger surviving entry
/// returns exactly `(value, ts)`.
pub proof fn lemma_time_travel_hit<V: Copy>(
    h0: Seq<LeafValue<VariableSizedKey, V>>,
    h1: Seq<LeafValue<VariableSizedKey, V>>,
    kb: Seq<u8>,
    value: V,
    ts: u64,
    bound: u64,
    r: Option<(V, u64)>,
)
    requires
        is_hist_insert(h0, h1, kb, value, ts),
        forall|i: int| 0 <= i < h0.len() ==> (#[trigger] h0[i]).ts != ts,
        forall|i: int| 0 <= i < h0.len() && (#[trigger] h0[i]).ts <= bound ==> h0[i].ts < ts,
        ts <= bound,
        is_hist_sel(h1, bound, r),
    ensures
        r == Some((value, ts)),
{
    assert(!(exists|i: int| 0 <= i < h0.len() && (#[trigger] h0[i]).ts == ts));
    let p = choose|p: int|
        {
            &&& 0 <= p <= h0.len()
            &&& forall|j: int| 0 <= j < p ==> (#[trigger] h0[j]).ts < ts
            &&& (p < h0.len() ==> h0[p].ts >= ts)
            &&& #[trigger] h1[p].key.spec_bytes() == kb
            &&& h1[p].value == value
            &&& h1[p].ts == ts
            &&& forall|j: int| 0 <= j < p ==> h1[j] == h0[j]
            &&& forall|j: int| p <= j < h0.len() ==> h1[j + 1] == h0[j]
        };
    match r {
        None => {
            assert(h1[p].ts <= bound);
            assert(false);
        }
        Some(pr) => {
            let i = choose|i: int|
                0 <= i < h1.len() && (#[trigger] h1[i]).value == pr.0 && h1[i].ts == pr.1;
            // the fresh entry is the newest within the bound, so it wins
            assert(h1[p].ts <= bound);
            assert(pr.1 >= ts);
            assert forall|j: int| 0 <= j < h1.len() && (#[trigger] h1[j]).ts <= bound implies (
            h1[j]).ts <= ts by {
                if j < p {
                    assert(h1[j] == h0[j]);
                } else if j > p {
                    assert(h1[j] == h0[j - 1]);
                }
            }
            assert(pr.1 == ts);
            if i != p {
                if i < p {
                    assert(h1[i] == h0[i]);
                } else {
                    assert(h1[i] == h0[i - 1]);
                }
                assert(false);
            }
        }
    }
}

/// Time-travel, history side: a read bounded strictly below a newly
/// recorded timestamp reads as if the record had not happened, so recording
/// a newer value never disturbs point-in-time reads of the past.
pub proof fn lemma_time_travel_past<V: Copy>(
    h0: Seq<LeafValue<VariableSizedKey, V>>,
    h1: Seq<LeafValue<VariableSizedKey, V>>,
    kb: Seq<u8>,
    value: V,
    ts: u64,
    bound: u64,
    r: Option<(V, u64)>,
)
    requires
        is_hist_insert(h0, h1, kb, value, ts),
        bound < ts,
        is_hist_sel(h1, bound, r),
    ensures
        is_hist_sel(h0, bound, r),
{
    if exists|i: int| 0 <= i < h0.len() && (#[trigger] h0[i]).ts == ts {
        let p = choose|p: int|
            {
                &&& 0 <= p < h0.len()
                &&& (#[trigger] h0[p]).ts == ts
                &&& forall|j: int| 0 <= j < p ==> h0[j].ts != ts
                &&& h1[p].key.spec_bytes() == kb
                &&& h1[p].value == value
                &&& h1[p].ts == ts
                &&& forall|j: int| 0 <= j < h0.len() && j != p ==> h1[j] == h0[j]
            };
        match r {
            None => {
                assert forall|i: int| 0 <= i < h0.len() implies (#[trigger] h0[i]).ts > bound by {
                    if i != p {
                        assert(h0[i] == h1[i]);
                        assert(h1[i].ts > bound);
                    }
                }
            }
            Some(pr) => {
                let i = choose|i: int|
                    0 <= i < h1.len() && (#[trigger] h1[i]).value == pr.0 && h1[i].ts == pr.1;
                assert(i != p);
                assert(h1[i] == h0[i]);
                assert forall|j: int| 0 <= j < h0.len() && (#[trigger] h0[j]).ts <= bound implies
                    h0[j].ts <= pr.1 by {
                    assert(j != p);
                    assert(h0[j] == h1[j]);
                }
            }
        }
    } else {
        let p = choose|p: int|
            {
                &&& 0 <= p <= h0.len()
                &&& forall|j: int| 0 <= j < p ==> (#[trigger] h0[j]).ts < ts
                &&& (p < h0.len() ==> h0[p].ts >= ts)
                &&& #[trigger] h1[p].key.spec_bytes() == kb
                &&& h1[p].value == value
                &&& h1[p].ts == ts
                &&& forall|j: int| 0 <= j < p ==> h1[j] == h0[j]
                &&& forall|j: int| p <= j < h0.len() ==> h1[j + 1] == h0[j]
            };
        match r {
            None => {
                assert forall|i: int| 0 <= i < h0.len() implies (#[trigger] h0[i]).ts > bound by {
                    if i < p {
                        assert(h0[i] == h1[i]);
                        assert(h1[i].ts > bound);
                    } else {
                        assert(h0[i] == h1[i + 1]);
                        assert(h1[i + 1].ts > bound);
                    }
                }
            }
            Some(pr) => {
                let i = choose|i: int|
                    0 <= i < h1.len() && (#[trigger] h1[i]).value == pr.0 && h1[i].ts == pr.1;
                assert(pr.1 <= bound < ts);
                assert(i != p);
                if i < p {
                    assert(h1[i] == h0[i]);
                    assert(exists|a: int|
                        0 <= a < h0.len() && (#[trigger] h0[a]).value == pr.0 && h0[a].ts == pr.1);
                } else {
                    assert(h1[i] == h0[i - 1]);
                    assert(exists|a: int|
                        0 <= a < h0.len() && (#[trigger] h0[a]).value == pr.0 && h0[a].ts == pr.1);
                }
                assert forall|j: int| 0 <= j < h0.len() && (#[trigger] h0[j]).ts <= bound implies
                    h0[j].ts <= pr.1 by {
                    if j < p {
                        assert(h0[j] == h1[j]);
                    } else {
                        assert(h0[j] == h1[j + 1]);
                    }
                }
            }
        }
    }
}

} // verus!
