use vart::{
    ArrayPrefix, Iter, IterState, IterationPointer, NodeType, Range, RangeEnd, Snapshot, Tree,
    TrieError, TwigNode, VariableSizedKey, VecArray,
};

fn key(s: &str) -> VariableSizedKey {
    VariableSizedKey::from_slice(s.as_bytes())
}

#[test]
fn key_algebra() {
    let k = key("abcdef");
    assert_eq!(k.sub_key(2).data, b"cdef".to_vec());
    assert_eq!(k.sub_range(1, 4).data, b"bcd".to_vec());
    assert_eq!(k.common_prefix_len(2, &key("cdxy")), 2);
    assert_eq!(k.common_prefix_len(0, &key("abq")), 2);
    assert_eq!(k.common_prefix_len(0, &key("abcdef")), 6);
}

#[test]
fn empty_tree_reads_nothing() {
    let tree: Tree<u64> = Tree::new();
    assert_eq!(tree.get(&key("missing"), 0), None);
}

#[test]
fn insert_then_get_latest() {
    let mut tree: Tree<u64> = Tree::new();
    assert_eq!(tree.insert(&key("alpha"), 7, 42), Ok(None));
    assert_eq!(tree.get(&key("alpha"), 0), Some((7, 42)));
    assert_eq!(tree.get(&key("beta"), 0), None);
}

#[test]
fn versions_coexist_and_time_travel() {
    // two timestamped values under one key: point-in-time reads see history
    let mut tree: Tree<u64> = Tree::new();
    assert_eq!(tree.insert(&key("foo"), 1, 10), Ok(None));
    assert_eq!(tree.insert(&key("foo"), 2, 20), Ok(Some((1, 10))));
    assert_eq!(tree.get(&key("foo"), 0), Some((2, 20)));
    assert_eq!(tree.get(&key("foo"), 15), Some((1, 10)));
    assert_eq!(tree.get(&key("foo"), 5), None);
}

#[test]
fn same_key_same_ts_replaces() {
    let mut tree: Tree<u64> = Tree::new();
    tree.insert(&key("k"), 1, 7).unwrap();
    tree.insert(&key("k"), 9, 7).unwrap();
    assert_eq!(tree.get(&key("k"), 0), Some((9, 7)));
    assert_eq!(tree.get(&key("k"), 7), Some((9, 7)));
}

#[test]
fn sibling_keys_split_prefix() {
    // "abcdef" and "abcxyz" share "abc"; the split node routes on 'd' and 'x'
    let mut tree: Tree<u64> = Tree::new();
    tree.insert(&key("abcdef"), 1, 1).unwrap();
    tree.insert(&key("abcxyz"), 2, 2).unwrap();
    assert_eq!(tree.get(&key("abcdef"), 0), Some((1, 1)));
    assert_eq!(tree.get(&key("abcxyz"), 0), Some((2, 2)));
    assert_eq!(tree.get(&key("abc"), 0), None);

    let root = tree.root.as_ref().unwrap();
    match &root.node_type {
        NodeType::Node4(n) => {
            assert_eq!(n.prefix.data, b"abc".to_vec());
            assert_eq!(n.num_children, 2);
        }
        _ => panic!("expected a flat node of four at the split"),
    }
    let kids = root.iter();
    assert_eq!(kids.len(), 2);
    assert_eq!(kids[0].0, b'd');
    assert_eq!(kids[1].0, b'x');
    match &kids[0].1.node_type {
        NodeType::Twig(t) => assert_eq!(t.prefix.data, b"ef".to_vec()),
        _ => panic!("expected a twig under 'd'"),
    }
    match &kids[1].1.node_type {
        NodeType::Twig(t) => assert_eq!(t.prefix.data, b"yz".to_vec()),
        _ => panic!("expected a twig under 'x'"),
    }
}

#[test]
fn three_siblings_one_interior() {
    // "aab", "aac", "aad": one interior node with prefix "aa", twigs at b, c, d
    let mut tree: Tree<u64> = Tree::new();
    tree.insert(&key("aab"), 1, 1).unwrap();
    tree.insert(&key("aac"), 2, 2).unwrap();
    tree.insert(&key("aad"), 3, 3).unwrap();

    let root = tree.root.as_ref().unwrap();
    match &root.node_type {
        NodeType::Node4(n) => {
            assert_eq!(n.prefix.data, b"aa".to_vec());
            assert_eq!(n.num_children, 3);
        }
        _ => panic!("expected a flat node of four at the root"),
    }
    let kids = root.iter();
    let bytes: Vec<u8> = kids.iter().map(|p| p.0).collect();
    assert_eq!(bytes, vec![b'b', b'c', b'd']);
}

#[test]
fn nested_keys_are_refused() {
    // a key that extends a stored key (or is extended by one) is refused
    let mut tree: Tree<u64> = Tree::new();
    tree.insert(&key("ab"), 1, 1).unwrap();
    assert!(matches!(
        tree.insert(&key("abc"), 2, 2),
        Err(TrieError::InvalidPrefix)
    ));
    // the tree is unchanged
    assert_eq!(tree.get(&key("ab"), 0), Some((1, 1)));
    assert_eq!(tree.get(&key("abc"), 0), None);
}

#[test]
fn grow_through_tiers() {
    // 20 distinct routed bytes under a shared prefix force Node4 -> Node16 -> Node48
    let mut tree: Tree<u64> = Tree::new();
    for i in 0..20u8 {
        let k = VariableSizedKey::from_slice(&[b'p', b'q', i, b'z']);
        tree.insert(&k, i as u64, i as u64 + 1).unwrap();
    }
    for i in 0..20u8 {
        let k = VariableSizedKey::from_slice(&[b'p', b'q', i, b'z']);
        assert_eq!(tree.get(&k, 0), Some((i as u64, i as u64 + 1)));
    }
    let root = tree.root.as_ref().unwrap();
    match &root.node_type {
        NodeType::Node48(n) => assert_eq!(n.num_children, 20),
        _ => panic!("expected the indirect 48-slot tier after 20 children"),
    }

    // 60 distinct bytes reach the direct 256-slot tier
    let mut big: Tree<u64> = Tree::new();
    for i in 0..60u8 {
        let k = VariableSizedKey::from_slice(&[b'r', i]);
        big.insert(&k, i as u64, 1).unwrap();
    }
    match &big.root.as_ref().unwrap().node_type {
        NodeType::Node256(n) => assert_eq!(n.num_children, 60),
        _ => panic!("expected the direct 256-slot tier after 60 children"),
    }
}

#[test]
fn iteration_is_sorted_and_complete() {
    // integer keys inserted out of order come back in ascending byte order
    let mut tree: Tree<u64> = Tree::new();
    let mut expected: Vec<u64> = Vec::new();
    for i in [5u64, 1, 200, 77, 3, 255, 128, 0, 42] {
        tree.insert(&VariableSizedKey::from_u64(i), i, i + 1).unwrap();
        expected.push(i);
    }
    expected.sort();

    let mut it = IterState::new(tree.root.as_ref().unwrap());
    let mut seen: Vec<(Vec<u8>, u64, u64)> = Vec::new();
    while let Some(e) = it.next() {
        seen.push(e);
    }
    assert_eq!(seen.len(), expected.len());
    for (a, want) in seen.iter().zip(expected.iter()) {
        assert_eq!(a.0, VariableSizedKey::from_u64(*want).data);
        assert_eq!(a.1, *want);
        assert_eq!(a.2, *want + 1);
    }
    for w in seen.windows(2) {
        assert!(w[0].0 < w[1].0);
    }
}

#[test]
fn big_endian_u64_keys() {
    let k = VariableSizedKey::from_u64(0x0102030405060708);
    assert_eq!(k.data, vec![1, 2, 3, 4, 5, 6, 7, 8]);
    let z = VariableSizedKey::from_u64(128);
    assert_eq!(z.data, vec![0, 0, 0, 0, 0, 0, 0, 128]);
}

#[test]
fn two_hundred_fifty_six_integer_keys() {
    // all one-byte tails of the eight-byte big-endian encoding, in order
    let mut tree: Tree<u64> = Tree::new();
    for i in 0..=255u64 {
        tree.insert(&VariableSizedKey::from_u64(i), i, 1).unwrap();
    }
    assert_eq!(tree.get(&VariableSizedKey::from_u64(128), 0), Some((128, 1)));

    let mut it = IterState::new(tree.root.as_ref().unwrap());
    let mut count: u64 = 0;
    while let Some(e) = it.next() {
        assert_eq!(e.0, VariableSizedKey::from_u64(count).data);
        assert_eq!(e.1, count);
        count += 1;
    }
    assert_eq!(count, 256);
}

#[test]
fn persistence_of_old_roots() {
    // a pinned root reads the pre-mutation state; the new root sees the insert
    let mut tree: Tree<u64> = Tree::new();
    tree.insert(&key("one"), 1, 1).unwrap();
    tree.insert(&key("two"), 2, 2).unwrap();

    let snap: Snapshot<u64> = Snapshot::new(tree.root.clone());
    tree.insert(&key("three"), 3, 3).unwrap();

    let mut old_it = Iter::new(snap.root.as_ref());
    let mut old_keys: Vec<Vec<u8>> = Vec::new();
    while let Some(e) = old_it.next() {
        old_keys.push(e.0);
    }
    assert_eq!(old_keys, vec![b"one".to_vec(), b"two".to_vec()]);

    let mut new_it = Iter::new(tree.root.as_ref());
    let mut new_keys: Vec<Vec<u8>> = Vec::new();
    while let Some(e) = new_it.next() {
        new_keys.push(e.0);
    }
    assert_eq!(
        new_keys,
        vec![b"one".to_vec(), b"three".to_vec(), b"two".to_vec()]
    );
}

#[test]
fn snapshot_reader_lifecycle() {
    let mut tree: Tree<u64> = Tree::new();
    tree.insert(&key("a"), 1, 1).unwrap();
    let mut snap: Snapshot<u64> = Snapshot::new(tree.root.clone());
    let id = snap.new_reader();
    assert_eq!(id, 0);

    let pointer = IterationPointer::new(snap.root.clone().unwrap(), id);
    let mut it = pointer.iter();
    assert!(it.next().is_some());
    assert!(it.next().is_none());

    assert_eq!(pointer.close(&mut snap), Ok(()));
    assert!(matches!(
        pointer.close(&mut snap),
        Err(TrieError::SnapshotNotFound)
    ));
}

#[test]
fn range_bounds() {
    let mut tree: Tree<u64> = Tree::new();
    for (k, v) in [("a", 1u64), ("b", 2), ("c", 3), ("d", 4)] {
        tree.insert(&key(k), v, v).unwrap();
    }

    // inclusive: yields up to and including the bound, then stops
    let it = Iter::new(tree.root.as_ref());
    let mut r = Range::for_iter(it, RangeEnd::Included(key("c")));
    let mut got: Vec<u64> = Vec::new();
    while let Some(e) = r.next() {
        got.push(e.1);
    }
    assert_eq!(got, vec![1, 2, 3]);

    // exclusive: stops without yielding the bound
    let it = Iter::new(tree.root.as_ref());
    let mut r = Range::for_iter(it, RangeEnd::Excluded(key("c")));
    let mut got: Vec<u64> = Vec::new();
    while let Some(e) = r.next() {
        got.push(e.1);
    }
    assert_eq!(got, vec![1, 2]);

    // unbounded: everything
    let it = Iter::new(tree.root.as_ref());
    let mut r = Range::for_iter(it, RangeEnd::Unbounded);
    let mut got: Vec<u64> = Vec::new();
    while let Some(e) = r.next() {
        got.push(e.1);
    }
    assert_eq!(got, vec![1, 2, 3, 4]);

    // the empty range yields nothing
    let mut r: Range<u64> = Range::empty();
    assert!(r.next().is_none());
}

#[test]
fn remove_returns_latest_and_clears_history() {
    let mut tree: Tree<u64> = Tree::new();
    tree.insert(&key("gone"), 1, 10).unwrap();
    tree.insert(&key("gone"), 2, 20).unwrap();
    tree.insert(&key("kept"), 3, 30).unwrap();

    assert_eq!(tree.remove(&key("gone")), Some((2, 20)));
    assert_eq!(tree.get(&key("gone"), 0), None);
    assert_eq!(tree.get(&key("gone"), 15), None);
    assert_eq!(tree.get(&key("kept"), 0), Some((3, 30)));
    assert_eq!(tree.remove(&key("missing")), None);
}

#[test]
fn insert_then_delete_is_identity() {
    let mut tree: Tree<u64> = Tree::new();
    tree.insert(&key("a"), 1, 1).unwrap();
    tree.insert(&key("b"), 2, 2).unwrap();

    tree.insert(&key("c"), 3, 3).unwrap();
    assert_eq!(tree.remove(&key("c")), Some((3, 3)));

    let mut it = Iter::new(tree.root.as_ref());
    let mut keys: Vec<Vec<u8>> = Vec::new();
    while let Some(e) = it.next() {
        keys.push(e.0);
    }
    assert_eq!(keys, vec![b"a".to_vec(), b"b".to_vec()]);
}

#[test]
fn grow_then_shrink_then_collapse() {
    // 48 siblings reach the indirect tier; removing 46 walks back down the
    // tiers, and the last removal but one collapses into a single twig
    let mut tree: Tree<u64> = Tree::new();
    for i in 0..48u8 {
        let k = VariableSizedKey::from_slice(&[b's', i]);
        tree.insert(&k, i as u64, 1).unwrap();
    }
    match &tree.root.as_ref().unwrap().node_type {
        NodeType::Node48(n) => assert_eq!(n.num_children, 48),
        _ => panic!("expected the indirect 48-slot tier"),
    }

    for i in 0..46u8 {
        let k = VariableSizedKey::from_slice(&[b's', i]);
        assert_eq!(tree.remove(&k), Some((i as u64, 1)));
    }
    match &tree.root.as_ref().unwrap().node_type {
        NodeType::Node4(n) => assert_eq!(n.num_children, 2),
        _ => panic!("expected a flat node of four after the removals"),
    }

    let k46 = VariableSizedKey::from_slice(&[b's', 46]);
    tree.remove(&k46).unwrap();
    match &tree.root.as_ref().unwrap().node_type {
        NodeType::Twig(t) => assert_eq!(t.prefix.data, vec![b's', 47]),
        _ => panic!("expected the tree to collapse into one twig"),
    }

    let k47 = VariableSizedKey::from_slice(&[b's', 47]);
    assert_eq!(tree.get(&k47, 0), Some((47, 1)));
    tree.remove(&k47).unwrap();
    assert!(tree.root.is_none());
}

#[test]
fn insert_unchecked_behaves_like_insert() {
    let mut tree: Tree<u64> = Tree::new();
    assert_eq!(tree.insert_unchecked(&key("x"), 1, 5), Ok(None));
    assert_eq!(tree.insert_unchecked(&key("x"), 2, 9), Ok(Some((1, 5))));
    assert_eq!(tree.get(&key("x"), 0), Some((2, 9)));
    assert_eq!(tree.get(&key("x"), 6), Some((1, 5)));
}

#[test]
fn vec_array_reuses_holes() {
    let mut v: VecArray<i32, 4> = VecArray::new();
    v.push(10);
    v.push(20);
    v.push(30);
    assert_eq!(v.erase(1), Some(20));
    // push fills the hole left by erase, not the end
    assert_eq!(v.push(25), 1);
    assert_eq!(v.get(1), Some(&25));
    assert_eq!(v.last_used_pos(), Some(2));
}

#[test]
fn twig_latest_and_bounded_reads() {
    let prefix: ArrayPrefix<8> = ArrayPrefix::create_key(b"k");
    let k: ArrayPrefix<8> = ArrayPrefix::create_key(b"k");
    let twig: TwigNode<ArrayPrefix<8>, u64> = TwigNode::new(prefix);
    let twig = twig.insert(&k, 1, 10);
    let twig = twig.insert(&k, 2, 20);
    let mut twig2 = twig.clone();
    twig2.insert_mut(&k, 3, 30);

    assert_eq!(twig.get_latest_value(&k), Some(2));
    assert_eq!(twig2.get_latest_value(&k), Some(3));
    assert_eq!(twig.ts(), 20);
    assert_eq!(twig2.ts(), 30);

    let leaf = twig2.get_value_by_ts(&k, 25).unwrap();
    assert_eq!((leaf.value, leaf.ts), (2, 20));
    let latest = twig2.get_latest_leaf(&k).unwrap();
    assert_eq!((latest.value, latest.ts), (3, 30));
    assert!(twig2.get_value_by_ts(&k, 5).is_none());
    assert_eq!(twig2.iter().len(), 3);
}
