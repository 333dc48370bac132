use std::sync::Arc;

use vart::{ArrayPrefix, FlatNode, Node256, Node48, NodeTrait, Timestamp, TwigNode, VecArray};

#[test]
fn new() {
    let v: VecArray<i32, 10> = VecArray::new();
    assert_eq!(v.capacity(), 10);
}

#[test]
fn push_and_pop() {
    let mut v: VecArray<i32, 10> = VecArray::new();
    let index = v.push(5);
    assert_eq!(v.get(index), Some(&5));
    assert_eq!(v.pop(), Some(5));
}

#[test]
fn last() {
    let mut v: VecArray<i32, 10> = VecArray::new();
    v.push(5);
    v.push(6);
    assert_eq!(v.last(), Some(&6));
}

#[test]
fn last_used_pos() {
    let mut v: VecArray<i32, 10> = VecArray::new();
    v.push(5);
    v.push(6);
    assert_eq!(v.last_used_pos(), Some(1));
}

#[test]
fn first_free_pos() {
    let mut v: VecArray<i32, 10> = VecArray::new();
    v.push(5);
    assert_eq!(v.first_free_pos(), 1);
}

#[test]
fn get_and_set() {
    let mut v: VecArray<i32, 10> = VecArray::new();
    v.set(5, 6);
    assert_eq!(v.get(5), Some(&6));
}

#[test]
fn get_mut() {
    let mut v: VecArray<i32, 10> = VecArray::new();
    v.set(5, 6);
    if let Some(value) = v.get_mut(5) {
        *value = 7;
    }
    assert_eq!(v.get(5), Some(&7));
}

#[test]
fn erase() {
    let mut v: VecArray<i32, 10> = VecArray::new();
    v.push(5);
    assert_eq!(v.erase(0), Some(5));
    assert_eq!(v.get(0), None);
}

#[test]
fn clear() {
    let mut v: VecArray<i32, 10> = VecArray::new();
    v.push(5);
    v.clear();
    assert!(v.is_empty());
}

#[test]
fn is_empty() {
    let mut v: VecArray<i32, 10> = VecArray::new();
    assert!(v.is_empty());
    v.push(5);
    assert!(!v.is_empty());
}

#[test]
fn iter_keys() {
    let mut v: VecArray<i32, 10> = VecArray::new();
    v.push(5);
    v.push(6);
    let keys: Vec<usize> = v.iter_keys();
    assert_eq!(keys, vec![0, 1]);
}

#[test]
fn iter() {
    let mut v: VecArray<i32, 10> = VecArray::new();
    v.push(5);
    v.push(6);
    let values: Vec<(usize, &i32)> = v.iter();
    assert_eq!(values, vec![(0, &5), (1, &6)]);
}

fn node_test(mut node: impl NodeTrait<usize>, size: usize) {
    for i in 0..size {
        node = node.add_child(i as u8, i);
    }

    for i in 0..size {
        assert!(matches!(node.find_child(i as u8), Some(v) if *v == i.into()));
    }

    for i in 0..size {
        node = node.delete_child(i as u8);
    }

    assert!(matches!(node.num_children(), 0));
}

#[test]
fn test_flatnode() {
    let dummy_prefix: ArrayPrefix<8> = ArrayPrefix::create_key("foo".as_bytes());

    node_test(
        FlatNode::<ArrayPrefix<8>, usize, 4>::new(dummy_prefix.clone()),
        4,
    );
    node_test(
        FlatNode::<ArrayPrefix<8>, usize, 16>::new(dummy_prefix.clone()),
        16,
    );
    node_test(
        FlatNode::<ArrayPrefix<8>, usize, 32>::new(dummy_prefix.clone()),
        32,
    );
    node_test(
        FlatNode::<ArrayPrefix<8>, usize, 48>::new(dummy_prefix.clone()),
        48,
    );
    node_test(
        FlatNode::<ArrayPrefix<8>, usize, 64>::new(dummy_prefix.clone()),
        64,
    );

    // resize from 16 to 4
    let mut node = FlatNode::<ArrayPrefix<8>, usize, 16>::new(dummy_prefix.clone());
    for i in 0..4 {
        node = node.add_child(i as u8, i);
    }

    let resized: FlatNode<ArrayPrefix<8>, usize, 4> = node.resize();
    assert_eq!(resized.num_children, 4);
    for i in 0..4 {
        assert!(matches!(resized.find_child(i as u8), Some(v) if *v == i.into()));
    }

    // resize from 4 to 16
    let mut node = FlatNode::<ArrayPrefix<8>, usize, 4>::new(dummy_prefix.clone());
    for i in 0..4 {
        node = node.add_child(i as u8, i);
    }
    let mut resized: FlatNode<ArrayPrefix<8>, usize, 16> = node.resize();
    assert_eq!(resized.num_children, 4);
    for i in 4..16 {
        resized = resized.add_child(i as u8, i);
    }
    assert_eq!(resized.num_children, 16);
    for i in 0..16 {
        assert!(matches!(resized.find_child(i as u8), Some(v) if *v == i.into()));
    }

    // resize from 16 to 48
    let mut node = FlatNode::<ArrayPrefix<8>, usize, 16>::new(dummy_prefix.clone());
    for i in 0..16 {
        node = node.add_child(i as u8, i);
    }

    let resized = node.grow();
    assert_eq!(resized.num_children, 16);
    for i in 0..16 {
        assert!(matches!(resized.find_child(i as u8), Some(v) if *v == i.into()));
    }

    let mut node = FlatNode::<ArrayPrefix<8>, usize, 4>::new(dummy_prefix);
    node = node.add_child(1, 1);
    node = node.add_child(2, 2);
    node = node.add_child(3, 3);
    node = node.add_child(4, 4);
    assert_eq!(node.num_children(), 4);
    assert_eq!(node.find_child(1), Some(&1.into()));
    assert_eq!(node.find_child(2), Some(&2.into()));
    assert_eq!(node.find_child(3), Some(&3.into()));
    assert_eq!(node.find_child(4), Some(&4.into()));
    assert_eq!(node.find_child(5), None);

    node = node.delete_child(1);
    node = node.delete_child(2);
    node = node.delete_child(3);
    node = node.delete_child(4);
    assert_eq!(node.num_children(), 0);
}

#[test]
fn test_node48() {
    let dummy_prefix: ArrayPrefix<8> = ArrayPrefix::create_key("foo".as_bytes());

    let mut n48 = Node48::<ArrayPrefix<8>, u8>::new(dummy_prefix.clone());
    for i in 0..48 {
        n48 = n48.add_child(i, i);
    }
    for i in 0..48 {
        assert_eq!(n48.find_child(i), Some(&i.into()));
    }
    for i in 0..48 {
        n48 = n48.delete_child(i);
    }
    for i in 0..48 {
        assert!(n48.find_child(i as u8).is_none());
    }

    // resize from 48 to 16
    let mut node = Node48::<ArrayPrefix<8>, u8>::new(dummy_prefix.clone());
    for i in 0..18 {
        node = node.add_child(i, i);
    }
    assert_eq!(node.num_children, 18);
    node = node.delete_child(0);
    node = node.delete_child(1);
    assert_eq!(node.num_children, 16);

    let resized = node.shrink::<16>();
    assert_eq!(resized.num_children, 16);
    for i in 2..18 {
        assert!(matches!(resized.find_child(i), Some(v) if *v == i.into()));
    }

    // resize from 48 to 4
    let mut node = Node48::<ArrayPrefix<8>, u8>::new(dummy_prefix.clone());
    for i in 0..4 {
        node = node.add_child(i, i);
    }
    let resized = node.shrink::<4>();
    assert_eq!(resized.num_children, 4);
    for i in 0..4 {
        assert!(matches!(resized.find_child(i), Some(v) if *v == i.into()));
    }

    // resize from 48 to 256
    let mut node = Node48::<ArrayPrefix<8>, u8>::new(dummy_prefix);
    for i in 0..48 {
        node = node.add_child(i, i);
    }

    let resized = node.grow();
    assert_eq!(resized.num_children, 48);
    for i in 0..48 {
        assert!(matches!(resized.find_child(i), Some(v) if *v == i.into()));
    }
}

#[test]
fn test_node256() {
    let dummy_prefix: ArrayPrefix<8> = ArrayPrefix::create_key("foo".as_bytes());

    node_test(
        Node256::<ArrayPrefix<8>, usize>::new(dummy_prefix.clone()),
        255,
    );

    let mut n256 = Node256::new(dummy_prefix.clone());
    for i in 0..255 {
        n256 = n256.add_child(i, i);
        assert_eq!(n256.find_child(i), Some(&i.into()));
        n256 = n256.delete_child(i);
        assert_eq!(n256.find_child(i), None);
    }

    // resize from 256 to 48
    let mut node = Node256::new(dummy_prefix);
    for i in 0..48 {
        node = node.add_child(i, i);
    }

    let resized = node.shrink();
    assert_eq!(resized.num_children, 48);
    for i in 0..48 {
        assert!(matches!(resized.find_child(i), Some(v) if *v == i.into()));
    }
}

#[test]
fn test_flatnode_update_ts() {
    const WIDTH: usize = 4;
    let dummy_prefix: ArrayPrefix<8> = ArrayPrefix::create_key("foo".as_bytes());

    // Prepare some child nodes
    let mut child1 = FlatNode::<ArrayPrefix<8>, usize, WIDTH>::new(dummy_prefix.clone());
    child1.ts = 5;
    let mut child2 = FlatNode::<ArrayPrefix<8>, usize, WIDTH>::new(dummy_prefix.clone());
    child2.ts = 10;
    let mut child3 = FlatNode::<ArrayPrefix<8>, usize, WIDTH>::new(dummy_prefix.clone());
    child3.ts = 3;

    let mut parent = FlatNode::<
        ArrayPrefix<8>,
        FlatNode<ArrayPrefix<8>, usize, WIDTH>,
        WIDTH,
    >::new(dummy_prefix.clone());
    parent.ts = 6;
    parent = parent.add_child(0, child1);
    parent = parent.add_child(1, child2);
    parent = parent.add_child(2, child3);

    // The maximum timestamp among children is 10 (child2.ts), so after calling update_ts,
    // the parent's timestamp should be updated to 10.
    parent.update_ts();
    assert_eq!(parent.ts(), 10);

    // Add a new child with a larger timestamp (15), parent's timestamp should update to 15
    let mut child5 = FlatNode::<ArrayPrefix<8>, usize, WIDTH>::new(dummy_prefix.clone());
    child5.ts = 15;
    parent = parent.add_child(3, child5);
    assert_eq!(parent.ts(), 15);

    // Delete the child with the largest timestamp, parent's timestamp should update to next max (10)
    parent = parent.delete_child(3);
    assert_eq!(parent.ts(), 10);

    // Update a child's timestamp to be the largest (20), parent's timestamp should update to 20
    let mut child6 = FlatNode::<ArrayPrefix<8>, usize, WIDTH>::new(dummy_prefix);
    child6.ts = 20;
    parent = parent.replace_child(2, Arc::new(child6));
    parent.update_ts();
    assert_eq!(parent.ts(), 20);
}

#[test]
fn test_flatnode_repeated_update_ts() {
    const WIDTH: usize = 1;
    let dummy_prefix: ArrayPrefix<8> = ArrayPrefix::create_key("foo".as_bytes());

    let child = FlatNode::<ArrayPrefix<8>, usize, WIDTH>::new(dummy_prefix.clone());
    let mut parent = FlatNode::<
        ArrayPrefix<8>,
        FlatNode<ArrayPrefix<8>, usize, 1>,
        WIDTH,
    >::new(dummy_prefix);
    parent.ts = 6;
    parent = parent.add_child(0, child);

    // Calling update_ts once should update the timestamp.
    parent.update_ts();
    let ts_after_first_update = parent.ts();

    // Calling update_ts again should not change the timestamp.
    parent.update_ts();
    assert_eq!(parent.ts(), ts_after_first_update);
}

#[test]
fn test_node48_update_ts() {
    const WIDTH: usize = 4;
    let dummy_prefix: ArrayPrefix<8> = ArrayPrefix::create_key("foo".as_bytes());

    // Prepare some child nodes with varying timestamps
    let mut children: Vec<FlatNode<ArrayPrefix<8>, usize, WIDTH>> = Vec::new();
    for i in 0..WIDTH {
        let mut child = FlatNode::<ArrayPrefix<8>, usize, WIDTH>::new(dummy_prefix.clone());
        child.ts = i as u64;
        children.push(child);
    }

    let mut parent: Node48<ArrayPrefix<8>, FlatNode<ArrayPrefix<8>, usize, WIDTH>> =
        Node48::<ArrayPrefix<8>, FlatNode<ArrayPrefix<8>, usize, WIDTH>>::new(dummy_prefix);

    // Add children to parent
    for (i, child) in children.iter().enumerate() {
        parent = parent.add_child(i as u8, child.clone());
    }
    // The maximum timestamp among children is (WIDTH - 1), so after calling update_ts,
    // the parent's timestamp should be updated to (WIDTH - 1).
    parent.update_ts();
    assert_eq!(parent.ts(), (WIDTH - 1) as u64);
}

#[test]
fn test_node256_update_ts() {
    const WIDTH: usize = 256;
    let dummy_prefix: ArrayPrefix<8> = ArrayPrefix::create_key("foo".as_bytes());

    // Prepare some child nodes with varying timestamps
    let mut children: Vec<FlatNode<ArrayPrefix<8>, usize, WIDTH>> = Vec::new();
    for i in 0..WIDTH {
        let mut child = FlatNode::<ArrayPrefix<8>, usize, WIDTH>::new(dummy_prefix.clone());
        child.ts = i as u64;
        children.push(child);
    }

    let mut parent: Node256<ArrayPrefix<8>, FlatNode<ArrayPrefix<8>, usize, WIDTH>> =
        Node256::<ArrayPrefix<8>, FlatNode<ArrayPrefix<8>, usize, WIDTH>>::new(dummy_prefix);

    // Add children to parent
    for (i, child) in children.iter().enumerate() {
        parent = parent.add_child(i as u8, child.clone());
    }

    // The maximum timestamp among children is (WIDTH - 1), so after calling update_ts,
    // the parent's timestamp should be updated to (WIDTH - 1).
    parent.update_ts();
    assert_eq!(parent.ts(), (WIDTH - 1) as u64);
}

#[test]
fn test_twig_nodes() {
    const WIDTH: usize = 4;
    let dummy_prefix: ArrayPrefix<8> = ArrayPrefix::create_key("foo".as_bytes());

    // Prepare some child nodes
    let mut twig1 = TwigNode::<ArrayPrefix<8>, usize>::new(dummy_prefix.clone());
    twig1.ts = 5;
    let mut twig2 = TwigNode::<ArrayPrefix<8>, usize>::new(dummy_prefix.clone());
    twig2.ts = 10;
    let mut twig3 = TwigNode::<ArrayPrefix<8>, usize>::new(dummy_prefix.clone());
    twig3.ts = 3;
    let mut twig4 = TwigNode::<ArrayPrefix<8>, usize>::new(dummy_prefix.clone());
    twig4.ts = 7;

    let mut parent = FlatNode::<
        ArrayPrefix<8>,
        TwigNode<ArrayPrefix<8>, usize>,
        WIDTH,
    >::new(dummy_prefix);
    parent = parent.add_child(0, twig1);
    parent = parent.add_child(1, twig2);
    parent = parent.add_child(2, twig3);
    parent = parent.add_child(3, twig4);

    // The maximum timestamp among children is 10 (child2.ts), so after calling update_ts,
    // the parent's timestamp should be updated to 10.
    parent.update_ts();
    assert_eq!(parent.ts(), 10);
}
