use hashring::{Error, HashRing};

#[test]
fn add_and_remove_nodes() {
    let mut ring: HashRing<u64> = HashRing::new();

    assert_eq!(ring.len(), 0);
    assert!(ring.is_empty());

    let vnode1: u64 = 1;
    let vnode2: u64 = 2;
    let vnode3: u64 = 3;

    ring.add_node(vnode1).unwrap();
    ring.add_node(vnode2).unwrap();
    ring.add_node(vnode3).unwrap();
    assert_eq!(ring.len(), 3);
    assert!(!ring.is_empty());

    ring.remove_node(&vnode2).unwrap();
    assert_eq!(ring.len(), 2);

    let vnode4: u64 = 4;
    let vnode5: u64 = 5;
    let vnode6: u64 = 6;

    ring.add_node(vnode4).unwrap();
    ring.add_node(vnode5).unwrap();
    ring.add_node(vnode6).unwrap();

    ring.remove_node(&vnode1).unwrap();
    ring.remove_node(&vnode3).unwrap();
    ring.remove_node(&vnode6).unwrap();
    assert_eq!(ring.len(), 2);
}

#[test]
fn get_nodes() {
    let mut ring: HashRing<u64> = HashRing::new();

    assert!(matches!(ring.get_by_hash(&100), Err(Error::NodeNotFound)));

    let vnodes: Vec<u64> = vec![1, 2, 3, 4, 5, 6];
    for vnode in &vnodes {
        ring.add_node(*vnode).unwrap();
    }

    // Determinism: the same subject maps to the same node, call after call.
    for subject in [100u64, 7, 42, u64::MAX] {
        let first = *ring.get_by_hash(&subject).unwrap().data();
        let second = *ring.get_by_hash(&subject).unwrap().data();
        assert_eq!(first, second);
    }

    // Coverage and balance: every lookup lands on a node, and over many
    // subjects every node is hit at least once.
    let mut hits = vec![0u64; vnodes.len()];
    for x in 0..50_000u64 {
        let node = *ring.get_by_hash(&x).unwrap().data();
        let idx = vnodes.iter().position(|v| *v == node).unwrap();
        hits[idx] += 1;
    }
    println!("{:?}", hits);
    assert!(hits.iter().all(|x| *x != 0));
}

#[test]
fn advanced() {
    let mut ring: HashRing<u64> = HashRing::new();

    let vnode1: u64 = 1;
    let vnode2: u64 = 2;

    // Ok: the first node always lands at index 0.
    let result = ring.add_node(vnode1).unwrap();
    assert_eq!(result, 0);
    let vnode1_prev_range = ring.get_by_hash(&vnode1).unwrap().range();

    // Error: duplicates are not allowed, and the ring is unchanged.
    let result = ring.add_node(vnode1);
    assert_eq!(result.unwrap_err(), Error::DuplicateNode);
    assert_eq!(ring.len(), 1);

    ring.add_node(vnode2).unwrap();
    let vnode1_curr_range = ring.get_by_hash(&vnode1).unwrap().range();

    let vnode2_curr_range = ring.get_by_hash(&vnode2).unwrap().range();

    assert_eq!(vnode1_prev_range.start, vnode1_curr_range.start);
    assert_eq!(vnode1_prev_range.end, vnode2_curr_range.end);
    assert_eq!(vnode1_curr_range.end, vnode2_curr_range.start);
}

#[test]
fn node_ref() {
    let mut ring: HashRing<u64> = HashRing::new();

    let vnode1: u64 = 1;
    let vnode2: u64 = 2;

    assert!(matches!(ring.get_by_hash(&vnode1), Err(Error::NodeNotFound)));

    ring.add_node(vnode1).unwrap();

    // A single node is its own predecessor and successor.
    let node_ref = ring.get_by_hash(&vnode1).unwrap();
    assert_eq!(node_ref.data(), &vnode1);
    assert_eq!(node_ref.key(), &ring.key(&vnode1));
    assert_eq!(node_ref.prev().data(), &vnode1);
    assert_eq!(node_ref.next().data(), &vnode1);

    ring.add_node(vnode2).unwrap();

    // With two nodes, both neighbours of one node are the other.
    let node_ref = ring.get_by_hash(&vnode2).unwrap();
    assert_eq!(node_ref.data(), &vnode2);
    assert_eq!(node_ref.prev().data(), &vnode1);
    assert_eq!(node_ref.next().data(), &vnode1);
}

#[test]
fn node_range() {
    // One node: its range spans the whole key space, start == end.
    {
        let mut ring: HashRing<u64> = HashRing::new();
        let node: u64 = 1;
        let node_key = ring.key(&node);

        ring.add_node(node).unwrap();

        let range = ring.get_by_hash(&node).unwrap().range();
        assert_eq!(range, hashring::range::KeyRange { start: node_key, end: node_key });
        assert!(range.contains(&0));
        assert!(range.contains(&node_key));
        assert!(range.contains(&u64::MAX));
    }

    // Multiple nodes: each range runs from a node's key to its successor's.
    {
        let mut ring: HashRing<u64> = HashRing::new();
        let node1: u64 = 1;
        let node2: u64 = 2;
        let node_key1 = ring.key(&node1);
        let node_key2 = ring.key(&node2);

        ring.add_node(node1).unwrap();
        ring.add_node(node2).unwrap();

        let range = ring.get_by_hash(&node1).unwrap().range();
        assert_eq!(range, hashring::range::KeyRange { start: node_key1, end: node_key2 });

        let range = ring.get_by_hash(&node2).unwrap().range();
        assert_eq!(range, hashring::range::KeyRange { start: node_key2, end: node_key1 });
    }

    // Invalid node.
    {
        let mut ring: HashRing<u64> = HashRing::new();
        let node1: u64 = 1;
        let node2: u64 = 2;

        ring.add_node(node1).unwrap();

        let result = ring.node(&node2);
        assert!(matches!(result, Err(Error::NodeNotFound)));
    }
}

#[test]
fn ring_adjacency() {
    let mut ring: HashRing<u64> = HashRing::new();
    for vnode in [1u64, 2, 3] {
        ring.add_node(vnode).unwrap();
    }

    // Each node's range starts at its own key and ends at its successor's
    // key, which is where the successor's range starts.
    for i in 0..3 {
        let a = ring.get_by_index(i).unwrap();
        let b = a.next();
        assert_eq!(a.range().start, *a.key());
        assert_eq!(a.range().end, *b.key());
        assert_eq!(a.range().end, b.range().start);
    }
}

#[test]
fn iter() {
    let node1: u64 = 1;
    let node2: u64 = 2;
    let node3: u64 = 3;

    let mut ring: HashRing<u64> = HashRing::new();
    assert!(ring.iter(None).next().is_none());

    ring.add_node(node1).unwrap();
    assert_eq!(ring.iter(None).next().unwrap().data(), &node1);

    ring.add_node(node2).unwrap();
    ring.add_node(node3).unwrap();

    // Starting at node2's key, the lap yields node2 first, then the other
    // two nodes exactly once each, then ends.
    let mut iter = ring.iter(Some(ring.key(&node2)));

    assert_eq!(iter.next().unwrap().data(), &node2);
    let second = *iter.next().unwrap().data();
    let third = *iter.next().unwrap().data();
    assert!(iter.next().is_none());

    let mut rest = vec![second, third];
    rest.sort();
    assert_eq!(rest, vec![node1, node3]);

    // A full lap from the default start visits every node exactly once, in
    // ascending key order.
    let mut keys = Vec::new();
    let mut lap = ring.iter(None);
    while let Some(node) = lap.next() {
        keys.push(*node.key());
    }
    assert_eq!(keys.len(), 3);
    let mut sorted_keys = keys.clone();
    sorted_keys.sort();
    sorted_keys.dedup();
    assert_eq!(keys, sorted_keys);
}

#[test]
fn add_node_unchecked() {
    let node1: u64 = 3;
    let node2: u64 = 2;
    let node3: u64 = 1;

    let mut ring1 = HashRing::new();
    ring1.add_node(node1).unwrap();
    ring1.add_node(node2).unwrap();
    ring1.add_node(node3).unwrap();

    let mut ring2 = HashRing::new();
    ring2.add_node_unchecked(node1);
    ring2.add_node_unchecked(node2);
    ring2.add_node_unchecked(node3);
    ring2.sort();

    // Both rings hold the same nodes in the same order.
    assert_eq!(ring1.len(), ring2.len());
    for i in 0..ring1.len() {
        let a = ring1.get_by_index(i).unwrap();
        let b = ring2.get_by_index(i).unwrap();
        assert_eq!(a.key(), b.key());
        assert_eq!(a.data(), b.data());
    }
}

#[test]
fn key_is_hashed() {
    let ring: HashRing<u64> = HashRing::new();

    // The derived key really is a digest: not the input itself, and the same
    // for the same input every time.
    assert_ne!(ring.key(&1u64), 1u64);
    assert_ne!(ring.key(&0u64), 0u64);
    assert_eq!(ring.key(&1u64), ring.key(&1u64));

    let other: HashRing<u64> = HashRing::new();
    assert_eq!(ring.key(&7u64), other.key(&7u64));
}

#[test]
fn coverage_on_nonempty_ring() {
    let mut ring: HashRing<u64> = HashRing::new();
    ring.add_node(42).unwrap();

    // Every key of the key space has an owner once the ring is non-empty.
    assert!(ring.get_by_key(&0).is_ok());
    assert!(ring.get_by_key(&u64::MAX).is_ok());
    assert!(ring.get_by_key(&ring.key(&42)).is_ok());

    // Out-of-bounds positional access is reported, not a panic.
    assert!(matches!(ring.get_by_index(1), Err(Error::NodeNotFound)));

    // Removing an absent node is reported too.
    assert!(matches!(ring.remove_node(&7), Err(Error::NodeNotFound)));
    assert_eq!(ring.len(), 1);
}

#[test]
fn with_hasher_builds_same_ring() {
    let mut ring: HashRing<u64> = HashRing::with_hasher(hashring::DefaultHashBuilder);
    ring.add_node(1).unwrap();

    let default_ring: HashRing<u64> = HashRing::new();
    assert_eq!(ring.key(&1), default_ring.key(&1));
    assert_eq!(*ring.node(&1).unwrap().data(), 1);
}
