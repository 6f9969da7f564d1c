use patricia::radix::trie::Trie;

#[test]
fn insert_then_get_round_trip() {
    let mut t: Trie<u32> = Trie::new();
    assert_eq!(t.insert(b"a", 1), None);
    assert_eq!(t.insert(b"ab", 2), None);
    assert_eq!(t.insert(b"abc", 3), None);
    assert_eq!(t.get(b"a"), Some(&1));
    assert_eq!(t.get(b"ab"), Some(&2));
    assert_eq!(t.get(b"abc"), Some(&3));
    assert_eq!(t.len(), 3);
}

#[test]
fn insert_order_does_not_matter() {
    let mut forward: Trie<u32> = Trie::new();
    forward.insert(b"a", 1);
    forward.insert(b"ab", 2);
    let mut backward: Trie<u32> = Trie::new();
    backward.insert(b"ab", 2);
    backward.insert(b"a", 1);
    for t in [&forward, &backward] {
        assert_eq!(t.get(b"a"), Some(&1));
        assert_eq!(t.get(b"ab"), Some(&2));
        assert_eq!(t.len(), 2);
    }
}

#[test]
fn split_shares_one_prefix_node() {
    let mut t: Trie<u32> = Trie::new();
    t.insert(b"team", 10);
    t.insert(b"test", 20);
    assert_eq!(t.get(b"team"), Some(&10));
    assert_eq!(t.get(b"test"), Some(&20));
    assert_eq!(t.get(b"te"), None);
    // the root, the "te" split node, and the "am" / "st" branches
    assert_eq!(t.node_count(), 4);
}

#[test]
fn insert_then_remove_gives_value_back() {
    let mut t: Trie<u32> = Trie::new();
    t.insert(b"key", 5);
    let before = t.len();
    assert_eq!(t.remove(b"key"), Some(5));
    assert_eq!(t.get(b"key"), None);
    assert_eq!(t.len(), before - 1);
}

#[test]
fn remove_of_absent_key_changes_nothing() {
    let mut t: Trie<u32> = Trie::new();
    t.insert(b"here", 1);
    assert_eq!(t.remove(b"absent"), None);
    assert_eq!(t.len(), 1);
    assert_eq!(t.get(b"here"), Some(&1));
}

#[test]
fn replacing_a_value_returns_the_old_one() {
    let mut t: Trie<u32> = Trie::new();
    assert_eq!(t.insert(b"x", 1), None);
    assert_eq!(t.insert(b"x", 2), Some(1));
    assert_eq!(t.get(b"x"), Some(&2));
    assert_eq!(t.len(), 1);
}

#[test]
fn empty_key_is_stored_at_the_root() {
    let mut t: Trie<u32> = Trie::new();
    assert_eq!(t.insert(b"", 9), None);
    assert_eq!(t.get(b""), Some(&9));
    assert_eq!(t.len(), 1);
    assert_eq!(t.remove(b""), Some(9));
    assert_eq!(t.len(), 0);
}

#[test]
fn max_label_length_key_fits_one_edge() {
    // 31 bytes is the largest label a single edge can carry
    let key = [b'k'; 31];
    let mut t: Trie<u32> = Trie::new();
    assert_eq!(t.insert(&key, 42), None);
    assert_eq!(t.get(&key), Some(&42));
    // the root plus exactly one leaf edge
    assert_eq!(t.node_count(), 2);
}

#[test]
fn over_long_key_splits_instead_of_failing() {
    // one byte past the label cap: the key is segmented over two edges
    let key = [b'k'; 32];
    let mut t: Trie<u32> = Trie::new();
    assert_eq!(t.insert(&key, 7), None);
    assert_eq!(t.get(&key), Some(&7));
    assert_eq!(t.node_count(), 3);
    let shorter = [b'k'; 31];
    assert_eq!(t.get(&shorter), None);
    assert_eq!(t.remove(&key), Some(7));
    assert_eq!(t.len(), 0);
}

#[test]
fn many_disjoint_keys_all_found() {
    let mut t: Trie<usize> = Trie::new();
    let keys: Vec<Vec<u8>> = (0..40).map(|i| format!("key-{:02}", i).into_bytes()).collect();
    for (i, k) in keys.iter().enumerate() {
        assert_eq!(t.insert(k, i), None);
    }
    assert_eq!(t.len(), keys.len());
    for (i, k) in keys.iter().enumerate() {
        assert_eq!(t.get(k), Some(&i));
    }
    for (i, k) in keys.iter().enumerate() {
        assert_eq!(t.remove(k), Some(i));
    }
    assert_eq!(t.len(), 0);
}

#[test]
fn clear_forgets_everything() {
    let mut t: Trie<u32> = Trie::new();
    t.insert(b"one", 1);
    t.insert(b"two", 2);
    t.clear();
    assert_eq!(t.len(), 0);
    assert_eq!(t.get(b"one"), None);
    t.insert(b"one", 3);
    assert_eq!(t.get(b"one"), Some(&3));
}

#[test]
fn find_reaches_nodes_without_values() {
    let mut t: Trie<u32> = Trie::new();
    t.insert(b"team", 10);
    t.insert(b"test", 20);
    // "te" is the split node: present in the tree, but without a value
    let node = t.find(b"te").expect("split node should exist");
    assert!(node.value().is_none());
    assert_eq!(node.label().as_slice(), b"te");
    let leaf = t.find(b"team").expect("leaf should exist");
    assert_eq!(leaf.value(), Some(&10));
    assert!(t.find(b"tex").is_none());
}

#[test]
fn root_access_reflects_the_tree() {
    let mut t: Trie<u32> = Trie::new();
    t.insert(b"ab", 1);
    let root = t.root();
    assert_eq!(root.label().len(), 0);
    assert!(root.value().is_none());
    assert!(root.child().is_some());
    let root = t.into_root();
    assert_eq!(root.child().unwrap().label().as_slice(), b"ab");
}
