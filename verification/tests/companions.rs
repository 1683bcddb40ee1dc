use trie_rs::radix::RadixNode;
use trie_rs::trie::TrieNode;

#[test]
fn radix1() {
    let mut radix = RadixNode::new();

    radix.insert(&[1, 2, 3, 4], 1).unwrap();
    radix.insert(&[1, 3, 3, 4], 2).unwrap();
    radix.insert(&[1, 2, 3, 4, 5], 3).unwrap();
    radix.insert(&[1, 2, 3, 4, 5, 6, 7, 8], 4).unwrap();
    radix.insert(&[1], 5).unwrap();

    radix.insert(&[2, 3, 4], 6).unwrap();
    radix.insert(&[2, 3, 4, 5, 6, 7], 7).unwrap();
    radix.insert(&[2, 3, 4, 5, 6, 7, 8], 8).unwrap();

    let k = [1, 2, 3, 4];
    let v = radix.get(&k);
    assert_eq!(v, Some(&1));

    let k = [1, 3, 3, 4];
    let v = radix.get(&k);
    assert_eq!(v, Some(&2));

    let k = [1, 2, 3, 4, 5];
    let v = radix.get(&k);
    assert_eq!(v, Some(&3));

    let k = [1];
    let v = radix.get(&k);
    assert_eq!(v, Some(&5));

    let k = [2, 3, 4];
    let v = radix.get(&k);
    assert_eq!(v, Some(&6));

    let k = [2, 3, 4, 5, 6, 7];
    let v = radix.get(&k);
    assert_eq!(v, Some(&7));

    let k = [2, 3, 4, 5, 6, 7, 8];
    let v = radix.get(&k);
    assert_eq!(v, Some(&8));

    let k = [1, 2, 3];
    let removed = radix.remove(&k, true);
    assert_eq!(removed, None);

    let k = [2, 3, 4];
    radix.remove(&k, false);

    let v = radix.get(&k);
    assert_eq!(v, None);

    let k = [2, 3, 4, 5, 6, 7];
    let v = radix.get(&k);
    assert_eq!(v, Some(&7));

    let k = [2, 3, 4, 5, 6, 7, 8];
    let v = radix.get(&k);
    assert_eq!(v, Some(&8));

    let k = [1];
    radix.remove(&k, true);

    let v = radix.get(&k);
    assert_eq!(v, None);
}

#[test]
fn trie_test() {
    let mut trie = TrieNode::new(0);
    trie.insert(&[1, 2, 3], ()).unwrap();
    trie.insert(&[1, 2, 3, 4], ()).unwrap();
    trie.insert(&[1, 2, 4], ()).unwrap();
    trie.insert(&[2, 2, 4], ()).unwrap();
    let removed = trie.remove(&[1, 2, 3], true);
    assert!(removed.is_some());
}

#[test]
fn radix_split_and_replace() {
    let mut radix = RadixNode::new();
    radix.insert(&[7, 8, 9], "a").unwrap();
    // splitting [7,8,9] at the divergence point keeps the old route
    radix.insert(&[7, 8, 1], "b").unwrap();
    assert_eq!(radix.get(&[7, 8, 9]), Some(&"a"));
    assert_eq!(radix.get(&[7, 8, 1]), Some(&"b"));
    assert_eq!(radix.get(&[7, 8]), None);
    // a value lands on the split point itself
    radix.insert(&[7, 8], "c").unwrap();
    assert_eq!(radix.get(&[7, 8]), Some(&"c"));
    // reinsertion hands the old value back
    assert_eq!(radix.insert(&[7, 8, 9], "d").unwrap(), Some("a"));
    assert_eq!(radix.get(&[7, 8, 9]), Some(&"d"));
}

#[test]
fn radix_remove_merges_single_child() {
    let mut radix = RadixNode::new();
    radix.insert(&[1, 2], 10).unwrap();
    radix.insert(&[1, 2, 3, 4], 20).unwrap();
    let removed = radix.remove(&[1, 2], false).unwrap();
    assert_eq!(removed.key(), &[1, 2][..]);
    assert_eq!(removed.value(), Some(&10));
    assert_eq!(removed.children().len(), 0);
    // the lone child merged into one run
    assert_eq!(radix.children().len(), 1);
    assert_eq!(radix.children()[0].key(), &[1, 2, 3, 4][..]);
    assert_eq!(radix.get(&[1, 2, 3, 4]), Some(&20));
    assert_eq!(radix.get(&[1, 2]), None);
}

#[test]
fn radix_parts_and_accessors() {
    let node: RadixNode<u8, &str> = RadixNode::from(&[1, 2], "x");
    assert_eq!(node.key(), &[1, 2][..]);
    assert_eq!(node.value(), Some(&"x"));
    let (key, value, children) = node.to_parts();
    assert_eq!(key, vec![1, 2]);
    assert_eq!(value, Some("x"));
    assert_eq!(children.len(), 0);

    let bare: RadixNode<u8, &str> = RadixNode::from_key(&[3]);
    assert_eq!(bare.value(), None);
}

#[test]
fn trie_clear_and_accessors() {
    let mut trie = TrieNode::new(0);
    trie.insert(&[1, 2], 5).unwrap();
    assert_eq!(*trie.key(), 0);
    assert_eq!(trie.children().len(), 1);
    assert_eq!(*trie.children()[0].key(), 1);
    assert_eq!(trie.get(&[1, 2]), Some(&5));

    // replacement hands the old value back
    assert_eq!(trie.insert(&[1, 2], 6).unwrap(), Some(5));
    assert_eq!(trie.get(&[1, 2]), Some(&6));

    // non-pruning removal keeps deeper routes
    trie.insert(&[1, 2, 3], 7).unwrap();
    let removed = trie.remove(&[1, 2], false).unwrap();
    assert_eq!(removed.value(), Some(&6));
    assert_eq!(trie.get(&[1, 2]), None);
    assert_eq!(trie.get(&[1, 2, 3]), Some(&7));

    trie.clear();
    assert_eq!(trie.children().len(), 0);
    assert_eq!(trie.value(), None);

    let leaf = TrieNode::from(9, "leaf");
    assert_eq!(leaf.value(), Some(&"leaf"));
}
