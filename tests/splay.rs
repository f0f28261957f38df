use infra_bits::splay::SplayTree;

#[test]
fn splay_new_key_goes_to_root() {
    let mut tree: SplayTree<u64, &str> = SplayTree::new();
    tree.insert(10, "ten");
    tree.insert(5, "five");
    tree.insert(20, "twenty");
    assert!(tree.contains(5));
    assert!(tree.contains(10));
    assert!(tree.contains(20));
    assert!(!tree.contains(7));
    tree.insert(10, "TEN");
    assert_eq!(tree.remove(10), Some("TEN"));
    assert_eq!(tree.remove(10), None);
    assert_eq!(tree.remove(5), Some("five"));
    assert_eq!(tree.remove(20), Some("twenty"));
    assert!(!tree.contains(20));
}

#[test]
fn splay_root_follows_latest_new_key() {
    let mut tree: SplayTree<char, u8> = SplayTree::new();
    assert_eq!(tree.root_key(), None);
    tree.insert('m', 1);
    assert_eq!(tree.root_key(), Some(&'m'));
    tree.insert('c', 2);
    assert_eq!(tree.root_key(), Some(&'c'));
    tree.insert('x', 3);
    assert_eq!(tree.root_key(), Some(&'x'));
    tree.insert('m', 4);
    assert_eq!(tree.root_key(), Some(&'x'));
    assert_eq!(tree.remove('x'), Some(3));
    assert_eq!(tree.root_key(), Some(&'c'));
    assert_eq!(tree.remove('m'), Some(4));
}
