use my_gzip::tree::BinaryTrie;
use my_gzip::tree::Node;
use my_gzip::tree::NodeType;
use my_gzip::tree::TreeKey;
use my_gzip::tree::get_bit;

#[test]
fn node_level_construction_and_descent() {
    let mut root = Node::new(None);
    assert!(!root.is_leaf());

    // install a leaf on the `one` side; a second install must fail
    assert!(root.add(true, Node::new(Some(7))).is_ok());
    assert!(root.add(true, Node::new(Some(8))).is_err());

    // an absent `zero` side is created on demand and then kept
    root.follow_or_add(false, None);
    root.follow_or_add(false, Some(9));

    let leaf = root.follow(true).unwrap();
    assert!(leaf.is_leaf());
    let inner = root.follow(false).unwrap();
    assert!(!inner.is_leaf());
    assert!(inner.follow(true).is_err());

    assert!(root.zero.is_present());
    assert!(root.one.is_present());
    assert!(root.zero.unbox().is_some());
}

#[test]
fn different_keys_can_be_added() {
    let mut trie = BinaryTrie::new();
    assert!(trie.add(TreeKey(0b010100, 6), 1).is_ok());
    assert!(trie.add(TreeKey(0b011100, 6), 2).is_ok());
    assert!(trie.add(TreeKey(0b101001, 6), 3).is_ok());
}

#[test]
fn same_key_cannot_be_added() {
    let mut trie = BinaryTrie::new();
    assert!(trie.add(TreeKey(0b010100, 6), 1).is_ok());
    assert!(trie.add(TreeKey(0b010100, 6), 2).is_err());
}

#[test]
fn node_that_already_exists_cannot_be_added() {
    let mut trie = BinaryTrie::new();
    assert!(trie.add(TreeKey(0b010100, 6), 1).is_ok());
    assert!(trie.add(TreeKey(0b010___, 3), 2).is_err());
}

#[test]
fn child_node_of_a_leaf_node_cannot_be_added() {
    let mut trie = BinaryTrie::new();
    assert!(trie.add(TreeKey(0b010100_, 6), 1).is_ok());
    assert!(trie.add(TreeKey(0b0101001, 7), 2).is_err());
}

#[test]
fn descendant_node_of_a_leaf_node_cannot_be_added() {
    let mut trie = BinaryTrie::new();
    assert!(trie.add(TreeKey(0b010100___, 6), 1).is_ok());
    assert!(trie.add(TreeKey(0b010100110, 9), 2).is_err());
}

#[test]
fn cursor_succeeds_for_existent_key() {
    let mut trie = BinaryTrie::new();
    assert!(trie.add(TreeKey(0b010100, 6), 1).is_ok());
    assert!(trie.add(TreeKey(0b110100, 6), 2).is_ok());
    assert!(trie.add(TreeKey(0b110101, 6), 3).is_ok());
    assert!(trie.add(TreeKey(0b10____, 2), 4).is_ok());

    let mut cursor = trie.cursor();

    for i in (1..6).rev() {
        let bit = get_bit(0b010100, i);
        let ret = cursor.follow(bit);
        assert!(ret.is_ok());
        assert_eq!(ret.unwrap(), NodeType::InnerNode);
    }

    let bit = get_bit(0b010100, 0);
    let ret = cursor.follow(bit);
    assert!(ret.is_ok());
    assert_eq!(ret.unwrap(), NodeType::LeafNode(1));

    let value = cursor.value();
    assert!(value.is_ok());
    assert_eq!(value.unwrap(), 1);
}

#[test]
fn cursor_fails_for_non_existent_key() {
    let mut trie = BinaryTrie::new();
    assert!(trie.add(TreeKey(0b010100, 6), 1).is_ok());
    assert!(trie.add(TreeKey(0b110100, 6), 2).is_ok());
    assert!(trie.add(TreeKey(0b110101, 6), 3).is_ok());
    assert!(trie.add(TreeKey(0b10____, 2), 4).is_ok());

    let mut cursor = trie.cursor();

    assert!(cursor.follow(true).is_ok());
    assert!(cursor.follow(false).is_ok());
    assert!(cursor.follow(true).is_err());
}
