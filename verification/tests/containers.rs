use calc_engine::avl::SortedMap;
use calc_engine::trie::Trie;

#[test]
fn should_insert() {
    let mut tree: SortedMap<u8, char> = SortedMap::new();

    assert_eq!(tree.len(), 0);

    tree.insert(1, 'a');
    tree.insert(2, 'b');
    tree.insert(3, 'c');

    assert_ne!(tree.root, None);
    assert_eq!(tree.len(), 3);

    let mut inorder = tree.iter();
    assert_eq!(inorder.next().map(|x| x.value), Some('c'));
    assert_eq!(inorder.next().map(|x| x.value), Some('b'));
    assert_eq!(inorder.next().map(|x| x.value), Some('a'));
    assert_eq!(inorder.next().map(|x| x.value), None);

    let mut preorder = tree.iter();
    assert_eq!(preorder.next_back().map(|x| x.value), Some('a'));
    assert_eq!(preorder.next_back().map(|x| x.value), Some('b'));
    assert_eq!(preorder.next_back().map(|x| x.value), Some('c'));
    assert_eq!(preorder.next_back().map(|x| x.value), None);
}

#[test]
fn insert_rejects_duplicate_keys() {
    let mut tree: SortedMap<u8, char> = SortedMap::new();
    assert!(tree.insert(7, 'a'));
    assert!(!tree.insert(7, 'b'));
    assert_eq!(tree.len(), 1);
    let mut it = tree.iter();
    assert_eq!(it.next().map(|x| x.value), Some('a'));
}

#[test]
fn iteration_orders_keys() {
    let mut tree: SortedMap<u8, char> = SortedMap::new();
    tree.insert(2, 'b');
    tree.insert(1, 'a');
    tree.insert(3, 'c');
    let mut forward = tree.iter();
    assert_eq!(forward.next().map(|x| x.key), Some(3));
    assert_eq!(forward.next().map(|x| x.key), Some(2));
    assert_eq!(forward.next().map(|x| x.key), Some(1));
    assert_eq!(forward.next().map(|x| x.key), None);
    let mut backward = tree.iter();
    assert_eq!(backward.next_back().map(|x| x.key), Some(1));
    assert_eq!(backward.next_back().map(|x| x.key), Some(2));
    assert_eq!(backward.next_back().map(|x| x.key), Some(3));
    assert_eq!(backward.next_back().map(|x| x.key), None);
}

#[test]
fn should_search() {
    for (input, output) in [
        ("te", "test"),
        ("und", "undo"),
        ("u", "undo, unknown"),
        ("ok", "ok"),
        ("okay", ""),
    ] {
        let trie = Trie::new(vec!["test", "undo", "unknown", "ok"]);
        let mut results = trie.starts_with(input);
        results.sort();
        assert_eq!(results.join(", "), output);
    }
}

#[test]
fn empty_prefix_finds_all_words() {
    let trie = Trie::new(vec!["ab", "a", "b"]);
    let mut results = trie.starts_with("");
    results.sort();
    assert_eq!(results.join(", "), "a, ab, b");
}

#[test]
fn reinserting_a_word_keeps_one_copy() {
    let mut trie = Trie::new(vec!["undo"]);
    trie.insert("undo");
    let results = trie.starts_with("undo");
    assert_eq!(results, vec!["undo".to_string()]);
}
