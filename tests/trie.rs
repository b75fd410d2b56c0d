use scrabble::trie::Trie;

#[test]
fn test_trie_new() {
    let words = vec!["hello", "world"];
    let trie = Trie::new(words);
    assert!(trie.contains("hello"));
    assert!(!trie.contains("goodbye"));
}

#[test]
fn trie_holds_exactly_its_words() {
    let trie = Trie::new(vec!["he", "hello", "help", ""]);
    assert!(trie.contains("he"));
    assert!(trie.contains("help"));
    assert!(trie.contains(""));
    assert!(!trie.contains("hel"));
    assert!(!trie.contains("helps"));
    assert_eq!(trie.root().children.len(), 1);
    assert!(trie.root().terminal);
    let empty = Trie::new(vec![]);
    assert!(!empty.contains(""));
    assert!(!empty.root().terminal);
}
