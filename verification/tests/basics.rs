use word_trie::trie::Trie;

#[test]
fn test_insert_and_contains() {
    let mut trie = Trie::new();
    trie.insert("hello");
    assert!(trie.contains("hello"));
    assert!(!trie.contains("hell"));
    trie.insert("hell");
    assert!(trie.contains("hell"));
}

#[test]
fn test_case_insensitivity() {
    let mut trie = Trie::new();
    trie.insert("Hello");
    assert!(trie.contains("hello"));
    assert!(trie.contains("HELLO"));
}

#[test]
fn test_non_alphabetic_characters() {
    let mut trie = Trie::new();
    trie.insert("apple!");
    assert!(trie.contains("apple"));
    assert!(!trie.contains("apple%"));
}
