use word_trie::trie::Trie;

#[test]
fn the_root_of_a_new_trie() {
    let trie = Trie::new();
    assert_eq!(trie.root().summary(), "{}, is_end_of_word: false");
}

#[test]
fn the_root_names_the_first_letters() {
    let mut trie = Trie::new();
    trie.insert("apple");
    trie.insert("ape'");
    trie.insert("ball");
    assert_eq!(
        trie.root().summary(),
        "{'a': \"Some(TrieNode)\", 'b': \"Some(TrieNode)\"}, is_end_of_word: false"
    );
}

#[test]
fn the_root_with_one_letter() {
    let mut trie = Trie::new();
    trie.insert("zoo");
    assert_eq!(trie.root().summary(), "{'z': \"Some(TrieNode)\"}, is_end_of_word: false");
}

#[test]
fn the_root_at_which_a_word_ends() {
    let mut trie = Trie::new();
    trie.insert("");
    assert_eq!(trie.root().summary(), "{}, is_end_of_word: true");
    trie.insert("m");
    assert_eq!(trie.root().summary(), "{'m': \"Some(TrieNode)\"}, is_end_of_word: true");
}

#[test]
fn the_summary_does_not_go_below_the_node() {
    let mut shallow = Trie::new();
    shallow.insert("a");
    let mut deep = Trie::new();
    deep.insert("abcdefghij");
    deep.insert("azzzzz");
    assert_eq!(shallow.root().summary(), deep.root().summary());
}

#[test]
fn the_root_with_every_letter() {
    let mut trie = Trie::new();
    for code in (b'a'..=b'z').rev() {
        trie.insert(&(code as char).to_string());
    }
    let entries: Vec<String> =
        (b'a'..=b'z').map(|code| format!("'{}': \"Some(TrieNode)\"", code as char)).collect();
    let expected = format!("{{{}}}, is_end_of_word: false", entries.join(", "));
    assert_eq!(trie.root().summary(), expected);
}
