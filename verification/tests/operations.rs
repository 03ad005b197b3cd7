use word_trie::Trie;

fn filled(words: &[&str]) -> Trie {
    let mut trie = Trie::new();
    for word in words {
        trie.insert(word);
    }
    trie
}

#[test]
fn nothing_is_found_in_a_new_trie() {
    let trie = Trie::new();
    for word in ["a", "z", "hello", "trie", "abcdefghijklmnopqrstuvwxyz"] {
        assert!(!trie.contains(word));
    }
    assert!(!trie.contains(""));
    assert_eq!(trie.words(""), Vec::<String>::new());
}

#[test]
fn a_lower_case_word_is_found_after_its_insert() {
    for word in ["a", "z", "hello", "trie", "abcdefghijklmnopqrstuvwxyz"] {
        let mut trie = filled(&["other", "words"]);
        assert!(!trie.contains(word));
        trie.insert(word);
        assert!(trie.contains(word));
    }
}

#[test]
fn case_does_not_matter() {
    for word in ["Hello", "WORLD", "mIxEd", "quiet", "Z"] {
        let mut trie = Trie::new();
        trie.insert(word);
        assert!(trie.contains(&word.to_lowercase()));
        assert!(trie.contains(&word.to_uppercase()));
        assert!(trie.contains(word));
        assert_eq!(trie.words(""), vec![word.to_lowercase()]);
    }
}

#[test]
fn insert_drops_what_contains_refuses() {
    let mut trie = Trie::new();
    trie.insert("a'b");
    assert!(trie.contains("ab"));
    assert!(!trie.contains("a'b"));
    assert_eq!(trie.words(""), vec!["ab".to_string()]);
}

#[test]
fn contains_refuses_any_character_that_is_no_letter() {
    let trie = filled(&["apple", "ab"]);
    for query in ["apple ", " apple", "app le", "apple1", "a-b", "ab\n", "ab\0", "a_b", "ab."] {
        assert!(!trie.contains(query), "{:?}", query);
    }
    // The characters next to the letters in ASCII are no letters.
    for query in ["ab@", "ab[", "ab`", "ab{"] {
        assert!(!trie.contains(query), "{:?}", query);
    }
}

#[test]
fn inserting_the_same_key_again_changes_nothing() {
    let mut once = filled(&["apple", "ape", "ball"]);
    let mut twice = filled(&["apple", "ape", "ball"]);
    once.insert("apple");
    twice.insert("apple");
    twice.insert("Ap-Ple");
    twice.insert("apple");
    for query in ["apple", "ape", "ball", "app", "appl", "apples", ""] {
        assert_eq!(once.contains(query), twice.contains(query));
    }
    for prefix in ["", "a", "ap", "app", "apple", "b", "z"] {
        assert_eq!(once.words(prefix), twice.words(prefix));
    }
    assert_eq!(once.words(""), vec!["ape", "apple", "ball"]);
    assert_eq!(once.root().summary(), twice.root().summary());
}

#[test]
fn words_lists_by_prefix_in_dictionary_order() {
    let trie = filled(&["apple", "ape", "ball"]);
    assert_eq!(trie.words("ap"), vec!["ape", "apple"]);
    assert_eq!(trie.words("b"), vec!["ball"]);
    assert_eq!(trie.words("z"), Vec::<String>::new());
}

#[test]
fn a_prefix_that_is_a_word_comes_first() {
    let trie = filled(&["apples", "apple", "applesauce", "app", "apply"]);
    assert_eq!(trie.words("apple"), vec!["apple", "apples", "applesauce"]);
    assert_eq!(trie.words("app"), vec!["app", "apple", "apples", "applesauce", "apply"]);
    assert_eq!(trie.words("appl"), vec!["apple", "apples", "applesauce", "apply"]);
}

#[test]
fn the_empty_prefix_lists_every_key_in_order() {
    let words = ["pear", "apple", "fig", "banana", "figs", "ape", "a", "zebra", "b"];
    let trie = filled(&words);
    let mut expected: Vec<String> = words.iter().map(|w| w.to_string()).collect();
    expected.sort();
    assert_eq!(trie.words(""), expected);
    assert_eq!(
        trie.words(""),
        vec!["a", "ape", "apple", "b", "banana", "fig", "figs", "pear", "zebra"]
    );
}

#[test]
fn an_unreachable_prefix_lists_nothing() {
    let trie = filled(&["apple", "ape", "ball", "xy"]);
    assert_eq!(trie.words("xyz"), Vec::<String>::new());
    assert_eq!(trie.words("apples"), Vec::<String>::new());
    assert_eq!(trie.words("c"), Vec::<String>::new());
}

#[test]
fn a_key_is_listed_once() {
    let trie = filled(&["echo", "Echo", "ECHO", "e-c-h-o", "echo!"]);
    assert_eq!(trie.words(""), vec!["echo"]);
    assert_eq!(trie.words("e"), vec!["echo"]);
}

#[test]
fn the_prefix_is_read_as_insert_reads_a_word() {
    let trie = filled(&["apple", "ape", "ball"]);
    assert_eq!(trie.words("AP"), vec!["ape", "apple"]);
    assert_eq!(trie.words("a-p"), vec!["ape", "apple"]);
    assert_eq!(trie.words(" B "), vec!["ball"]);
    assert_eq!(trie.words("123"), vec!["ape", "apple", "ball"]);
}

#[test]
fn the_empty_word_can_be_stored() {
    let mut trie = filled(&["a"]);
    assert!(!trie.contains(""));
    trie.insert("");
    assert!(trie.contains(""));
    assert_eq!(trie.words(""), vec!["", "a"]);
    assert_eq!(trie.words("a"), vec!["a"]);
}

#[test]
fn a_word_without_letters_is_stored_as_the_empty_word() {
    let mut trie = Trie::new();
    trie.insert("123 !?");
    assert!(trie.contains(""));
    assert!(!trie.contains("123 !?"));
    assert_eq!(trie.words(""), vec![""]);
}

#[test]
fn a_word_is_not_found_by_its_beginning_nor_by_more() {
    let trie = filled(&["hello"]);
    for query in ["", "h", "he", "hel", "hell", "helloo", "hellos", "ello"] {
        assert!(!trie.contains(query), "{:?}", query);
    }
    assert!(trie.contains("hello"));
}

#[test]
fn every_letter_has_its_own_slot() {
    let mut trie = Trie::new();
    for code in b'a'..=b'z' {
        let word = (code as char).to_string();
        assert!(!trie.contains(&word));
        trie.insert(&word);
        assert!(trie.contains(&word));
    }
    let listed = trie.words("");
    assert_eq!(listed.len(), 26);
    for (i, word) in listed.iter().enumerate() {
        assert_eq!(word, &((b'a' + i as u8) as char).to_string());
    }
    assert_eq!(trie.words("m"), vec!["m"]);
}

#[test]
fn a_long_word_is_stored() {
    let word: String = "abcdefghijklmnopqrstuvwxyz".repeat(40);
    let mut trie = Trie::new();
    trie.insert(&word);
    assert!(trie.contains(&word));
    assert!(trie.contains(&word.to_uppercase()));
    assert!(!trie.contains(&word[..word.len() - 1]));
    assert_eq!(trie.words(&word[..500]), vec![word.clone()]);
}

#[test]
fn the_default_trie_is_the_new_trie() {
    let mut trie = Trie::default();
    assert!(!trie.contains("a"));
    assert_eq!(trie.words(""), Vec::<String>::new());
    trie.insert("a");
    assert!(trie.contains("a"));
}

#[test]
fn a_word_is_found_by_its_letters_alone() {
    let mut trie = Trie::new();
    trie.insert("ap'ple");
    assert!(trie.contains("apple"));
    assert!(trie.contains("APPLE"));
    assert!(!trie.contains("ap'ple"));
    assert!(!trie.contains("ap"));
    assert_eq!(trie.words("a'p"), vec!["apple"]);
}

#[test]
fn control_characters_are_no_letters() {
    let mut trie = Trie::new();
    trie.insert("a\0b\u{1}c\t");
    assert!(trie.contains("abc"));
    assert!(!trie.contains("a\0b\u{1}c\t"));
    assert!(!trie.contains("\0"));
    assert_eq!(trie.words("\0a"), vec!["abc"]);
}

#[test]
fn words_are_kept_apart_from_what_begins_them() {
    let mut trie = Trie::new();
    trie.insert("hello");
    assert_eq!(trie.words("hell"), vec!["hello"]);
    assert_eq!(trie.words("hello"), vec!["hello"]);
    trie.insert("hell");
    assert_eq!(trie.words("hell"), vec!["hell", "hello"]);
    assert_eq!(trie.words("hello"), vec!["hello"]);
    assert_eq!(trie.words("he"), vec!["hell", "hello"]);
}

#[test]
fn order_goes_by_letters_and_not_by_length() {
    let trie = filled(&["b", "ab", "aab", "ba", "a", "aa", "abc", "az", "aaz"]);
    assert_eq!(trie.words(""), vec!["a", "aa", "aab", "aaz", "ab", "abc", "az", "b", "ba"]);
    assert_eq!(trie.words("a"), vec!["a", "aa", "aab", "aaz", "ab", "abc", "az"]);
    assert_eq!(trie.words("aa"), vec!["aa", "aab", "aaz"]);
}
