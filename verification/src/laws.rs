//! What holds of the three operations together.
//!
//! Each law speaks of the stored keys as a set and of the operations through
//! the functions that their contracts use: [`loose_key`] for what `insert`
//! stores, [`accepts`] for what `contains` answers, [`lists`] for what
//! `words` returns.

use vstd::prelude::*;
use crate::order::{
    ascending, lemma_ascending_unique, lemma_precedes_irreflexive, lemma_precedes_transitive,
    lemma_prefix_precedes,
};
use crate::text::{
    all_letters, folded, is_key, lemma_letters_either_case, lemma_letters_of_key,
    lemma_lowering_keeps_letters, letters, loose_key, strict_key, upper_text,
};
use crate::trie::{accepts, lists, Trie};

verus! {

/// A word of the letters `a` to `z` is its own key. It is not found where
/// nothing is stored, and it is found once it was inserted, whatever was
/// stored before.
pub proof fn law_insert_then_contains(keys: Set<Seq<char>>, word: Seq<char>)
    requires
        is_key(word),
    ensures
        loose_key(word) == word,
        !accepts(Set::empty(), word),
        accepts(keys.insert(loose_key(word)), word),
{
    lemma_letters_of_key(word);
    lemma_lowering_keeps_letters(word);
}

/// After a word was inserted, every text that is letters throughout and has
/// the letters of the word is found.
pub proof fn law_same_letters_found(keys: Set<Seq<char>>, word: Seq<char>, query: Seq<char>)
    requires
        strict_key(query) == Some(loose_key(word)),
    ensures
        accepts(keys.insert(loose_key(word)), query),
{
}

/// Case does not matter, lower case: a word whose lower-case form is letters
/// throughout is found in that form once it was inserted.
pub proof fn law_lower_case_found(keys: Set<Seq<char>>, word: Seq<char>)
    requires
        all_letters(folded(word)),
    ensures
        accepts(keys.insert(loose_key(word)), folded(word)),
{
    let low = folded(word);
    lemma_lowering_keeps_letters(low);
}

/// Case does not matter, capitals: a word of ASCII letters is found in
/// capitals once it was inserted.
pub proof fn law_capitals_found(keys: Set<Seq<char>>, word: Seq<char>)
    requires
        all_letters(word),
    ensures
        accepts(keys.insert(loose_key(word)), upper_text(word)),
{
    lemma_letters_either_case(word);
}

/// `contains` refuses what `insert` lets pass: a word whose lower-case form
/// has a character that is no letter is stored under its letters and is
/// itself not found, whatever is stored.
pub proof fn law_dropped_is_not_found(keys: Set<Seq<char>>, word: Seq<char>)
    requires
        !all_letters(folded(word)),
    ensures
        keys.insert(loose_key(word)).contains(letters(folded(word))),
        !accepts(keys.insert(loose_key(word)), word),
{
}

/// Inserting a key a second time changes nothing: not the keys, not the
/// nodes nor their number, and so neither what `contains` answers nor what
/// `words` returns.
///
/// `once` is `before` after the key was inserted, and `twice` is `once`
/// after it was inserted again.
pub proof fn law_insert_twice(before: Trie, once: Trie, twice: Trie, key: Seq<char>)
    requires
        once@ == before@.insert(key),
        forall|path: Seq<char>| #[trigger]
            once.has_node(path) <==> before.has_node(path) || path.is_prefix_of(key),
        twice@ == once@.insert(key),
        forall|path: Seq<char>| #[trigger]
            twice.has_node(path) <==> once.has_node(path) || path.is_prefix_of(key),
    ensures
        twice@ == once@,
        twice.nodes() == once.nodes(),
        twice.nodes().len() == once.nodes().len(),
        forall|word: Seq<char>| accepts(twice@, word) <==> accepts(once@, word),
        forall|list: Seq<Seq<char>>, prefix: Seq<char>|
            lists(list, twice@, prefix) <==> lists(list, once@, prefix),
{
    assert(twice.nodes() =~= once.nodes());
}

/// A prefix that is itself a stored key comes first in its listing.
pub proof fn law_prefix_word_first(list: Seq<Seq<char>>, keys: Set<Seq<char>>, prefix: Seq<char>)
    requires
        lists(list, keys, prefix),
        keys.contains(prefix),
    ensures
        list.len() > 0,
        list[0] == prefix,
{
    assert(list.contains(prefix));
    let j = choose|j: int| 0 <= j < list.len() && list[j] == prefix;
    if j > 0 {
        let first = list[0];
        assert(list.contains(first));
        // The first entry begins with the prefix and comes before it.
        if first.len() > prefix.len() {
            lemma_prefix_precedes(prefix, first);
            lemma_precedes_transitive(prefix, first, prefix);
        }
        lemma_precedes_irreflexive(prefix);
    }
}

/// The empty prefix lists every stored key, in dictionary order.
pub proof fn law_empty_prefix_lists_all(list: Seq<Seq<char>>, keys: Set<Seq<char>>)
    requires
        lists(list, keys, loose_key(Seq::empty())),
    ensures
        ascending(list),
        forall|key: Seq<char>| #[trigger] list.contains(key) <==> keys.contains(key),
{
}

/// Where no stored key begins with the prefix, the listing is empty.
pub proof fn law_unreachable_prefix(list: Seq<Seq<char>>, keys: Set<Seq<char>>, prefix: Seq<char>)
    requires
        lists(list, keys, prefix),
        forall|key: Seq<char>| keys.contains(key) ==> !prefix.is_prefix_of(key),
    ensures
        list.len() == 0,
{
    if list.len() > 0 {
        assert(list.contains(list[0]));
    }
}

/// There is one listing: what `words` returns is fixed by the stored keys
/// and the prefix.
pub proof fn law_one_listing(
    a: Seq<Seq<char>>,
    b: Seq<Seq<char>>,
    keys: Set<Seq<char>>,
    prefix: Seq<char>,
)
    requires
        lists(a, keys, prefix),
        lists(b, keys, prefix),
    ensures
        a == b,
{
    assert forall|k: Seq<char>| a.contains(k) <==> b.contains(k) by {}
    lemma_ascending_unique(a, b);
}

} // verus!
