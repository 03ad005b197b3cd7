//! The tree and its three operations.

use vstd::prelude::*;
use crate::node::TrieNode;
use crate::order::ascending;
use crate::prefix::{lemma_prefix_of_concat, lemma_prefix_split};
use crate::text::{is_key, loose_key, loose_key_of, strict_key, strict_key_of, text_of};

verus! {

/// What `contains` answers for `word` when the stored keys are `keys`: the
/// word is letters throughout, and its key is stored.
pub open spec fn accepts(keys: Set<Seq<char>>, word: Seq<char>) -> bool {
    strict_key(word) matches Some(key) && keys.contains(key)
}

/// `list` is the keys of `keys` that begin with `prefix`, each once, in
/// dictionary order.
pub open spec fn lists(list: Seq<Seq<char>>, keys: Set<Seq<char>>, prefix: Seq<char>) -> bool {
    &&& ascending(list)
    &&& forall|k: Seq<char>| #[trigger]
        list.contains(k) <==> keys.contains(k) && prefix.is_prefix_of(k)
}

/// A set of words over the letters `a` to `z`, held as a tree in which each
/// node stands for the letters on the way to it.
pub struct Trie {
    root: TrieNode,
}

impl View for Trie {
    type V = Set<Seq<char>>;

    /// The keys that are stored.
    closed spec fn view(&self) -> Set<Seq<char>> {
        Set::new(|key: Seq<char>| self.root.holds(key))
    }
}

impl Trie {
    /// The tree has a height, and below its root no node is without a word
    /// at or below it.
    #[verifier::type_invariant]
    pub closed spec fn wf(&self) -> bool {
        self.root.has_height()
    }

    /// The tree has a node for `path`.
    pub closed spec fn has_node(&self, path: Seq<char>) -> bool {
        self.root.has_node(path)
    }

    /// The paths that lead to a node. No two nodes have one path, so this
    /// set has a member for each node of the tree.
    pub open spec fn nodes(&self) -> Set<Seq<char>> {
        Set::new(|path: Seq<char>| self.has_node(path))
    }

    /// Every stored key is made of the letters `a` to `z`.
    pub proof fn lemma_keys_are_keys(&self, key: Seq<char>)
        requires
            self@.contains(key),
        ensures
            is_key(key),
    {
        self.root.lemma_path_is_key(key);
    }

    /// The nodes are the paths that begin a stored key, and the root: the
    /// tree has no branch without a word on it.
    pub proof fn lemma_nodes_are_prefixes(&self, path: Seq<char>)
        requires
            self.wf(),
        ensures
            self.has_node(path) <==> path.len() == 0 || exists|key: Seq<char>|
                self@.contains(key) && path.is_prefix_of(key),
    {
        if self.has_node(path) && path.len() > 0 {
            let height = choose|height: nat| self.root.sound(height);
            self.root.lemma_sound_below(path, height);
            let node = self.root.descend(path)->0;
            let rest = node.lemma_live_holds(height);
            self.root.lemma_descend_concat(path, rest);
            lemma_prefix_of_concat(path, rest);
        }
        if exists|key: Seq<char>| self@.contains(key) && path.is_prefix_of(key) {
            let key = choose|key: Seq<char>| self@.contains(key) && path.is_prefix_of(key);
            lemma_prefix_split(path, key);
            self.root.lemma_descend_concat(path, key.skip(path.len() as int));
        }
    }

    /// The tree without a word: its root and nothing else.
    pub fn new() -> (trie: Self)
        ensures
            trie@ == Set::<Seq<char>>::empty(),
            forall|path: Seq<char>| #[trigger] trie.has_node(path) <==> path.len() == 0,
    {
        let root = TrieNode::new();
        proof {
            assert(root.sound(1));
        }
        Trie { root }
    }

    /// Stores the key of `word`: its letters in lower case, all else left out.
    ///
    /// The nodes for the key and for all that begins it are there
    /// afterwards; no other node is added and none is lost.
    pub fn insert(&mut self, word: &str)
        ensures
            final(self)@ == old(self)@.insert(loose_key(word@)),
            forall|path: Seq<char>| #[trigger]
                final(self).has_node(path) <==> old(self).has_node(path) || path.is_prefix_of(
                    loose_key(word@),
                ),
    {
        let key = loose_key_of(word);
        proof {
            use_type_invariant(&*self);
        }
        let ghost height = choose|height: nat| self.root.sound(height);
        // The root is taken out while it is worked on, and a blank one
        // stands in for it, so that the tree is well formed at every moment.
        let mut root = TrieNode::new();
        proof {
            assert(root.sound(1));
        }
        core::mem::swap(&mut root, &mut self.root);
        root.insert_key(&key, Ghost(height));
        self.root = root;
    }

    /// Whether `word` is letters throughout and its key is stored.
    pub fn contains(&self, word: &str) -> (found: bool)
        ensures
            found == accepts(self@, word@),
    {
        match strict_key_of(word) {
            Some(key) => match self.root.find(&key) {
                Some(node) => node.marks_word(),
                None => false,
            },
            None => false,
        }
    }

    /// The root: the node of the empty path.
    pub fn root(&self) -> (node: &TrieNode)
        ensures
            forall|key: Seq<char>| #[trigger] node.holds(key) <==> self@.contains(key),
            forall|path: Seq<char>| #[trigger] node.has_node(path) <==> self.has_node(path),
    {
        &self.root
    }

    /// The stored keys that begin with the key of `prefix`, in dictionary
    /// order. The key of `prefix` is its letters in lower case, all else left
    /// out.
    pub fn words(&self, prefix: &str) -> (list: Vec<String>)
        ensures
            lists(list.deep_view(), self@, loose_key(prefix@)),
    {
        let key = loose_key_of(prefix);
        let mut list: Vec<String> = Vec::new();
        proof {
            use_type_invariant(self);
        }
        match self.root.find(&key) {
            Some(node) => {
                let start = text_of(&key);
                let ghost height = choose|height: nat| self.root.sound(height);
                proof {
                    self.root.lemma_sound_below(key@, height);
                }
                node.collect_words(&start, &mut list, Ghost(height));
                proof {
                    node.lemma_listing_ascending(key@, height);
                    node.lemma_listing_holds(key@, height);
                    assert forall|k: Seq<char>| #[trigger]
                        list.deep_view().contains(k) <==> self@.contains(k) && key@.is_prefix_of(
                            k,
                        ) by {
                        if key@.is_prefix_of(k) {
                            lemma_prefix_split(key@, k);
                            self.root.lemma_descend_concat(key@, k.skip(key@.len() as int));
                        }
                    }
                }
            },
            None => {
                proof {
                    assert forall|k: Seq<char>| #[trigger]
                        list.deep_view().contains(k) <==> self@.contains(k) && key@.is_prefix_of(
                            k,
                        ) by {
                        if key@.is_prefix_of(k) {
                            lemma_prefix_split(key@, k);
                            self.root.lemma_descend_concat(key@, k.skip(key@.len() as int));
                        }
                    }
                }
            },
        }
        list
    }
}

impl Default for Trie {
    /// The tree without a word.
    fn default() -> (trie: Self)
        ensures
            trie@ == Set::<Seq<char>>::empty(),
            forall|path: Seq<char>| #[trigger] trie.has_node(path) <==> path.len() == 0,
    {
        Trie::new()
    }
}

} // verus!
