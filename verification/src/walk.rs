//! The walk that `insert` takes down the tree, step by step.
//!
//! While the walk is on its way, the node it stands at is still open to
//! change, and so is every node above it. What is known at each step is how
//! the tree will look in the end, given how the node at hand will look in
//! the end: that is [`TrieNode::grafted`].

use vstd::prelude::*;
use crate::node::TrieNode;
use crate::prefix::{lemma_longer_prefix, lemma_prefix_split};
use crate::text::{is_lower, slot_of};

verus! {

impl TrieNode {
    /// One step down: the path `c` then `rest` goes through slot `c`.
    pub(crate) proof fn lemma_descend_step(self, c: char, rest: Seq<char>)
        requires
            is_lower(c),
        ensures
            self.descend(seq![c] + rest) == match self.child(slot_of(c)) {
                Some(next) => next.descend(rest),
                None => None,
            },
    {
        let path = seq![c] + rest;
        assert(path.drop_first() =~= rest);
    }

    /// `self` is the node that `path` leads to in `start`, or a blank node
    /// where `start` has none there.
    pub(crate) open spec fn tracks(self, start: TrieNode, path: Seq<char>) -> bool {
        &&& forall|s: Seq<char>| #[trigger] self.holds(s) <==> start.holds(path + s)
        &&& forall|s: Seq<char>| #[trigger]
            self.has_node(s) <==> s.len() == 0 || start.has_node(path + s)
    }

    /// `self` is `start` with the nodes of `path` added where they were
    /// missing and with `sub` as the node that `path` leads to.
    pub(crate) open spec fn grafted(self, start: TrieNode, path: Seq<char>, sub: TrieNode) -> bool {
        &&& forall|k: Seq<char>| #[trigger]
            self.holds(k) <==> if path.is_prefix_of(k) {
                sub.holds(k.skip(path.len() as int))
            } else {
                start.holds(k)
            }
        &&& forall|p: Seq<char>| #[trigger]
            self.has_node(p) <==> if path.is_prefix_of(p) {
                sub.has_node(p.skip(path.len() as int))
            } else {
                start.has_node(p) || p.is_prefix_of(path)
            }
    }

    /// `self` is `before` but for slot `c`, which holds `sub`.
    pub(crate) open spec fn replaces(self, before: TrieNode, c: char, sub: TrieNode) -> bool {
        &&& self.ends_word() == before.ends_word()
        &&& self.child(slot_of(c)) == Some(sub)
        &&& forall|j: int| 0 <= j < 26 && j != slot_of(c) ==> self.child(j) == before.child(j)
    }

    /// What a node holds after one of its slots was replaced.
    pub(crate) proof fn lemma_replaces(self, before: TrieNode, c: char, sub: TrieNode, t: Seq<char>)
        requires
            is_lower(c),
            self.replaces(before, c, sub),
        ensures
            t.len() > 0 && t[0] == c ==> self.descend(t) == sub.descend(t.drop_first()),
            !(t.len() > 0 && t[0] == c) ==> (self.holds(t) <==> before.holds(t)),
            !(t.len() > 0 && t[0] == c) ==> (self.has_node(t) <==> before.has_node(t)),
    {
    }

    /// Every node tracks itself at the empty path, and is itself grafted there.
    pub(crate) proof fn lemma_walk_begins(self, end: TrieNode)
        ensures
            self.tracks(self, Seq::empty()),
            end.grafted(self, Seq::empty(), end),
    {
        assert forall|s: Seq<char>| Seq::<char>::empty() + s == s by {}
        assert forall|k: Seq<char>| #[trigger] k.skip(0) == k by {}
    }

    /// One step of the walk down `path` and then `c`.
    ///
    /// `before` is the node the walk stood at and `after` what it will be in
    /// the end; `self` is the node the walk stands at now and `sub` what that
    /// will be in the end.
    pub(crate) proof fn lemma_walk_step(
        self,
        start: TrieNode,
        end: TrieNode,
        path: Seq<char>,
        c: char,
        before: TrieNode,
        after: TrieNode,
        sub: TrieNode,
    )
        requires
            is_lower(c),
            before.tracks(start, path),
            end.grafted(start, path, after),
            after.replaces(before, c, sub),
            before.child(slot_of(c)) matches Some(next) ==> self == next,
            before.child(slot_of(c)) is None ==> self.is_blank(),
        ensures
            self.tracks(start, path.push(c)),
            end.grafted(start, path.push(c), sub),
    {
        let longer = path.push(c);
        assert forall|s: Seq<char>| #[trigger] self.holds(s) <==> start.holds(longer + s) by {
            let t = seq![c] + s;
            assert(longer + s =~= path + t);
            assert(before.holds(t) <==> start.holds(path + t));
            before.lemma_descend_step(c, s);
        }
        assert forall|s: Seq<char>| #[trigger]
            self.has_node(s) <==> s.len() == 0 || start.has_node(longer + s) by {
            let t = seq![c] + s;
            assert(longer + s =~= path + t);
            assert(before.has_node(t) <==> t.len() == 0 || start.has_node(path + t));
            before.lemma_descend_step(c, s);
        }
        assert forall|k: Seq<char>| #[trigger]
            end.holds(k) <==> if longer.is_prefix_of(k) {
                sub.holds(k.skip(longer.len() as int))
            } else {
                start.holds(k)
            } by {
            lemma_longer_prefix(path, c, k);
            if path.is_prefix_of(k) {
                let t = k.skip(path.len() as int);
                lemma_prefix_split(path, k);
                after.lemma_replaces(before, c, sub, t);
                if longer.is_prefix_of(k) {
                    assert(t.drop_first() =~= k.skip(longer.len() as int));
                }
            }
        }
        assert forall|p: Seq<char>| #[trigger]
            end.has_node(p) <==> if longer.is_prefix_of(p) {
                sub.has_node(p.skip(longer.len() as int))
            } else {
                start.has_node(p) || p.is_prefix_of(longer)
            } by {
            lemma_longer_prefix(path, c, p);
            if path.is_prefix_of(p) {
                let t = p.skip(path.len() as int);
                lemma_prefix_split(path, p);
                after.lemma_replaces(before, c, sub, t);
                if longer.is_prefix_of(p) {
                    assert(t.drop_first() =~= p.skip(longer.len() as int));
                }
            }
        }
    }

    /// The end of the walk down `key`: a word is marked at the node reached.
    pub(crate) proof fn lemma_walk_ends(
        self,
        start: TrieNode,
        end: TrieNode,
        key: Seq<char>,
        last: TrieNode,
    )
        requires
            last.tracks(start, key),
            end.grafted(start, key, self),
            self.ends_word(),
            forall|j: int| 0 <= j < 26 ==> self.child(j) == last.child(j),
        ensures
            forall|k: Seq<char>| #[trigger] end.holds(k) <==> start.holds(k) || k == key,
            forall|p: Seq<char>| #[trigger]
                end.has_node(p) <==> start.has_node(p) || p.is_prefix_of(key),
    {
        assert forall|k: Seq<char>| #[trigger] end.holds(k) <==> start.holds(k) || k == key by {
            if key.is_prefix_of(k) {
                let t = k.skip(key.len() as int);
                lemma_prefix_split(key, k);
                assert(last.holds(t) <==> start.holds(key + t));
            }
        }
        assert forall|p: Seq<char>| #[trigger]
            end.has_node(p) <==> start.has_node(p) || p.is_prefix_of(key) by {
            if key.is_prefix_of(p) {
                let t = p.skip(key.len() as int);
                lemma_prefix_split(key, p);
                assert(last.has_node(t) <==> t.len() == 0 || start.has_node(key + t));
            }
        }
    }
}

} // verus!
