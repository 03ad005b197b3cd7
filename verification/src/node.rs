//! The nodes of the tree.

use vstd::prelude::*;
use crate::text::{is_key, is_lower, letter_at, slot, slot_of};

verus! {

/// One node: a slot for each letter, and whether a word ends here.
pub struct TrieNode {
    children: [Option<Box<TrieNode>>; 26],
    is_end_of_word: bool,
}

impl TrieNode {
    /// The node in slot `i`, if the slot is taken.
    pub closed spec fn child(self, i: int) -> Option<TrieNode> {
        match self.children[i] {
            Some(boxed) => Some(*boxed),
            None => None,
        }
    }

    /// A word ends at this node.
    pub closed spec fn ends_word(self) -> bool {
        self.is_end_of_word
    }

    /// The node that `path` leads to from this one, if every step exists.
    pub open spec fn descend(self, path: Seq<char>) -> Option<TrieNode>
        decreases path.len(),
    {
        if path.len() == 0 {
            Some(self)
        } else if !is_lower(path[0]) {
            None
        } else {
            match self.child(slot_of(path[0])) {
                Some(next) => next.descend(path.drop_first()),
                None => None,
            }
        }
    }

    /// `path` leads to a node.
    pub open spec fn has_node(self, path: Seq<char>) -> bool {
        self.descend(path) is Some
    }

    /// `key` leads to a node at which a word ends.
    pub open spec fn holds(self, key: Seq<char>) -> bool {
        self.descend(key) matches Some(end) && end.ends_word()
    }

    /// No slot is taken and no word ends here.
    pub(crate) open spec fn is_blank(self) -> bool {
        &&& !self.ends_word()
        &&& forall|i: int| 0 <= i < 26 ==> #[trigger] self.child(i) is None
    }

    /// A node without children at which no word ends.
    pub(crate) fn new() -> (node: Self)
        ensures
            node.is_blank(),
    {
        TrieNode {
            children: [
                None, None, None, None, None, None, None, None, None, None, None, None, None,
                None, None, None, None, None, None, None, None, None, None, None, None, None,
            ],
            is_end_of_word: false,
        }
    }

    /// Something is stored at or below this node.
    pub(crate) open spec fn live(self) -> bool {
        self.ends_word() || exists|i: int| 0 <= i < 26 && #[trigger] self.child(i) is Some
    }

    /// Below this node no path is longer than `height - 1` steps, and every
    /// node on such a path has something stored at or below it.
    pub(crate) open spec fn sound(self, height: nat) -> bool
        decreases height,
    {
        &&& height > 0
        &&& forall|i: int|
            0 <= i < 26 ==> ((#[trigger] self.child(i)) matches Some(next) ==> next.live()
                && next.sound((height - 1) as nat))
    }

    /// The tree below this node is sound at some height.
    pub(crate) open spec fn has_height(self) -> bool {
        exists|height: nat| self.sound(height)
    }

    /// A bound on the height may be raised.
    pub(crate) proof fn lemma_sound_grows(self, height: nat, more: nat)
        requires
            self.sound(height),
            height <= more,
        ensures
            self.sound(more),
        decreases height,
    {
        assert forall|i: int| 0 <= i < 26 implies ((#[trigger] self.child(i)) matches Some(next)
            ==> next.live() && next.sound((more - 1) as nat)) by {
            if let Some(next) = self.child(i) {
                next.lemma_sound_grows((height - 1) as nat, (more - 1) as nat);
            }
        }
    }

    /// Going down `path` and then `rest` is going down the two in one.
    pub proof fn lemma_descend_concat(self, path: Seq<char>, rest: Seq<char>)
        ensures
            self.descend(path + rest) == match self.descend(path) {
                Some(node) => node.descend(rest),
                None => None,
            },
        decreases path.len(),
    {
        if path.len() > 0 {
            let whole = path + rest;
            assert(whole.drop_first() =~= path.drop_first() + rest);
            if is_lower(path[0]) {
                if let Some(next) = self.child(slot_of(path[0])) {
                    next.lemma_descend_concat(path.drop_first(), rest);
                }
            }
        }
    }

    /// What is below a sound node is sound, and live.
    pub(crate) proof fn lemma_sound_below(self, path: Seq<char>, height: nat)
        requires
            self.sound(height),
            self.has_node(path),
        ensures
            self.descend(path)->0.sound(height),
            path.len() > 0 ==> self.descend(path)->0.live(),
        decreases path.len(),
    {
        if path.len() > 0 {
            let next = self.child(slot_of(path[0]))->0;
            next.lemma_sound_below(path.drop_first(), (height - 1) as nat);
            let node = next.descend(path.drop_first())->0;
            node.lemma_sound_grows((height - 1) as nat, height);
        }
    }

    /// At or below a live node of a sound tree some word ends.
    pub(crate) proof fn lemma_live_holds(self, height: nat) -> (key: Seq<char>)
        requires
            self.live(),
            self.sound(height),
        ensures
            self.holds(key),
        decreases height,
    {
        if self.ends_word() {
            Seq::empty()
        } else {
            let i = choose|i: int| 0 <= i < 26 && #[trigger] self.child(i) is Some;
            let next = self.child(i)->0;
            let rest = next.lemma_live_holds((height - 1) as nat);
            let c = letter_at(i);
            let key = seq![c] + rest;
            assert(key.drop_first() =~= rest);
            key
        }
    }

    /// A path that leads to a node is made of the letters `a` to `z`.
    pub proof fn lemma_path_is_key(self, path: Seq<char>)
        requires
            self.has_node(path),
        ensures
            is_key(path),
        decreases path.len(),
    {
        if path.len() > 0 {
            let next = self.child(slot_of(path[0]))->0;
            next.lemma_path_is_key(path.drop_first());
            assert forall|i: int| 0 <= i < path.len() implies is_lower(#[trigger] path[i]) by {
                if i > 0 {
                    assert(path[i] == path.drop_first()[i - 1]);
                }
            }
        }
    }

    /// Whether a word ends at this node.
    pub(crate) fn marks_word(&self) -> (marked: bool)
        ensures
            marked == self.ends_word(),
    {
        self.is_end_of_word
    }

    /// The node in slot `i`, if the slot is taken.
    pub(crate) fn child_ref(&self, i: usize) -> (next: Option<&TrieNode>)
        requires
            i < 26,
        ensures
            match next {
                Some(node) => self.child(i as int) == Some(*node),
                None => self.child(i as int) is None,
            },
    {
        match &self.children[i] {
            Some(boxed) => Some(&**boxed),
            None => None,
        }
    }

    /// Follows `key` down from this node.
    pub(crate) fn find(&self, key: &Vec<char>) -> (found: Option<&TrieNode>)
        requires
            is_key(key@),
        ensures
            match found {
                Some(node) => self.descend(key@) == Some(*node),
                None => self.descend(key@) is None,
            },
    {
        let mut cur: &TrieNode = self;
        let mut i: usize = 0;
        proof {
            assert(key@.skip(0) == key@);
        }
        while i < key.len()
            invariant
                i <= key.len(),
                is_key(key@),
                self.descend(key@) == cur.descend(key@.skip(i as int)),
            decreases key.len() - i,
        {
            let idx = slot(key[i]);
            proof {
                assert(key@.skip(i as int).drop_first() == key@.skip(i + 1));
            }
            match cur.child_ref(idx) {
                Some(next) => {
                    cur = next;
                },
                None => {
                    return None;
                },
            }
            i += 1;
        }
        Some(cur)
    }

    /// Marks `key` as a word below this node, making the nodes on the way
    /// that are not there yet.
    pub(crate) fn insert_key(&mut self, key: &Vec<char>, Ghost(height): Ghost<nat>)
        requires
            is_key(key@),
            old(self).sound(height),
        ensures
            forall|k: Seq<char>| #[trigger]
                final(self).holds(k) <==> old(self).holds(k) || k == key@,
            forall|p: Seq<char>| #[trigger]
                final(self).has_node(p) <==> old(self).has_node(p) || p.is_prefix_of(key@),
            final(self).sound(if height > key.len() { height } else { (key.len() + 1) as nat }),
    {
        let ghost top: nat = if height > key.len() { height } else { (key.len() + 1) as nat };
        // This node as it is now, and as it will be when the walk is over.
        let ghost start = *old(self);
        let ghost end = *final(self);
        let mut cur: &mut TrieNode = self;
        let mut i: usize = 0;
        proof {
            start.lemma_sound_grows(height, top);
            start.lemma_walk_begins(end);
        }
        while i < key.len()
            invariant
                i <= key.len(),
                is_key(key@),
                top > key.len(),
                cur.tracks(start, key@.take(i as int)),
                end.grafted(start, key@.take(i as int), *final(cur)),
                cur.sound((top - i) as nat),
                final(cur).sound((top - i) as nat) && final(cur).live() ==> end.sound(top),
            decreases key.len() - i,
        {
            let c = key[i];
            let idx = slot(c);
            let ghost before = *cur;
            let ghost after = *final(cur);
            let next = &mut cur.children[idx];
            if next.is_none() {
                *next = Some(Box::new(TrieNode::new()));
            }
            cur = next.as_mut().unwrap();
            proof {
                assert(after.replaces(before, c, *final(cur)));
                assert(key@.take(i + 1) =~= key@.take(i as int).push(c));
                cur.lemma_walk_step(start, end, key@.take(i as int), c, before, after, *final(cur));
            }
            i += 1;
        }
        let ghost last = *cur;
        cur.is_end_of_word = true;
        proof {
            assert(key@.take(i as int) =~= key@);
            cur.lemma_walk_ends(start, end, key@, last);
            assert(cur.sound((top - i) as nat)) by {
                assert forall|j: int| 0 <= j < 26 implies #[trigger] cur.child(j) == last.child(
                    j,
                ) by {}
            }
        }
    }
}

} // verus!
