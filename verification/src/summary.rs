//! A one-line description of a single node, for inspection.
//!
//! The description names the letters whose slots are taken and says whether
//! a word ends at the node. It does not go below the node, so its length
//! does not grow with the tree.

use vstd::prelude::*;
use vstd::string::StringExecFns;
use crate::node::TrieNode;
use crate::text::{letter, letter_at};

verus! {

/// The entry for the letter `c`.
pub open spec fn entry_text(c: char) -> Seq<char> {
    "'"@.push(c) + "': \"Some(TrieNode)\""@
}

/// The entries for the first `upto` letters, of which `taken` says which
/// have one, with a comma and a space between two entries.
pub open spec fn entries_text(taken: Seq<bool>, upto: nat) -> Seq<char>
    decreases upto,
{
    if upto == 0 {
        Seq::empty()
    } else {
        let before = entries_text(taken, (upto - 1) as nat);
        if !taken[upto - 1] {
            before
        } else if before.len() == 0 {
            entry_text(letter_at(upto - 1))
        } else {
            before + ", "@ + entry_text(letter_at(upto - 1))
        }
    }
}

/// The description of a node: the entries in braces, then the flag.
pub open spec fn summary_text(taken: Seq<bool>, ends_word: bool) -> Seq<char> {
    "{"@ + entries_text(taken, 26) + "}, is_end_of_word: "@ + if ends_word {
        "true"@
    } else {
        "false"@
    }
}

impl TrieNode {
    /// For each letter, whether its slot is taken.
    pub open spec fn taken(self) -> Seq<bool> {
        Seq::new(26, |i: int| self.child(i) is Some)
    }

    /// A slot is taken exactly when the one-letter path of its letter leads
    /// to a node.
    pub proof fn lemma_taken(self, i: int)
        requires
            0 <= i < 26,
        ensures
            self.taken()[i] <==> self.has_node(seq![letter_at(i)]),
    {
        let path = seq![letter_at(i)];
        if let Some(next) = self.child(i) {
            assert(next.descend(path.drop_first()) == Some(next));
        }
    }

    /// Describes this node: which slots are taken, by letter, and whether a
    /// word ends here.
    pub fn summary(&self) -> (text: String)
        ensures
            text@ == summary_text(self.taken(), self.ends_word()),
    {
        let mut text = String::from_str("{");
        let mut none_yet = true;
        let mut i: usize = 0;
        while i < 26
            invariant
                i <= 26,
                text@ == "{"@ + entries_text(self.taken(), i as nat),
                none_yet <==> entries_text(self.taken(), i as nat).len() == 0,
            decreases 26 - i,
        {
            if self.child_ref(i).is_some() {
                if !none_yet {
                    text.append(", ");
                }
                text.append("'");
                text.push(letter(i));
                text.append("': \"Some(TrieNode)\"");
                none_yet = false;
            }
            i += 1;
        }
        text.append("}, is_end_of_word: ");
        if self.marks_word() {
            text.append("true");
        } else {
            text.append("false");
        }
        text
    }
}

} // verus!
