//! Listing the words below a node in dictionary order.

use vstd::prelude::*;
use crate::node::TrieNode;
use crate::order::{ascending, lemma_first_difference, lemma_prefix_precedes, precedes};
use crate::prefix::lemma_longer_prefix;
use crate::text::{is_lower, letter, letter_at, slot_of};

verus! {

impl TrieNode {
    /// `prefix` itself, where a word ends at this node.
    pub(crate) open spec fn listing_here(self, prefix: Seq<char>) -> Seq<Seq<char>> {
        if self.ends_word() {
            seq![prefix]
        } else {
            Seq::empty()
        }
    }

    /// The words at and below this node, each with `prefix` before it: first
    /// the word that ends here, then what the slots hold, from `a` to `z`.
    ///
    /// `height` bounds the depth to which the listing goes; see
    /// [`TrieNode::sound`].
    pub(crate) open spec fn listing(self, prefix: Seq<char>, height: nat) -> Seq<Seq<char>>
        decreases height, 27nat,
    {
        self.listing_here(prefix) + self.listing_below(prefix, height, 26)
    }

    /// The words below the first `slots` slots of this node.
    pub(crate) open spec fn listing_below(self, prefix: Seq<char>, height: nat, slots: nat) -> Seq<
        Seq<char>,
    >
        decreases height, slots,
    {
        if slots == 0 || slots > 26 || height == 0 {
            Seq::empty()
        } else {
            let before = self.listing_below(prefix, height, (slots - 1) as nat);
            match self.child(slots - 1) {
                Some(next) => before + next.listing(
                    prefix.push(letter_at(slots - 1)),
                    (height - 1) as nat,
                ),
                None => before,
            }
        }
    }

    /// Appends to `out` the words at and below this node, each with `prefix`
    /// before it, in dictionary order.
    pub(crate) fn collect_words(
        &self,
        prefix: &String,
        out: &mut Vec<String>,
        Ghost(height): Ghost<nat>,
    )
        requires
            self.sound(height),
        ensures
            final(out).deep_view() == old(out).deep_view() + self.listing(prefix@, height),
        decreases height,
    {
        let ghost base = out.deep_view();
        if self.marks_word() {
            out.push(prefix.clone());
        }
        let mut i: usize = 0;
        while i < 26
            invariant
                i <= 26,
                self.sound(height),
                out.deep_view() == base + self.listing_here(prefix@) + self.listing_below(
                    prefix@,
                    height,
                    i as nat,
                ),
            decreases 26 - i,
        {
            let ghost so_far = out.deep_view();
            match self.child_ref(i) {
                Some(next) => {
                    let mut longer = prefix.clone();
                    longer.push(letter(i));
                    next.collect_words(&longer, out, Ghost((height - 1) as nat));
                    proof {
                        let sub = next.listing(longer@, (height - 1) as nat);
                        assert(so_far + sub =~= base + self.listing_here(prefix@) + (
                        self.listing_below(prefix@, height, i as nat) + sub));
                    }
                },
                None => {},
            }
            i += 1;
        }
        proof {
            assert(base + self.listing_here(prefix@) + self.listing_below(prefix@, height, 26)
                =~= base + self.listing(prefix@, height));
        }
    }

    /// `k` is `prefix`, then a letter of one of the first `slots` slots, then
    /// what makes it a word held by this node.
    pub(crate) open spec fn under_slots(self, prefix: Seq<char>, k: Seq<char>, slots: nat) -> bool {
        &&& prefix.is_prefix_of(k)
        &&& k.len() > prefix.len()
        &&& is_lower(k[prefix.len() as int])
        &&& slot_of(k[prefix.len() as int]) < slots
        &&& self.holds(k.skip(prefix.len() as int))
    }

    /// The listing holds exactly the words at and below this node.
    pub(crate) proof fn lemma_listing_holds(self, prefix: Seq<char>, height: nat)
        requires
            self.sound(height),
        ensures
            forall|k: Seq<char>| #[trigger]
                self.listing(prefix, height).contains(k) <==> prefix.is_prefix_of(k) && self.holds(
                    k.skip(prefix.len() as int),
                ),
        decreases height, 27nat,
    {
        let here = self.listing_here(prefix);
        let below = self.listing_below(prefix, height, 26);
        self.lemma_listing_below_holds(prefix, height, 26);
        assert forall|k: Seq<char>| #[trigger]
            self.listing(prefix, height).contains(k) <==> prefix.is_prefix_of(k) && self.holds(
                k.skip(prefix.len() as int),
            ) by {
            lemma_contains_concat(here, below, k);
            if prefix.is_prefix_of(k) && k.len() == prefix.len() && self.ends_word() {
                assert(here[0] == k);
            }
        }
    }

    /// The listing of the first `slots` slots holds exactly the words below them.
    pub(crate) proof fn lemma_listing_below_holds(self, prefix: Seq<char>, height: nat, slots: nat)
        requires
            self.sound(height),
            slots <= 26,
        ensures
            forall|k: Seq<char>| #[trigger]
                self.listing_below(prefix, height, slots).contains(k) <==> self.under_slots(
                    prefix,
                    k,
                    slots,
                ),
        decreases height, slots,
    {
        if slots > 0 {
            let i = (slots - 1) as nat;
            let c = letter_at(i as int);
            let before = self.listing_below(prefix, height, i);
            self.lemma_listing_below_holds(prefix, height, i);
            match self.child(i as int) {
                Some(next) => {
                    let sub = next.listing(prefix.push(c), (height - 1) as nat);
                    next.lemma_listing_holds(prefix.push(c), (height - 1) as nat);
                    assert forall|k: Seq<char>| #[trigger]
                        self.listing_below(prefix, height, slots).contains(k)
                            <==> self.under_slots(prefix, k, slots) by {
                        lemma_contains_concat(before, sub, k);
                        lemma_longer_prefix(prefix, c, k);
                        if prefix.is_prefix_of(k) && k.len() > prefix.len()
                            && k[prefix.len() as int] == c {
                            self.lemma_under_slot(prefix, k, i);
                        }
                    }
                },
                None => {},
            }
        }
    }

    /// A word that goes on after `prefix` with the letter of slot `i` is held
    /// by this node exactly when the node in slot `i` holds what follows.
    pub(crate) proof fn lemma_under_slot(self, prefix: Seq<char>, k: Seq<char>, i: nat)
        requires
            i < 26,
            prefix.is_prefix_of(k),
            k.len() > prefix.len(),
            k[prefix.len() as int] == letter_at(i as int),
        ensures
            self.holds(k.skip(prefix.len() as int)) <==> (self.child(i as int) matches Some(next)
                && next.holds(k.skip(prefix.len() as int + 1))),
    {
        let t = k.skip(prefix.len() as int);
        assert(t.drop_first() =~= k.skip(prefix.len() as int + 1));
    }

    /// The listing is in dictionary order.
    pub(crate) proof fn lemma_listing_ascending(self, prefix: Seq<char>, height: nat)
        requires
            self.sound(height),
        ensures
            ascending(self.listing(prefix, height)),
        decreases height, 27nat,
    {
        let here = self.listing_here(prefix);
        let below = self.listing_below(prefix, height, 26);
        self.lemma_listing_below_ascending(prefix, height, 26);
        self.lemma_listing_below_holds(prefix, height, 26);
        assert forall|i: int, j: int| 0 <= i < here.len() && 0 <= j < below.len() implies precedes(
            #[trigger] here[i],
            #[trigger] below[j],
        ) by {
            assert(below.contains(below[j]));
            lemma_prefix_precedes(prefix, below[j]);
        }
    }

    /// The listing of the first `slots` slots is in dictionary order.
    pub(crate) proof fn lemma_listing_below_ascending(
        self,
        prefix: Seq<char>,
        height: nat,
        slots: nat,
    )
        requires
            self.sound(height),
            slots <= 26,
        ensures
            ascending(self.listing_below(prefix, height, slots)),
        decreases height, slots,
    {
        if slots > 0 {
            let i = (slots - 1) as nat;
            let c = letter_at(i as int);
            let n = prefix.len() as int;
            let before = self.listing_below(prefix, height, i);
            self.lemma_listing_below_ascending(prefix, height, i);
            if let Some(next) = self.child(i as int) {
                let sub = next.listing(prefix.push(c), (height - 1) as nat);
                next.lemma_listing_ascending(prefix.push(c), (height - 1) as nat);
                self.lemma_listing_below_holds(prefix, height, i);
                next.lemma_listing_holds(prefix.push(c), (height - 1) as nat);
                assert forall|x: int, y: int|
                    0 <= x < before.len() && 0 <= y < sub.len() implies precedes(
                    #[trigger] before[x],
                    #[trigger] sub[y],
                ) by {
                    let a = before[x];
                    let b = sub[y];
                    assert(before.contains(a));
                    assert(sub.contains(b));
                    lemma_longer_prefix(prefix, c, b);
                    lemma_first_difference(a, b, n);
                }
            }
        }
    }
}

/// What a joined list contains is what either part contains.
pub(crate) proof fn lemma_contains_concat(x: Seq<Seq<char>>, y: Seq<Seq<char>>, k: Seq<char>)
    ensures
        (x + y).contains(k) <==> x.contains(k) || y.contains(k),
{
    let z = x + y;
    if z.contains(k) {
        let i = choose|i: int| 0 <= i < z.len() && z[i] == k;
        assert(i < x.len() || y[i - x.len()] == k);
    }
    if x.contains(k) {
        let i = choose|i: int| 0 <= i < x.len() && x[i] == k;
        assert(z[i] == k);
    }
    if y.contains(k) {
        let i = choose|i: int| 0 <= i < y.len() && y[i] == k;
        assert(z[i + x.len()] == k);
    }
}

} // verus!
