//! A prefix tree over words of the lower-case letters `a` to `z`.
//!
//! Words go in through [`trie::Trie::insert`], are looked up by
//! [`trie::Trie::contains`] and are listed, in dictionary order, by
//! [`trie::Trie::words`]. Text is read without regard to case; what is not a
//! letter is dropped by `insert` and `words` and refused by `contains`.
//!
//! Every function is verified against the model in its contract. The two
//! facts about `std` that are taken on trust stand in [`assumed`].

pub mod assumed;
pub mod text;
pub mod prefix;
pub mod order;
pub mod node;
pub mod walk;
pub mod listing;
pub mod summary;
pub mod trie;
pub mod laws;

pub use crate::node::TrieNode;
pub use crate::trie::Trie;
