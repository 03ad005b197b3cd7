//! What this crate believes of `std` without proof.

use vstd::prelude::*;

verus! {

/// The text that `str::to_lowercase` returns for `s`.
///
/// Nothing is known of it here beyond its being a function of `s`: the
/// lowering follows the Unicode tables that `std` was built with, takes no
/// locale into account, and so gives one result for one input.
pub uninterp spec fn unicode_lowercase(s: Seq<char>) -> Seq<char>;

/// `str::to_lowercase` returns the text named by [`unicode_lowercase`].
pub assume_specification[ str::to_lowercase ](s: &str) -> (lower: String)
    ensures
        lower@ == unicode_lowercase(s@),
;

/// `String::push` appends the one character `ch` and changes nothing else.
pub assume_specification[ String::push ](s: &mut String, ch: char)
    ensures
        final(s)@ == old(s)@.push(ch),
;

} // verus!
