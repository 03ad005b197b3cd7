//! From text to keys.
//!
//! A key is a sequence of the letters `a` to `z`. Text becomes a key by
//! folding it (see [`folded`]) and reading its ASCII letters in lower case.
//! What is done with the other characters differs: [`loose_key`] drops them,
//! [`strict_key`] refuses the text.

use vstd::prelude::*;
use vstd::utf8::is_ascii_chars;
use crate::assumed::unicode_lowercase;

verus! {

/// `c` is one of `a` to `z`.
pub open spec fn is_lower(c: char) -> bool {
    'a' <= c && c <= 'z'
}

/// `c` is one of `A` to `Z`.
pub open spec fn is_upper(c: char) -> bool {
    'A' <= c && c <= 'Z'
}

/// `c` is an ASCII letter of either case.
pub open spec fn is_letter(c: char) -> bool {
    is_lower(c) || is_upper(c)
}

/// `c` in lower case, where `c` is an ASCII capital; any other `c` unchanged.
pub open spec fn lowered(c: char) -> char {
    if is_upper(c) {
        ((c as u8) + 32) as char
    } else {
        c
    }
}

/// `c` as a capital, where `c` is one of `a` to `z`; any other `c` unchanged.
pub open spec fn raised(c: char) -> char {
    if is_lower(c) {
        ((c as u8) - 32) as char
    } else {
        c
    }
}

/// Every character of `k` is one of `a` to `z`.
pub open spec fn is_key(k: Seq<char>) -> bool {
    forall|i: int| 0 <= i < k.len() ==> is_lower(#[trigger] k[i])
}

/// Every character of `s` is an ASCII letter.
pub open spec fn all_letters(s: Seq<char>) -> bool {
    forall|i: int| 0 <= i < s.len() ==> is_letter(#[trigger] s[i])
}

/// `s` with its ASCII capitals in lower case.
pub open spec fn lower_text(s: Seq<char>) -> Seq<char> {
    s.map_values(|c: char| lowered(c))
}

/// `s` with its letters `a` to `z` as capitals.
pub open spec fn upper_text(s: Seq<char>) -> Seq<char> {
    s.map_values(|c: char| raised(c))
}

/// The ASCII letters of `s`, in their order and in lower case.
pub open spec fn letters(s: Seq<char>) -> Seq<char> {
    lower_text(s.filter(|c: char| is_letter(c)))
}

/// `s` in lower case, which is the text that letters are looked for in.
///
/// Text that is ASCII throughout is lowered here, letter by letter. Text
/// with any other character is lowered by `std`, under the Unicode rules: a
/// few characters outside ASCII become ASCII letters that way.
pub open spec fn folded(s: Seq<char>) -> Seq<char> {
    if is_ascii_chars(s) {
        lower_text(s)
    } else {
        unicode_lowercase(s)
    }
}

/// The key that `s` stands for when what is not a letter is dropped.
pub open spec fn loose_key(s: Seq<char>) -> Seq<char> {
    letters(folded(s))
}

/// The key that `s` stands for when what is not a letter is refused.
pub open spec fn strict_key(s: Seq<char>) -> Option<Seq<char>> {
    if all_letters(folded(s)) {
        Some(letters(folded(s)))
    } else {
        None
    }
}

/// The place of the letter `c` in the alphabet, counted from 0.
pub open spec fn slot_of(c: char) -> int {
    c as int - 'a' as int
}

/// The letter at place `i` of the alphabet.
pub open spec fn letter_at(i: int) -> char {
    (i + 'a' as int) as char
}

/// The letters of a sequence are those of all but its last character, and
/// that character where it is a letter.
pub proof fn lemma_letters_by_last(s: Seq<char>)
    requires
        s.len() > 0,
    ensures
        letters(s) == if is_letter(s.last()) {
            letters(s.drop_last()).push(lowered(s.last()))
        } else {
            letters(s.drop_last())
        },
{
    reveal(Seq::filter);
}

/// A key is its own letters.
pub proof fn lemma_letters_of_key(k: Seq<char>)
    requires
        is_key(k),
    ensures
        letters(k) == k,
    decreases k.len(),
{
    if k.len() > 0 {
        lemma_letters_of_key(k.drop_last());
        lemma_letters_by_last(k);
    }
}

/// Letters are found without regard to case: two sequences that are equal
/// once lowered have the same letters.
pub proof fn lemma_letters_ignore_case(s: Seq<char>, t: Seq<char>)
    requires
        lower_text(s) == lower_text(t),
    ensures
        letters(s) == letters(t),
        all_letters(s) <==> all_letters(t),
    decreases s.len(),
{
    assert(s.len() == lower_text(s).len());
    assert forall|i: int| 0 <= i < s.len() implies lowered(s[i]) == lowered(t[i]) by {
        assert(lower_text(s)[i] == lowered(s[i]));
    }
    if s.len() > 0 {
        assert(lower_text(s.drop_last()) =~= lower_text(s).drop_last());
        assert(lower_text(t.drop_last()) =~= lower_text(t).drop_last());
        lemma_letters_ignore_case(s.drop_last(), t.drop_last());
        lemma_letters_by_last(s);
        lemma_letters_by_last(t);
    }
}

/// Lowering twice is lowering once.
pub proof fn lemma_lower_text_twice(s: Seq<char>)
    ensures
        lower_text(lower_text(s)) == lower_text(s),
{
}

/// Lowering ASCII text changes neither its letters nor whether it is letters
/// throughout.
pub proof fn lemma_lowering_keeps_letters(s: Seq<char>)
    ensures
        letters(lower_text(s)) == letters(s),
        all_letters(lower_text(s)) <==> all_letters(s),
{
    lemma_lower_text_twice(s);
    lemma_letters_ignore_case(lower_text(s), s);
}

/// Text of letters is ASCII, and stays text of letters in either case.
pub proof fn lemma_letters_either_case(s: Seq<char>)
    requires
        all_letters(s),
    ensures
        is_ascii_chars(s),
        is_ascii_chars(lower_text(s)),
        is_ascii_chars(upper_text(s)),
        lower_text(lower_text(s)) == lower_text(s),
        lower_text(upper_text(s)) == lower_text(s),
{
    assert(lower_text(lower_text(s)) =~= lower_text(s));
    assert(lower_text(upper_text(s)) =~= lower_text(s));
}

/// Classifies one character: the lower-case letter it stands for, if any.
pub fn letter_of(c: char) -> (letter: Option<char>)
    ensures
        letter == if is_letter(c) {
            Some(lowered(c))
        } else {
            None::<char>
        },
        letter matches Some(l) ==> is_lower(l),
{
    if 'a' <= c && c <= 'z' {
        Some(c)
    } else if 'A' <= c && c <= 'Z' {
        Some(((c as u8) + 32) as char)
    } else {
        None
    }
}

/// The place in the alphabet of a lower-case letter.
pub(crate) fn slot(c: char) -> (i: usize)
    requires
        is_lower(c),
    ensures
        i == slot_of(c),
        i < 26,
        letter_at(i as int) == c,
{
    (c as usize) - 97
}

/// The letter at a place of the alphabet.
pub(crate) fn letter(i: usize) -> (c: char)
    requires
        i < 26,
    ensures
        c == letter_at(i as int),
        is_lower(c),
        slot_of(c) == i,
{
    (97u8 + i as u8) as char
}

/// The letters of `text`, lowered, with every other character left out.
pub fn scan_loose(text: &str) -> (key: Vec<char>)
    ensures
        key@ == letters(text@),
        is_key(key@),
{
    let mut key: Vec<char> = Vec::new();
    for c in it: text.chars()
        invariant
            it.seq() == text@,
            key@ == letters(text@.take(it.index())),
            is_key(key@),
    {
        proof {
            assert(text@.take(it.index() + 1).drop_last() == text@.take(it.index()));
            lemma_letters_by_last(text@.take(it.index() + 1));
        }
        match letter_of(c) {
            Some(l) => key.push(l),
            None => {},
        }
    }
    proof {
        assert(text@.take(text@.len() as int) == text@);
    }
    key
}

/// The letters of `text`, lowered, unless some character is no letter.
pub fn scan_strict(text: &str) -> (key: Option<Vec<char>>)
    ensures
        key is Some <==> all_letters(text@),
        key matches Some(k) ==> k@ == letters(text@) && is_key(k@),
{
    let mut key: Vec<char> = Vec::new();
    for c in it: text.chars()
        invariant
            it.seq() == text@,
            key@ == letters(text@.take(it.index())),
            is_key(key@),
            all_letters(text@.take(it.index())),
    {
        proof {
            assert(text@.take(it.index() + 1).drop_last() == text@.take(it.index()));
            lemma_letters_by_last(text@.take(it.index() + 1));
        }
        match letter_of(c) {
            Some(l) => key.push(l),
            None => {
                return None;
            },
        }
    }
    proof {
        assert(text@.take(text@.len() as int) == text@);
    }
    Some(key)
}

/// The key of `word` for `insert` and `words`: see [`loose_key`].
pub fn loose_key_of(word: &str) -> (key: Vec<char>)
    ensures
        key@ == loose_key(word@),
        is_key(key@),
{
    if word.is_ascii() {
        proof {
            lemma_lowering_keeps_letters(word@);
        }
        scan_loose(word)
    } else {
        let lower = word.to_lowercase();
        scan_loose(lower.as_str())
    }
}

/// The key of `word` for `contains`: see [`strict_key`].
pub fn strict_key_of(word: &str) -> (key: Option<Vec<char>>)
    ensures
        match key {
            Some(k) => strict_key(word@) == Some(k@) && is_key(k@),
            None => strict_key(word@) is None,
        },
{
    if word.is_ascii() {
        proof {
            lemma_lowering_keeps_letters(word@);
        }
        scan_strict(word)
    } else {
        let lower = word.to_lowercase();
        scan_strict(lower.as_str())
    }
}

/// The characters of `key` as a string.
pub(crate) fn text_of(key: &Vec<char>) -> (text: String)
    ensures
        text@ == key@,
{
    let mut text = String::new();
    let mut i: usize = 0;
    while i < key.len()
        invariant
            i <= key.len(),
            text@ == key@.take(i as int),
        decreases key.len() - i,
    {
        text.push(key[i]);
        i += 1;
    }
    text
}

} // verus!
