use std::collections::HashSet;

use vstd::prelude::*;

verus! {

/// Whether a character has the Unicode `Uppercase` property.
pub uninterp spec fn upper_char(c: char) -> bool;

/// Whether a character has the Unicode `Lowercase` property.
pub uninterp spec fn lower_char(c: char) -> bool;

/// Whether a character has the Unicode `Alphabetic` property.
pub uninterp spec fn alphabetic_char(c: char) -> bool;

/// The Unicode lowercase mapping of a string.
pub uninterp spec fn lower_of(s: Seq<char>) -> Seq<char>;

/// Relies on `char::is_uppercase`: true exactly for the characters with the
/// Unicode `Uppercase` property, a function of the character alone.
#[verifier::external_body]
pub fn is_upper(c: char) -> (r: bool)
    ensures
        r == upper_char(c),
{
    c.is_uppercase()
}

/// Relies on `char::is_lowercase`: true exactly for the characters with the
/// Unicode `Lowercase` property, a function of the character alone.
#[verifier::external_body]
pub fn is_lower(c: char) -> (r: bool)
    ensures
        r == lower_char(c),
{
    c.is_lowercase()
}

/// Relies on `char::is_alphabetic`: true exactly for the characters with the
/// Unicode `Alphabetic` property, a function of the character alone.
#[verifier::external_body]
pub fn is_alphabetic(c: char) -> (r: bool)
    ensures
        r == alphabetic_char(c),
{
    c.is_alphabetic()
}

/// Relies on `str::to_lowercase`: the result depends on the characters alone,
/// and the empty string stays empty.
#[verifier::external_body]
pub fn to_lowercase(s: &str) -> (r: String)
    ensures
        r@ == lower_of(s@),
        s@.len() == 0 ==> r@.len() == 0,
{
    s.to_lowercase()
}

/// The Unicode uppercase mapping of a character: one to three characters.
pub uninterp spec fn upper_of(c: char) -> Seq<char>;

/// Relies on `char::to_uppercase`, collected into a vector: the characters of
/// the Unicode uppercase mapping of `c`, which depends on `c` alone.
#[verifier::external_body]
pub fn to_uppercase(c: char) -> (r: Vec<char>)
    ensures
        r@ == upper_of(c),
{
    c.to_uppercase().collect()
}

/// The characters of a string, in order.
pub fn chars_of(s: &str) -> (r: Vec<char>)
    ensures
        r@ == s@,
{
    let mut r: Vec<char> = Vec::new();
    for c in it: s.chars()
        invariant
            r@ == it.seq().take(it.index() as int),
    {
        r.push(c);
    }
    r
}

/// Relies on `String`'s `FromIterator<&char>`: the string made of the given
/// characters, in order.
#[verifier::external_body]
pub fn string_of(chars: &[char]) -> (r: String)
    ensures
        r@ == chars@,
{
    chars.iter().collect()
}

/// The words of a set of strings, each taken as its sequence of characters.
pub open spec fn words_of(set: HashSet<String>) -> Set<Seq<char>> {
    set@.map(|s: String| s@)
}

/// Relies on `HashSet::contains`: true exactly when the set holds a string
/// equal to `word`, and two strings are equal when they hold the same
/// characters.
#[verifier::external_body]
pub fn contains_word(set: &HashSet<String>, word: &String) -> (r: bool)
    ensures
        r == words_of(*set).contains(word@),
{
    set.contains(word)
}

/// Relies on `HashSet::insert`: afterwards the set also holds `word`, and
/// nothing else changed.
#[verifier::external_body]
pub fn insert_word(set: &mut HashSet<String>, word: String)
    ensures
        words_of(*final(set)) == words_of(*old(set)).insert(word@),
{
    set.insert(word);
}

/// Relies on `HashSet::contains`: true exactly when the set holds `c`.
#[verifier::external_body]
pub fn contains_char(set: &HashSet<char>, c: char) -> (r: bool)
    ensures
        r == set@.contains(c),
{
    set.contains(&c)
}

/// Relies on `HashSet::insert`: afterwards the set also holds `c`, and nothing
/// else changed.
#[verifier::external_body]
pub fn insert_char(set: &mut HashSet<char>, c: char)
    ensures
        final(set)@ == old(set)@.insert(c),
{
    set.insert(c);
}

} // verus!
