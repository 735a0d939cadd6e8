use std::collections::HashSet;

use vstd::prelude::*;
use vstd::string::StrSliceExecFns;
use vstd::utf8::{decode_utf8, pop_first_scalar, valid_utf8};

use utf8_chars::BufReadCharsExt;

use crate::errors::AntisepticError;
use crate::text::{
    alphabetic_char, chars_of, contains_char, contains_word, is_alphabetic, is_lower, is_upper,
    lower_char, lower_of, string_of, to_lowercase, upper_char, words_of,
};

verus! {

/// Where a token starts: the file it was read from, its line (counted from 1)
/// and the column of its first character (counted from 1).
pub struct ReadPosition {
    pub file: String,
    pub line_no: u64,
    pub char_no: u64,
}

/// A sub-word that the dictionary does not hold, with the line and column of
/// its first character.
pub struct Mistake {
    pub word: String,
    pub line_no: u64,
    pub char_no: u64,
}

/// The mathematical value of a [`Mistake`].
pub struct Flag {
    pub word: Seq<char>,
    pub line: int,
    pub column: int,
}

impl View for Mistake {
    type V = Flag;

    open spec fn view(&self) -> Flag {
        Flag { word: self.word@, line: self.line_no as int, column: self.char_no as int }
    }
}

/// The values of a sequence of mistakes.
pub open spec fn flags_of(v: Seq<Mistake>) -> Seq<Flag> {
    v.map_values(|m: Mistake| m@)
}

/// A sub-word is a mistake when it is longer than three characters and its
/// lowercase form is not among the allowed words.
pub open spec fn word_incorrect(word: Seq<char>, words: Set<Seq<char>>) -> bool {
    incorrect_lowered(word, lower_of(word), words)
}

/// The state of the casing splitter after part of a token: the sub-word being
/// read and the offset in the token of its first character, whether an
/// uppercase letter closes it, whether it is read as an acronym, and the
/// sub-words closed so far with their offsets.
pub struct Splitter {
    pub word: Seq<char>,
    pub start: int,
    pub new_word_on_upper: bool,
    pub is_acronym: bool,
    pub parts: Seq<(Seq<char>, int)>,
}

/// The splitter's state once it has also read `c`, the character at offset
/// `i` of the token. `upper[k]` tells whether the token's character at `k` is
/// uppercase, `lower[k]` whether it is lowercase; the sub-word being read
/// starts at offset `m.start`. The kind of a sub-word is decided on its
/// second character; later characters may close it.
pub open spec fn split_step(m: Splitter, c: char, i: int, upper: Seq<bool>, lower: Seq<bool>) -> Splitter {
    if m.word.len() == 1 {
        if lower[m.start] && upper[i] {
            // A lowercase letter followed by an uppercase one is a word of its own.
            Splitter { word: seq![c], start: i, parts: m.parts.push((m.word, m.start)), ..m }
        } else if upper[i] {
            Splitter { word: m.word.push(c), is_acronym: true, ..m }
        } else {
            Splitter { word: m.word.push(c), new_word_on_upper: true, ..m }
        }
    } else if m.word.len() > 1 {
        if m.new_word_on_upper && upper[i] {
            Splitter {
                word: seq![c],
                start: i,
                new_word_on_upper: false,
                parts: m.parts.push((m.word, m.start)),
                ..m
            }
        } else if m.is_acronym && !upper[i] {
            // The last capital of an acronym starts the next word.
            Splitter {
                word: seq![m.word.last(), c],
                start: i - 1,
                is_acronym: false,
                parts: m.parts.push((m.word.drop_last(), m.start)),
                ..m
            }
        } else {
            Splitter { word: m.word.push(c), ..m }
        }
    } else {
        Splitter { word: m.word.push(c), start: i, ..m }
    }
}

/// The splitter's state after reading all of `token`, with the casing of
/// its characters given by `upper` and `lower`.
pub open spec fn split_prefix(token: Seq<char>, upper: Seq<bool>, lower: Seq<bool>) -> Splitter
    decreases token.len(),
{
    if token.len() == 0 {
        Splitter {
            word: seq![],
            start: 0,
            new_word_on_upper: false,
            is_acronym: false,
            parts: seq![],
        }
    } else {
        split_step(
            split_prefix(token.drop_last(), upper, lower),
            token.last(),
            token.len() - 1,
            upper,
            lower,
        )
    }
}

/// The sub-words of a token whose characters have the casing that `upper`
/// and `lower` give, each with the offset of its first character.
pub open spec fn sub_words_cased(token: Seq<char>, upper: Seq<bool>, lower: Seq<bool>) -> Seq<
    (Seq<char>, int),
> {
    let m = split_prefix(token, upper, lower);
    if m.word.len() > 0 {
        m.parts.push((m.word, m.start))
    } else {
        m.parts
    }
}

/// Which characters of `token` are uppercase.
pub open spec fn upper_flags(token: Seq<char>) -> Seq<bool> {
    token.map_values(|c: char| upper_char(c))
}

/// Which characters of `token` are lowercase.
pub open spec fn lower_flags(token: Seq<char>) -> Seq<bool> {
    token.map_values(|c: char| lower_char(c))
}

/// The sub-words of a token, each with the offset of its first character.
pub open spec fn sub_words(token: Seq<char>) -> Seq<(Seq<char>, int)> {
    sub_words_cased(token, upper_flags(token), lower_flags(token))
}

/// A sub-word is a mistake when it is longer than three characters and
/// `lowered`, its lowercase form, is not among the allowed words.
pub open spec fn incorrect_lowered(word: Seq<char>, lowered: Seq<char>, words: Set<Seq<char>>) -> bool {
    word.len() > 3 && !words.contains(lowered)
}

/// The mistakes among `parts`, sub-words of a token whose first character is
/// at `line` and `column`, where `lowered[k]` is the lowercase form of the
/// sub-word `parts[k]`.
pub open spec fn flags_lowered(
    parts: Seq<(Seq<char>, int)>,
    lowered: Seq<Seq<char>>,
    line: int,
    column: int,
    words: Set<Seq<char>>,
) -> Seq<Flag>
    decreases parts.len(),
{
    if parts.len() == 0 {
        seq![]
    } else {
        let before = flags_lowered(parts.drop_last(), lowered, line, column, words);
        let k = parts.len() - 1;
        if incorrect_lowered(parts[k].0, lowered[k], words) {
            before.push(Flag { word: parts[k].0, line, column: column + parts[k].1 })
        } else {
            before
        }
    }
}

/// The lowercase forms of the sub-words `parts`.
pub open spec fn lowered_parts(parts: Seq<(Seq<char>, int)>) -> Seq<Seq<char>> {
    parts.map_values(|p: (Seq<char>, int)| lower_of(p.0))
}

/// The mistakes among `parts`, sub-words of a token whose first character is
/// at `line` and `column`.
pub open spec fn part_flags(
    parts: Seq<(Seq<char>, int)>,
    line: int,
    column: int,
    words: Set<Seq<char>>,
) -> Seq<Flag> {
    flags_lowered(parts, lowered_parts(parts), line, column, words)
}

/// The mistakes in a token whose first character is at `line` and `column`.
pub open spec fn token_flags(token: Seq<char>, line: int, column: int, words: Set<Seq<char>>) -> Seq<
    Flag,
> {
    part_flags(sub_words(token), line, column, words)
}

/// Whether `word` is longer than three characters and its lowercase form is
/// not in `words_allowed`.
fn misspelled(word: &String, words_allowed: &HashSet<String>) -> (r: bool)
    ensures
        r == word_incorrect(word@, words_of(*words_allowed)),
{
    if word.as_str().unicode_len() <= 3 {
        return false;
    }
    let lower_word = to_lowercase(word.as_str());
    !contains_word(words_allowed, &lower_word)
}

/// Whether `word` is a spelling mistake: it is longer than three characters
/// and its lowercase form is not in `words_allowed`. The position is where the
/// caller reports the word; it does not change the answer.
pub fn word_is_incorrect(
    read_position: &ReadPosition,
    word: &String,
    words_allowed: &HashSet<String>,
) -> (r: bool)
    ensures
        r == word_incorrect(word@, words_of(*words_allowed)),
{
    let _ = read_position;
    misspelled(word, words_allowed)
}

/// The values of a token's sub-words, each with its offset.
pub open spec fn parts_of(v: Seq<(String, usize)>) -> Seq<(Seq<char>, int)> {
    v.map_values(|p: (String, usize)| (p.0@, p.1 as int))
}

/// Closes the sub-word held in `word`, which starts at `start`.
fn close_part(out: &mut Vec<(String, usize)>, word: &Vec<char>, start: usize)
    ensures
        parts_of(final(out)@) == parts_of(old(out)@).push((word@, start as int)),
{
    let text = string_of(word.as_slice());
    out.push((text, start));
    assert(parts_of(out@) =~= parts_of(old(out)@).push((word@, start as int)));
}

/// Splits a token into its sub-words at casing boundaries, each with the
/// offset of its first character, where `upper[k]` and `lower[k]` tell
/// whether the character at `k` is uppercase and lowercase.
pub fn split_cased(token: &Vec<char>, upper: &Vec<bool>, lower: &Vec<bool>) -> (r: Vec<
    (String, usize),
>)
    requires
        upper@.len() == token@.len(),
        lower@.len() == token@.len(),
    ensures
        parts_of(r@) == sub_words_cased(token@, upper@, lower@),
{
    let mut out: Vec<(String, usize)> = Vec::new();
    let mut word: Vec<char> = Vec::new();
    let mut start: usize = 0;
    let mut new_word_on_upper = false;
    let mut is_acronym = false;
    let mut i: usize = 0;
    assert(parts_of(out@) =~= seq![]);
    while i < token.len()
        invariant
            0 <= i <= token@.len(),
            upper@.len() == token@.len(),
            lower@.len() == token@.len(),
            split_prefix(token@.take(i as int), upper@, lower@) == (Splitter {
                word: word@,
                start: start as int,
                new_word_on_upper,
                is_acronym,
                parts: parts_of(out@),
            }),
            i > 0 ==> word@.len() > 0,
            i > 0 ==> start < i,
        decreases token@.len() - i,
    {
        let c = token[i];
        let up = upper[i];
        proof {
            assert(token@.take(i + 1).drop_last() =~= token@.take(i as int));
            assert(token@.take(i + 1).last() == c);
        }
        if word.len() == 1 {
            if lower[start] && up {
                close_part(&mut out, &word, start);
                word.clear();
                word.push(c);
                start = i;
                assert(word@ =~= seq![c]);
            } else if up {
                is_acronym = true;
                word.push(c);
            } else {
                new_word_on_upper = true;
                word.push(c);
            }
        } else if word.len() > 1 {
            if new_word_on_upper && up {
                close_part(&mut out, &word, start);
                word.clear();
                word.push(c);
                start = i;
                new_word_on_upper = false;
                assert(word@ =~= seq![c]);
            } else if is_acronym && !up {
                let ghost whole = word@;
                let previous = word.pop().unwrap();
                assert(word@ =~= whole.drop_last());
                close_part(&mut out, &word, start);
                word.clear();
                word.push(previous);
                word.push(c);
                start = i - 1;
                is_acronym = false;
                assert(word@ =~= seq![whole.last(), c]);
            } else {
                word.push(c);
            }
        } else {
            word.push(c);
            start = i;
        }
        i = i + 1;
    }
    assert(token@.take(i as int) =~= token@);
    if word.len() > 0 {
        close_part(&mut out, &word, start);
    }
    out
}

/// Splits a token into its sub-words at casing boundaries, each with the
/// offset of its first character in the token: `ABCMethod` gives `ABC` and
/// `Method`, `leftRight` gives `left` and `Right`, `aBig` gives `a` and `Big`.
pub fn split_token(token: &Vec<char>) -> (r: Vec<(String, usize)>)
    ensures
        parts_of(r@) == sub_words(token@),
{
    let mut upper: Vec<bool> = Vec::new();
    let mut lower: Vec<bool> = Vec::new();
    let mut i: usize = 0;
    while i < token.len()
        invariant
            0 <= i <= token@.len(),
            upper@ == upper_flags(token@.take(i as int)),
            lower@ == lower_flags(token@.take(i as int)),
        decreases token@.len() - i,
    {
        upper.push(is_upper(token[i]));
        lower.push(is_lower(token[i]));
        assert(upper@ =~= upper_flags(token@.take(i + 1)));
        assert(lower@ =~= lower_flags(token@.take(i + 1)));
        i = i + 1;
    }
    assert(token@.take(i as int) =~= token@);
    split_cased(token, &upper, &lower)
}

/// The sub-words of a token of `n` characters start inside it.
proof fn lemma_split_offsets(token: Seq<char>, upper: Seq<bool>, lower: Seq<bool>)
    ensures
        forall|k: int|
            0 <= k < sub_words_cased(token, upper, lower).len() ==> 0
                <= #[trigger] sub_words_cased(token, upper, lower)[k].1 < token.len(),
        forall|k: int|
            0 <= k < split_prefix(token, upper, lower).parts.len() ==> 0
                <= #[trigger] split_prefix(token, upper, lower).parts[k].1 < token.len(),
        token.len() > 0 ==> split_prefix(token, upper, lower).word.len() > 0 && 0 <= split_prefix(
            token,
            upper,
            lower,
        ).start < token.len(),
    decreases token.len(),
{
    if token.len() > 0 {
        let prev = token.drop_last();
        lemma_split_offsets(prev, upper, lower);
        let m = split_prefix(prev, upper, lower);
        let n = split_prefix(token, upper, lower);
        assert(n == split_step(m, token.last(), token.len() - 1, upper, lower));
        assert forall|k: int| 0 <= k < n.parts.len() implies 0 <= #[trigger] n.parts[k].1
            < token.len() by {
            if k < m.parts.len() {
                assert(n.parts[k] == m.parts[k]);
            }
        }
        assert forall|k: int| 0 <= k < sub_words_cased(token, upper, lower).len() implies 0
            <= #[trigger] sub_words_cased(token, upper, lower)[k].1 < token.len() by {
            if k < n.parts.len() {
                assert(sub_words_cased(token, upper, lower)[k] == n.parts[k]);
            }
        }
    }
}

/// The mistakes among the sub-words `parts` of a token whose first character
/// is at `line_no` and `char_no`, where `lowered[k]` is the lowercase form of
/// `parts[k]`: each flagged sub-word is reported at the column of its own
/// first character.
pub fn flag_sub_words(
    parts: &Vec<(String, usize)>,
    lowered: &Vec<String>,
    line_no: u64,
    char_no: u64,
    words_allowed: &HashSet<String>,
) -> (r: Vec<Mistake>)
    requires
        lowered@.len() == parts@.len(),
        forall|k: int| 0 <= k < parts@.len() ==> char_no + (#[trigger] parts@[k]).1 <= u64::MAX,
    ensures
        flags_of(r@) == flags_lowered(
            parts_of(parts@),
            lowered@.map_values(|s: String| s@),
            line_no as int,
            char_no as int,
            words_of(*words_allowed),
        ),
{
    let ghost words = words_of(*words_allowed);
    let ghost all = parts_of(parts@);
    let ghost low = lowered@.map_values(|s: String| s@);
    let mut out: Vec<Mistake> = Vec::new();
    let mut k: usize = 0;
    assert(flags_of(out@) =~= seq![]);
    while k < parts.len()
        invariant
            0 <= k <= parts@.len(),
            lowered@.len() == parts@.len(),
            all == parts_of(parts@),
            low == lowered@.map_values(|s: String| s@),
            words == words_of(*words_allowed),
            forall|j: int| 0 <= j < parts@.len() ==> char_no + (#[trigger] parts@[j]).1 <= u64::MAX,
            flags_of(out@) == flags_lowered(all.take(k as int), low, line_no as int, char_no as int, words),
        decreases parts@.len() - k,
    {
        let part = &parts[k];
        assert(all.take(k + 1).drop_last() =~= all.take(k as int));
        assert(all.take(k + 1)[k as int] == (part.0@, part.1 as int));
        assert(low[k as int] == lowered@[k as int]@);
        if part.0.as_str().unicode_len() > 3 && !contains_word(words_allowed, &lowered[k]) {
            let ghost before = out@;
            out.push(Mistake { word: part.0.clone(), line_no, char_no: char_no + part.1 as u64 });
            assert(flags_of(out@) =~= flags_of(before).push(
                Flag { word: part.0@, line: line_no as int, column: char_no + part.1 },
            ));
        }
        k = k + 1;
    }
    assert(all.take(k as int) =~= all);
    out
}

/// The mistakes among the sub-words of `token`, whose first character is at
/// `line_no` and `char_no`: each flagged sub-word is reported at the column of
/// its own first character.
pub fn sub_word_mistakes(
    token: &Vec<char>,
    line_no: u64,
    char_no: u64,
    words_allowed: &HashSet<String>,
) -> (r: Vec<Mistake>)
    requires
        char_no + token@.len() <= u64::MAX,
    ensures
        flags_of(r@) == token_flags(
            token@,
            line_no as int,
            char_no as int,
            words_of(*words_allowed),
        ),
{
    let parts = split_token(token);
    proof {
        lemma_split_offsets(token@, upper_flags(token@), lower_flags(token@));
    }
    let ghost all = parts_of(parts@);
    let mut lowered: Vec<String> = Vec::new();
    let mut k: usize = 0;
    while k < parts.len()
        invariant
            0 <= k <= parts@.len(),
            all == parts_of(parts@),
            lowered@.map_values(|s: String| s@) == lowered_parts(all.take(k as int)),
        decreases parts@.len() - k,
    {
        let ghost before = lowered@;
        let low = to_lowercase(parts[k].0.as_str());
        assert(all[k as int].0 == parts@[k as int].0@);
        assert(low@ == lower_of(all.take(k + 1)[k as int].0));
        lowered.push(low);
        assert(lowered@.map_values(|s: String| s@) =~= before.map_values(|s: String| s@).push(low@));
        assert(lowered_parts(all.take(k + 1)) =~= lowered_parts(all.take(k as int)).push(low@));
        k = k + 1;
    }
    assert(all.take(k as int) =~= all);
    assert forall|j: int| 0 <= j < parts@.len() implies char_no + (#[trigger] parts@[j]).1 <= u64::MAX by {
        assert(all[j].1 == parts@[j].1);
    }
    flag_sub_words(&parts, &lowered, line_no, char_no, words_allowed)
}

/// A word whose lowercase form is in the dictionary is never a mistake,
/// whatever its casing.
pub proof fn lemma_dictionary_word_in_any_casing(words: Set<Seq<char>>, w: Seq<char>, v: Seq<char>)
    requires
        words.contains(w),
        lower_of(v) == w,
    ensures
        !word_incorrect(v, words),
{
}

/// A word of at most three characters is never a mistake, whatever the
/// dictionary holds.
pub proof fn lemma_short_word_never_incorrect(s: Seq<char>, words: Set<Seq<char>>)
    requires
        s.len() <= 3,
    ensures
        !word_incorrect(s, words),
{
}

/// A single lowercase letter before a capital is a sub-word of its own and is
/// never flagged: `aBig`, cased as written, splits into `a` and `Big`, and
/// neither is a mistake, whatever the dictionary holds.
pub proof fn lemma_single_letter_word(
    lowered: Seq<Seq<char>>,
    line: int,
    column: int,
    words: Set<Seq<char>>,
)
    ensures
        sub_words_cased(
            seq!['a', 'B', 'i', 'g'],
            seq![false, true, false, false],
            seq![true, false, true, true],
        ) == seq![(seq!['a'], 0int), (seq!['B', 'i', 'g'], 1int)],
        flags_lowered(seq![(seq!['a'], 0int), (seq!['B', 'i', 'g'], 1int)], lowered, line, column, words).len() == 0,
{
    let t = seq!['a', 'B', 'i', 'g'];
    let up = seq![false, true, false, false];
    let low = seq![true, false, true, true];
    assert(seq!['a'].drop_last() =~= seq![]);
    assert(split_prefix(seq![], up, low).word.len() == 0);
    let m1 = split_prefix(seq!['a'], up, low);
    assert(m1.word =~= seq!['a'] && m1.start == 0 && m1.new_word_on_upper == false && m1.is_acronym == false);
    assert(m1.parts =~= Seq::<(Seq<char>, int)>::empty());
    assert(seq!['a', 'B'].drop_last() =~= seq!['a']);
    let m2 = split_prefix(seq!['a', 'B'], up, low);
    assert(m2.word =~= seq!['B'] && m2.start == 1 && m2.new_word_on_upper == false && m2.is_acronym == false);
    assert(m2.parts =~= seq![(seq!['a'], 0int)]);
    assert(seq!['a', 'B', 'i'].drop_last() =~= seq!['a', 'B']);
    let m3 = split_prefix(seq!['a', 'B', 'i'], up, low);
    assert(m3.word =~= seq!['B', 'i'] && m3.start == 1 && m3.new_word_on_upper == true && m3.is_acronym == false);
    assert(m3.parts =~= seq![(seq!['a'], 0int)]);
    assert(seq!['a', 'B', 'i', 'g'].drop_last() =~= seq!['a', 'B', 'i']);
    let m4 = split_prefix(seq!['a', 'B', 'i', 'g'], up, low);
    assert(m4.word =~= seq!['B', 'i', 'g'] && m4.start == 1 && m4.new_word_on_upper == true && m4.is_acronym == false);
    assert(m4.parts =~= seq![(seq!['a'], 0int)]);
    let m = split_prefix(t, up, low);
    assert(m.parts =~= seq![(seq!['a'], 0int)]);
    assert(m.word =~= seq!['B', 'i', 'g']);
    assert(sub_words_cased(t, up, low) =~= seq![(seq!['a'], 0int), (seq!['B', 'i', 'g'], 1int)]);
    let parts = seq![(seq!['a'], 0int), (seq!['B', 'i', 'g'], 1int)];
    assert(parts.drop_last() =~= seq![(seq!['a'], 0int)]);
    assert(parts.drop_last().drop_last() =~= seq![]);
    reveal_with_fuel(flags_lowered, 3);
}

/// An acronym followed by a capitalized word splits before the word's
/// capital: `ABCMethod`, cased as written, splits into `ABC` and `Method`, and
/// with `abc` and `method` in the dictionary nothing is flagged.
#[verifier::spinoff_prover]
#[verifier::rlimit(50)]
pub proof fn lemma_acronym_then_word(line: int, column: int, words: Set<Seq<char>>)
    requires
        words.contains(seq!['a', 'b', 'c']),
        words.contains(seq!['m', 'e', 't', 'h', 'o', 'd']),
    ensures
        sub_words_cased(seq!['A', 'B', 'C', 'M', 'e', 't', 'h', 'o', 'd'], seq![true, true, true, true, false, false, false, false, false], seq![false, false, false, false, true, true, true, true, true]) == seq![(seq!['A', 'B', 'C'], 0int), (seq!['M', 'e', 't', 'h', 'o', 'd'], 3int)],
        flags_lowered(seq![(seq!['A', 'B', 'C'], 0int), (seq!['M', 'e', 't', 'h', 'o', 'd'], 3int)], seq![seq!['a', 'b', 'c'], seq!['m', 'e', 't', 'h', 'o', 'd']], line, column, words).len() == 0,
{
    let t = seq!['A', 'B', 'C', 'M', 'e', 't', 'h', 'o', 'd'];
    let up = seq![true, true, true, true, false, false, false, false, false];
    let low = seq![false, false, false, false, true, true, true, true, true];
    assert(seq!['A'].drop_last() =~= seq![]);
    assert(split_prefix(seq![], up, low).word.len() == 0);
    let m1 = split_prefix(seq!['A'], up, low);
    assert(m1.word =~= seq!['A'] && m1.start == 0 && m1.new_word_on_upper == false && m1.is_acronym == false);
    assert(m1.parts =~= Seq::<(Seq<char>, int)>::empty());
    assert(seq!['A', 'B'].drop_last() =~= seq!['A']);
    let m2 = split_prefix(seq!['A', 'B'], up, low);
    assert(m2.word =~= seq!['A', 'B'] && m2.start == 0 && m2.new_word_on_upper == false && m2.is_acronym == true);
    assert(m2.parts =~= Seq::<(Seq<char>, int)>::empty());
    assert(seq!['A', 'B', 'C'].drop_last() =~= seq!['A', 'B']);
    let m3 = split_prefix(seq!['A', 'B', 'C'], up, low);
    assert(m3.word =~= seq!['A', 'B', 'C'] && m3.start == 0 && m3.new_word_on_upper == false && m3.is_acronym == true);
    assert(m3.parts =~= Seq::<(Seq<char>, int)>::empty());
    assert(seq!['A', 'B', 'C', 'M'].drop_last() =~= seq!['A', 'B', 'C']);
    let m4 = split_prefix(seq!['A', 'B', 'C', 'M'], up, low);
    assert(m4.word =~= seq!['A', 'B', 'C', 'M'] && m4.start == 0 && m4.new_word_on_upper == false && m4.is_acronym == true);
    assert(m4.parts =~= Seq::<(Seq<char>, int)>::empty());
    assert(seq!['A', 'B', 'C', 'M', 'e'].drop_last() =~= seq!['A', 'B', 'C', 'M']);
    let m5 = split_prefix(seq!['A', 'B', 'C', 'M', 'e'], up, low);
    assert(m5.word =~= seq!['M', 'e'] && m5.start == 3 && m5.new_word_on_upper == false && m5.is_acronym == false);
    assert(m5.parts =~= seq![(seq!['A', 'B', 'C'], 0int)]);
    assert(seq!['A', 'B', 'C', 'M', 'e', 't'].drop_last() =~= seq!['A', 'B', 'C', 'M', 'e']);
    let m6 = split_prefix(seq!['A', 'B', 'C', 'M', 'e', 't'], up, low);
    assert(m6.word =~= seq!['M', 'e', 't'] && m6.start == 3 && m6.new_word_on_upper == false && m6.is_acronym == false);
    assert(m6.parts =~= seq![(seq!['A', 'B', 'C'], 0int)]);
    assert(seq!['A', 'B', 'C', 'M', 'e', 't', 'h'].drop_last() =~= seq!['A', 'B', 'C', 'M', 'e', 't']);
    let m7 = split_prefix(seq!['A', 'B', 'C', 'M', 'e', 't', 'h'], up, low);
    assert(m7.word =~= seq!['M', 'e', 't', 'h'] && m7.start == 3 && m7.new_word_on_upper == false && m7.is_acronym == false);
    assert(m7.parts =~= seq![(seq!['A', 'B', 'C'], 0int)]);
    assert(seq!['A', 'B', 'C', 'M', 'e', 't', 'h', 'o'].drop_last() =~= seq!['A', 'B', 'C', 'M', 'e', 't', 'h']);
    let m8 = split_prefix(seq!['A', 'B', 'C', 'M', 'e', 't', 'h', 'o'], up, low);
    assert(m8.word =~= seq!['M', 'e', 't', 'h', 'o'] && m8.start == 3 && m8.new_word_on_upper == false && m8.is_acronym == false);
    assert(m8.parts =~= seq![(seq!['A', 'B', 'C'], 0int)]);
    assert(seq!['A', 'B', 'C', 'M', 'e', 't', 'h', 'o', 'd'].drop_last() =~= seq!['A', 'B', 'C', 'M', 'e', 't', 'h', 'o']);
    let m9 = split_prefix(seq!['A', 'B', 'C', 'M', 'e', 't', 'h', 'o', 'd'], up, low);
    assert(m9.word =~= seq!['M', 'e', 't', 'h', 'o', 'd'] && m9.start == 3 && m9.new_word_on_upper == false && m9.is_acronym == false);
    assert(m9.parts =~= seq![(seq!['A', 'B', 'C'], 0int)]);
    assert(sub_words_cased(t, up, low) =~= seq![(seq!['A', 'B', 'C'], 0int), (seq!['M', 'e', 't', 'h', 'o', 'd'], 3int)]);
    let parts = seq![(seq!['A', 'B', 'C'], 0int), (seq!['M', 'e', 't', 'h', 'o', 'd'], 3int)];
    assert(parts.drop_last() =~= seq![(seq!['A', 'B', 'C'], 0int)]);
    assert(parts.drop_last().drop_last() =~= seq![]);
    reveal_with_fuel(flags_lowered, 3);
}

/// A camel-case token splits before each capital: `leftRight`, cased as
/// written, splits into `left` and `Right`; with `left` but not `right` in
/// the dictionary, exactly `Right` is flagged, four columns after the token's
/// start.
#[verifier::spinoff_prover]
#[verifier::rlimit(50)]
pub proof fn lemma_camel_case_flag_offset(line: int, column: int, words: Set<Seq<char>>)
    requires
        words.contains(seq!['l', 'e', 'f', 't']),
        !words.contains(seq!['r', 'i', 'g', 'h', 't']),
    ensures
        sub_words_cased(seq!['l', 'e', 'f', 't', 'R', 'i', 'g', 'h', 't'], seq![false, false, false, false, true, false, false, false, false], seq![true, true, true, true, false, true, true, true, true]) == seq![(seq!['l', 'e', 'f', 't'], 0int), (seq!['R', 'i', 'g', 'h', 't'], 4int)],
        flags_lowered(seq![(seq!['l', 'e', 'f', 't'], 0int), (seq!['R', 'i', 'g', 'h', 't'], 4int)], seq![seq!['l', 'e', 'f', 't'], seq!['r', 'i', 'g', 'h', 't']], line, column, words) == seq![Flag { word: seq!['R', 'i', 'g', 'h', 't'], line, column: column + 4 }],
{
    let t = seq!['l', 'e', 'f', 't', 'R', 'i', 'g', 'h', 't'];
    let up = seq![false, false, false, false, true, false, false, false, false];
    let low = seq![true, true, true, true, false, true, true, true, true];
    assert(seq!['l'].drop_last() =~= seq![]);
    assert(split_prefix(seq![], up, low).word.len() == 0);
    let m1 = split_prefix(seq!['l'], up, low);
    assert(m1.word =~= seq!['l'] && m1.start == 0 && m1.new_word_on_upper == false && m1.is_acronym == false);
    assert(m1.parts =~= Seq::<(Seq<char>, int)>::empty());
    assert(seq!['l', 'e'].drop_last() =~= seq!['l']);
    let m2 = split_prefix(seq!['l', 'e'], up, low);
    assert(m2.word =~= seq!['l', 'e'] && m2.start == 0 && m2.new_word_on_upper == true && m2.is_acronym == false);
    assert(m2.parts =~= Seq::<(Seq<char>, int)>::empty());
    assert(seq!['l', 'e', 'f'].drop_last() =~= seq!['l', 'e']);
    let m3 = split_prefix(seq!['l', 'e', 'f'], up, low);
    assert(m3.word =~= seq!['l', 'e', 'f'] && m3.start == 0 && m3.new_word_on_upper == true && m3.is_acronym == false);
    assert(m3.parts =~= Seq::<(Seq<char>, int)>::empty());
    assert(seq!['l', 'e', 'f', 't'].drop_last() =~= seq!['l', 'e', 'f']);
    let m4 = split_prefix(seq!['l', 'e', 'f', 't'], up, low);
    assert(m4.word =~= seq!['l', 'e', 'f', 't'] && m4.start == 0 && m4.new_word_on_upper == true && m4.is_acronym == false);
    assert(m4.parts =~= Seq::<(Seq<char>, int)>::empty());
    assert(seq!['l', 'e', 'f', 't', 'R'].drop_last() =~= seq!['l', 'e', 'f', 't']);
    let m5 = split_prefix(seq!['l', 'e', 'f', 't', 'R'], up, low);
    assert(m5.word =~= seq!['R'] && m5.start == 4 && m5.new_word_on_upper == false && m5.is_acronym == false);
    assert(m5.parts =~= seq![(seq!['l', 'e', 'f', 't'], 0int)]);
    assert(seq!['l', 'e', 'f', 't', 'R', 'i'].drop_last() =~= seq!['l', 'e', 'f', 't', 'R']);
    let m6 = split_prefix(seq!['l', 'e', 'f', 't', 'R', 'i'], up, low);
    assert(m6.word =~= seq!['R', 'i'] && m6.start == 4 && m6.new_word_on_upper == true && m6.is_acronym == false);
    assert(m6.parts =~= seq![(seq!['l', 'e', 'f', 't'], 0int)]);
    assert(seq!['l', 'e', 'f', 't', 'R', 'i', 'g'].drop_last() =~= seq!['l', 'e', 'f', 't', 'R', 'i']);
    let m7 = split_prefix(seq!['l', 'e', 'f', 't', 'R', 'i', 'g'], up, low);
    assert(m7.word =~= seq!['R', 'i', 'g'] && m7.start == 4 && m7.new_word_on_upper == true && m7.is_acronym == false);
    assert(m7.parts =~= seq![(seq!['l', 'e', 'f', 't'], 0int)]);
    assert(seq!['l', 'e', 'f', 't', 'R', 'i', 'g', 'h'].drop_last() =~= seq!['l', 'e', 'f', 't', 'R', 'i', 'g']);
    let m8 = split_prefix(seq!['l', 'e', 'f', 't', 'R', 'i', 'g', 'h'], up, low);
    assert(m8.word =~= seq!['R', 'i', 'g', 'h'] && m8.start == 4 && m8.new_word_on_upper == true && m8.is_acronym == false);
    assert(m8.parts =~= seq![(seq!['l', 'e', 'f', 't'], 0int)]);
    assert(seq!['l', 'e', 'f', 't', 'R', 'i', 'g', 'h', 't'].drop_last() =~= seq!['l', 'e', 'f', 't', 'R', 'i', 'g', 'h']);
    let m9 = split_prefix(seq!['l', 'e', 'f', 't', 'R', 'i', 'g', 'h', 't'], up, low);
    assert(m9.word =~= seq!['R', 'i', 'g', 'h', 't'] && m9.start == 4 && m9.new_word_on_upper == true && m9.is_acronym == false);
    assert(m9.parts =~= seq![(seq!['l', 'e', 'f', 't'], 0int)]);
    assert(sub_words_cased(t, up, low) =~= seq![(seq!['l', 'e', 'f', 't'], 0int), (seq!['R', 'i', 'g', 'h', 't'], 4int)]);
    let parts = seq![(seq!['l', 'e', 'f', 't'], 0int), (seq!['R', 'i', 'g', 'h', 't'], 4int)];
    assert(parts.drop_last() =~= seq![(seq!['l', 'e', 'f', 't'], 0int)]);
    assert(parts.drop_last().drop_last() =~= seq![]);
    reveal_with_fuel(flags_lowered, 3);
}

/// The mistakes in `token`, which starts at `read_position`.
pub fn token_mistakes(
    read_position: &ReadPosition,
    token: &String,
    words_allowed: &HashSet<String>,
) -> (r: Vec<Mistake>)
    requires
        read_position.char_no + token@.len() <= u64::MAX,
    ensures
        flags_of(r@) == token_flags(
            token@,
            read_position.line_no as int,
            read_position.char_no as int,
            words_of(*words_allowed),
        ),
{
    let chars = chars_of(token.as_str());
    sub_word_mistakes(&chars, read_position.line_no, read_position.char_no, words_allowed)
}

/// Whether any sub-word of `token` is a spelling mistake. For example
/// `ABCMethod` holds the sub-words `ABC` and `Method`, and `leftRight` holds
/// `left` and `Right`.
pub fn process_token(
    read_position: &ReadPosition,
    token: &String,
    words_allowed: &HashSet<String>,
) -> (r: bool)
    requires
        read_position.char_no + token@.len() <= u64::MAX,
    ensures
        r == (token_flags(
            token@,
            read_position.line_no as int,
            read_position.char_no as int,
            words_of(*words_allowed),
        ).len() > 0),
{
    let mistakes = token_mistakes(read_position, token, words_allowed);
    mistakes.len() > 0
}

/// A character belongs to a token when it is alphabetic or one of the
/// characters that the dictionary's words use.
pub open spec fn word_char(c: char, allowed: Set<char>) -> bool {
    alphabetic_char(c) || allowed.contains(c)
}

/// The state of a scan over a file's text: the token being read and the
/// column of its first character, the line and the column of the last
/// character read, and the mistakes found so far.
pub struct Scanner {
    pub token: Seq<char>,
    pub token_start: int,
    pub line: int,
    pub column: int,
    pub flags: Seq<Flag>,
}

/// The scan's state once it has also read `c`. A character that cannot be
/// part of a word closes the token being read; a newline starts the next line.
pub open spec fn scan_step(
    m: Scanner,
    c: char,
    allowed: Set<char>,
    words: Set<Seq<char>>,
) -> Scanner {
    let column = m.column + 1;
    let read = if word_char(c, allowed) {
        Scanner {
            token: m.token.push(c),
            token_start: if m.token.len() == 0 {
                column
            } else {
                m.token_start
            },
            column,
            ..m
        }
    } else if m.token.len() > 0 {
        Scanner {
            token: seq![],
            flags: m.flags + token_flags(m.token, m.line, m.token_start, words),
            column,
            ..m
        }
    } else {
        Scanner { column, ..m }
    };
    if c == '\n' {
        Scanner { line: read.line + 1, column: 0, ..read }
    } else {
        read
    }
}

/// The scan's state after reading all of `text`.
pub open spec fn scan(text: Seq<char>, allowed: Set<char>, words: Set<Seq<char>>) -> Scanner
    decreases text.len(),
{
    if text.len() == 0 {
        Scanner { token: seq![], token_start: 0, line: 1, column: 0, flags: seq![] }
    } else {
        scan_step(scan(text.drop_last(), allowed, words), text.last(), allowed, words)
    }
}

/// Every mistake in `text`, in the order of the text; a token that ends the
/// text is checked as well.
pub open spec fn text_flags(text: Seq<char>, allowed: Set<char>, words: Set<Seq<char>>) -> Seq<
    Flag,
> {
    let m = scan(text, allowed, words);
    if m.token.len() > 0 {
        m.flags + token_flags(m.token, m.line, m.token_start, words)
    } else {
        m.flags
    }
}

/// Appends the mistakes of `more` to `out`.
fn append_mistakes(out: &mut Vec<Mistake>, more: Vec<Mistake>)
    ensures
        flags_of(final(out)@) == flags_of(old(out)@) + flags_of(more@),
{
    let ghost before = out@;
    let ghost added = more@;
    let mut more = more;
    out.append(&mut more);
    assert(flags_of(out@) =~= flags_of(before) + flags_of(added)) by {
        assert(out@ =~= before + added);
    }
}

/// Every spelling mistake in `text`, with its line and column. A character
/// that is alphabetic or in `characters_allowed` belongs to a token; tokens
/// are split into sub-words and each sub-word is checked against
/// `words_allowed`.
pub fn check_text(
    text: &Vec<char>,
    characters_allowed: &HashSet<char>,
    words_allowed: &HashSet<String>,
) -> (r: Vec<Mistake>)
    requires
        text@.len() <= u64::MAX / 4,
    ensures
        flags_of(r@) == text_flags(text@, characters_allowed@, words_of(*words_allowed)),
{
    let ghost allowed = characters_allowed@;
    let ghost words = words_of(*words_allowed);
    let mut out: Vec<Mistake> = Vec::new();
    let mut token: Vec<char> = Vec::new();
    let mut token_start: u64 = 0;
    let mut line_no: u64 = 1;
    let mut char_no: u64 = 0;
    let mut i: usize = 0;
    assert(flags_of(out@) =~= seq![]);
    assert(text@.take(0) =~= seq![]);
    assert(token@ =~= seq![]);
    while i < text.len()
        invariant
            0 <= i <= text@.len(),
            text@.len() <= u64::MAX / 4,
            allowed == characters_allowed@,
            words == words_of(*words_allowed),
            scan(text@.take(i as int), allowed, words) == (Scanner {
                token: token@,
                token_start: token_start as int,
                line: line_no as int,
                column: char_no as int,
                flags: flags_of(out@),
            }),
            token@.len() <= i,
            token_start <= i,
            line_no <= i + 1,
            char_no <= i,
        decreases text@.len() - i,
    {
        let c = text[i];
        proof {
            assert(text@.take(i + 1).drop_last() =~= text@.take(i as int));
            assert(text@.take(i + 1).last() == c);
        }
        char_no = char_no + 1;
        let alphabetic = is_alphabetic(c);
        if alphabetic || contains_char(characters_allowed, c) {
            if token.len() == 0 {
                token_start = char_no;
            }
            token.push(c);
        } else if token.len() > 0 {
            let found = sub_word_mistakes(&token, line_no, token_start, words_allowed);
            append_mistakes(&mut out, found);
            token.clear();
            assert(token@ =~= seq![]);
        }
        if c == '\n' {
            line_no = line_no + 1;
            char_no = 0;
        }
        i = i + 1;
    }
    assert(text@.take(i as int) =~= text@);
    if token.len() > 0 {
        let found = sub_word_mistakes(&token, line_no, token_start, words_allowed);
        append_mistakes(&mut out, found);
    }
    out
}

/// What checking one file gives.
pub enum CheckResult {
    /// Every sub-word of the file is allowed.
    Clean,
    /// The file's mistakes, in the order of the file.
    SpellingMistake(Vec<Mistake>),
    /// The file is not valid UTF-8.
    NotUtf8,
    /// The file could not be opened or read.
    IoError,
}

/// Relies on `utf8_chars::BufReadCharsExt::chars` over the bytes: it yields
/// the characters that the bytes encode in UTF-8, and an error at the first
/// sequence that is not a valid encoding (a bad lead or continuation byte, an
/// overlong form, a surrogate, a value above `0x10FFFF`, a truncated end).
#[verifier::external_body]
fn decode_chars(bytes: &[u8]) -> (r: Option<Vec<char>>)
    ensures
        valid_utf8(bytes@) ==> r is Some && r->0@ == decode_utf8(bytes@),
        !valid_utf8(bytes@) ==> r is None,
{
    let mut reader: &[u8] = bytes;
    reader.chars().collect::<Result<Vec<char>, _>>().ok()
}

proof fn lemma_decode_len(bytes: Seq<u8>)
    requires
        valid_utf8(bytes),
    ensures
        decode_utf8(bytes).len() <= bytes.len(),
    decreases bytes.len(),
{
    if bytes.len() > 0 {
        let rest = pop_first_scalar(bytes);
        assert(rest.len() < bytes.len());
        lemma_decode_len(rest);
    }
}

/// Checks a file's contents: `NotUtf8` when they are not valid UTF-8,
/// otherwise `Clean` or the mistakes that [`check_text`] finds in the
/// characters they encode.
pub fn check_contents(
    contents: &[u8],
    characters_allowed: &HashSet<char>,
    words_allowed: &HashSet<String>,
) -> (r: CheckResult)
    requires
        contents@.len() <= u64::MAX / 4,
    ensures
        !valid_utf8(contents@) ==> r is NotUtf8,
        valid_utf8(contents@) ==> ({
            let flags = text_flags(
                decode_utf8(contents@),
                characters_allowed@,
                words_of(*words_allowed),
            );
            if flags.len() == 0 {
                r is Clean
            } else {
                r matches CheckResult::SpellingMistake(v) && flags_of(v@) == flags
            }
        }),
{
    match decode_chars(contents) {
        None => CheckResult::NotUtf8,
        Some(text) => {
            proof {
                lemma_decode_len(contents@);
            }
            let mistakes = check_text(&text, characters_allowed, words_allowed);
            if mistakes.len() == 0 {
                CheckResult::Clean
            } else {
                CheckResult::SpellingMistake(mistakes)
            }
        }
    }
}

/// Whether any file of a run had a spelling mistake.
pub open spec fn run_found_mistake(results: Seq<CheckResult>) -> bool {
    exists|i: int| 0 <= i < results.len() && results[i] is SpellingMistake
}

/// The outcome of a whole run from the results of its files: a mistake in any
/// file fails the run; files that could not be read or decoded are warnings
/// only.
pub fn run_outcome(results: &Vec<CheckResult>) -> (r: Result<u64, AntisepticError>)
    ensures
        r == if run_found_mistake(results@) {
            Err::<u64, AntisepticError>(AntisepticError::SpellingMistakeFound)
        } else {
            Ok::<u64, AntisepticError>(0)
        },
{
    let mut found_mistake = false;
    let mut i: usize = 0;
    while i < results.len()
        invariant
            0 <= i <= results@.len(),
            found_mistake == exists|k: int| 0 <= k < i && results@[k] is SpellingMistake,
        decreases results@.len() - i,
    {
        if let CheckResult::SpellingMistake(_) = &results[i] {
            found_mistake = true;
        }
        i = i + 1;
    }
    if found_mistake {
        Err(AntisepticError::SpellingMistakeFound)
    } else {
        Ok(0)
    }
}

/// A file that is not valid UTF-8 is a warning only: placed anywhere among
/// the results of a run, it neither fails the run nor keeps a mistake in a
/// later file from failing it.
pub proof fn lemma_not_utf8_is_warning(before: Seq<CheckResult>, after: Seq<CheckResult>)
    ensures
        run_found_mistake(before + seq![CheckResult::NotUtf8] + after) == run_found_mistake(
            before + after,
        ),
{
    let with = before + seq![CheckResult::NotUtf8] + after;
    let without = before + after;
    if run_found_mistake(with) {
        let i = choose|i: int| 0 <= i < with.len() && with[i] is SpellingMistake;
        if i < before.len() {
            assert(without[i] is SpellingMistake);
        } else {
            assert(i > before.len());
            assert(without[i - 1] == with[i]);
        }
    }
    if run_found_mistake(without) {
        let i = choose|i: int| 0 <= i < without.len() && without[i] is SpellingMistake;
        if i < before.len() {
            assert(with[i] == without[i]);
        } else {
            assert(with[i + 1] == without[i]);
        }
    }
}

} // verus!
