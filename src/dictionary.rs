use std::collections::HashSet;

use vstd::prelude::*;

use crate::text::{chars_of, insert_char, insert_word, string_of, to_uppercase, upper_of, words_of};

verus! {

/// The lines of a text read so far, and the line being read.
pub struct LineSplit {
    pub lines: Seq<Seq<char>>,
    pub current: Seq<char>,
}

/// The lines of `text` that a newline has closed, and what follows the last
/// newline.
pub open spec fn line_split(text: Seq<char>) -> LineSplit
    decreases text.len(),
{
    if text.len() == 0 {
        LineSplit { lines: seq![], current: seq![] }
    } else {
        let m = line_split(text.drop_last());
        if text.last() == '\n' {
            LineSplit { lines: m.lines.push(m.current), current: seq![] }
        } else {
            LineSplit { lines: m.lines, current: m.current.push(text.last()) }
        }
    }
}

/// A line without the carriage return of a `\r\n` line end.
pub open spec fn strip_cr(line: Seq<char>) -> Seq<char> {
    if line.len() > 0 && line.last() == '\r' {
        line.drop_last()
    } else {
        line
    }
}

/// The non-empty lines among `lines`, each without its carriage return.
pub open spec fn words_in_lines(lines: Seq<Seq<char>>) -> Set<Seq<char>> {
    Set::new(
        |w: Seq<char>|
            w.len() > 0 && exists|i: int| 0 <= i < lines.len() && strip_cr(#[trigger] lines[i]) == w,
    )
}

/// The words of a dictionary: one per non-empty line, as written.
pub open spec fn dictionary_words(text: Seq<char>) -> Set<Seq<char>> {
    let m = line_split(text);
    words_in_lines(m.lines.push(m.current))
}

/// Whether the character at `i` belongs to a word of the dictionary: it is
/// neither a newline nor the carriage return of a line end.
pub open spec fn in_word(text: Seq<char>, i: int) -> bool {
    &&& text[i] != '\n'
    &&& !(text[i] == '\r' && (i + 1 == text.len() || text[i + 1] == '\n'))
}

/// The characters of the words among the first `n` characters of `text`,
/// each in its own form and in the characters of its uppercase form.
pub open spec fn characters_upto(text: Seq<char>, n: int) -> Set<char> {
    Set::new(
        |c: char|
            exists|i: int|
                0 <= i < n && #[trigger] in_word(text, i) && (text[i] == c || upper_of(
                    text[i],
                ).contains(c)),
    )
}

/// The characters that may be part of a token: every character of the
/// dictionary's words, and the characters of its uppercase form.
pub open spec fn dictionary_characters(text: Seq<char>) -> Set<char> {
    characters_upto(text, text.len() as int)
}

proof fn lemma_words_in_lines_push(lines: Seq<Seq<char>>, line: Seq<char>)
    ensures
        words_in_lines(lines.push(line)) == if strip_cr(line).len() > 0 {
            words_in_lines(lines).insert(strip_cr(line))
        } else {
            words_in_lines(lines)
        },
{
    let pushed = lines.push(line);
    let expected = if strip_cr(line).len() > 0 {
        words_in_lines(lines).insert(strip_cr(line))
    } else {
        words_in_lines(lines)
    };
    assert forall|w: Seq<char>| #[trigger] words_in_lines(pushed).contains(w) implies expected.contains(
        w,
    ) by {
        let i = choose|i: int| 0 <= i < pushed.len() && strip_cr(#[trigger] pushed[i]) == w;
        if i < lines.len() {
            assert(lines[i] == pushed[i]);
        }
    }
    assert forall|w: Seq<char>| #[trigger] expected.contains(w) implies words_in_lines(
        pushed,
    ).contains(w) by {
        if words_in_lines(lines).contains(w) {
            let i = choose|i: int| 0 <= i < lines.len() && strip_cr(#[trigger] lines[i]) == w;
            assert(pushed[i] == lines[i]);
        } else {
            assert(pushed[lines.len() as int] == line);
        }
    }
    assert(words_in_lines(pushed) =~= expected);
}

/// Adds the line held in `line` to the word set, unless it is empty once its
/// carriage return is taken off.
fn add_line(set: &mut HashSet<String>, line: Vec<char>)
    ensures
        words_of(*final(set)) == if strip_cr(line@).len() > 0 {
            words_of(*old(set)).insert(strip_cr(line@))
        } else {
            words_of(*old(set))
        },
{
    let ghost whole = line@;
    let mut line = line;
    let n = line.len();
    if n > 0 && line[n - 1] == '\r' {
        line.pop();
        assert(line@ =~= whole.drop_last());
    }
    if line.len() > 0 {
        let word = string_of(line.as_slice());
        insert_word(set, word);
    }
}

/// The set of allowed words that a dictionary text gives: each non-empty line
/// is a word, without its line end.
pub fn get_word_set(dictionary: &str) -> (r: HashSet<String>)
    ensures
        words_of(r) == dictionary_words(dictionary@),
{
    let text = chars_of(dictionary);
    let mut set: HashSet<String> = HashSet::new();
    let mut line: Vec<char> = Vec::new();
    let mut i: usize = 0;
    assert(text@.take(0) =~= seq![]);
    assert(line@ =~= seq![]);
    assert(words_of(set) =~= words_in_lines(seq![]));
    while i < text.len()
        invariant
            0 <= i <= text@.len(),
            text@ == dictionary@,
            line_split(text@.take(i as int)).current == line@,
            words_of(set) == words_in_lines(line_split(text@.take(i as int)).lines),
        decreases text@.len() - i,
    {
        let c = text[i];
        proof {
            assert(text@.take(i + 1).drop_last() =~= text@.take(i as int));
            assert(text@.take(i + 1).last() == c);
        }
        if c == '\n' {
            proof {
                lemma_words_in_lines_push(line_split(text@.take(i as int)).lines, line@);
            }
            add_line(&mut set, line);
            line = Vec::new();
            assert(line@ =~= seq![]);
        } else {
            line.push(c);
        }
        i = i + 1;
    }
    assert(text@.take(i as int) =~= text@);
    proof {
        lemma_words_in_lines_push(line_split(text@).lines, line@);
    }
    add_line(&mut set, line);
    set
}

/// The set of characters that a dictionary text gives: every character of
/// its words (line ends left out), in its own form and in its uppercase form.
pub fn get_word_characters(dictionary: &str) -> (r: HashSet<char>)
    ensures
        r@ == dictionary_characters(dictionary@),
{
    let text = chars_of(dictionary);
    let mut set: HashSet<char> = HashSet::new();
    let mut i: usize = 0;
    assert(set@ =~= characters_upto(text@, 0));
    while i < text.len()
        invariant
            0 <= i <= text@.len(),
            text@ == dictionary@,
            set@ == characters_upto(text@, i as int),
        decreases text@.len() - i,
    {
        let c = text[i];
        let line_end = c == '\r' && (i + 1 == text.len() || text[i + 1] == '\n');
        let ghost before = set@;
        if c != '\n' && !line_end {
            insert_char(&mut set, c);
            let upper = to_uppercase(c);
            let mut j: usize = 0;
            while j < upper.len()
                invariant
                    0 <= j <= upper@.len(),
                    upper@ == upper_of(c),
                    forall|x: char|
                        #[trigger] set@.contains(x) <==> (before.contains(x) || x == c || exists|m: int|
                            0 <= m < j && upper@[m] == x),
                decreases upper@.len() - j,
            {
                insert_char(&mut set, upper[j]);
                assert forall|x: char| #[trigger] set@.contains(x) <==> (before.contains(x) || x == c
                    || exists|m: int| 0 <= m < j + 1 && upper@[m] == x) by {
                    if exists|m: int| 0 <= m < j + 1 && upper@[m] == x {
                        let m = choose|m: int| 0 <= m < j + 1 && upper@[m] == x;
                        if m < j {
                            assert(exists|m: int| 0 <= m < j && upper@[m] == x);
                        }
                    }
                }
                j = j + 1;
            }
            assert(set@ =~= characters_upto(text@, i + 1)) by {
                assert(in_word(text@, i as int));
                assert forall|x: char| #[trigger] characters_upto(text@, i + 1).contains(x) implies set@.contains(x) by {
                    let k = choose|k: int|
                        0 <= k < i + 1 && #[trigger] in_word(text@, k) && (text@[k] == x || upper_of(text@[k]).contains(x));
                    if k < i {
                        assert(characters_upto(text@, i as int).contains(x));
                    } else if text@[k] != x {
                        assert(upper@.contains(x));
                        let m = choose|m: int| 0 <= m < upper@.len() && upper@[m] == x;
                        assert(exists|m: int| 0 <= m < j && upper@[m] == x);
                    }
                }
                assert forall|x: char| #[trigger] set@.contains(x) implies characters_upto(text@, i + 1).contains(x) by {
                    if before.contains(x) {
                        let k = choose|k: int|
                            0 <= k < i && #[trigger] in_word(text@, k) && (text@[k] == x || upper_of(text@[k]).contains(x));
                        assert(in_word(text@, k));
                    } else if x != c {
                        let m = choose|m: int| 0 <= m < j && upper@[m] == x;
                        assert(upper_of(text@[i as int]).contains(x));
                        assert(in_word(text@, i as int));
                    } else {
                        assert(in_word(text@, i as int));
                    }
                }
            }
        } else {
            assert(set@ =~= characters_upto(text@, i + 1)) by {
                assert(!in_word(text@, i as int));
                assert forall|x: char| #[trigger] characters_upto(text@, i + 1).contains(x) implies set@.contains(x) by {
                    let k = choose|k: int|
                        0 <= k < i + 1 && #[trigger] in_word(text@, k) && (text@[k] == x || upper_of(text@[k]).contains(x));
                    assert(k < i);
                }
                assert forall|x: char| #[trigger] set@.contains(x) implies characters_upto(text@, i + 1).contains(x) by {
                    let k = choose|k: int|
                        0 <= k < i && #[trigger] in_word(text@, k) && (text@[k] == x || upper_of(text@[k]).contains(x));
                    assert(in_word(text@, k));
                }
            }
        }
        i = i + 1;
    }
    set
}

} // verus!
