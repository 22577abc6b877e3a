//! Small operations on letters, words and lists of them.

use vstd::prelude::*;
use crate::model::is_lowercase;
use crate::ranking::letter_at;

verus! {

/// A copy of a list of words.
pub fn copy_words(words: &Vec<String>) -> (copy: Vec<String>)
    ensures
        copy.deep_view() == words.deep_view(),
{
    let mut copy: Vec<String> = Vec::new();
    let mut i: usize = 0;
    while i < words.len()
        invariant
            i <= words.len(),
            copy.len() == i,
            forall|k: int| 0 <= k < i ==> copy[k]@ == words[k]@,
        decreases words.len() - i,
    {
        copy.push(words[i].clone());
        i += 1;
    }
    assert(copy.deep_view() =~= words.deep_view());
    copy
}

/// A copy of a pattern.
pub fn copy_pattern(pattern: &Vec<Option<char>>) -> (copy: Vec<Option<char>>)
    ensures
        copy@ == pattern@,
{
    let mut copy: Vec<Option<char>> = Vec::new();
    let mut i: usize = 0;
    while i < pattern.len()
        invariant
            i <= pattern.len(),
            copy@ == pattern@.take(i as int),
        decreases pattern.len() - i,
    {
        copy.push(pattern[i]);
        i += 1;
        assert(pattern@.take(i as int) =~= pattern@.take(i - 1).push(pattern[i - 1]));
    }
    assert(pattern@.take(i as int) =~= pattern@);
    copy
}

/// A copy of a list of letters.
pub fn copy_letters(letters: &Vec<char>) -> (copy: Vec<char>)
    ensures
        copy@ == letters@,
{
    let mut copy: Vec<char> = Vec::new();
    let mut i: usize = 0;
    while i < letters.len()
        invariant
            i <= letters.len(),
            copy@ == letters@.take(i as int),
        decreases letters.len() - i,
    {
        copy.push(letters[i]);
        i += 1;
        assert(letters@.take(i as int) =~= letters@.take(i - 1).push(letters[i - 1]));
    }
    assert(letters@.take(i as int) =~= letters@);
    copy
}

/// Whether a list holds a letter.
pub fn has_letter(letters: &Vec<char>, letter: char) -> (found: bool)
    ensures
        found == letters@.contains(letter),
{
    let mut i: usize = 0;
    while i < letters.len()
        invariant
            i <= letters.len(),
            forall|k: int| 0 <= k < i ==> letters[k] != letter,
        decreases letters.len() - i,
    {
        if letters[i] == letter {
            return true;
        }
        i += 1;
    }
    false
}

/// The letter of the alphabet with the given index, counted from `a`.
pub(crate) fn nth_letter(index: u8) -> (letter: char)
    requires
        index < 26,
    ensures
        letter == letter_at(index as int),
        is_lowercase(letter),
{
    (97u8 + index) as char
}

/// Whether a word holds a letter.
pub fn word_has(word: &str, letter: char) -> (found: bool)
    ensures
        found == word@.contains(letter),
{
    for c in it: word.chars()
        invariant
            it.seq() == word@,
            forall|k: int| 0 <= k < it.index() ==> word@[k] != letter,
    {
        if c == letter {
            return true;
        }
    }
    false
}

/// A list of letters has no deeper view than its letters.
pub proof fn lemma_letters_view(letters: Vec<char>)
    ensures
        letters.deep_view() == letters@,
{
    assert(letters.deep_view() =~= letters@);
}

/// The characters of a text.
pub fn chars_of(text: &str) -> (chars: Vec<char>)
    ensures
        chars@ == text@,
{
    let mut chars: Vec<char> = Vec::new();
    for c in it: text.chars()
        invariant
            it.seq() == text@,
            chars@ == text@.take(it.index() as int),
    {
        chars.push(c);
    }
    chars
}

} // verus!
