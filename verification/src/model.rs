//! The mathematical model of a session: what is known about the hidden word,
//! which dictionary words still fit, and how each operation changes that.
//!
//! Words are sequences of characters, the guess pattern is a sequence of
//! cells, and every operation of the solver is a function from one
//! [`Engine`] value to the next.

use vstd::prelude::*;

verus! {

/// How many distinct letters are recorded for one cell at most.
pub const MAX_CELL_LETTERS: usize = 26;

/// The letters that can be guessed: `a` to `z`.
pub open spec fn is_lowercase(c: char) -> bool {
    'a' <= c && c <= 'z'
}

/// The pattern and excluded letters as they stood before a guess.
pub struct Frame {
    pub pattern: Seq<Option<char>>,
    pub excluded: Seq<char>,
}

/// Everything a session knows.
pub struct Engine {
    /// The dictionary words of the session's length, in dictionary order.
    pub originals: Seq<Seq<char>>,
    /// The words still held to be possible, in dictionary order.
    pub candidates: Seq<Seq<char>>,
    /// One cell per letter of the hidden word: `None` while unknown.
    pub pattern: Seq<Option<char>>,
    /// Letters reported absent, in the order they were reported.
    pub excluded: Seq<char>,
    /// Letters guessed so far, in the order they were guessed.
    pub used: Seq<char>,
    /// One frame per applied guess, oldest first.
    pub history: Seq<Frame>,
}

/// A word fits when it has one letter per cell, agrees with every placed
/// letter, and holds no excluded letter in any cell.
pub open spec fn fits(word: Seq<char>, pattern: Seq<Option<char>>, excluded: Seq<char>) -> bool {
    &&& word.len() == pattern.len()
    &&& forall|i: int|
        0 <= i < word.len() ==> ((#[trigger] pattern[i]) matches Some(c) ==> word[i] == c)
    &&& forall|i: int| 0 <= i < word.len() ==> !excluded.contains(#[trigger] word[i])
}

/// The words that fit, in their original order.
pub open spec fn survivors(
    words: Seq<Seq<char>>,
    pattern: Seq<Option<char>>,
    excluded: Seq<char>,
) -> Seq<Seq<char>> {
    words.filter(|w: Seq<char>| fits(w, pattern, excluded))
}

/// The words with exactly `length` characters, in their original order.
pub open spec fn of_length(words: Seq<Seq<char>>, length: nat) -> Seq<Seq<char>> {
    words.filter(|w: Seq<char>| w.len() == length)
}

/// The letters that the words hold in one cell, word by word.
pub open spec fn column(words: Seq<Seq<char>>, cell: int) -> Seq<char> {
    Seq::new(words.len(), |k: int| words[k][cell])
}

/// The letters seen with one more noted: it is added at the end unless it is
/// there already or `cap` letters are recorded.
pub open spec fn note_letter(seen: Seq<char>, letter: char, cap: nat) -> Seq<char> {
    if seen.len() < cap && !seen.contains(letter) {
        seen.push(letter)
    } else {
        seen
    }
}

/// The distinct letters of a sequence in order of first occurrence; once
/// `cap` of them are recorded, further letters are left out.
pub open spec fn distinct_letters(letters: Seq<char>, cap: nat) -> Seq<char>
    decreases letters.len(),
{
    if letters.len() == 0 {
        Seq::empty()
    } else {
        note_letter(distinct_letters(letters.drop_last(), cap), letters.last(), cap)
    }
}

/// The letters that may still stand in a cell: none for a placed cell, else
/// those that the words hold there.
pub open spec fn cell_potentials(
    words: Seq<Seq<char>>,
    pattern: Seq<Option<char>>,
    cell: int,
) -> Seq<char> {
    if pattern[cell] is None {
        distinct_letters(column(words, cell), MAX_CELL_LETTERS as nat)
    } else {
        Seq::empty()
    }
}

/// The second constraints demand everything the first do: each placed cell
/// stays as it is, each excluded letter stays excluded.
pub open spec fn extends(
    pattern: Seq<Option<char>>,
    excluded: Seq<char>,
    stronger_pattern: Seq<Option<char>>,
    stronger_excluded: Seq<char>,
) -> bool {
    &&& stronger_pattern.len() == pattern.len()
    &&& forall|i: int|
        0 <= i < pattern.len() && (#[trigger] pattern[i]) is Some ==> stronger_pattern[i]
            == pattern[i]
    &&& forall|c: char| #[trigger] excluded.contains(c) ==> stronger_excluded.contains(c)
}

/// No placed letter is among the excluded ones.
pub open spec fn apart(pattern: Seq<Option<char>>, excluded: Seq<char>) -> bool {
    forall|i: int|
        0 <= i < pattern.len() ==> ((#[trigger] pattern[i]) matches Some(c) ==> !excluded.contains(
            c,
        ))
}

impl Engine {
    /// The number of cells.
    pub open spec fn word_length(self) -> nat {
        self.pattern.len()
    }

    /// The state a session starts in.
    pub open spec fn initial(words: Seq<Seq<char>>, length: nat) -> Engine {
        Engine {
            originals: of_length(words, length),
            candidates: of_length(words, length),
            pattern: Seq::new(length, |i: int| None::<char>),
            excluded: Seq::empty(),
            used: Seq::empty(),
            history: Seq::empty(),
        }
    }

    /// What every reachable state satisfies.
    pub open spec fn wf(self) -> bool {
        &&& self.pattern.len() > 0
        &&& self.originals.len() > 0
        &&& forall|k: int|
            0 <= k < self.originals.len() ==> (#[trigger] self.originals[k]).len()
                == self.pattern.len()
        &&& forall|k: int|
            0 <= k < self.candidates.len() ==> (#[trigger] self.candidates[k]).len()
                == self.pattern.len()
        &&& survivors(self.candidates, self.pattern, self.excluded) == survivors(
            self.originals,
            self.pattern,
            self.excluded,
        )
        &&& forall|k: int|
            0 <= k < self.history.len() ==> (#[trigger] self.history[k]).pattern.len()
                == self.pattern.len()
        &&& forall|c: char| #[trigger] self.excluded.contains(c) ==> self.used.contains(c)
        &&& forall|k: int, c: char|
            0 <= k < self.history.len() && #[trigger] self.history[k].excluded.contains(c)
                ==> self.used.contains(c)
    }

    /// Whether the feedback so far agrees with itself: no letter is both
    /// placed and excluded, now or in any frame of the history.
    pub open spec fn unmixed(self) -> bool {
        &&& apart(self.pattern, self.excluded)
        &&& forall|k: int|
            0 <= k < self.history.len() ==> apart(
                (#[trigger] self.history[k]).pattern,
                self.history[k].excluded,
            )
    }

    /// Whether a letter stands in some cell.
    pub open spec fn places(self, letter: char) -> bool {
        exists|i: int| 0 <= i < self.pattern.len() && #[trigger] self.pattern[i] == Some(letter)
    }

    /// The frame that a guess made now would push.
    pub open spec fn frame(self) -> Frame {
        Frame { pattern: self.pattern, excluded: self.excluded }
    }

    /// Whether feedback may name these cells for this letter: each index lies
    /// in the pattern, and its cell is unknown or already holds the letter.
    pub open spec fn admits(self, letter: char, positions: Seq<usize>) -> bool {
        forall|k: int|
            0 <= k < positions.len() ==> {
                &&& (#[trigger] positions[k]) < self.pattern.len()
                &&& (self.pattern[positions[k] as int] is None || self.pattern[positions[k] as int]
                    == Some(letter))
            }
    }

    /// The state with the pattern and excluded letters as they are recorded
    /// in the history.
    pub open spec fn push_history(self) -> Engine {
        Engine { history: self.history.push(self.frame()), ..self }
    }

    /// The state after feedback on one guessed letter: no position means
    /// that the letter is absent.
    pub open spec fn apply_guess(self, letter: char, positions: Seq<usize>) -> Engine {
        Engine {
            pattern: Seq::new(
                self.pattern.len(),
                |i: int|
                    if exists|k: int| 0 <= k < positions.len() && positions[k] == i {
                        Some(letter)
                    } else {
                        self.pattern[i]
                    },
            ),
            excluded: if positions.len() == 0 {
                self.excluded.push(letter)
            } else {
                self.excluded
            },
            used: self.used.push(letter),
            history: self.history.push(self.frame()),
            ..self
        }
    }

    /// The state with the candidates narrowed to those that fit.
    pub open spec fn prune(self) -> Engine {
        Engine { candidates: survivors(self.candidates, self.pattern, self.excluded), ..self }
    }

    /// For each cell, the letters that the candidates allow there.
    pub open spec fn potentials(self) -> Seq<Seq<char>> {
        Seq::new(
            self.pattern.len(),
            |cell: int| cell_potentials(self.candidates, self.pattern, cell),
        )
    }

    /// The state with each unknown cell filled whose list holds exactly one
    /// letter. Cells without a list stay as they are.
    pub open spec fn fill(self, lists: Seq<Seq<char>>) -> Engine {
        Engine {
            pattern: Seq::new(
                self.pattern.len(),
                |i: int|
                    if i < lists.len() && self.pattern[i] is None && lists[i].len() == 1 {
                        Some(lists[i][0])
                    } else {
                        self.pattern[i]
                    },
            ),
            ..self
        }
    }

    /// One round of consistency propagation: prune, then fill what the
    /// surviving candidates force.
    pub open spec fn propagate(self) -> Engine {
        self.prune().fill(self.prune().potentials())
    }

    /// The state with the latest guess taken back: pattern and excluded
    /// letters as recorded, all dictionary words possible again, and the
    /// used letters as they are.
    pub open spec fn undo(self) -> Engine
        recommends
            self.history.len() > 0,
    {
        Engine {
            candidates: self.originals,
            pattern: self.history.last().pattern,
            excluded: self.history.last().excluded,
            history: self.history.drop_last(),
            ..self
        }
    }
}

/// Adding one word at the end adds it to the survivors exactly if it fits.
pub proof fn lemma_survivors_push(
    words: Seq<Seq<char>>,
    word: Seq<char>,
    pattern: Seq<Option<char>>,
    excluded: Seq<char>,
)
    ensures
        survivors(words.push(word), pattern, excluded) == if fits(word, pattern, excluded) {
            survivors(words, pattern, excluded).push(word)
        } else {
            survivors(words, pattern, excluded)
        },
{
    reveal(Seq::filter);
    assert(words.push(word).drop_last() =~= words);
}

/// Adding one word at the end adds it to the words of a length exactly if it
/// has that length.
pub proof fn lemma_of_length_push(words: Seq<Seq<char>>, word: Seq<char>, length: nat)
    ensures
        of_length(words.push(word), length) == if word.len() == length {
            of_length(words, length).push(word)
        } else {
            of_length(words, length)
        },
{
    reveal(Seq::filter);
    assert(words.push(word).drop_last() =~= words);
}

/// Every word of a length comes from the words and has that length.
pub proof fn lemma_of_length_members(words: Seq<Seq<char>>, length: nat)
    ensures
        forall|k: int|
            0 <= k < of_length(words, length).len() ==> {
                &&& (#[trigger] of_length(words, length)[k]).len() == length
                &&& words.contains(of_length(words, length)[k])
            },
    decreases words.len(),
{
    reveal(Seq::filter);
    if words.len() > 0 {
        let front = words.drop_last();
        lemma_of_length_members(front, length);
        assert forall|k: int| 0 <= k < of_length(words, length).len() implies {
            &&& (#[trigger] of_length(words, length)[k]).len() == length
            &&& words.contains(of_length(words, length)[k])
        } by {
            let kept = of_length(front, length);
            if k < kept.len() {
                let j = choose|j: int| 0 <= j < front.len() && front[j] == kept[k];
                assert(words[j] == kept[k]);
            } else {
                assert(words[words.len() - 1] == words.last());
            }
        }
    }
}

/// Every survivor fits, and comes from the words.
pub proof fn lemma_survivors_fit(
    words: Seq<Seq<char>>,
    pattern: Seq<Option<char>>,
    excluded: Seq<char>,
)
    ensures
        survivors(words, pattern, excluded).len() <= words.len(),
        forall|k: int|
            0 <= k < survivors(words, pattern, excluded).len() ==> {
                &&& fits(#[trigger] survivors(words, pattern, excluded)[k], pattern, excluded)
                &&& words.contains(survivors(words, pattern, excluded)[k])
            },
    decreases words.len(),
{
    reveal(Seq::filter);
    if words.len() > 0 {
        let front = words.drop_last();
        lemma_survivors_fit(front, pattern, excluded);
        assert forall|k: int| 0 <= k < survivors(words, pattern, excluded).len() implies {
            &&& fits(#[trigger] survivors(words, pattern, excluded)[k], pattern, excluded)
            &&& words.contains(survivors(words, pattern, excluded)[k])
        } by {
            let kept = survivors(front, pattern, excluded);
            if k < kept.len() {
                let j = choose|j: int| 0 <= j < front.len() && front[j] == kept[k];
                assert(words[j] == kept[k]);
            } else {
                assert(words[words.len() - 1] == words.last());
            }
        }
    }
}

/// Where every word fits, all of them survive.
pub proof fn lemma_survivors_all(
    words: Seq<Seq<char>>,
    pattern: Seq<Option<char>>,
    excluded: Seq<char>,
)
    requires
        forall|k: int| 0 <= k < words.len() ==> fits(#[trigger] words[k], pattern, excluded),
    ensures
        survivors(words, pattern, excluded) == words,
    decreases words.len(),
{
    reveal(Seq::filter);
    if words.len() > 0 {
        lemma_survivors_all(words.drop_last(), pattern, excluded);
        assert(words.drop_last().push(words.last()) =~= words);
    } else {
        assert(survivors(words, pattern, excluded) =~= words);
    }
}

/// The survivors are exactly the words that fit.
pub proof fn lemma_survivors_members(
    words: Seq<Seq<char>>,
    pattern: Seq<Option<char>>,
    excluded: Seq<char>,
)
    ensures
        forall|word: Seq<char>| #[trigger]
            survivors(words, pattern, excluded).contains(word) <==> words.contains(word) && fits(
                word,
                pattern,
                excluded,
            ),
    decreases words.len(),
{
    reveal(Seq::filter);
    let kept = survivors(words, pattern, excluded);
    if words.len() > 0 {
        let front = words.drop_last();
        let rest = survivors(front, pattern, excluded);
        lemma_survivors_members(front, pattern, excluded);
        assert forall|word: Seq<char>| #[trigger] kept.contains(word) <==> words.contains(word)
            && fits(word, pattern, excluded) by {
            if kept.contains(word) {
                let k = choose|k: int| 0 <= k < kept.len() && kept[k] == word;
                if k < rest.len() {
                    assert(rest[k] == word);
                    assert(rest.contains(word));
                    let j = choose|j: int| 0 <= j < front.len() && front[j] == word;
                    assert(words[j] == word);
                } else {
                    assert(words[words.len() - 1] == word);
                }
            }
            if words.contains(word) && fits(word, pattern, excluded) {
                let j = choose|j: int| 0 <= j < words.len() && words[j] == word;
                if j < front.len() {
                    assert(front[j] == word);
                    assert(front.contains(word));
                    assert(rest.contains(word));
                    let k = choose|k: int| 0 <= k < rest.len() && rest[k] == word;
                    assert(kept[k] == word);
                } else {
                    assert(kept[kept.len() - 1] == word);
                }
            }
        }
    }
}

/// What the recorded distinct letters say of the sequence they come from:
/// each of them occurs in it, none is recorded twice, at most `cap` are
/// recorded, and while fewer than `cap` are recorded none is missing.
pub proof fn lemma_distinct_letters(letters: Seq<char>, cap: nat)
    ensures
        distinct_letters(letters, cap).len() <= cap,
        distinct_letters(letters, cap).len() <= letters.len(),
        distinct_letters(letters, cap).no_duplicates(),
        forall|c: char| #[trigger]
            distinct_letters(letters, cap).contains(c) ==> letters.contains(c),
        distinct_letters(letters, cap).len() < cap ==> forall|k: int|
            0 <= k < letters.len() ==> distinct_letters(letters, cap).contains(
                #[trigger] letters[k],
            ),
        letters.len() > 0 && cap > 0 ==> distinct_letters(letters, cap).len() > 0,
    decreases letters.len(),
{
    if letters.len() > 0 {
        let front = letters.drop_last();
        let seen = distinct_letters(front, cap);
        let all = distinct_letters(letters, cap);
        lemma_distinct_letters(front, cap);
        assert forall|c: char| #[trigger] all.contains(c) implies letters.contains(c) by {
            if seen.contains(c) {
                let k = choose|k: int| 0 <= k < front.len() && front[k] == c;
                assert(letters[k] == c);
            } else {
                assert(c == letters.last());
                assert(letters[letters.len() - 1] == c);
            }
        }
        if all.len() < cap {
            assert forall|k: int| 0 <= k < letters.len() implies all.contains(
                #[trigger] letters[k],
            ) by {
                if k < front.len() {
                    assert(seen.contains(front[k]));
                    let at = choose|at: int| 0 <= at < seen.len() && seen[at] == front[k];
                    assert(all[at] == letters[k]);
                } else if seen.contains(letters.last()) {
                } else {
                    assert(all[seen.len() as int] == letters[k]);
                }
            }
        }
    }
}

/// A word that fits stronger constraints fits the weaker ones.
pub proof fn lemma_fits_weaker(
    word: Seq<char>,
    pattern: Seq<Option<char>>,
    excluded: Seq<char>,
    stronger_pattern: Seq<Option<char>>,
    stronger_excluded: Seq<char>,
)
    requires
        extends(pattern, excluded, stronger_pattern, stronger_excluded),
        fits(word, stronger_pattern, stronger_excluded),
    ensures
        fits(word, pattern, excluded),
{
    assert forall|i: int| 0 <= i < word.len() implies ((#[trigger] pattern[i]) matches Some(c)
        ==> word[i] == c) by {
        if pattern[i] is Some {
            assert(stronger_pattern[i] == pattern[i]);
        }
    }
}

/// Narrowing by weaker constraints first does not change what stronger
/// constraints leave.
pub proof fn lemma_survivors_narrowed(
    words: Seq<Seq<char>>,
    pattern: Seq<Option<char>>,
    excluded: Seq<char>,
    stronger_pattern: Seq<Option<char>>,
    stronger_excluded: Seq<char>,
)
    requires
        extends(pattern, excluded, stronger_pattern, stronger_excluded),
    ensures
        survivors(survivors(words, pattern, excluded), stronger_pattern, stronger_excluded)
            == survivors(words, stronger_pattern, stronger_excluded),
    decreases words.len(),
{
    reveal(Seq::filter);
    if words.len() > 0 {
        let front = words.drop_last();
        let word = words.last();
        lemma_survivors_narrowed(front, pattern, excluded, stronger_pattern, stronger_excluded);
        if fits(word, pattern, excluded) {
            lemma_survivors_push(
                survivors(front, pattern, excluded),
                word,
                stronger_pattern,
                stronger_excluded,
            );
        } else if fits(word, stronger_pattern, stronger_excluded) {
            lemma_fits_weaker(word, pattern, excluded, stronger_pattern, stronger_excluded);
        }
    }
}

/// Stronger constraints keep the candidates in step with the dictionary.
pub proof fn lemma_coherence_kept(
    originals: Seq<Seq<char>>,
    candidates: Seq<Seq<char>>,
    pattern: Seq<Option<char>>,
    excluded: Seq<char>,
    stronger_pattern: Seq<Option<char>>,
    stronger_excluded: Seq<char>,
)
    requires
        extends(pattern, excluded, stronger_pattern, stronger_excluded),
        survivors(candidates, pattern, excluded) == survivors(originals, pattern, excluded),
    ensures
        survivors(candidates, stronger_pattern, stronger_excluded) == survivors(
            originals,
            stronger_pattern,
            stronger_excluded,
        ),
        survivors(
            survivors(candidates, pattern, excluded),
            stronger_pattern,
            stronger_excluded,
        ) == survivors(originals, stronger_pattern, stronger_excluded),
{
    lemma_survivors_narrowed(candidates, pattern, excluded, stronger_pattern, stronger_excluded);
    lemma_survivors_narrowed(originals, pattern, excluded, stronger_pattern, stronger_excluded);
}

} // verus!
