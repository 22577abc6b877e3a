//! The solver engine: the state of one session and the operations on it.

use vstd::prelude::*;
use crate::error::Error;
use crate::lists::{copy_letters, copy_pattern, copy_words, has_letter};
use crate::ranking::{is_ranking, rank_letters};
use crate::laws::{
    lemma_apply_guess_wf, lemma_candidates_never_grow, lemma_fill_wf, lemma_propagate_settled,
    lemma_prune_exact, lemma_push_history_wf, lemma_undo_wf,
};
use crate::model::{
    cell_potentials, column, fits, lemma_of_length_push, lemma_survivors_push, note_letter,
    of_length, survivors, Engine, Frame, MAX_CELL_LETTERS,
};

verus! {

/// The pattern and the excluded letters as they stood before a guess.
#[derive(Debug, PartialEq, Eq)]
pub struct HistoryFrame {
    /// One cell per letter of the hidden word: `None` while unknown.
    pub guess: Vec<Option<char>>,
    /// The letters reported absent.
    pub not_present: Vec<char>,
}

impl View for HistoryFrame {
    type V = Frame;

    open spec fn view(&self) -> Frame {
        Frame { pattern: self.guess@, excluded: self.not_present@ }
    }
}

/// The frames of a history, oldest first.
pub open spec fn frames(history: Seq<HistoryFrame>) -> Seq<Frame> {
    Seq::new(history.len(), |k: int| history[k]@)
}

/// One session of the solver.
#[derive(Debug)]
pub struct HangmanPlayer {
    original_words: Vec<String>,
    available_words: Vec<String>,
    current_guess: Vec<Option<char>>,
    not_present: Vec<char>,
    used_letters: Vec<char>,
    guess_history: Vec<HistoryFrame>,
}

impl View for HangmanPlayer {
    type V = Engine;

    closed spec fn view(&self) -> Engine {
        Engine {
            originals: self.original_words.deep_view(),
            candidates: self.available_words.deep_view(),
            pattern: self.current_guess@,
            excluded: self.not_present@,
            used: self.used_letters@,
            history: frames(self.guess_history@),
        }
    }
}

/// Whether a word has one letter per cell, agrees with every placed letter
/// and holds no excluded letter.
pub fn word_fits(word: &str, pattern: &Vec<Option<char>>, excluded: &Vec<char>) -> (ok: bool)
    ensures
        ok == fits(word@, pattern@, excluded@),
{
    let length = pattern.len();
    let mut i: usize = 0;
    for c in it: word.chars()
        invariant
            it.seq() == word@,
            pattern@.len() == length,
            i == it.index(),
            i <= length,
            forall|k: int| 0 <= k < i ==> !excluded@.contains(#[trigger] word@[k]),
            forall|k: int|
                0 <= k < i ==> ((#[trigger] pattern@[k]) matches Some(p) ==> word@[k] == p),
    {
        if i >= length {
            return false;
        }
        if has_letter(excluded, c) {
            assert(excluded@.contains(word@[i as int]));
            return false;
        }
        match pattern[i] {
            Some(placed) => {
                if placed != c {
                    assert(pattern@[i as int] == Some(placed));
                    return false;
                }
            },
            None => {},
        }
        i += 1;
    }
    i == length
}

/// Notes, for each unknown cell, the letter that a word holds there.
fn note_word(word: &str, pattern: &Vec<Option<char>>, lists: &mut Vec<Vec<char>>)
    requires
        word@.len() == pattern@.len(),
        old(lists)@.len() == pattern@.len(),
    ensures
        final(lists)@.len() == old(lists)@.len(),
        forall|cell: int|
            0 <= cell < pattern@.len() ==> (#[trigger] final(lists)@[cell])@ == if pattern@[cell]
                is None {
                note_letter(old(lists)@[cell]@, word@[cell], MAX_CELL_LETTERS as nat)
            } else {
                old(lists)@[cell]@
            },
{
    let length = pattern.len();
    let mut i: usize = 0;
    for c in it: word.chars()
        invariant
            it.seq() == word@,
            word@.len() == length,
            pattern@.len() == length,
            lists@.len() == length,
            old(lists)@.len() == length,
            i == it.index(),
            forall|cell: int|
                0 <= cell < i ==> (#[trigger] lists@[cell])@ == if pattern@[cell] is None {
                    note_letter(old(lists)@[cell]@, word@[cell], MAX_CELL_LETTERS as nat)
                } else {
                    old(lists)@[cell]@
                },
            forall|cell: int| i <= cell < pattern@.len() ==> lists@[cell] == old(lists)@[cell],
    {
        if pattern[i].is_none() && lists[i].len() < MAX_CELL_LETTERS && !has_letter(&lists[i], c) {
            lists[i].push(c);
        }
        i += 1;
    }
}

impl HangmanPlayer {
    /// Starts a session on the dictionary words that have `word_length`
    /// characters. Fails if the length is zero or no word has it.
    pub fn new(words: Vec<String>, word_length: usize) -> (made: Result<HangmanPlayer, Error>)
        ensures
            match made {
                Ok(player) => {
                    &&& word_length > 0
                    &&& of_length(words.deep_view(), word_length as nat).len() > 0
                    &&& player@ == Engine::initial(words.deep_view(), word_length as nat)
                    &&& player@.wf()
                },
                Err(e) => {
                    &&& e == Error::InvalidConfiguration
                    &&& (word_length == 0 || of_length(
                        words.deep_view(),
                        word_length as nat,
                    ).len() == 0)
                },
            },
    {
        let ghost all = words.deep_view();
        let ghost given = words@;
        let mut originals: Vec<String> = Vec::new();
        proof {
            reveal(Seq::filter);
            assert(all.take(0) =~= Seq::<Seq<char>>::empty());
        }
        for word in it: words
            invariant
                it.seq() == given,
                all.len() == given.len(),
                forall|k: int| 0 <= k < given.len() ==> (#[trigger] given[k])@ == all[k],
                originals.deep_view() == of_length(all.take(it.index() as int), word_length as nat),
                forall|k: int| 0 <= k < originals.len() ==> (#[trigger] originals[k])@.len()
                    == word_length,
        {
            let ghost seen = it.index() as int;
            proof {
                lemma_of_length_push(all.take(seen), word@, word_length as nat);
                assert(all.take(seen + 1) =~= all.take(seen).push(word@));
            }
            if word.as_str().unicode_len() == word_length {
                let ghost before = originals.deep_view();
                originals.push(word);
                assert(originals.deep_view() =~= before.push(word@));
            }
        }
        assert(all.take(given.len() as int) =~= all);
        if word_length == 0 || originals.len() == 0 {
            return Err(Error::InvalidConfiguration);
        }
        let available = copy_words(&originals);
        let mut pattern: Vec<Option<char>> = Vec::new();
        let mut j: usize = 0;
        while j < word_length
            invariant
                j <= word_length,
                pattern@ == Seq::new(j as nat, |i: int| None::<char>),
            decreases word_length - j,
        {
            pattern.push(None);
            j += 1;
            assert(pattern@ =~= Seq::new(j as nat, |i: int| None::<char>));
        }
        let player = HangmanPlayer {
            original_words: originals,
            available_words: available,
            current_guess: pattern,
            not_present: Vec::new(),
            used_letters: Vec::new(),
            guess_history: Vec::new(),
        };
        proof {
            assert(player@.history =~= Seq::<Frame>::empty());
            assert(player@ == Engine::initial(all, word_length as nat));
            assert forall|k: int| 0 <= k < player@.originals.len() implies (
            #[trigger] player@.originals[k]).len() == word_length by {
                assert(player@.originals[k] == player.original_words[k]@);
            }
        }
        Ok(player)
    }

    /// The dictionary words of the session's length.
    pub fn original_words(&self) -> (words: &Vec<String>)
        ensures
            words.deep_view() == self@.originals,
    {
        &self.original_words
    }

    /// The words still possible.
    pub fn available_words(&self) -> (words: &Vec<String>)
        ensures
            words.deep_view() == self@.candidates,
    {
        &self.available_words
    }

    /// The pattern: one cell per letter of the hidden word.
    pub fn current_guess(&self) -> (pattern: &Vec<Option<char>>)
        ensures
            pattern@ == self@.pattern,
    {
        &self.current_guess
    }

    /// The letters reported absent.
    pub fn not_present(&self) -> (letters: &Vec<char>)
        ensures
            letters@ == self@.excluded,
    {
        &self.not_present
    }

    /// The letters guessed so far.
    pub fn used_letters(&self) -> (letters: &Vec<char>)
        ensures
            letters@ == self@.used,
    {
        &self.used_letters
    }

    /// The frames recorded so far, oldest first.
    pub fn guess_history(&self) -> (history: &Vec<HistoryFrame>)
        ensures
            frames(history@) == self@.history,
    {
        &self.guess_history
    }

    /// The number of cells.
    pub fn word_length(&self) -> (length: usize)
        ensures
            length == self@.pattern.len(),
    {
        self.current_guess.len()
    }

    /// Ranks the lowercase letters that have not been guessed by the number
    /// of candidates that hold them, each candidate counted once per letter:
    /// the highest count first, equal counts in alphabet order.
    pub fn compute_letter_scores(&self) -> (scores: Vec<(char, usize)>)
        ensures
            is_ranking(scores@, self@.candidates, self@.used),
            scores@ == self@.ranking(),
    {
        rank_letters(&self.available_words, &self.used_letters)
    }

    /// Whether feedback may name these cells for this letter: each index
    /// lies in the pattern, and its cell is unknown or holds the letter
    /// already.
    pub fn admits(&self, letter: char, positions: &Vec<usize>) -> (ok: bool)
        ensures
            ok == self@.admits(letter, positions@),
    {
        let mut k: usize = 0;
        while k < positions.len()
            invariant
                k <= positions.len(),
                forall|j: int|
                    0 <= j < k ==> {
                        &&& (#[trigger] positions@[j]) < self@.pattern.len()
                        &&& (self@.pattern[positions@[j] as int] is None
                            || self@.pattern[positions@[j] as int] == Some(letter))
                    },
            decreases positions.len() - k,
        {
            let cell = positions[k];
            if cell >= self.current_guess.len() {
                return false;
            }
            match self.current_guess[cell] {
                Some(placed) => {
                    if placed != letter {
                        return false;
                    }
                },
                None => {},
            }
            k += 1;
        }
        true
    }

    /// Ends the session and hands out its history.
    pub fn into_history(self) -> (history: Vec<HistoryFrame>)
        ensures
            frames(history@) == self@.history,
    {
        self.guess_history
    }

    /// Records the pattern and the excluded letters as they are now.
    pub fn push_history(&mut self)
        requires
            old(self)@.wf(),
        ensures
            final(self)@ == old(self)@.push_history(),
            final(self)@.wf(),
    {
        let frame = HistoryFrame {
            guess: copy_pattern(&self.current_guess),
            not_present: copy_letters(&self.not_present),
        };
        self.guess_history.push(frame);
        proof {
            assert(self@.history =~= old(self)@.history.push(old(self)@.frame()));
            lemma_push_history_wf(old(self)@);
        }
    }

    /// Applies the feedback on one guessed letter: the cells it was reported
    /// in, or none if it is absent. The state before is recorded first.
    pub fn mark_result(&mut self, letter: char, positions: Vec<usize>)
        requires
            old(self)@.wf(),
            old(self)@.admits(letter, positions@),
        ensures
            final(self)@ == old(self)@.apply_guess(letter, positions@),
            final(self)@.wf(),
    {
        self.push_history();
        self.used_letters.push(letter);
        if positions.len() == 0 {
            self.not_present.push(letter);
            assert(self@.pattern =~= old(self)@.apply_guess(letter, positions@).pattern);
        } else {
            let mut k: usize = 0;
            while k < positions.len()
                invariant
                    k <= positions.len(),
                    old(self)@.admits(letter, positions@),
                    self.current_guess@.len() == old(self)@.pattern.len(),
                    forall|i: int|
                        0 <= i < self.current_guess@.len() ==> #[trigger] self.current_guess@[i]
                            == if exists|j: int| 0 <= j < k && positions[j] == i {
                            Some(letter)
                        } else {
                            old(self)@.pattern[i]
                        },
                    self@.originals == old(self)@.originals,
                    self@.candidates == old(self)@.candidates,
                    self@.excluded == old(self)@.excluded,
                    self@.used == old(self)@.used.push(letter),
                    self@.history == old(self)@.history.push(old(self)@.frame()),
                decreases positions.len() - k,
            {
                let ghost before = self.current_guess@;
                self.current_guess.set(positions[k], Some(letter));
                proof {
                    assert forall|i: int| 0 <= i < self.current_guess@.len() implies (
                    #[trigger] self.current_guess@[i]) == if exists|j: int|
                        0 <= j < k + 1 && positions[j] == i {
                        Some(letter)
                    } else {
                        old(self)@.pattern[i]
                    } by {
                        if i == positions[k as int] {
                            assert(0 <= k < k + 1 && positions[k as int] == i);
                        } else if exists|j: int| 0 <= j < k + 1 && positions[j] == i {
                            let j = choose|j: int| 0 <= j < k + 1 && positions[j] == i;
                            assert(0 <= j < k && positions[j] == i);
                        }
                    }
                }
                k += 1;
            }
            assert(self@.pattern =~= old(self)@.apply_guess(letter, positions@).pattern);
        }
        proof {
            assert(self@ == old(self)@.apply_guess(letter, positions@));
            lemma_apply_guess_wf(old(self)@, letter, positions@);
        }
    }

    /// Narrows the candidates to the words that agree with every placed
    /// letter and hold no excluded letter, and returns, for each cell, the
    /// letters that the remaining candidates allow there: none for a placed
    /// cell, else their distinct letters in that cell in order of first
    /// occurrence.
    pub fn prune_words(&mut self) -> (potential: Vec<Vec<char>>)
        requires
            old(self)@.wf(),
        ensures
            final(self)@ == old(self)@.prune(),
            final(self)@.wf(),
            final(self)@.candidates == survivors(
                final(self)@.originals,
                final(self)@.pattern,
                final(self)@.excluded,
            ),
            final(self)@.candidates.len() <= old(self)@.candidates.len(),
            potential.deep_view() == final(self)@.potentials(),
    {
        let ghost before = self@;
        let length = self.current_guess.len();
        let mut potential: Vec<Vec<char>> = Vec::new();
        let mut cell: usize = 0;
        while cell < length
            invariant
                cell <= length,
                potential@.len() == cell,
                forall|k: int| 0 <= k < cell ==> (#[trigger] potential@[k])@.len() == 0,
            decreases length - cell,
        {
            potential.push(Vec::new());
            cell += 1;
        }
        let mut words: Vec<String> = Vec::new();
        std::mem::swap(&mut words, &mut self.available_words);
        let ghost all = words@;
        let mut kept: Vec<String> = Vec::new();
        proof {
            reveal(Seq::filter);
            assert(before.candidates.take(0) =~= Seq::<Seq<char>>::empty());
            assert forall|k: int| 0 <= k < length implies (#[trigger] potential@[k])@
                == cell_potentials(kept.deep_view(), before.pattern, k) by {
                assert(column(kept.deep_view(), k) =~= Seq::<char>::empty());
                assert(potential@[k]@ =~= Seq::<char>::empty());
            }
        }
        for word in it: words
            invariant
                it.seq() == all,
                all.len() == before.candidates.len(),
                forall|k: int| 0 <= k < all.len() ==> (#[trigger] all[k])@ == before.candidates[k],
                before.wf(),
                length == before.pattern.len(),
                self.current_guess@ == before.pattern,
                self.not_present@ == before.excluded,
                kept.deep_view() == survivors(
                    before.candidates.take(it.index() as int),
                    before.pattern,
                    before.excluded,
                ),
                potential@.len() == length,
                forall|k: int|
                    0 <= k < length ==> (#[trigger] potential@[k])@ == cell_potentials(
                        kept.deep_view(),
                        before.pattern,
                        k,
                    ),
        {
            let ghost seen = it.index() as int;
            let ghost held = kept.deep_view();
            proof {
                assert(word@ == before.candidates[seen]);
                lemma_survivors_push(
                    before.candidates.take(seen),
                    word@,
                    before.pattern,
                    before.excluded,
                );
                assert(before.candidates.take(seen + 1) =~= before.candidates.take(seen).push(
                    word@,
                ));
            }
            if word_fits(word.as_str(), &self.current_guess, &self.not_present) {
                note_word(word.as_str(), &self.current_guess, &mut potential);
                kept.push(word);
                proof {
                    assert(kept.deep_view() =~= held.push(word@));
                    assert forall|k: int| 0 <= k < length implies (#[trigger] potential@[k])@
                        == cell_potentials(kept.deep_view(), before.pattern, k) by {
                        assert(column(kept.deep_view(), k).drop_last() =~= column(held, k));
                        assert(column(kept.deep_view(), k).last() == word@[k]);
                    }
                }
            }
        }
        self.available_words = kept;
        proof {
            assert(before.candidates.take(all.len() as int) =~= before.candidates);
            assert(self@.history =~= before.history);
            assert(self@ == before.prune());
            lemma_prune_exact(before);
            lemma_candidates_never_grow(before, ' ', Seq::empty(), Seq::empty());
            assert(potential.deep_view() =~~= self@.potentials());
        }
        potential
    }

    /// Fills each unknown cell whose list holds exactly one letter with that
    /// letter. The lists are taken cell by cell; a cell without a list
    /// stays as it is.
    pub fn fill_certain_letters(&mut self, potential_letters: Vec<Vec<char>>)
        requires
            old(self)@.wf(),
        ensures
            final(self)@ == old(self)@.fill(potential_letters.deep_view()),
            final(self)@.wf(),
    {
        let ghost before = self@;
        let ghost lists = potential_letters.deep_view();
        let length = self.current_guess.len();
        let mut i: usize = 0;
        while i < length && i < potential_letters.len()
            invariant
                i <= length,
                i <= potential_letters.len(),
                length == before.pattern.len(),
                lists == potential_letters.deep_view(),
                self.current_guess@.len() == length,
                forall|k: int|
                    0 <= k < i ==> #[trigger] self.current_guess@[k] == before.fill(
                        lists,
                    ).pattern[k],
                forall|k: int| i <= k < length ==> self.current_guess@[k] == before.pattern[k],
                self@.originals == before.originals,
                self@.candidates == before.candidates,
                self@.excluded == before.excluded,
                self@.used == before.used,
                self@.history == before.history,
            decreases length - i,
        {
            proof {
                assert(lists[i as int].len() == potential_letters@[i as int]@.len());
            }
            if self.current_guess[i].is_none() && potential_letters[i].len() == 1 {
                assert(lists[i as int][0] == potential_letters@[i as int]@[0]);
                self.current_guess.set(i, Some(potential_letters[i][0]));
            }
            i += 1;
        }
        proof {
            assert(self@.pattern =~= before.fill(lists).pattern);
            assert(self@ == before.fill(lists));
            lemma_fill_wf(before, lists);
        }
    }

    /// One round of consistency propagation: prunes the candidates, then
    /// fills the cells that the remaining candidates force. Afterwards the
    /// candidates are exactly the dictionary words that fit.
    pub fn prune_and_fill_certain_letters(&mut self)
        requires
            old(self)@.wf(),
        ensures
            final(self)@ == old(self)@.propagate(),
            final(self)@.wf(),
            final(self)@.candidates == survivors(
                final(self)@.originals,
                final(self)@.pattern,
                final(self)@.excluded,
            ),
            final(self)@.candidates.len() <= old(self)@.candidates.len(),
    {
        let potential_letters = self.prune_words();
        self.fill_certain_letters(potential_letters);
        proof {
            lemma_propagate_settled(old(self)@);
        }
    }

    /// Takes the latest guess back: the pattern and the excluded letters are
    /// restored from its frame, and every dictionary word is a candidate
    /// again until the next pruning. The used letters stay as they are, so
    /// a letter that was guessed once is not offered again. Fails, and
    /// changes nothing, if no guess has been applied.
    pub fn undo(&mut self) -> (done: Result<(), Error>)
        requires
            old(self)@.wf(),
        ensures
            match done {
                Ok(_) => old(self)@.history.len() > 0 && final(self)@ == old(self)@.undo(),
                Err(e) => {
                    &&& e == Error::NothingToUndo
                    &&& old(self)@.history.len() == 0
                    &&& final(self)@ == old(self)@
                },
            },
            final(self)@.wf(),
    {
        let ghost before = self@;
        match self.guess_history.pop() {
            None => {
                assert(self@.history =~= before.history);
                Err(Error::NothingToUndo)
            },
            Some(frame) => {
                self.current_guess = frame.guess;
                self.not_present = frame.not_present;
                self.available_words = copy_words(&self.original_words);
                proof {
                    assert(frame@ == before.history.last());
                    assert(self@.history =~= before.history.drop_last());
                    assert(self@ == before.undo());
                    lemma_undo_wf(before);
                }
                Ok(())
            },
        }
    }

    /// Says how the session stands: solved with the one word left, still
    /// open, or failed because no word is left.
    pub fn solution(&self) -> (found: Result<Option<String>, Error>)
        ensures
            match found {
                Ok(Some(word)) => self@.candidates.len() == 1 && word@ == self@.candidates[0],
                Ok(None) => self@.candidates.len() >= 2,
                Err(e) => e == Error::NoCandidatesRemaining && self@.candidates.len() == 0,
            },
    {
        if self.available_words.len() == 0 {
            Err(Error::NoCandidatesRemaining)
        } else if self.available_words.len() == 1 {
            Ok(Some(self.available_words[0].clone()))
        } else {
            Ok(None)
        }
    }
}

} // verus!
