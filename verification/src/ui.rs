//! The interactive driver's side of a session: it reads a line of input
//! against the engine's state, applies it, and says what to show. Prompting
//! and printing are left to the caller.

use vstd::prelude::*;
use crate::error::Error;
use crate::input::{
    cells_of, first_placed, guess_numbers, in_range, read_text, reading, GuessInput, Reading,
};
use crate::lists::chars_of;
use crate::model::Engine;
use crate::player::HangmanPlayer;

verus! {

/// The settings of an interactive session.
#[derive(Clone, Copy, Debug, PartialEq, Eq)]
pub struct PlayArgs {
    /// Number of letters in the word being guessed.
    pub letters: usize,
    /// Number of top letter suggestions to display.
    pub num_suggestions: usize,
    /// The candidates are displayed once there are no more of them than
    /// this.
    pub display_guesses_threshold: usize,
}

/// What a turn did.
#[derive(Debug, PartialEq, Eq)]
pub struct Turn {
    /// The request that was applied.
    pub input: GuessInput,
    /// The hidden word, if this turn left exactly one candidate.
    pub solved: Option<String>,
}

/// An interactive session: an engine and the settings it is shown with.
#[derive(Debug)]
pub struct PlayerUI {
    player: HangmanPlayer,
    args: PlayArgs,
}

/// The text that `str::trim` returns for a text. It depends on the text
/// alone.
pub uninterp spec fn trimmed(text: Seq<char>) -> Seq<char>;

/// The text that `str::to_lowercase` returns for a text. It depends on the
/// text alone.
pub uninterp spec fn lowercased(text: Seq<char>) -> Seq<char>;

/// A line as it is read: without white space around it, in lower case.
pub open spec fn normalized(line: Seq<char>) -> Seq<char> {
    lowercased(trimmed(line))
}

/// Calls `str::trim`, which returns the text without its leading and
/// trailing white space. The contract names the result and claims no more.
#[verifier::external_body]
fn trim<'a>(text: &'a str) -> (out: &'a str)
    ensures
        out@ == trimmed(text@),
{
    text.trim()
}

/// Calls `str::to_lowercase`, which returns the lower-case equivalent of
/// the text. The contract names the result and claims no more.
#[verifier::external_body]
fn to_lowercase(text: &str) -> (out: String)
    ensures
        out@ == lowercased(text@),
{
    text.to_lowercase()
}

/// Calls `String::push`, which appends one character to the end of the
/// text.
#[verifier::external_body]
fn push_char(text: &mut String, c: char)
    ensures
        final(text)@ == old(text)@.push(c),
{
    text.push(c)
}

/// Whether a request can be applied: the cells of a guess are unknown or
/// hold its letter already, and an undo has a guess to take back.
pub open spec fn accepts(state: Engine, request: Reading) -> bool {
    match request {
        Reading::Guess { letter, positions } => state.admits(letter, positions),
        Reading::Undo => state.history.len() > 0,
    }
}

/// The state after a request is applied and its consequences are
/// propagated.
pub open spec fn after(state: Engine, request: Reading) -> Engine {
    match request {
        Reading::Guess { letter, positions } => state.apply_guess(letter, positions).propagate(),
        Reading::Undo => state.undo().propagate(),
    }
}

/// The marks of a pattern: the letter of each placed cell, `_` for each
/// unknown one.
pub open spec fn cell_marks(pattern: Seq<Option<char>>) -> Seq<char> {
    Seq::new(
        pattern.len(),
        |i: int|
            match pattern[i] {
                Some(letter) => letter,
                None => '_',
            },
    )
}

/// Letters written with one space between each two of them.
pub open spec fn spaced(letters: Seq<char>) -> Seq<char>
    decreases letters.len(),
{
    if letters.len() == 0 {
        Seq::empty()
    } else if letters.len() == 1 {
        seq![letters[0]]
    } else {
        spaced(letters.drop_last()).push(' ').push(letters.last())
    }
}

/// Where no cell is found placed, every cell named is unknown.
pub proof fn lemma_none_placed(pattern: Seq<Option<char>>, cells: Seq<usize>)
    requires
        first_placed(pattern, cells) is None,
    ensures
        forall|k: int| 0 <= k < cells.len() ==> pattern[(#[trigger] cells[k]) as int] is None,
    decreases cells.len(),
{
    if cells.len() > 0 {
        lemma_none_placed(pattern, cells.drop_last());
        assert forall|k: int| 0 <= k < cells.len() implies pattern[(#[trigger] cells[k]) as int]
            is None by {
            if k < cells.len() - 1 {
                assert(cells.drop_last()[k] == cells[k]);
            }
        }
    }
}

/// What is read from a line can be applied.
pub proof fn lemma_reading_accepted(state: Engine, letters: nat, text: Seq<char>)
    requires
        letters == state.pattern.len(),
        reading(state, letters, text) is Ok,
    ensures
        accepts(state, reading(state, letters, text)->Ok_0),
{
    match reading(state, letters, text)->Ok_0 {
        Reading::Guess { letter, positions } => {
            let numbers = guess_numbers(text);
            assert(in_range(numbers, letters));
            lemma_none_placed(state.pattern, cells_of(numbers));
            assert forall|k: int| 0 <= k < positions.len() implies {
                &&& (#[trigger] positions[k]) < state.pattern.len()
                &&& (state.pattern[positions[k] as int] is None
                    || state.pattern[positions[k] as int] == Some(letter))
            } by {
                assert(1 <= numbers[k] <= letters);
            }
        },
        Reading::Undo => {},
    }
}

/// The letters of a list written with one space between each two.
pub fn spaced_text(letters: &Vec<char>) -> (text: String)
    ensures
        text@ == spaced(letters@),
{
    let mut text = String::new();
    let mut i: usize = 0;
    proof {
        assert(letters@.take(0) =~= Seq::<char>::empty());
    }
    while i < letters.len()
        invariant
            i <= letters.len(),
            text@ == spaced(letters@.take(i as int)),
        decreases letters.len() - i,
    {
        proof {
            assert(letters@.take(i + 1).drop_last() =~= letters@.take(i as int));
            assert(letters@.take(i + 1).last() == letters@[i as int]);
        }
        if i > 0 {
            push_char(&mut text, ' ');
        }
        push_char(&mut text, letters[i]);
        proof {
            if i == 0 {
                assert(text@ =~= seq![letters@[0]]);
                assert(letters@.take(1)[0] == letters@[0]);
            }
        }
        i += 1;
    }
    proof {
        assert(letters@.take(i as int) =~= letters@);
    }
    text
}

impl PlayerUI {
    /// The state of the session's engine.
    pub closed spec fn state(&self) -> Engine {
        self.player@
    }

    /// The session's settings.
    pub closed spec fn settings(&self) -> PlayArgs {
        self.args
    }

    /// What holds of every session: its engine is in a reachable state, and
    /// the settings give the number of its cells.
    pub open spec fn wf(&self) -> bool {
        &&& self.state().wf()
        &&& self.settings().letters == self.state().pattern.len()
    }

    /// A session on an engine. The settings give the engine's word length.
    pub fn new(player: HangmanPlayer, args: PlayArgs) -> (ui: PlayerUI)
        requires
            player@.wf(),
            args.letters == player@.pattern.len(),
        ensures
            ui.wf(),
            ui.state() == player@,
            ui.settings() == args,
    {
        PlayerUI { player, args }
    }

    /// The session's engine.
    pub fn player(&self) -> (player: &HangmanPlayer)
        ensures
            player@ == self.state(),
    {
        &self.player
    }

    /// The session's settings.
    pub fn args(&self) -> (args: PlayArgs)
        ensures
            args == self.settings(),
    {
        self.args
    }

    /// The pattern as one line: the letter of each placed cell and `_` for
    /// each unknown one, with a space between each two cells.
    pub fn current_guess_text(&self) -> (text: String)
        ensures
            text@ == spaced(cell_marks(self.state().pattern)),
    {
        let pattern = self.player.current_guess();
        let mut marks: Vec<char> = Vec::new();
        let mut i: usize = 0;
        while i < pattern.len()
            invariant
                i <= pattern.len(),
                pattern@ == self.state().pattern,
                marks@ == cell_marks(pattern@).take(i as int),
            decreases pattern.len() - i,
        {
            let mark = match pattern[i] {
                Some(letter) => letter,
                None => '_',
            };
            marks.push(mark);
            i += 1;
            proof {
                assert(marks@ =~= cell_marks(pattern@).take(i as int));
            }
        }
        proof {
            assert(marks@ =~= cell_marks(pattern@));
        }
        spaced_text(&marks)
    }

    /// The excluded letters as one line, with a space between each two; no
    /// line where no letter is excluded.
    pub fn not_present_text(&self) -> (text: Option<String>)
        ensures
            match text {
                Some(line) => self.state().excluded.len() > 0 && line@ == spaced(
                    self.state().excluded,
                ),
                None => self.state().excluded.len() == 0,
            },
    {
        let letters = self.player.not_present();
        if letters.len() == 0 {
            None
        } else {
            Some(spaced_text(letters))
        }
    }

    /// The candidates, if they are few enough to be displayed: no more than
    /// the display threshold.
    pub fn possibilities(&self) -> (shown: Option<&Vec<String>>)
        ensures
            match shown {
                Some(words) => {
                    &&& self.state().candidates.len() <= self.settings().display_guesses_threshold
                    &&& words.deep_view() == self.state().candidates
                },
                None => self.state().candidates.len() > self.settings().display_guesses_threshold,
            },
    {
        let words = self.player.available_words();
        proof {
            assert(words.deep_view().len() == words@.len());
        }
        if words.len() <= self.args.display_guesses_threshold {
            Some(words)
        } else {
            None
        }
    }

    /// The best of the given letter scores: the first `num_suggestions` of
    /// them, or all if there are fewer.
    pub fn top_guesses(&self, letter_scores: &Vec<(char, usize)>) -> (top: Vec<(char, usize)>)
        ensures
            top@ == letter_scores@.take(
                if self.settings().num_suggestions <= letter_scores@.len() {
                    self.settings().num_suggestions as int
                } else {
                    letter_scores@.len() as int
                },
            ),
    {
        let mut top: Vec<(char, usize)> = Vec::new();
        let mut i: usize = 0;
        while i < letter_scores.len() && i < self.args.num_suggestions
            invariant
                i <= letter_scores.len(),
                i <= self.args.num_suggestions,
                top@ == letter_scores@.take(i as int),
            decreases letter_scores.len() - i,
        {
            top.push(letter_scores[i]);
            i += 1;
            proof {
                assert(top@ =~= letter_scores@.take(i as int));
            }
        }
        top
    }

    /// Reads what a line asks for, given as it is after trimming and
    /// lowering its case. Nothing is applied.
    pub fn interpret(&self, text: &str) -> (read: Result<GuessInput, Error>)
        requires
            self.wf(),
        ensures
            match read {
                Ok(input) => {
                    &&& reading(self.state(), self.settings().letters as nat, text@) == Ok::<
                        Reading,
                        Error,
                    >(input@)
                    &&& accepts(self.state(), input@)
                },
                Err(e) => reading(self.state(), self.settings().letters as nat, text@) == Err::<
                    Reading,
                    Error,
                >(e),
            },
    {
        let chars = chars_of(text);
        let read = read_text(&chars, self.args.letters, &self.player);
        proof {
            if read is Ok {
                lemma_reading_accepted(self.state(), self.args.letters as nat, text@);
            }
        }
        read
    }

    /// Reads what a line of input asks for: the line is trimmed, put in
    /// lower case, and then read as [`PlayerUI::interpret`] reads it.
    pub fn read_guess(&self, line: &str) -> (read: Result<GuessInput, Error>)
        requires
            self.wf(),
        ensures
            match read {
                Ok(input) => {
                    &&& reading(
                        self.state(),
                        self.settings().letters as nat,
                        normalized(line@),
                    ) == Ok::<Reading, Error>(input@)
                    &&& accepts(self.state(), input@)
                },
                Err(e) => reading(
                    self.state(),
                    self.settings().letters as nat,
                    normalized(line@),
                ) == Err::<Reading, Error>(e),
            },
    {
        let text = to_lowercase(trim(line));
        self.interpret(text.as_str())
    }

    /// Applies a request and propagates its consequences: a guess is marked,
    /// or the latest guess is taken back; then the candidates are pruned
    /// and the forced cells filled. Returns the hidden word if exactly one
    /// candidate is left, nothing if several are, and fails if none is.
    pub fn advance(&mut self, input: GuessInput) -> (solved: Result<Option<String>, Error>)
        requires
            old(self).wf(),
            accepts(old(self).state(), input@),
        ensures
            final(self).wf(),
            final(self).settings() == old(self).settings(),
            final(self).state() == after(old(self).state(), input@),
            match solved {
                Ok(Some(word)) => {
                    &&& final(self).state().candidates.len() == 1
                    &&& word@ == final(self).state().candidates[0]
                },
                Ok(None) => final(self).state().candidates.len() >= 2,
                Err(e) => {
                    &&& e == Error::NoCandidatesRemaining
                    &&& final(self).state().candidates.len() == 0
                },
            },
    {
        match input {
            GuessInput::Guess { letter, positions } => {
                self.player.mark_result(letter, positions);
            },
            GuessInput::Undo => {
                let undone = self.player.undo();
                assert(undone is Ok);
            },
        }
        self.player.prune_and_fill_certain_letters();
        self.player.solution()
    }

    /// Plays one turn on a line of input. A line that is turned down leaves
    /// the session as it is, and the caller asks again. A line that is
    /// accepted is applied as [`PlayerUI::advance`] applies it.
    pub fn play(&mut self, line: &str) -> (played: Result<Turn, Error>)
        requires
            old(self).wf(),
        ensures
            final(self).wf(),
            final(self).settings() == old(self).settings(),
            match reading(
                old(self).state(),
                old(self).settings().letters as nat,
                normalized(line@),
            ) {
                Err(fault) => {
                    &&& played matches Err(e)
                    &&& e == fault
                    &&& final(self).state() == old(self).state()
                },
                Ok(request) => {
                    &&& final(self).state() == after(old(self).state(), request)
                    &&& match played {
                        Ok(turn) => {
                            &&& turn.input@ == request
                            &&& match turn.solved {
                                Some(word) => {
                                    &&& final(self).state().candidates.len() == 1
                                    &&& word@ == final(self).state().candidates[0]
                                },
                                None => final(self).state().candidates.len() >= 2,
                            }
                        },
                        Err(e) => {
                            &&& e == Error::NoCandidatesRemaining
                            &&& final(self).state().candidates.len() == 0
                        },
                    }
                },
            },
    {
        let input = match self.read_guess(line) {
            Err(fault) => {
                return Err(fault);
            },
            Ok(input) => input,
        };
        let applied = copy_input(&input);
        match self.advance(applied) {
            Ok(solved) => Ok(Turn { input, solved }),
            Err(e) => Err(e),
        }
    }
}

/// A copy of a request.
pub fn copy_input(input: &GuessInput) -> (copy: GuessInput)
    ensures
        copy@ == input@,
{
    match input {
        GuessInput::Guess { letter, positions } => {
            let mut cells: Vec<usize> = Vec::new();
            let mut i: usize = 0;
            while i < positions.len()
                invariant
                    i <= positions.len(),
                    cells@ == positions@.take(i as int),
                decreases positions.len() - i,
            {
                cells.push(positions[i]);
                i += 1;
                proof {
                    assert(cells@ =~= positions@.take(i as int));
                }
            }
            proof {
                assert(cells@ =~= positions@);
            }
            GuessInput::Guess { letter: *letter, positions: cells }
        },
        GuessInput::Undo => GuessInput::Undo,
    }
}

} // verus!
