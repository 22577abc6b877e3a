//! The simulation driver: it plays a whole game against a known word,
//! always guessing the best-ranked letter, and reports how the game went.

use vstd::prelude::*;
use crate::error::Error;
use crate::lists::chars_of;
use crate::laws::{lemma_apply_guess_wf, lemma_propagate_settled};
use crate::model::{
    is_lowercase, lemma_of_length_members, lemma_survivors_members, of_length, survivors, Engine,
    Frame,
};
use crate::player::{frames, HangmanPlayer, HistoryFrame};
use crate::ranking::letter_at;

verus! {

/// How a simulated game went.
#[derive(Debug, PartialEq, Eq)]
pub struct SimResults {
    /// One frame per guess, showing what was known before it, and a last
    /// frame for what was known at the end.
    pub history: Vec<HistoryFrame>,
    /// The letters guessed, in order.
    pub guesses: Vec<char>,
    /// How many guessed letters the word does not hold.
    pub mistakes: usize,
}

/// A simulated game as a value of the model.
pub struct SimRun {
    pub history: Seq<Frame>,
    pub guesses: Seq<char>,
    pub mistakes: nat,
}

impl View for SimResults {
    type V = SimRun;

    open spec fn view(&self) -> SimRun {
        SimRun {
            history: frames(self.history@),
            guesses: self.guesses@,
            mistakes: self.mistakes as nat,
        }
    }
}

/// The cells of a word that hold a letter, in ascending order.
pub open spec fn occurrences(word: Seq<char>, letter: char) -> Seq<usize>
    decreases word.len(),
{
    if word.len() == 0 {
        Seq::empty()
    } else if word.last() == letter {
        occurrences(word.drop_last(), letter).push((word.len() - 1) as usize)
    } else {
        occurrences(word.drop_last(), letter)
    }
}

/// How many of the first `count` letters of the alphabet are not used.
pub open spec fn unused_among(used: Seq<char>, count: nat) -> nat
    decreases count,
{
    if count == 0 {
        0
    } else if used.contains(letter_at(count - 1)) {
        unused_among(used, (count - 1) as nat)
    } else {
        unused_among(used, (count - 1) as nat) + 1
    }
}

/// How many letters are left to guess.
pub open spec fn letters_left(state: Engine) -> nat {
    unused_among(state.used, 26)
}

/// The game from a given state on, with the guesses and mistakes made so
/// far.
///
/// Each turn guesses the best-ranked letter, learns its cells from the
/// target, applies that and propagates. The game is won when the target is
/// the one candidate left. It has diverged when no letter is left to guess,
/// when the target holds the letter in a cell that is placed with another,
/// when no candidate is left, or when the one left is not the target.
pub open spec fn game_from(state: Engine, target: Seq<char>, guesses: Seq<char>, mistakes: nat)
    -> Result<SimRun, Error>
    decreases letters_left(state),
    via game_from_decreases
{
    match state.top_letter() {
        None => Err(Error::SimulationDivergence),
        Some(letter) => {
            let positions = occurrences(target, letter);
            let next = state.apply_guess(letter, positions).propagate();
            let guessed = guesses.push(letter);
            let missed = if positions.len() == 0 {
                mistakes + 1
            } else {
                mistakes
            };
            if !state.admits(letter, positions) || next.candidates.len() == 0 {
                Err(Error::SimulationDivergence)
            } else if next.candidates.len() == 1 {
                if next.candidates[0] == target {
                    Ok(
                        SimRun {
                            history: next.history.push(next.frame()),
                            guesses: guessed,
                            mistakes: missed,
                        },
                    )
                } else {
                    Err(Error::SimulationDivergence)
                }
            } else {
                game_from(next, target, guessed, missed)
            }
        },
    }
}

#[via_fn]
proof fn game_from_decreases(state: Engine, target: Seq<char>, guesses: Seq<char>, mistakes: nat) {
    match state.top_letter() {
        Some(letter) => {
            lemma_guess_uses_letter(state, letter, occurrences(target, letter));
        },
        None => {},
    }
}

/// A whole game on a dictionary against a target word.
pub open spec fn simulation(words: Seq<Seq<char>>, target: Seq<char>) -> Result<SimRun, Error> {
    if target.len() == 0 || of_length(words, target.len()).len() == 0 {
        Err(Error::InvalidConfiguration)
    } else {
        game_from(Engine::initial(words, target.len()), target, Seq::empty(), 0)
    }
}

/// Using one more letter leaves no more letters unused, and one fewer if the
/// letter is among those counted and was not used before.
pub proof fn lemma_unused_among(used: Seq<char>, letter: char, count: nat)
    requires
        count <= 26,
    ensures
        unused_among(used.push(letter), count) <= unused_among(used, count),
        is_lowercase(letter) && letter < letter_at(count as int) && !used.contains(letter)
            ==> unused_among(used.push(letter), count) < unused_among(used, count),
    decreases count,
{
    if count > 0 {
        lemma_unused_among(used, letter, (count - 1) as nat);
        let last = letter_at(count - 1);
        if used.contains(last) {
            let at = choose|at: int| 0 <= at < used.len() && used[at] == last;
            assert(used.push(letter)[at] == last);
        } else if last == letter {
            assert(used.push(letter)[used.len() as int] == letter);
        } else {
            assert(!used.push(letter).contains(last));
        }
    }
}

/// Guessing the best-ranked letter leaves fewer letters to guess.
pub proof fn lemma_guess_uses_letter(state: Engine, letter: char, positions: Seq<usize>)
    requires
        state.top_letter() == Some(letter),
    ensures
        letters_left(state.apply_guess(letter, positions).propagate()) < letters_left(state),
{
    assert(is_lowercase(state.ranking()[0].0));
    lemma_unused_among(state.used, letter, 26);
}

/// What a game that is won says: the target is a dictionary word; the
/// guesses and mistakes made before stand; each further guess has one frame,
/// and one more frame ends the history; and no more mistakes were added than
/// guesses.
pub proof fn lemma_game_won(state: Engine, target: Seq<char>, guesses: Seq<char>, mistakes: nat)
    requires
        state.wf(),
        game_from(state, target, guesses, mistakes) is Ok,
    ensures
        state.originals.contains(target),
        ({
            let run = game_from(state, target, guesses, mistakes)->Ok_0;
            &&& run.guesses.len() > guesses.len()
            &&& run.guesses.take(guesses.len() as int) == guesses
            &&& run.history.len() - state.history.len() == run.guesses.len() - guesses.len() + 1
            &&& mistakes <= run.mistakes
            &&& run.mistakes - mistakes <= run.guesses.len() - guesses.len()
        }),
    decreases letters_left(state),
{
    let letter = state.top_letter()->Some_0;
    let positions = occurrences(target, letter);
    let marked = state.apply_guess(letter, positions);
    let next = marked.propagate();
    let guessed = guesses.push(letter);
    let missed = if positions.len() == 0 {
        mistakes + 1
    } else {
        mistakes
    };
    lemma_apply_guess_wf(state, letter, positions);
    lemma_propagate_settled(marked);
    if next.candidates.len() == 1 {
        lemma_survivors_members(next.originals, next.pattern, next.excluded);
        assert(next.candidates.contains(next.candidates[0]));
        assert(guessed.take(guesses.len() as int) =~= guesses);
    } else {
        lemma_guess_uses_letter(state, letter, positions);
        lemma_game_won(next, target, guessed, missed);
        let run = game_from(next, target, guessed, missed)->Ok_0;
        assert(run.guesses.take(guesses.len() as int) =~= run.guesses.take(
            guessed.len() as int,
        ).take(guesses.len() as int));
    }
}

/// What a simulation that succeeds says: the target is a word of the
/// dictionary; there is one frame for each guess and one for the end; and
/// there are no more mistakes than guesses.
pub proof fn lemma_simulation_won(words: Seq<Seq<char>>, target: Seq<char>)
    requires
        simulation(words, target) is Ok,
    ensures
        words.contains(target),
        simulation(words, target)->Ok_0.history.len() == simulation(
            words,
            target,
        )->Ok_0.guesses.len() + 1,
        simulation(words, target)->Ok_0.mistakes <= simulation(words, target)->Ok_0.guesses.len(),
{
    let start = Engine::initial(words, target.len());
    lemma_of_length_members(words, target.len());
    reveal(Seq::filter);
    assert(survivors(start.candidates, start.pattern, start.excluded) == survivors(
        start.originals,
        start.pattern,
        start.excluded,
    ));
    assert(start.wf());
    lemma_game_won(start, target, Seq::empty(), 0);
    let at = choose|at: int| 0 <= at < start.originals.len() && start.originals[at] == target;
    assert(words.contains(of_length(words, target.len())[at]));
}

/// The cells of a word that hold a letter.
pub fn letter_positions(word: &Vec<char>, letter: char) -> (positions: Vec<usize>)
    ensures
        positions@ == occurrences(word@, letter),
{
    let mut positions: Vec<usize> = Vec::new();
    let mut i: usize = 0;
    proof {
        assert(word@.take(0) =~= Seq::<char>::empty());
    }
    while i < word.len()
        invariant
            i <= word.len(),
            positions@ == occurrences(word@.take(i as int), letter),
        decreases word.len() - i,
    {
        proof {
            assert(word@.take(i + 1).drop_last() =~= word@.take(i as int));
            assert(word@.take(i + 1).last() == word@[i as int]);
        }
        if word[i] == letter {
            positions.push(i);
        }
        i += 1;
    }
    proof {
        assert(word@.take(i as int) =~= word@);
    }
    positions
}

/// Plays a whole game on a dictionary against a target word: each turn
/// guesses the best-ranked letter and takes its cells from the target.
/// Fails if the target is empty or the dictionary has no word of its
/// length, and with a divergence if the game does not arrive at the target.
pub fn simulate(words: Vec<String>, word: String) -> (result: Result<SimResults, Error>)
    ensures
        match result {
            Ok(results) => simulation(words.deep_view(), word@) == Ok::<SimRun, Error>(results@),
            Err(e) => simulation(words.deep_view(), word@) == Err::<SimRun, Error>(e),
        },
{
    let ghost all = words.deep_view();
    let target = chars_of(word.as_str());
    let mut player = match HangmanPlayer::new(words, target.len()) {
        Err(e) => {
            return Err(e);
        },
        Ok(player) => player,
    };
    let mut mistakes: usize = 0;
    let mut guesses: Vec<char> = Vec::new();
    loop
        invariant
            all == words.deep_view(),
            target@ == word@,
            player@.wf(),
            mistakes <= guesses@.len(),
            game_from(player@, target@, guesses@, mistakes as nat) == simulation(all, word@),
        decreases letters_left(player@),
    {
        let ghost state = player@;
        let scores = player.compute_letter_scores();
        if scores.len() == 0 {
            return Err(Error::SimulationDivergence);
        }
        let letter = scores[0].0;
        let positions = letter_positions(&target, letter);
        if !player.admits(letter, &positions) {
            return Err(Error::SimulationDivergence);
        }
        let missed = positions.len() == 0;
        guesses.push(letter);
        if missed {
            assert(mistakes < guesses.len());
            mistakes += 1;
        }
        player.mark_result(letter, positions);
        player.prune_and_fill_certain_letters();
        proof {
            lemma_guess_uses_letter(state, letter, occurrences(target@, letter));
        }
        let candidates = player.available_words();
        proof {
            assert(candidates.deep_view().len() == candidates@.len());
        }
        if candidates.len() == 0 {
            return Err(Error::SimulationDivergence);
        }
        if candidates.len() == 1 {
            proof {
                assert(candidates.deep_view()[0] == candidates@[0]@);
            }
            if candidates[0] == word {
                player.push_history();
                return Ok(SimResults { history: player.into_history(), guesses, mistakes });
            }
            return Err(Error::SimulationDivergence);
        }
    }
}

} // verus!
