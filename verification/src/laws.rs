//! What holds of the engine's operations: each keeps a reachable state
//! reachable, pruning leaves exactly the words that fit, propagation is
//! idempotent, an undo inverts the guess before it, and the candidates never
//! grow but by an undo.

use vstd::prelude::*;
use crate::model::{
    apart, column, extends, fits, lemma_coherence_kept, lemma_distinct_letters, lemma_survivors_all,
    lemma_survivors_fit, lemma_survivors_members, lemma_survivors_narrowed, survivors, Engine,
    MAX_CELL_LETTERS,
};

verus! {

/// Recording the state in the history keeps it reachable.
pub proof fn lemma_push_history_wf(state: Engine)
    requires
        state.wf(),
    ensures
        state.push_history().wf(),
{
    let after = state.push_history();
    assert forall|k: int| 0 <= k < after.history.len() implies (
    #[trigger] after.history[k]).pattern.len() == after.pattern.len() by {
        if k < state.history.len() {
            assert(after.history[k] == state.history[k]);
        }
    }
    assert forall|k: int, c: char|
        0 <= k < after.history.len() && #[trigger] after.history[k].excluded.contains(
            c,
        ) implies after.used.contains(c) by {
        if k < state.history.len() {
            assert(after.history[k] == state.history[k]);
            assert(state.history[k].excluded.contains(c));
        }
    }
}

/// Feedback that the state admits keeps it reachable, and only adds to what
/// is demanded of a candidate.
pub proof fn lemma_apply_guess_wf(state: Engine, letter: char, positions: Seq<usize>)
    requires
        state.wf(),
        state.admits(letter, positions),
    ensures
        state.apply_guess(letter, positions).wf(),
        extends(
            state.pattern,
            state.excluded,
            state.apply_guess(letter, positions).pattern,
            state.apply_guess(letter, positions).excluded,
        ),
{
    let after = state.apply_guess(letter, positions);
    assert forall|i: int| 0 <= i < state.pattern.len() && (
    #[trigger] state.pattern[i]) is Some implies after.pattern[i] == state.pattern[i] by {
        if exists|k: int| 0 <= k < positions.len() && positions[k] == i {
            let k = choose|k: int| 0 <= k < positions.len() && positions[k] == i;
            assert(state.pattern[positions[k] as int] == Some(letter));
        }
    }
    assert forall|c: char| #[trigger] state.excluded.contains(c) implies after.excluded.contains(
        c,
    ) by {
        let at = choose|at: int| 0 <= at < state.excluded.len() && state.excluded[at] == c;
        assert(after.excluded[at] == c);
    }
    lemma_coherence_kept(
        state.originals,
        state.candidates,
        state.pattern,
        state.excluded,
        after.pattern,
        after.excluded,
    );
    assert forall|k: int| 0 <= k < after.history.len() implies (
    #[trigger] after.history[k]).pattern.len() == after.pattern.len() by {
        if k < state.history.len() {
            assert(after.history[k] == state.history[k]);
        }
    }
    assert forall|k: int, c: char|
        0 <= k < after.history.len() && #[trigger] after.history[k].excluded.contains(
            c,
        ) implies after.used.contains(c) by {
        if k < state.history.len() {
            assert(after.history[k] == state.history[k]);
            assert(state.history[k].excluded.contains(c));
        }
        assert(state.used.contains(c));
        let at = choose|at: int| 0 <= at < state.used.len() && state.used[at] == c;
        assert(after.used[at] == c);
    }
    assert forall|c: char| #[trigger] after.excluded.contains(c) implies after.used.contains(
        c,
    ) by {
        if state.excluded.contains(c) {
            let at = choose|at: int| 0 <= at < state.used.len() && state.used[at] == c;
            assert(after.used[at] == c);
        } else {
            assert(c == letter);
            assert(after.used[state.used.len() as int] == letter);
        }
    }
}

/// After pruning, the candidates are exactly the dictionary words that fit
/// the pattern and hold no excluded letter, in dictionary order, whatever
/// guesses were applied before.
pub proof fn lemma_prune_exact(state: Engine)
    requires
        state.wf(),
    ensures
        state.prune().wf(),
        state.prune().candidates == survivors(state.originals, state.pattern, state.excluded),
        forall|word: Seq<char>| #[trigger]
            state.prune().candidates.contains(word) <==> state.originals.contains(word) && fits(
                word,
                state.pattern,
                state.excluded,
            ),
{
    lemma_survivors_fit(state.candidates, state.pattern, state.excluded);
    lemma_survivors_members(state.originals, state.pattern, state.excluded);
    lemma_coherence_kept(
        state.originals,
        state.candidates,
        state.pattern,
        state.excluded,
        state.pattern,
        state.excluded,
    );
}

/// Filling cells keeps the state reachable, whatever lists are given, and
/// only adds to what is demanded of a candidate.
pub proof fn lemma_fill_wf(state: Engine, lists: Seq<Seq<char>>)
    requires
        state.wf(),
    ensures
        state.fill(lists).wf(),
        extends(state.pattern, state.excluded, state.fill(lists).pattern, state.excluded),
{
    lemma_coherence_kept(
        state.originals,
        state.candidates,
        state.pattern,
        state.excluded,
        state.fill(lists).pattern,
        state.excluded,
    );
}

/// Taking a guess back keeps the state reachable.
pub proof fn lemma_undo_wf(state: Engine)
    requires
        state.wf(),
        state.history.len() > 0,
    ensures
        state.undo().wf(),
{
    let after = state.undo();
    assert forall|k: int| 0 <= k < after.history.len() implies (
    #[trigger] after.history[k]).pattern.len() == after.pattern.len() by {
        assert(after.history[k] == state.history[k]);
    }
    assert forall|k: int, c: char|
        0 <= k < after.history.len() && #[trigger] after.history[k].excluded.contains(
            c,
        ) implies after.used.contains(c) by {
        assert(after.history[k] == state.history[k]);
        assert(state.history[k].excluded.contains(c));
    }
    assert forall|c: char| #[trigger] after.excluded.contains(c) implies after.used.contains(
        c,
    ) by {
        assert(state.history[state.history.len() - 1].excluded.contains(c));
    }
}

/// After pruning, filling what the candidates force leaves every candidate
/// fitting: the candidates are exactly the dictionary words that fit the
/// filled pattern.
pub proof fn lemma_propagate_settled(state: Engine)
    requires
        state.wf(),
    ensures
        state.propagate().wf(),
        state.propagate().candidates == survivors(
            state.propagate().originals,
            state.propagate().pattern,
            state.propagate().excluded,
        ),
        extends(state.pattern, state.excluded, state.propagate().pattern, state.excluded),
{
    let pruned = state.prune();
    let lists = pruned.potentials();
    let filled = state.propagate();
    lemma_survivors_fit(state.candidates, state.pattern, state.excluded);
    lemma_coherence_kept(
        state.originals,
        state.candidates,
        state.pattern,
        state.excluded,
        state.pattern,
        state.excluded,
    );
    assert forall|k: int| 0 <= k < pruned.candidates.len() implies fits(
        #[trigger] pruned.candidates[k],
        filled.pattern,
        filled.excluded,
    ) by {
        let word = pruned.candidates[k];
        assert(fits(word, state.pattern, state.excluded));
        assert forall|i: int| 0 <= i < word.len() implies ((#[trigger] filled.pattern[i]) matches Some(
            c,
        ) ==> word[i] == c) by {
            if state.pattern[i] is None && lists[i].len() == 1 {
                let cells = column(pruned.candidates, i);
                lemma_distinct_letters(cells, MAX_CELL_LETTERS as nat);
                assert(cells[k] == word[i]);
                assert(lists[i].contains(cells[k]));
            } else {
                assert(filled.pattern[i] == state.pattern[i]);
            }
        }
    }
    lemma_survivors_all(pruned.candidates, filled.pattern, filled.excluded);
    lemma_coherence_kept(
        state.originals,
        state.candidates,
        state.pattern,
        state.excluded,
        filled.pattern,
        filled.excluded,
    );
    assert forall|k: int| 0 <= k < filled.candidates.len() implies (
    #[trigger] filled.candidates[k]).len() == filled.pattern.len() by {
        assert(fits(pruned.candidates[k], state.pattern, state.excluded));
    }
}


/// Propagation is idempotent: a second round right after the first changes
/// nothing.
pub proof fn lemma_propagate_idempotent(state: Engine)
    requires
        state.wf(),
    ensures
        state.propagate().propagate() == state.propagate(),
{
    let once = state.propagate();
    lemma_propagate_settled(state);
    lemma_survivors_narrowed(
        once.originals,
        once.pattern,
        once.excluded,
        once.pattern,
        once.excluded,
    );
    assert(once.prune() == once);
    let lists = state.prune().potentials();
    let again = once.potentials();
    assert forall|i: int| 0 <= i < once.pattern.len() implies once.fill(again).pattern[i]
        == once.pattern[i] by {
        if once.pattern[i] is None {
            assert(state.pattern[i] is None);
            assert(again[i] == lists[i]);
        }
    }
    assert(once.fill(again).pattern =~= once.pattern);
}

/// An undo inverts the guess before it. The pattern, the excluded letters
/// and the history are again what they were before the guess, also where
/// the guess was propagated in between; and pruning or propagating then
/// gives the candidates and the pattern that the state before the guess
/// gives.
pub proof fn lemma_undo_inverts_guess(state: Engine, letter: char, positions: Seq<usize>)
    requires
        state.wf(),
    ensures
        state.apply_guess(letter, positions).undo().pattern == state.pattern,
        state.apply_guess(letter, positions).undo().excluded == state.excluded,
        state.apply_guess(letter, positions).undo().history == state.history,
        state.apply_guess(letter, positions).propagate().undo()
            == state.apply_guess(letter, positions).undo(),
        state.apply_guess(letter, positions).undo().prune().candidates
            == state.prune().candidates,
        state.apply_guess(letter, positions).undo().propagate().candidates
            == state.propagate().candidates,
        state.apply_guess(letter, positions).undo().propagate().pattern
            == state.propagate().pattern,
{
    let guessed = state.apply_guess(letter, positions);
    let undone = guessed.undo();
    assert(guessed.history.drop_last() =~= state.history);
    assert(undone.pattern == state.pattern);
    assert(undone.prune().candidates == state.prune().candidates);
    assert(undone.propagate().pattern =~= state.propagate().pattern);
}

/// The number of candidates never grows but by an undo: a guess, a filling
/// and a recording leave the candidates as they are, and pruning and
/// propagation can only remove some.
pub proof fn lemma_candidates_never_grow(
    state: Engine,
    letter: char,
    positions: Seq<usize>,
    lists: Seq<Seq<char>>,
)
    ensures
        state.apply_guess(letter, positions).candidates == state.candidates,
        state.fill(lists).candidates == state.candidates,
        state.push_history().candidates == state.candidates,
        state.prune().candidates.len() <= state.candidates.len(),
        state.propagate().candidates.len() <= state.candidates.len(),
{
    lemma_survivors_fit(state.candidates, state.pattern, state.excluded);
}

/// A session starts with no letter both placed and excluded.
pub proof fn lemma_initial_unmixed(words: Seq<Seq<char>>, length: nat)
    ensures
        Engine::initial(words, length).unmixed(),
{
}

/// Feedback keeps placed and excluded letters apart, unless it contradicts
/// what is known: it must not place an excluded letter, nor exclude a letter
/// that stands in a cell.
pub proof fn lemma_apply_guess_unmixed(state: Engine, letter: char, positions: Seq<usize>)
    requires
        state.unmixed(),
        positions.len() > 0 ==> !state.excluded.contains(letter),
        positions.len() == 0 ==> !state.places(letter),
    ensures
        state.apply_guess(letter, positions).unmixed(),
{
    let after = state.apply_guess(letter, positions);
    assert forall|i: int| 0 <= i < after.pattern.len() implies ((
    #[trigger] after.pattern[i]) matches Some(c) ==> !after.excluded.contains(c)) by {
        if after.pattern[i] is Some {
            let c = after.pattern[i]->Some_0;
            if positions.len() == 0 {
                assert(state.pattern[i] == Some(c));
                if after.excluded.contains(c) {
                    let at = choose|at: int|
                        0 <= at < after.excluded.len() && after.excluded[at] == c;
                    if at < state.excluded.len() {
                        assert(state.excluded[at] == c);
                    }
                }
            } else if state.pattern[i] != Some(c) {
                assert(c == letter);
            }
        }
    }
    assert forall|k: int| 0 <= k < after.history.len() implies apart(
        (#[trigger] after.history[k]).pattern,
        after.history[k].excluded,
    ) by {
        if k < state.history.len() {
            assert(after.history[k] == state.history[k]);
        }
    }
}

/// Propagation keeps placed and excluded letters apart: a letter that the
/// candidates force stands in a candidate, which holds no excluded letter.
pub proof fn lemma_propagate_unmixed(state: Engine)
    requires
        state.unmixed(),
    ensures
        state.propagate().unmixed(),
{
    let pruned = state.prune();
    let lists = pruned.potentials();
    let filled = state.propagate();
    lemma_survivors_fit(state.candidates, state.pattern, state.excluded);
    assert forall|i: int| 0 <= i < filled.pattern.len() implies ((
    #[trigger] filled.pattern[i]) matches Some(c) ==> !filled.excluded.contains(c)) by {
        if state.pattern[i] is None && lists[i].len() == 1 {
            let cells = column(pruned.candidates, i);
            lemma_distinct_letters(cells, MAX_CELL_LETTERS as nat);
            assert(lists[i].contains(lists[i][0]));
            let k = choose|k: int| 0 <= k < cells.len() && cells[k] == lists[i][0];
            let word = pruned.candidates[k];
            assert(fits(word, state.pattern, state.excluded));
            assert(word[i] == lists[i][0]);
        } else {
            assert(filled.pattern[i] == state.pattern[i]);
        }
    }
}

/// An undo keeps placed and excluded letters apart.
pub proof fn lemma_undo_unmixed(state: Engine)
    requires
        state.unmixed(),
        state.history.len() > 0,
    ensures
        state.undo().unmixed(),
{
    let after = state.undo();
    assert(apart(
        state.history[state.history.len() - 1].pattern,
        state.history[state.history.len() - 1].excluded,
    ));
    assert forall|k: int| 0 <= k < after.history.len() implies apart(
        (#[trigger] after.history[k]).pattern,
        after.history[k].excluded,
    ) by {
        assert(after.history[k] == state.history[k]);
    }
}

} // verus!
