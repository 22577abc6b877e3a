use hangman::error::Error;
use hangman::player::{HangmanPlayer, HistoryFrame};

fn words(list: &[&str]) -> Vec<String> {
    list.iter().map(|w| w.to_string()).collect()
}

fn dictionary() -> Vec<String> {
    words(&["bat", "cat", "car", "can"])
}

fn letters(text: &str) -> Vec<char> {
    text.chars().collect()
}

fn pattern(text: &str) -> Vec<Option<char>> {
    text.chars().map(|c| if c == '_' { None } else { Some(c) }).collect()
}

#[test]
fn new_keeps_the_words_of_the_length() {
    let player = HangmanPlayer::new(words(&["bat", "boat", "at", "cat", ""]), 3).unwrap();
    assert_eq!(player.original_words(), &words(&["bat", "cat"]));
    assert_eq!(player.available_words(), &words(&["bat", "cat"]));
    assert_eq!(player.current_guess(), &pattern("___"));
    assert_eq!(player.word_length(), 3);
    assert!(player.not_present().is_empty());
    assert!(player.used_letters().is_empty());
    assert!(player.guess_history().is_empty());
}

#[test]
fn new_counts_characters_not_bytes() {
    let player = HangmanPlayer::new(words(&["h\u{e9}\u{e9}", "cat", "caf\u{e9}"]), 3).unwrap();
    assert_eq!(player.available_words(), &words(&["h\u{e9}\u{e9}", "cat"]));
}

#[test]
fn new_refuses_length_zero() {
    assert_eq!(HangmanPlayer::new(dictionary(), 0).err(), Some(Error::InvalidConfiguration));
    assert_eq!(HangmanPlayer::new(words(&[""]), 0).err(), Some(Error::InvalidConfiguration));
}

#[test]
fn new_refuses_a_dictionary_without_a_word_of_the_length() {
    assert_eq!(HangmanPlayer::new(dictionary(), 4).err(), Some(Error::InvalidConfiguration));
    assert_eq!(HangmanPlayer::new(Vec::new(), 3).err(), Some(Error::InvalidConfiguration));
}

#[test]
fn mark_result_places_a_letter() {
    let mut player = HangmanPlayer::new(dictionary(), 3).unwrap();
    player.mark_result('a', vec![1]);
    assert_eq!(player.current_guess(), &pattern("_a_"));
    assert!(player.not_present().is_empty());
    assert_eq!(player.used_letters(), &letters("a"));
    assert_eq!(
        player.guess_history(),
        &vec![HistoryFrame { guess: pattern("___"), not_present: vec![] }]
    );
    assert_eq!(player.available_words(), &dictionary());
}

#[test]
fn mark_result_places_a_letter_in_several_cells() {
    let mut player = HangmanPlayer::new(words(&["eve", "eye", "ewe", "axe"]), 3).unwrap();
    player.mark_result('e', vec![2, 0, 2]);
    assert_eq!(player.current_guess(), &pattern("e_e"));
}

#[test]
fn mark_result_excludes_an_absent_letter() {
    let mut player = HangmanPlayer::new(dictionary(), 3).unwrap();
    player.mark_result('t', vec![]);
    assert_eq!(player.current_guess(), &pattern("___"));
    assert_eq!(player.not_present(), &letters("t"));
    assert_eq!(player.used_letters(), &letters("t"));
    assert_eq!(player.guess_history().len(), 1);
    assert_eq!(player.available_words(), &dictionary());
}

#[test]
fn admits_tells_which_feedback_can_be_marked() {
    let mut player = HangmanPlayer::new(dictionary(), 3).unwrap();
    assert!(player.admits('a', &vec![0, 1, 2]));
    assert!(player.admits('a', &vec![]));
    assert!(!player.admits('a', &vec![3]));
    player.mark_result('a', vec![1]);
    assert!(player.admits('a', &vec![1]));
    assert!(!player.admits('b', &vec![0, 1]));
    assert!(player.admits('b', &vec![0, 2]));
}

#[test]
fn prune_words_keeps_what_fits_and_lists_the_letters_per_cell() {
    let mut player = HangmanPlayer::new(dictionary(), 3).unwrap();
    player.mark_result('a', vec![1]);
    let potential = player.prune_words();
    assert_eq!(player.available_words(), &dictionary());
    assert_eq!(potential, vec![letters("bc"), letters(""), letters("trn")]);
    player.mark_result('t', vec![]);
    let potential = player.prune_words();
    assert_eq!(player.available_words(), &words(&["car", "can"]));
    assert_eq!(potential, vec![letters("c"), letters(""), letters("rn")]);
}

#[test]
fn prune_words_forbids_an_excluded_letter_in_every_cell() {
    let mut player = HangmanPlayer::new(words(&["abc", "bca", "cab", "bbb"]), 3).unwrap();
    player.mark_result('a', vec![]);
    let potential = player.prune_words();
    assert_eq!(player.available_words(), &words(&["bbb"]));
    assert_eq!(potential, vec![letters("b"), letters("b"), letters("b")]);
}

#[test]
fn prune_words_records_at_most_26_letters_per_cell() {
    let mut list: Vec<String> = ('a'..='z').map(|c| c.to_string()).collect();
    list.push("A".to_string());
    list.push("a".to_string());
    let mut player = HangmanPlayer::new(list, 1).unwrap();
    let potential = player.prune_words();
    assert_eq!(player.available_words().len(), 28);
    assert_eq!(potential, vec![('a'..='z').collect::<Vec<char>>()]);
}

#[test]
fn prune_words_on_no_candidates_lists_nothing() {
    let mut player = HangmanPlayer::new(dictionary(), 3).unwrap();
    player.mark_result('z', vec![0]);
    let potential = player.prune_words();
    assert!(player.available_words().is_empty());
    assert_eq!(potential, vec![letters(""), letters(""), letters("")]);
}

#[test]
fn fill_certain_letters_fills_cells_with_one_letter() {
    let mut player = HangmanPlayer::new(dictionary(), 3).unwrap();
    player.mark_result('a', vec![1]);
    player.fill_certain_letters(vec![letters("c"), letters("x"), letters("rn")]);
    assert_eq!(player.current_guess(), &pattern("ca_"));
    assert_eq!(player.used_letters(), &letters("a"));
}

#[test]
fn fill_certain_letters_takes_the_lists_cell_by_cell() {
    let mut player = HangmanPlayer::new(dictionary(), 3).unwrap();
    player.fill_certain_letters(vec![letters("c")]);
    assert_eq!(player.current_guess(), &pattern("c__"));
    player.fill_certain_letters(vec![letters("b"), letters(""), letters("n"), letters("q")]);
    assert_eq!(player.current_guess(), &pattern("c_n"));
}

#[test]
fn end_to_end_example() {
    let mut player = HangmanPlayer::new(dictionary(), 3).unwrap();
    player.mark_result('a', vec![1]);
    assert_eq!(player.current_guess(), &pattern("_a_"));
    player.prune_and_fill_certain_letters();
    assert_eq!(player.available_words(), &dictionary());
    assert_eq!(player.current_guess(), &pattern("_a_"));
    assert_eq!(player.solution(), Ok(None));

    player.mark_result('t', vec![]);
    assert_eq!(player.not_present(), &letters("t"));
    player.prune_and_fill_certain_letters();
    assert_eq!(player.available_words(), &words(&["car", "can"]));
    assert_eq!(player.current_guess(), &pattern("ca_"));
    assert_eq!(player.solution(), Ok(None));

    player.mark_result('n', vec![2]);
    player.prune_and_fill_certain_letters();
    assert_eq!(player.available_words(), &words(&["can"]));
    assert_eq!(player.solution(), Ok(Some("can".to_string())));
}

#[test]
fn exhaustion_example() {
    let mut player = HangmanPlayer::new(dictionary(), 3).unwrap();
    player.mark_result('z', vec![0]);
    player.prune_and_fill_certain_letters();
    assert!(player.available_words().is_empty());
    assert_eq!(player.solution(), Err(Error::NoCandidatesRemaining));
}

#[test]
fn undo_without_a_guess_fails_and_changes_nothing() {
    let mut player = HangmanPlayer::new(dictionary(), 3).unwrap();
    assert_eq!(player.undo(), Err(Error::NothingToUndo));
    assert_eq!(player.available_words(), &dictionary());
    assert_eq!(player.current_guess(), &pattern("___"));
}

#[test]
fn undo_restores_pattern_and_excluded_letters_but_not_used_letters() {
    let mut player = HangmanPlayer::new(dictionary(), 3).unwrap();
    player.mark_result('a', vec![1]);
    player.prune_and_fill_certain_letters();
    player.mark_result('t', vec![]);
    player.prune_and_fill_certain_letters();
    assert_eq!(player.current_guess(), &pattern("ca_"));

    assert_eq!(player.undo(), Ok(()));
    assert_eq!(player.current_guess(), &pattern("_a_"));
    assert!(player.not_present().is_empty());
    assert_eq!(player.available_words(), &dictionary());
    assert_eq!(player.used_letters(), &letters("at"));
    assert_eq!(player.guess_history().len(), 1);

    assert_eq!(player.undo(), Ok(()));
    assert_eq!(player.current_guess(), &pattern("___"));
    assert_eq!(player.guess_history().len(), 0);
    assert_eq!(player.undo(), Err(Error::NothingToUndo));
}

#[test]
fn undo_then_prune_gives_the_candidates_from_before_the_guess() {
    let mut player = HangmanPlayer::new(dictionary(), 3).unwrap();
    player.mark_result('c', vec![0]);
    player.prune_and_fill_certain_letters();
    let before = player.available_words().clone();
    let pattern_before = player.current_guess().clone();
    assert_eq!(before, words(&["cat", "car", "can"]));
    assert_eq!(pattern_before, pattern("ca_"));

    player.mark_result('n', vec![2]);
    player.prune_and_fill_certain_letters();
    assert_eq!(player.available_words(), &words(&["can"]));

    assert_eq!(player.undo(), Ok(()));
    assert_eq!(player.current_guess(), &pattern_before);
    assert_eq!(player.available_words(), &dictionary());
    player.prune_and_fill_certain_letters();
    assert_eq!(player.available_words(), &before);
    assert_eq!(player.current_guess(), &pattern_before);
}

#[test]
fn propagation_twice_changes_nothing_the_second_time() {
    let mut player = HangmanPlayer::new(dictionary(), 3).unwrap();
    player.mark_result('t', vec![]);
    player.prune_and_fill_certain_letters();
    let words_once = player.available_words().clone();
    let pattern_once = player.current_guess().clone();
    let excluded_once = player.not_present().clone();
    let used_once = player.used_letters().clone();
    let history_once = player.guess_history().len();
    player.prune_and_fill_certain_letters();
    assert_eq!(player.available_words(), &words_once);
    assert_eq!(player.current_guess(), &pattern_once);
    assert_eq!(player.not_present(), &excluded_once);
    assert_eq!(player.used_letters(), &used_once);
    assert_eq!(player.guess_history().len(), history_once);
    assert_eq!(pattern_once, pattern("ca_"));
}

fn fits_by_hand(word: &str, pattern: &[Option<char>], excluded: &[char]) -> bool {
    let cells: Vec<char> = word.chars().collect();
    cells.len() == pattern.len()
        && cells.iter().zip(pattern).all(|(c, p)| p.map_or(true, |p| p == *c))
        && cells.iter().all(|c| !excluded.contains(c))
}

#[test]
fn pruning_leaves_exactly_the_dictionary_words_that_fit() {
    let list = words(&[
        "able", "acid", "aged", "also", "area", "army", "away", "baby", "back", "ball", "band",
        "bank", "base", "bath", "bear", "beat", "been", "beer", "bell", "belt", "tree", "trap",
    ]);
    let feedback: Vec<(char, Vec<usize>)> =
        vec![('e', vec![1]), ('s', vec![]), ('a', vec![2]), ('b', vec![0]), ('q', vec![])];
    let mut player = HangmanPlayer::new(list.clone(), 4).unwrap();
    let mut sizes = vec![player.available_words().len()];
    for (letter, cells) in feedback {
        assert!(player.admits(letter, &cells));
        player.mark_result(letter, cells);
        assert_eq!(sizes.last(), Some(&player.available_words().len()));
        player.prune_words();
        let expected: Vec<String> = list
            .iter()
            .filter(|w| fits_by_hand(w, player.current_guess(), player.not_present()))
            .cloned()
            .collect();
        assert_eq!(player.available_words(), &expected);
        assert!(player.available_words().len() <= *sizes.last().unwrap());
        sizes.push(player.available_words().len());
        let before_fill = player.available_words().clone();
        let potential = player.prune_words();
        player.fill_certain_letters(potential);
        assert_eq!(player.available_words(), &before_fill);
    }
    assert_eq!(sizes, vec![22, 6, 6, 2, 2, 2]);
    assert_eq!(player.available_words(), &words(&["bear", "beat"]));
    assert_eq!(player.current_guess(), &pattern("bea_"));
}

#[test]
fn push_history_records_the_state() {
    let mut player = HangmanPlayer::new(dictionary(), 3).unwrap();
    player.mark_result('t', vec![]);
    player.push_history();
    let history = player.into_history();
    assert_eq!(
        history,
        vec![
            HistoryFrame { guess: pattern("___"), not_present: vec![] },
            HistoryFrame { guess: pattern("___"), not_present: vec!['t'] },
        ]
    );
}
