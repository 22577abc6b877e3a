use hangman::error::Error;
use hangman::player::HistoryFrame;
use hangman::simulate::{letter_positions, simulate, SimResults};

fn list(words: &[&str]) -> Vec<String> {
    words.iter().map(|w| w.to_string()).collect()
}

fn frame(pattern: &str, excluded: &str) -> HistoryFrame {
    HistoryFrame {
        guess: pattern.chars().map(|c| if c == '_' { None } else { Some(c) }).collect(),
        not_present: excluded.chars().collect(),
    }
}

#[test]
fn simulate_finds_a_word_without_a_mistake() {
    let result = simulate(list(&["bat", "cat", "car", "can"]), "can".to_string());
    assert_eq!(
        result,
        Ok(SimResults {
            history: vec![frame("___", ""), frame("_a_", ""), frame("ca_", ""), frame("can", "")],
            guesses: vec!['a', 'c', 'n'],
            mistakes: 0,
        })
    );
}

#[test]
fn simulate_counts_the_absent_letters() {
    let result = simulate(list(&["bat", "cat", "car", "can"]), "bat".to_string());
    assert_eq!(
        result,
        Ok(SimResults {
            history: vec![frame("___", ""), frame("_a_", ""), frame("bat", "c")],
            guesses: vec!['a', 'c'],
            mistakes: 1,
        })
    );
}

#[test]
fn simulate_skips_words_of_other_lengths() {
    let result = simulate(list(&["boat", "at", "bat", "oat", "b"]), "oat".to_string()).unwrap();
    assert_eq!(result.guesses, vec!['a', 't', 'b']);
    assert_eq!(result.mistakes, 1);
    assert_eq!(result.history.len(), 4);
}

#[test]
fn simulate_diverges_when_another_word_is_left() {
    let result = simulate(list(&["bat", "cat", "car", "can"]), "cab".to_string());
    assert_eq!(result, Err(Error::SimulationDivergence));
}

#[test]
fn simulate_diverges_when_no_word_is_left() {
    let result = simulate(list(&["bat", "cat", "car", "can"]), "dog".to_string());
    assert_eq!(result, Err(Error::SimulationDivergence));
}

#[test]
fn simulate_diverges_when_the_word_stands_twice() {
    let result = simulate(list(&["ab", "ab"]), "ab".to_string());
    assert_eq!(result, Err(Error::SimulationDivergence));
}

#[test]
fn simulate_refuses_a_word_without_dictionary() {
    let words = list(&["bat", "cat", "car", "can"]);
    assert_eq!(simulate(words.clone(), "boat".to_string()), Err(Error::InvalidConfiguration));
    assert_eq!(simulate(words, String::new()), Err(Error::InvalidConfiguration));
}

#[test]
fn simulate_finds_every_word_of_a_dictionary() {
    let words = list(&[
        "able", "acid", "aged", "also", "area", "army", "away", "baby", "back", "ball", "band",
        "bank", "base", "bath", "bear", "beat", "been", "beer", "bell", "belt", "tree", "trap",
    ]);
    for word in &words {
        let result = simulate(words.clone(), word.clone()).unwrap();
        assert!(result.mistakes <= result.guesses.len());
        assert_eq!(result.history.len(), result.guesses.len() + 1);
        let last = result.history.last().unwrap();
        for (cell, letter) in last.guess.iter().zip(word.chars()) {
            assert!(cell.is_none() || *cell == Some(letter));
        }
        let absent = result.guesses.iter().filter(|g| !word.contains(**g)).count();
        assert_eq!(result.mistakes, absent);
    }
}

#[test]
fn letter_positions_are_the_cells_of_the_letter() {
    let word: Vec<char> = "banana".chars().collect();
    assert_eq!(letter_positions(&word, 'a'), vec![1, 3, 5]);
    assert_eq!(letter_positions(&word, 'b'), vec![0]);
    assert_eq!(letter_positions(&word, 'z'), Vec::<usize>::new());
}
