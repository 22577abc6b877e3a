use hangman::error::{CountFault, Error, InputFault};
use hangman::input::{nonzero, GuessInput};
use hangman::player::HangmanPlayer;
use hangman::ui::{PlayArgs, PlayerUI, Turn};

fn session(list: &[&str], letters: usize) -> PlayerUI {
    let words: Vec<String> = list.iter().map(|w| w.to_string()).collect();
    let player = HangmanPlayer::new(words, letters).unwrap();
    PlayerUI::new(player, PlayArgs { letters, num_suggestions: 5, display_guesses_threshold: 3 })
}

fn small() -> PlayerUI {
    session(&["bat", "cat", "car", "can"], 3)
}

fn fault(kind: InputFault) -> Result<GuessInput, Error> {
    Err(Error::InvalidGuessInput(kind))
}

fn guess(letter: char, positions: &[usize]) -> GuessInput {
    GuessInput::Guess { letter, positions: positions.to_vec() }
}

#[test]
fn read_guess_reads_a_letter_with_its_cells() {
    let ui = small();
    assert_eq!(ui.read_guess("a 2"), Ok(guess('a', &[1])));
    assert_eq!(ui.read_guess("n 1"), Ok(guess('n', &[0])));
    assert_eq!(ui.read_guess("e 3 1 3"), Ok(guess('e', &[2, 0, 2])));
    assert_eq!(ui.read_guess("g"), Ok(guess('g', &[])));
    assert_eq!(ui.read_guess("a 002"), Ok(guess('a', &[1])));
}

#[test]
fn read_guess_trims_and_lowers_the_line() {
    let ui = small();
    assert_eq!(ui.read_guess("  A 2 \n"), Ok(guess('a', &[1])));
    assert_eq!(ui.read_guess("\tG\r\n"), Ok(guess('g', &[])));
    assert_eq!(ui.interpret("A 2"), fault(InputFault::Malformed));
    assert_eq!(ui.interpret(" a 2"), fault(InputFault::Malformed));
    assert_eq!(ui.interpret("a 2"), Ok(guess('a', &[1])));
}

#[test]
fn read_guess_turns_down_a_blank_line() {
    let ui = small();
    assert_eq!(ui.read_guess(""), fault(InputFault::Blank));
    assert_eq!(ui.read_guess("  \n"), fault(InputFault::Blank));
}

#[test]
fn read_guess_turns_down_a_malformed_line() {
    let ui = small();
    for line in ["ab", "a  1", "1 a", "a 1x", "a,1", "a 1,2", "a -1", "a +1", "undo 1", "\u{e9} 1"] {
        assert_eq!(ui.read_guess(line), fault(InputFault::Malformed));
    }
    assert_eq!(ui.interpret("a "), fault(InputFault::Malformed));
    assert_eq!(ui.interpret("a 1 "), fault(InputFault::Malformed));
}

#[test]
fn read_guess_turns_down_an_index_out_of_range() {
    let ui = small();
    assert_eq!(ui.read_guess("a 0"), fault(InputFault::IndexOutOfRange));
    assert_eq!(ui.read_guess("a 4"), fault(InputFault::IndexOutOfRange));
    assert_eq!(ui.read_guess("e 2 4"), fault(InputFault::IndexOutOfRange));
    assert_eq!(
        ui.read_guess("a 99999999999999999999999999999999999999999"),
        fault(InputFault::IndexOutOfRange)
    );
    assert_eq!(ui.read_guess("a 3"), Ok(guess('a', &[2])));
}

#[test]
fn read_guess_turns_down_a_used_letter_and_a_placed_cell() {
    let mut ui = small();
    assert!(ui.play("a 2").is_ok());
    assert_eq!(ui.read_guess("a 1"), fault(InputFault::LetterAlreadyGuessed));
    assert_eq!(ui.read_guess("a 7"), fault(InputFault::LetterAlreadyGuessed));
    assert_eq!(ui.read_guess("b 2"), fault(InputFault::CellAlreadyPlaced(1)));
    assert_eq!(ui.read_guess("b 1 2 2"), fault(InputFault::CellAlreadyPlaced(1)));
    assert_eq!(ui.read_guess("b 4 2"), fault(InputFault::IndexOutOfRange));
    assert_eq!(ui.read_guess("b 1 3"), Ok(guess('b', &[0, 2])));
}

#[test]
fn read_guess_reads_undo() {
    let mut ui = small();
    assert_eq!(ui.read_guess("undo"), Err(Error::NothingToUndo));
    assert!(ui.play("a 2").is_ok());
    assert_eq!(ui.read_guess("undo"), Ok(GuessInput::Undo));
    assert_eq!(ui.read_guess(" UNDO "), Ok(GuessInput::Undo));
}

#[test]
fn read_guess_changes_nothing() {
    let ui = small();
    assert_eq!(ui.read_guess("a 2"), Ok(guess('a', &[1])));
    assert!(ui.player().used_letters().is_empty());
    assert!(ui.player().guess_history().is_empty());
}

#[test]
fn play_runs_the_end_to_end_example() {
    let mut ui = small();
    assert_eq!(ui.play("a 2"), Ok(Turn { input: guess('a', &[1]), solved: None }));
    assert_eq!(ui.current_guess_text(), "_ a _");
    assert_eq!(ui.player().available_words().len(), 4);

    assert_eq!(ui.play("t"), Ok(Turn { input: guess('t', &[]), solved: None }));
    assert_eq!(ui.current_guess_text(), "c a _");
    assert_eq!(ui.not_present_text(), Some("t".to_string()));
    assert_eq!(ui.player().available_words(), &vec!["car".to_string(), "can".to_string()]);

    assert_eq!(
        ui.play("n 3"),
        Ok(Turn { input: guess('n', &[2]), solved: Some("can".to_string()) })
    );
}

#[test]
fn play_runs_the_exhaustion_example() {
    let mut ui = small();
    assert_eq!(ui.play("z 1"), Err(Error::NoCandidatesRemaining));
    assert!(ui.player().available_words().is_empty());
    assert_eq!(ui.current_guess_text(), "z _ _");
}

#[test]
fn play_leaves_the_session_alone_when_the_line_is_turned_down() {
    let mut ui = small();
    assert_eq!(ui.play("a 9"), Err(Error::InvalidGuessInput(InputFault::IndexOutOfRange)));
    assert_eq!(ui.play("what"), Err(Error::InvalidGuessInput(InputFault::Malformed)));
    assert_eq!(ui.play(""), Err(Error::InvalidGuessInput(InputFault::Blank)));
    assert_eq!(ui.play("undo"), Err(Error::NothingToUndo));
    assert!(ui.player().used_letters().is_empty());
    assert!(ui.player().guess_history().is_empty());
    assert_eq!(ui.player().available_words().len(), 4);
    assert_eq!(ui.current_guess_text(), "_ _ _");
}

#[test]
fn play_undo_restores_the_turn_before_and_keeps_the_letter_used() {
    let mut ui = small();
    assert!(ui.play("a 2").is_ok());
    assert!(ui.play("t").is_ok());
    assert_eq!(ui.play("undo"), Ok(Turn { input: GuessInput::Undo, solved: None }));
    assert_eq!(ui.current_guess_text(), "_ a _");
    assert_eq!(ui.not_present_text(), None);
    assert_eq!(ui.player().available_words().len(), 4);
    assert_eq!(ui.player().used_letters(), &vec!['a', 't']);
    assert_eq!(ui.read_guess("t"), fault(InputFault::LetterAlreadyGuessed));
}

#[test]
fn play_undo_can_solve() {
    let mut ui = session(&["ab", "cd"], 2);
    assert_eq!(ui.play("a 1"), Ok(Turn { input: guess('a', &[0]), solved: Some("ab".to_string()) }));
    assert_eq!(ui.play("b"), Err(Error::NoCandidatesRemaining));
    assert_eq!(ui.play("undo"), Ok(Turn { input: GuessInput::Undo, solved: Some("ab".to_string()) }));
}

#[test]
fn advance_applies_a_request() {
    let mut ui = small();
    assert_eq!(ui.advance(guess('c', &[0])), Ok(None));
    assert_eq!(ui.current_guess_text(), "c a _");
    assert_eq!(ui.advance(guess('r', &[2])), Ok(Some("car".to_string())));
    assert_eq!(ui.advance(GuessInput::Undo), Ok(None));
    assert_eq!(ui.current_guess_text(), "c a _");
}

#[test]
fn possibilities_are_shown_up_to_the_threshold() {
    let mut ui = small();
    assert_eq!(ui.possibilities(), None);
    assert!(ui.play("c 1").is_ok());
    assert_eq!(
        ui.possibilities(),
        Some(&vec!["cat".to_string(), "car".to_string(), "can".to_string()])
    );
}

#[test]
fn top_guesses_are_the_first_of_the_ranking() {
    let ui = small();
    let scores = ui.player().compute_letter_scores();
    assert_eq!(
        ui.top_guesses(&scores),
        vec![('a', 4), ('c', 3), ('t', 2), ('b', 1), ('n', 1)]
    );
    assert_eq!(ui.top_guesses(&vec![('x', 2), ('y', 1)]), vec![('x', 2), ('y', 1)]);
    assert_eq!(ui.top_guesses(&vec![]), vec![]);
}

#[test]
fn texts_put_one_space_between_cells() {
    let mut ui = small();
    assert_eq!(ui.current_guess_text(), "_ _ _");
    assert_eq!(ui.not_present_text(), None);
    assert!(ui.play("q").is_ok());
    assert!(ui.play("x").is_ok());
    assert_eq!(ui.not_present_text(), Some("q x".to_string()));
    let one = session(&["a", "b"], 1);
    assert_eq!(one.current_guess_text(), "_");
}

#[test]
fn settings_are_kept() {
    let ui = small();
    assert_eq!(
        ui.args(),
        PlayArgs { letters: 3, num_suggestions: 5, display_guesses_threshold: 3 }
    );
}

#[test]
fn nonzero_reads_a_count() {
    assert_eq!(nonzero("5"), Ok(5));
    assert_eq!(nonzero("+7"), Ok(7));
    assert_eq!(nonzero("007"), Ok(7));
    assert_eq!(nonzero("18446744073709551615"), Ok(18446744073709551615));
}

#[test]
fn nonzero_turns_down_what_is_no_count() {
    assert_eq!(nonzero(""), Err(CountFault::Empty));
    assert_eq!(nonzero("0"), Err(CountFault::Zero));
    assert_eq!(nonzero("+0"), Err(CountFault::Zero));
    assert_eq!(nonzero("000"), Err(CountFault::Zero));
    assert_eq!(nonzero("x"), Err(CountFault::InvalidDigit));
    assert_eq!(nonzero("+"), Err(CountFault::InvalidDigit));
    assert_eq!(nonzero("-1"), Err(CountFault::InvalidDigit));
    assert_eq!(nonzero("1 "), Err(CountFault::InvalidDigit));
    assert_eq!(nonzero("++1"), Err(CountFault::InvalidDigit));
    assert_eq!(nonzero("1_000"), Err(CountFault::InvalidDigit));
    assert_eq!(nonzero("18446744073709551616"), Err(CountFault::TooLarge));
    assert_eq!(nonzero("99999999999999999999999999"), Err(CountFault::TooLarge));
}
