use hangman::input::{guess_tokens, is_number_token, is_undo};
use hangman::lists::{chars_of, copy_letters, copy_pattern, copy_words, has_letter, word_has};
use hangman::player::word_fits;
use hangman::ranking::count_holders;
use hangman::ui::{copy_input, spaced_text};
use hangman::input::GuessInput;

fn text(s: &str) -> Vec<char> {
    s.chars().collect()
}

#[test]
fn word_fits_compares_cell_by_cell() {
    let pattern = vec![Some('c'), None, None];
    assert!(word_fits("cat", &pattern, &vec![]));
    assert!(word_fits("cat", &pattern, &vec!['b', 'z']));
    assert!(!word_fits("bat", &pattern, &vec![]));
    assert!(!word_fits("cat", &pattern, &vec!['t']));
    assert!(!word_fits("cat", &pattern, &vec!['c']));
    assert!(!word_fits("ca", &pattern, &vec![]));
    assert!(!word_fits("cats", &pattern, &vec![]));
    assert!(word_fits("", &vec![], &vec!['a']));
    assert!(word_fits("c\u{e9}\u{e9}", &pattern, &vec![]));
}

#[test]
fn guess_tokens_are_the_indices_after_the_letter() {
    assert_eq!(guess_tokens(&text("e 2 14")), Some(vec![text("2"), text("14")]));
    assert_eq!(guess_tokens(&text("g")), Some(vec![]));
    assert_eq!(guess_tokens(&text("")), None);
    assert_eq!(guess_tokens(&text("g ")), None);
    assert_eq!(guess_tokens(&text("g 1  2")), None);
    assert_eq!(guess_tokens(&text("G 1")), None);
    assert_eq!(guess_tokens(&text("undo")), None);
}

#[test]
fn number_tokens_are_runs_of_digits() {
    assert!(is_number_token(&text("0")));
    assert!(is_number_token(&text("0123456789")));
    assert!(!is_number_token(&text("")));
    assert!(!is_number_token(&text("1a")));
    assert!(!is_number_token(&text("\u{661}")));
}

#[test]
fn undo_is_one_word() {
    assert!(is_undo(&text("undo")));
    assert!(!is_undo(&text("undo ")));
    assert!(!is_undo(&text("und")));
    assert!(!is_undo(&text("redo")));
}

#[test]
fn letters_are_found_in_lists_and_words() {
    assert!(has_letter(&text("abc"), 'c'));
    assert!(!has_letter(&text("abc"), 'd'));
    assert!(!has_letter(&text(""), 'a'));
    assert!(word_has("banana", 'n'));
    assert!(!word_has("banana", 'x'));
    assert_eq!(count_holders(&vec!["aa".to_string(), "ab".to_string(), "bb".to_string()], 'a'), 2);
    assert_eq!(count_holders(&vec![], 'a'), 0);
}

#[test]
fn copies_are_equal_to_what_they_copy() {
    let words = vec!["one".to_string(), "two".to_string()];
    assert_eq!(copy_words(&words), words);
    let pattern = vec![None, Some('x'), None];
    assert_eq!(copy_pattern(&pattern), pattern);
    assert_eq!(copy_letters(&text("xyz")), text("xyz"));
    assert_eq!(chars_of("h\u{e9}llo"), text("h\u{e9}llo"));
    let input = GuessInput::Guess { letter: 'q', positions: vec![3, 1] };
    assert_eq!(copy_input(&input), input);
    assert_eq!(copy_input(&GuessInput::Undo), GuessInput::Undo);
}

#[test]
fn spaced_text_separates_letters() {
    assert_eq!(spaced_text(&text("")), "");
    assert_eq!(spaced_text(&text("a")), "a");
    assert_eq!(spaced_text(&text("abc")), "a b c");
}
