use hangman::player::HangmanPlayer;
use hangman::ranking::rank_letters;

fn word_list(list: &[&str]) -> Vec<String> {
    list.iter().map(|w| w.to_string()).collect()
}

#[test]
fn scores_count_each_word_once_per_letter() {
    let scores = rank_letters(&word_list(&["aaa", "aba", "ccc"]), &vec![]);
    assert_eq!(scores[0], ('a', 2));
    assert_eq!(scores[1], ('b', 1));
    assert_eq!(scores[2], ('c', 1));
    assert_eq!(scores[3], ('d', 0));
    assert_eq!(scores.len(), 26);
}

#[test]
fn scores_are_in_descending_order_with_ties_in_alphabet_order() {
    let player = HangmanPlayer::new(word_list(&["bat", "cat", "car", "can"]), 3).unwrap();
    let scores = player.compute_letter_scores();
    let mut expected = vec![('a', 4), ('c', 3), ('t', 2), ('b', 1), ('n', 1), ('r', 1)];
    for letter in "defghijklmopqsuvwxyz".chars() {
        expected.push((letter, 0));
    }
    assert_eq!(scores, expected);
}

#[test]
fn scores_leave_out_the_used_letters() {
    let mut player = HangmanPlayer::new(word_list(&["bat", "cat", "car", "can"]), 3).unwrap();
    player.mark_result('a', vec![1]);
    player.mark_result('t', vec![]);
    player.prune_and_fill_certain_letters();
    let scores = player.compute_letter_scores();
    assert_eq!(scores.len(), 24);
    assert_eq!(&scores[..4], &[('c', 2), ('n', 1), ('r', 1), ('b', 0)]);
    assert!(scores.iter().all(|(letter, _)| *letter != 'a' && *letter != 't'));
}

#[test]
fn scores_ignore_characters_outside_the_alphabet() {
    let scores = rank_letters(&word_list(&["A1-", "\u{e9}z"]), &vec!['b', '?']);
    assert_eq!(scores[0], ('z', 1));
    assert_eq!(scores[1], ('a', 0));
    assert_eq!(scores[2], ('c', 0));
    assert_eq!(scores.len(), 25);
}

#[test]
fn scores_are_empty_once_every_letter_is_used() {
    let used: Vec<char> = ('a'..='z').collect();
    assert!(rank_letters(&word_list(&["cat"]), &used).is_empty());
}

#[test]
fn scoring_twice_gives_the_same_ranking() {
    let mut player = HangmanPlayer::new(word_list(&["bat", "cat", "car", "can"]), 3).unwrap();
    player.mark_result('c', vec![0]);
    player.prune_and_fill_certain_letters();
    let first = player.compute_letter_scores();
    let second = player.compute_letter_scores();
    assert_eq!(first, second);
    assert_eq!(&first[..4], &[('a', 3), ('n', 1), ('r', 1), ('t', 1)]);
}
