//! The textual form of a turn's input: `undo`, or a letter followed by the
//! 1-based indices of the cells it was reported in, each after one space.

use vstd::prelude::*;
use crate::error::{CountFault, Error, InputFault};
use crate::model::{is_lowercase, Engine};
use crate::lists::{chars_of, has_letter, lemma_letters_view};
use crate::player::HangmanPlayer;

verus! {

/// What a line of input asks for.
#[derive(Debug, PartialEq, Eq)]
pub enum GuessInput {
    /// Feedback on a letter: the 0-based cells it stands in, none if it is
    /// absent.
    Guess { letter: char, positions: Vec<usize> },
    /// Take the latest guess back.
    Undo,
}

/// A request as a value of the model.
pub enum Reading {
    Guess { letter: char, positions: Seq<usize> },
    Undo,
}

impl View for GuessInput {
    type V = Reading;

    open spec fn view(&self) -> Reading {
        match self {
            GuessInput::Guess { letter, positions } => Reading::Guess {
                letter: *letter,
                positions: positions@,
            },
            GuessInput::Undo => Reading::Undo,
        }
    }
}

/// The word that asks for an undo.
pub open spec fn undo_word() -> Seq<char> {
    seq!['u', 'n', 'd', 'o']
}

/// The parts of a text between its spaces. A text without a space is one
/// part; two spaces in a row have an empty part between them.
pub open spec fn split_at_spaces(text: Seq<char>) -> Seq<Seq<char>>
    decreases text.len(),
{
    if text.len() == 0 {
        seq![Seq::empty()]
    } else {
        let parts = split_at_spaces(text.drop_last());
        if text.last() == ' ' {
            parts.push(Seq::empty())
        } else {
            parts.drop_last().push(parts.last().push(text.last()))
        }
    }
}

/// The decimal digits.
pub open spec fn is_digit(c: char) -> bool {
    '0' <= c && c <= '9'
}

/// A number is written as one or more decimal digits.
pub open spec fn is_number(token: Seq<char>) -> bool {
    &&& token.len() > 0
    &&& forall|i: int| 0 <= i < token.len() ==> is_digit(#[trigger] token[i])
}

/// The number that decimal digits stand for.
pub open spec fn decimal_value(digits: Seq<char>) -> nat
    decreases digits.len(),
{
    if digits.len() == 0 {
        0
    } else {
        (decimal_value(digits.drop_last()) * 10 + (digits.last() as int - '0' as int)) as nat
    }
}

/// A number as a machine integer, if it is small enough to be one.
pub open spec fn bounded(number: nat) -> Option<usize> {
    if number <= usize::MAX {
        Some(number as usize)
    } else {
        None
    }
}

/// The index tokens of a guess: what follows the letter and one space.
pub open spec fn index_tokens(text: Seq<char>) -> Seq<Seq<char>> {
    if text.len() <= 1 {
        Seq::empty()
    } else {
        split_at_spaces(text.skip(2))
    }
}

/// A guess is written as a lowercase letter, followed by any number of
/// indices, each a run of decimal digits after a single space.
pub open spec fn is_guess_text(text: Seq<char>) -> bool {
    &&& text.len() >= 1
    &&& is_lowercase(text[0])
    &&& text.len() >= 2 ==> text[1] == ' '
    &&& forall|k: int|
        0 <= k < index_tokens(text).len() ==> is_number(#[trigger] index_tokens(text)[k])
}

/// The indices that a guess names, as written: counted from 1.
pub open spec fn guess_numbers(text: Seq<char>) -> Seq<nat> {
    Seq::new(index_tokens(text).len(), |k: int| decimal_value(index_tokens(text)[k]))
}

/// Whether every index names a cell of a word with `letters` cells.
pub open spec fn in_range(numbers: Seq<nat>, letters: nat) -> bool {
    forall|k: int| 0 <= k < numbers.len() ==> 1 <= #[trigger] numbers[k] <= letters
}

/// The cells that the indices name, counted from 0.
pub open spec fn cells_of(numbers: Seq<nat>) -> Seq<usize> {
    Seq::new(numbers.len(), |k: int| (numbers[k] - 1) as usize)
}

/// The first of the cells, in the order given, that already holds a letter.
pub open spec fn first_placed(pattern: Seq<Option<char>>, cells: Seq<usize>) -> Option<usize>
    decreases cells.len(),
{
    if cells.len() == 0 {
        None
    } else {
        match first_placed(pattern, cells.drop_last()) {
            Some(cell) => Some(cell),
            None => if pattern[cells.last() as int] is Some {
                Some(cells.last())
            } else {
                None
            },
        }
    }
}

/// What a line asks for in a given state, once it is trimmed and in lower
/// case; `letters` is the number of cells that indices may name.
///
/// The line is tried in this order: an empty line; `undo`; the form of a
/// guess; a letter used before; an index that names no cell; a cell that
/// is placed already.
pub open spec fn reading(state: Engine, letters: nat, text: Seq<char>) -> Result<Reading, Error> {
    if text.len() == 0 {
        Err(Error::InvalidGuessInput(InputFault::Blank))
    } else if text == undo_word() {
        if state.history.len() == 0 {
            Err(Error::NothingToUndo)
        } else {
            Ok(Reading::Undo)
        }
    } else if !is_guess_text(text) {
        Err(Error::InvalidGuessInput(InputFault::Malformed))
    } else if state.used.contains(text[0]) {
        Err(Error::InvalidGuessInput(InputFault::LetterAlreadyGuessed))
    } else if !in_range(guess_numbers(text), letters) {
        Err(Error::InvalidGuessInput(InputFault::IndexOutOfRange))
    } else {
        match first_placed(state.pattern, cells_of(guess_numbers(text))) {
            Some(cell) => Err(Error::InvalidGuessInput(InputFault::CellAlreadyPlaced(cell))),
            None => Ok(
                Reading::Guess { letter: text[0], positions: cells_of(guess_numbers(text)) },
            ),
        }
    }
}

/// Splits what follows the first `from` characters at its spaces.
fn split_tokens(text: &Vec<char>, from: usize) -> (tokens: Vec<Vec<char>>)
    requires
        from <= text@.len(),
    ensures
        tokens.deep_view() == split_at_spaces(text@.skip(from as int)),
{
    let ghost rest = text@.skip(from as int);
    let mut done: Vec<Vec<char>> = Vec::new();
    let mut current: Vec<char> = Vec::new();
    let mut i: usize = from;
    proof {
        assert(rest.take(0) =~= Seq::<char>::empty());
        assert(done.deep_view().push(current@) =~= split_at_spaces(rest.take(0)));
    }
    while i < text.len()
        invariant
            from <= i <= text@.len(),
            rest == text@.skip(from as int),
            done.deep_view().push(current@) == split_at_spaces(rest.take(i - from)),
        decreases text@.len() - i,
    {
        let ghost parts = split_at_spaces(rest.take(i - from));
        let ghost held = done.deep_view();
        let ghost word = current@;
        proof {
            lemma_letters_view(current);
            assert(rest.take(i + 1 - from).drop_last() =~= rest.take(i - from));
            assert(rest.take(i + 1 - from).last() == text@[i as int]);
            assert(parts.last() == word);
            assert(parts.drop_last() =~= held);
        }
        if text[i] == ' ' {
            done.push(current);
            current = Vec::new();
            proof {
                assert(done.deep_view() =~= held.push(word));
                assert(current@ =~= Seq::<char>::empty());
            }
        } else {
            current.push(text[i]);
        }
        i += 1;
    }
    let ghost held = done.deep_view();
    let ghost word = current@;
    proof {
        lemma_letters_view(current);
    }
    done.push(current);
    proof {
        assert(rest.take(i - from) =~= rest);
        assert(done.deep_view() =~= held.push(word));
    }
    done
}

/// Whether a token is a run of one or more decimal digits.
pub fn is_number_token(token: &Vec<char>) -> (ok: bool)
    ensures
        ok == is_number(token@),
{
    if token.len() == 0 {
        return false;
    }
    let mut i: usize = 0;
    while i < token.len()
        invariant
            i <= token.len(),
            forall|k: int| 0 <= k < i ==> is_digit(#[trigger] token@[k]),
        decreases token.len() - i,
    {
        if !('0' <= token[i] && token[i] <= '9') {
            return false;
        }
        i += 1;
    }
    true
}

/// The number that a run of digits stands for, if it fits a machine
/// integer.
fn number_value(token: &Vec<char>) -> (value: Option<usize>)
    requires
        is_number(token@),
    ensures
        value == bounded(decimal_value(token@)),
{
    let mut value: usize = 0;
    let mut i: usize = 0;
    proof {
        assert(token@.take(0) =~= Seq::<char>::empty());
    }
    while i < token.len()
        invariant
            i <= token.len(),
            is_number(token@),
            value == decimal_value(token@.take(i as int)),
        decreases token.len() - i,
    {
        let digit: usize = (token[i] as u32 - '0' as u32) as usize;
        proof {
            assert(is_digit(token@[i as int]));
            assert(token@.take(i + 1).drop_last() =~= token@.take(i as int));
            assert(token@.take(i + 1).last() == token@[i as int]);
        }
        if value > (usize::MAX - digit) / 10 {
            proof {
                lemma_decimal_value_grows(token@, i + 1);
            }
            return None;
        }
        value = value * 10 + digit;
        i += 1;
    }
    proof {
        assert(token@.take(i as int) =~= token@);
    }
    Some(value)
}

/// The digits read so far never stand for more than all of them.
pub proof fn lemma_decimal_value_grows(digits: Seq<char>, count: int)
    requires
        is_number(digits),
        0 <= count <= digits.len(),
    ensures
        decimal_value(digits.take(count)) <= decimal_value(digits),
    decreases digits.len() - count,
{
    if count < digits.len() {
        lemma_decimal_value_grows(digits, count + 1);
        assert(digits.take(count + 1).drop_last() =~= digits.take(count));
        assert(is_digit(digits[count]));
        assert(digits.take(count + 1).last() == digits[count]);
    } else {
        assert(digits.take(count) =~= digits);
    }
}

/// The digits of a count: the text without the `+` it may start with.
pub open spec fn count_digits(text: Seq<char>) -> Seq<char> {
    if text.len() > 0 && text[0] == '+' {
        text.skip(1)
    } else {
        text
    }
}

/// The count that an argument stands for: a decimal number of at least 1,
/// which may be written with a `+` before it.
pub open spec fn count_value(text: Seq<char>) -> Result<usize, CountFault> {
    if text.len() == 0 {
        Err(CountFault::Empty)
    } else if !is_number(count_digits(text)) {
        Err(CountFault::InvalidDigit)
    } else if decimal_value(count_digits(text)) > usize::MAX {
        Err(CountFault::TooLarge)
    } else if decimal_value(count_digits(text)) == 0 {
        Err(CountFault::Zero)
    } else {
        Ok(decimal_value(count_digits(text)) as usize)
    }
}

/// Reads a count from an argument: a decimal number of at least 1.
pub fn nonzero(arg: &str) -> (count: Result<usize, CountFault>)
    ensures
        count == count_value(arg@),
{
    let text = chars_of(arg);
    if text.len() == 0 {
        return Err(CountFault::Empty);
    }
    let mut digits: Vec<char> = Vec::new();
    let mut i: usize = if text[0] == '+' {
        1
    } else {
        0
    };
    let ghost from = i as int;
    while i < text.len()
        invariant
            0 <= from <= i <= text.len(),
            digits@ =~= text@.subrange(from, i as int),
        decreases text.len() - i,
    {
        digits.push(text[i]);
        i += 1;
    }
    proof {
        assert(text@.skip(from) =~= count_digits(text@));
        assert(digits@ =~= text@.skip(from));
    }
    if !is_number_token(&digits) {
        return Err(CountFault::InvalidDigit);
    }
    match number_value(&digits) {
        None => Err(CountFault::TooLarge),
        Some(value) => if value == 0 {
            Err(CountFault::Zero)
        } else {
            Ok(value)
        },
    }
}

/// Whether a text is the word that asks for an undo.
pub fn is_undo(text: &Vec<char>) -> (ok: bool)
    ensures
        ok == (text@ == undo_word()),
{
    let ok = text.len() == 4 && text[0] == 'u' && text[1] == 'n' && text[2] == 'd' && text[3]
        == 'o';
    proof {
        if ok {
            assert(text@ =~= undo_word());
        }
    }
    ok
}

/// Reads the index tokens of a text, if it has the form of a guess.
pub fn guess_tokens(text: &Vec<char>) -> (tokens: Option<Vec<Vec<char>>>)
    ensures
        tokens is Some <==> is_guess_text(text@),
        tokens matches Some(found) ==> found.deep_view() == index_tokens(text@),
{
    if text.len() == 0 || !('a' <= text[0] && text[0] <= 'z') {
        return None;
    }
    if text.len() == 1 {
        let found: Vec<Vec<char>> = Vec::new();
        assert(found.deep_view() =~= index_tokens(text@));
        return Some(found);
    }
    if text[1] != ' ' {
        return None;
    }
    let found = split_tokens(text, 2);
    let mut k: usize = 0;
    while k < found.len()
        invariant
            k <= found.len(),
            found.deep_view() == index_tokens(text@),
            forall|j: int| 0 <= j < k ==> is_number(#[trigger] index_tokens(text@)[j]),
        decreases found.len() - k,
    {
        proof {
            lemma_letters_view(found@[k as int]);
        }
        if !is_number_token(&found[k]) {
            assert(!is_number(index_tokens(text@)[k as int]));
            return None;
        }
        k += 1;
    }
    Some(found)
}

/// Reads what a trimmed, lower-case line asks for in the state of a
/// session; `letters` is the number of cells that indices may name.
#[verifier::loop_isolation(false)]
pub(crate) fn read_text(text: &Vec<char>, letters: usize, player: &HangmanPlayer) -> (read: Result<
    GuessInput,
    Error,
>)
    requires
        letters == player@.pattern.len(),
    ensures
        match read {
            Ok(input) => reading(player@, letters as nat, text@) == Ok::<Reading, Error>(input@),
            Err(e) => reading(player@, letters as nat, text@) == Err::<Reading, Error>(e),
        },
{
    let pattern = player.current_guess();
    let used = player.used_letters();
    let guesses = player.guess_history().len();
    if text.len() == 0 {
        return Err(Error::InvalidGuessInput(InputFault::Blank));
    }
    if is_undo(text) {
        if guesses == 0 {
            return Err(Error::NothingToUndo);
        }
        return Ok(GuessInput::Undo);
    }
    let tokens = match guess_tokens(text) {
        None => {
            return Err(Error::InvalidGuessInput(InputFault::Malformed));
        },
        Some(found) => found,
    };
    let letter = text[0];
    if has_letter(used, letter) {
        return Err(Error::InvalidGuessInput(InputFault::LetterAlreadyGuessed));
    }
    let ghost numbers = guess_numbers(text@);
    let mut positions: Vec<usize> = Vec::new();
    let mut k: usize = 0;
    while k < tokens.len()
        invariant
            k <= tokens.len(),
            is_guess_text(text@),
            tokens.deep_view() == index_tokens(text@),
            numbers == guess_numbers(text@),
            positions@.len() == k,
            forall|j: int| 0 <= j < k ==> 1 <= #[trigger] numbers[j] <= letters,
            forall|j: int| 0 <= j < k ==> #[trigger] positions@[j] == numbers[j] - 1,
        decreases tokens.len() - k,
    {
        proof {
            lemma_letters_view(tokens@[k as int]);
            assert(is_number(index_tokens(text@)[k as int]));
            assert(numbers[k as int] == decimal_value(tokens@[k as int]@));
        }
        match number_value(&tokens[k]) {
            Some(number) => {
                if number == 0 || number > letters {
                    assert(!(1 <= numbers[k as int] <= letters));
                    return Err(Error::InvalidGuessInput(InputFault::IndexOutOfRange));
                }
                positions.push(number - 1);
            },
            None => {
                assert(!(1 <= numbers[k as int] <= letters));
                return Err(Error::InvalidGuessInput(InputFault::IndexOutOfRange));
            },
        }
        k += 1;
    }
    assert(positions@ =~= cells_of(numbers));
    let mut at: usize = 0;
    proof {
        assert(positions@.take(0) =~= Seq::<usize>::empty());
    }
    while at < positions.len()
        invariant
            at <= positions.len(),
            letters == pattern@.len(),
            forall|j: int| 0 <= j < positions@.len() ==> #[trigger] positions@[j] < letters,
            first_placed(pattern@, positions@.take(at as int)) is None,
        decreases positions.len() - at,
    {
        proof {
            assert(positions@.take(at + 1).drop_last() =~= positions@.take(at as int));
            assert(positions@.take(at + 1).last() == positions@[at as int]);
        }
        if pattern[positions[at]].is_some() {
            proof {
                lemma_first_placed_stays(pattern@, positions@, at + 1);
            }
            return Err(
                Error::InvalidGuessInput(InputFault::CellAlreadyPlaced(positions[at])),
            );
        }
        at += 1;
    }
    proof {
        assert(positions@.take(at as int) =~= positions@);
    }
    Ok(GuessInput::Guess { letter, positions })
}

/// Once a placed cell is found among the first cells, it stays the first
/// whatever follows.
pub proof fn lemma_first_placed_stays(pattern: Seq<Option<char>>, cells: Seq<usize>, count: int)
    requires
        0 <= count <= cells.len(),
        first_placed(pattern, cells.take(count)) is Some,
    ensures
        first_placed(pattern, cells) == first_placed(pattern, cells.take(count)),
    decreases cells.len() - count,
{
    if count < cells.len() {
        assert(cells.take(count + 1).drop_last() =~= cells.take(count));
        lemma_first_placed_stays(pattern, cells, count + 1);
    } else {
        assert(cells.take(count) =~= cells);
    }
}

} // verus!
