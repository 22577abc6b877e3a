//! Letter scoring: how many candidates hold each letter that has not been
//! guessed, and the order in which those letters are suggested.

use vstd::prelude::*;
use crate::model::{is_lowercase, Engine};
use crate::lists::{has_letter, nth_letter, word_has};

verus! {

/// The words that hold a letter at least once.
pub open spec fn holders(words: Seq<Seq<char>>, letter: char) -> Seq<Seq<char>> {
    words.filter(|w: Seq<char>| w.contains(letter))
}

/// A letter's score: the number of words that hold it, however often.
pub open spec fn letter_count(words: Seq<Seq<char>>, letter: char) -> nat {
    holders(words, letter).len()
}

/// The order of suggestions: the higher score first, and among equal scores
/// the earlier letter of the alphabet.
pub open spec fn ranks_before(first: (char, usize), second: (char, usize)) -> bool {
    first.1 > second.1 || (first.1 == second.1 && first.0 < second.0)
}

/// Whether a letter has an entry.
pub open spec fn lists_letter(scores: Seq<(char, usize)>, letter: char) -> bool {
    exists|i: int| 0 <= i < scores.len() && (#[trigger] scores[i]).0 == letter
}

/// Whether the entries are in the order of suggestions.
pub open spec fn in_rank_order(scores: Seq<(char, usize)>) -> bool {
    forall|i: int, j: int|
        0 <= i < j < scores.len() ==> ranks_before(#[trigger] scores[i], #[trigger] scores[j])
}

/// What makes a sequence the ranking: its entries are lowercase letters that
/// have not been used, each with its score; every such letter has an entry;
/// and the entries are in the order of suggestions.
pub open spec fn is_ranking(
    scores: Seq<(char, usize)>,
    words: Seq<Seq<char>>,
    used: Seq<char>,
) -> bool {
    &&& forall|i: int|
        0 <= i < scores.len() ==> {
            &&& is_lowercase((#[trigger] scores[i]).0)
            &&& !used.contains(scores[i].0)
            &&& scores[i].1 == letter_count(words, scores[i].0)
        }
    &&& forall|c: char| is_lowercase(c) && !used.contains(c) ==> #[trigger] lists_letter(scores, c)
    &&& in_rank_order(scores)
}

/// The ranking of the unused letters over the given words.
pub open spec fn ranking(words: Seq<Seq<char>>, used: Seq<char>) -> Seq<(char, usize)> {
    choose|scores: Seq<(char, usize)>| is_ranking(scores, words, used)
}

/// The letter of the alphabet with the given index, counted from `a`.
pub open spec fn letter_at(index: int) -> char {
    (97 + index) as char
}

impl Engine {
    /// The ranking of the letters that can still be guessed.
    pub open spec fn ranking(self) -> Seq<(char, usize)> {
        ranking(self.candidates, self.used)
    }

    /// The letter to guess next: the first of the ranking, if any is left.
    pub open spec fn top_letter(self) -> Option<char> {
        if is_ranking(self.ranking(), self.candidates, self.used) && self.ranking().len() > 0 {
            Some(self.ranking()[0].0)
        } else {
            None
        }
    }
}

/// Two sequences in the order of suggestions that hold the same entries are
/// the same sequence.
pub proof fn lemma_rank_order_unique(first: Seq<(char, usize)>, second: Seq<(char, usize)>)
    requires
        in_rank_order(first),
        in_rank_order(second),
        forall|entry: (char, usize)| first.contains(entry) <==> second.contains(entry),
    ensures
        first == second,
    decreases first.len(),
{
    if first.len() == 0 {
        if second.len() > 0 {
            assert(second.contains(second[0]));
        }
        assert(first =~= second);
    } else {
        assert(first.contains(first[0]));
        let at_second = choose|k: int| 0 <= k < second.len() && second[k] == first[0];
        assert(second.contains(second[0]));
        let at_first = choose|k: int| 0 <= k < first.len() && first[k] == second[0];
        if at_second > 0 {
            assert(ranks_before(second[0], second[at_second]));
            if at_first > 0 {
                assert(ranks_before(first[0], first[at_first]));
            }
        }
        assert(first[0] == second[0]);
        let first_rest = first.drop_first();
        let second_rest = second.drop_first();
        assert forall|entry: (char, usize)| first_rest.contains(entry) implies second_rest.contains(
            entry,
        ) by {
            let k = choose|k: int| 0 <= k < first_rest.len() && first_rest[k] == entry;
            assert(first[k + 1] == entry);
            assert(ranks_before(first[0], first[k + 1]));
            assert(first.contains(entry));
            let m = choose|m: int| 0 <= m < second.len() && second[m] == entry;
            assert(second_rest[m - 1] == entry);
        }
        assert forall|entry: (char, usize)| second_rest.contains(entry) implies first_rest.contains(
            entry,
        ) by {
            let k = choose|k: int| 0 <= k < second_rest.len() && second_rest[k] == entry;
            assert(second[k + 1] == entry);
            assert(ranks_before(second[0], second[k + 1]));
            assert(second.contains(entry));
            let m = choose|m: int| 0 <= m < first.len() && first[m] == entry;
            assert(first_rest[m - 1] == entry);
        }
        assert forall|i: int, j: int| 0 <= i < j < first_rest.len() implies ranks_before(
            #[trigger] first_rest[i],
            #[trigger] first_rest[j],
        ) by {
            assert(ranks_before(first[i + 1], first[j + 1]));
        }
        assert forall|i: int, j: int| 0 <= i < j < second_rest.len() implies ranks_before(
            #[trigger] second_rest[i],
            #[trigger] second_rest[j],
        ) by {
            assert(ranks_before(second[i + 1], second[j + 1]));
        }
        lemma_rank_order_unique(first_rest, second_rest);
        assert(first =~= seq![first[0]] + first_rest);
        assert(second =~= seq![second[0]] + second_rest);
    }
}

/// Scoring is deterministic: words and used letters have one ranking only,
/// so two computations on the same state give the same letters with the
/// same scores in the same order.
pub proof fn lemma_ranking_unique(
    first: Seq<(char, usize)>,
    second: Seq<(char, usize)>,
    words: Seq<Seq<char>>,
    used: Seq<char>,
)
    requires
        is_ranking(first, words, used),
        is_ranking(second, words, used),
    ensures
        first == second,
        first == ranking(words, used),
{
    lemma_ranking_same_entries(first, second, words, used);
    lemma_ranking_same_entries(second, first, words, used);
    lemma_rank_order_unique(first, second);
    let chosen = ranking(words, used);
    lemma_ranking_same_entries(first, chosen, words, used);
    lemma_ranking_same_entries(chosen, first, words, used);
    lemma_rank_order_unique(first, chosen);
}

/// Every entry of one ranking is an entry of any other.
pub proof fn lemma_ranking_same_entries(
    first: Seq<(char, usize)>,
    second: Seq<(char, usize)>,
    words: Seq<Seq<char>>,
    used: Seq<char>,
)
    requires
        is_ranking(first, words, used),
        is_ranking(second, words, used),
    ensures
        forall|entry: (char, usize)| first.contains(entry) ==> second.contains(entry),
{
    assert forall|entry: (char, usize)| first.contains(entry) implies second.contains(entry) by {
        let k = choose|k: int| 0 <= k < first.len() && first[k] == entry;
        assert(lists_letter(second, first[k].0));
        let m = choose|m: int| 0 <= m < second.len() && (#[trigger] second[m]).0 == entry.0;
        assert(second[m] == entry);
    }
}

/// Counts the words that hold a letter.
pub fn count_holders(words: &Vec<String>, letter: char) -> (count: usize)
    ensures
        count == letter_count(words.deep_view(), letter),
{
    let ghost all = words.deep_view();
    let mut count: usize = 0;
    let mut i: usize = 0;
    proof {
        reveal(Seq::filter);
        assert(all.take(0) =~= Seq::<Seq<char>>::empty());
    }
    while i < words.len()
        invariant
            i <= words.len(),
            all == words.deep_view(),
            count == letter_count(all.take(i as int), letter),
            count <= i,
        decreases words.len() - i,
    {
        proof {
            reveal(Seq::filter);
            assert(all.take(i + 1).drop_last() =~= all.take(i as int));
            assert(all.take(i + 1).last() == words[i as int]@);
        }
        if word_has(words[i].as_str(), letter) {
            count += 1;
        }
        i += 1;
    }
    assert(all.take(i as int) =~= all);
    count
}

/// Ranks the lowercase letters that are not used by the number of words
/// that hold them: the highest count first, equal counts in alphabet order.
pub fn rank_letters(words: &Vec<String>, used: &Vec<char>) -> (scores: Vec<(char, usize)>)
    ensures
        is_ranking(scores@, words.deep_view(), used@),
        scores@ == ranking(words.deep_view(), used@),
{
    let ghost all = words.deep_view();
    let mut scores: Vec<(char, usize)> = Vec::new();
    let mut index: u8 = 0;
    while index < 26
        invariant
            index <= 26,
            all == words.deep_view(),
            forall|i: int|
                0 <= i < scores@.len() ==> {
                    &&& is_lowercase((#[trigger] scores@[i]).0)
                    &&& scores@[i].0 < letter_at(index as int)
                    &&& !used@.contains(scores@[i].0)
                    &&& scores@[i].1 == letter_count(all, scores@[i].0)
                },
            forall|c: char|
                is_lowercase(c) && c < letter_at(index as int) && !used@.contains(c)
                    ==> #[trigger] lists_letter(scores@, c),
            in_rank_order(scores@),
        decreases 26 - index,
    {
        let letter = nth_letter(index);
        let ghost before = scores@;
        if !has_letter(used, letter) {
            let count = count_holders(words, letter);
            let mut at: usize = 0;
            while at < scores.len() && scores[at].1 >= count
                invariant
                    at <= scores@.len(),
                    forall|i: int| 0 <= i < at ==> (#[trigger] scores@[i]).1 >= count,
                decreases scores@.len() - at,
            {
                at += 1;
            }
            scores.insert(at, (letter, count));
            proof {
                let entry = (letter, count);
                assert forall|i: int, j: int| 0 <= i < j < scores@.len() implies ranks_before(
                    #[trigger] scores@[i],
                    #[trigger] scores@[j],
                ) by {
                    if j < at {
                        assert(ranks_before(before[i], before[j]));
                    } else if j == at {
                        assert(scores@[i] == before[i]);
                    } else if i < at {
                        assert(ranks_before(before[i], before[j - 1]));
                    } else if i == at {
                        if j - 1 > at {
                            assert(ranks_before(before[at as int], before[j - 1]));
                        }
                    } else {
                        assert(ranks_before(before[i - 1], before[j - 1]));
                    }
                }
                assert forall|c: char|
                    is_lowercase(c) && c < letter_at(index + 1) && !used@.contains(
                        c,
                    ) implies #[trigger] lists_letter(scores@, c) by {
                    if c == letter {
                        assert(scores@[at as int].0 == c);
                    } else {
                        assert(lists_letter(before, c));
                        let i = choose|i: int| 0 <= i < before.len() && (#[trigger] before[i]).0 == c;
                        if i < at {
                            assert(scores@[i].0 == c);
                        } else {
                            assert(scores@[i + 1].0 == c);
                        }
                    }
                }
                assert forall|i: int| 0 <= i < scores@.len() implies {
                    &&& is_lowercase((#[trigger] scores@[i]).0)
                    &&& scores@[i].0 < letter_at(index + 1)
                    &&& !used@.contains(scores@[i].0)
                    &&& scores@[i].1 == letter_count(all, scores@[i].0)
                } by {
                    if i < at {
                        assert(scores@[i] == before[i]);
                    } else if i > at {
                        assert(scores@[i] == before[i - 1]);
                    }
                }
            }
        }
        index += 1;
    }
    proof {
        lemma_ranking_unique(scores@, scores@, all, used@);
    }
    scores
}

} // verus!
