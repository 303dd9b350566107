//! Laws of training, stated over the model of the table and proved once for
//! all tables and all words.

use crate::tally::{
    count_in, lemma_count_with_word, lemma_same_counts_same_table, pair_count, with_word,
    with_words, Counts,
};
use vstd::prelude::*;
use vstd::seq_lib::{to_multiset_build, to_multiset_contains, to_multiset_len, to_multiset_remove};

verus! {

/// The number of positions in all of `words` at which `a` is directly
/// followed by `b`.
pub open spec fn pairs_across(words: Seq<Seq<char>>, a: char, b: char) -> nat
    decreases words.len(),
{
    if words.len() == 0 {
        0
    } else {
        pairs_across(words.drop_last(), a, b) + pair_count(words.last(), a, b)
    }
}

/// Taking in a list of words raises every count by the number of times its
/// pair occurs in the words.
pub proof fn lemma_count_with_words(table: Counts, words: Seq<Seq<char>>, a: char, b: char)
    ensures
        count_in(with_words(table, words), a, b) == count_in(table, a, b) + pairs_across(
            words,
            a,
            b,
        ),
    decreases words.len(),
{
    if words.len() > 0 {
        lemma_count_with_words(table, words.drop_last(), a, b);
        lemma_count_with_word(with_words(table, words.drop_last()), words.last(), a, b);
    }
}

/// Leaving one word out lowers the number of occurrences by those in it.
pub proof fn lemma_pairs_across_remove(words: Seq<Seq<char>>, i: int, a: char, b: char)
    requires
        0 <= i < words.len(),
    ensures
        pairs_across(words, a, b) == pairs_across(words.remove(i), a, b) + pair_count(
            words[i],
            a,
            b,
        ),
    decreases words.len(),
{
    let shorter = words.remove(i);
    if i == words.len() - 1 {
        assert(shorter =~= words.drop_last());
    } else {
        assert(shorter.drop_last() =~= words.drop_last().remove(i));
        assert(shorter.last() == words.last());
        lemma_pairs_across_remove(words.drop_last(), i, a, b);
    }
}

/// The same words in another order hold the same number of occurrences of
/// every pair.
pub proof fn lemma_pairs_across_any_order(
    first: Seq<Seq<char>>,
    second: Seq<Seq<char>>,
    a: char,
    b: char,
)
    requires
        first.to_multiset() == second.to_multiset(),
    ensures
        pairs_across(first, a, b) == pairs_across(second, a, b),
    decreases first.len(),
{
    to_multiset_len(first);
    to_multiset_len(second);
    if first.len() > 0 {
        let word = first.last();
        let rest = first.drop_last();
        assert(first =~= rest.push(word));
        to_multiset_build(rest, word);
        to_multiset_contains(second, word);
        assert(second.to_multiset().count(word) > 0);
        let i = choose|i: int| 0 <= i < second.len() && second[i] == word;
        to_multiset_remove(second, i);
        assert(rest.to_multiset() =~= second.remove(i).to_multiset());
        lemma_pairs_across_any_order(rest, second.remove(i), a, b);
        lemma_pairs_across_remove(second, i, a, b);
    }
}

/// Training does not depend on the order of the words: whatever table one
/// starts from, the same words taken in in any order give the same table.
pub proof fn law_order_does_not_matter(
    table: Counts,
    first: Seq<Seq<char>>,
    second: Seq<Seq<char>>,
)
    requires
        first.to_multiset() == second.to_multiset(),
    ensures
        with_words(table, first) == with_words(table, second),
{
    to_multiset_len(first);
    to_multiset_len(second);
    if first.len() > 0 {
        let one = with_words(table, first);
        let other = with_words(table, second);
        assert forall|a: char, b: char| count_in(one, a, b) == count_in(other, a, b) by {
            lemma_count_with_words(table, first, a, b);
            lemma_count_with_words(table, second, a, b);
            lemma_pairs_across_any_order(first, second, a, b);
        }
        lemma_count_with_word(with_words(table, first.drop_last()), first.last(), 'a', 'a');
        lemma_count_with_word(with_words(table, second.drop_last()), second.last(), 'a', 'a');
        lemma_same_counts_same_table(one, other);
    }
}

/// Two words may change places: taking in one and then the other gives the
/// table that the other order gives.
pub proof fn law_two_words_commute(table: Counts, one: Seq<char>, other: Seq<char>)
    ensures
        with_word(with_word(table, one), other) == with_word(with_word(table, other), one),
{
    let left = with_word(with_word(table, one), other);
    let right = with_word(with_word(table, other), one);
    assert forall|a: char, b: char| count_in(left, a, b) == count_in(right, a, b) by {
        lemma_count_with_word(table, one, a, b);
        lemma_count_with_word(table, other, a, b);
        lemma_count_with_word(with_word(table, one), other, a, b);
        lemma_count_with_word(with_word(table, other), one, a, b);
    }
    lemma_count_with_word(with_word(table, one), other, 'a', 'a');
    lemma_count_with_word(with_word(table, other), one, 'a', 'a');
    lemma_same_counts_same_table(left, right);
}

/// Training adds up: a word taken in twice raises every count by exactly
/// twice what it raises it by when taken in once. From the empty table the
/// counts after twice are double those after once.
pub proof fn law_twice_is_double(table: Counts, word: Seq<char>, a: char, b: char)
    ensures
        count_in(with_word(with_word(table, word), word), a, b) - count_in(table, a, b) == 2 * (
        count_in(with_word(table, word), a, b) - count_in(table, a, b)),
        count_in(with_word(with_word(Map::empty(), word), word), a, b) == 2 * count_in(
            with_word(Map::empty(), word),
            a,
            b,
        ),
        count_in(with_word(table, word), a, b) == count_in(table, a, b) + pair_count(word, a, b),
{
    let none: Counts = Map::empty();
    lemma_count_with_word(table, word, a, b);
    lemma_count_with_word(with_word(table, word), word, a, b);
    lemma_count_with_word(none, word, a, b);
    lemma_count_with_word(with_word(none, word), word, a, b);
}

} // verus!
