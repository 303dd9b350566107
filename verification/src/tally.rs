//! The mathematical model of a transition table and of what a word adds to it.
//!
//! A table is a map from a main character to the map of its successors and
//! their counts. Everything here is specification and proof: the executable
//! table in `table` is held to this model.

use vstd::prelude::*;

verus! {

/// A transition table: for each main character, how often each successor
/// followed it.
pub type Counts = Map<char, Map<char, nat>>;

/// How often `b` followed `a` according to `table`; zero where the table has
/// no entry.
pub open spec fn count_in(table: Counts, a: char, b: char) -> nat {
    if table.dom().contains(a) && table[a].dom().contains(b) {
        table[a][b]
    } else {
        0
    }
}

/// A table holds no empty row and no zero count: what it lists was observed.
pub open spec fn well_formed(table: Counts) -> bool {
    &&& forall|a: char| #[trigger]
        table.dom().contains(a) ==> exists|b: char| #[trigger] table[a].dom().contains(b)
    &&& forall|a: char, b: char|
        table.dom().contains(a) && #[trigger] table[a].dom().contains(b) ==> table[a][b] > 0
}

/// The well-formed table whose counts are given by `f`.
pub open spec fn tally(f: spec_fn(char, char) -> nat) -> Counts {
    Map::new(
        |a: char| exists|b: char| #[trigger] f(a, b) > 0,
        |a: char| Map::new(|b: char| f(a, b) > 0, |b: char| f(a, b)),
    )
}

/// The number of positions in `word` at which `a` is directly followed by `b`.
pub open spec fn pair_count(word: Seq<char>, a: char, b: char) -> nat
    decreases word.len(),
{
    if word.len() < 2 {
        0
    } else {
        let before = pair_count(word.drop_last(), a, b);
        if word[word.len() - 2] == a && word.last() == b {
            before + 1
        } else {
            before
        }
    }
}

/// The number of adjacent pairs in `word`.
pub open spec fn pairs_in(word: Seq<char>) -> nat {
    if word.len() < 2 {
        0
    } else {
        (word.len() - 1) as nat
    }
}

/// The table after one more observation of `b` following `a`.
pub open spec fn with_pair(table: Counts, a: char, b: char) -> Counts {
    let row = if table.dom().contains(a) {
        table[a]
    } else {
        Map::empty()
    };
    table.insert(a, row.insert(b, count_in(table, a, b) + 1))
}

/// The table after `word` has been taken in: every adjacent pair of the word
/// is counted once more, and nothing else changes.
pub open spec fn with_word(table: Counts, word: Seq<char>) -> Counts {
    tally(|a: char, b: char| count_in(table, a, b) + pair_count(word, a, b))
}

/// The table after each of `words` has been taken in, first to last.
pub open spec fn with_words(table: Counts, words: Seq<Seq<char>>) -> Counts
    decreases words.len(),
{
    if words.len() == 0 {
        table
    } else {
        with_word(with_words(table, words.drop_last()), words.last())
    }
}

/// The counts of a tally are the counts it was built from.
pub proof fn lemma_count_in_tally(f: spec_fn(char, char) -> nat, a: char, b: char)
    ensures
        count_in(tally(f), a, b) == f(a, b),
        well_formed(tally(f)),
{
    let t = tally(f);
    if f(a, b) > 0 {
        assert(t.dom().contains(a));
        assert(t[a].dom().contains(b));
    }
    assert forall|x: char| #[trigger] t.dom().contains(x) implies exists|y: char| #[trigger]
        t[x].dom().contains(y) by {
        let y = choose|y: char| #[trigger] f(x, y) > 0;
        assert(t[x].dom().contains(y));
    }
}

/// A well-formed table is the tally of its own counts.
pub proof fn lemma_tally_of_counts(table: Counts)
    requires
        well_formed(table),
    ensures
        tally(|a: char, b: char| count_in(table, a, b)) == table,
{
    let f = |a: char, b: char| count_in(table, a, b);
    let t = tally(f);
    assert forall|a: char| t.dom().contains(a) <==> table.dom().contains(a) by {
        if table.dom().contains(a) {
            let b = choose|b: char| #[trigger] table[a].dom().contains(b);
            assert(f(a, b) > 0);
        }
        if t.dom().contains(a) {
            let b = choose|b: char| #[trigger] f(a, b) > 0;
            assert(count_in(table, a, b) > 0);
        }
    }
    assert forall|a: char| #[trigger] t.dom().contains(a) implies t[a] =~= table[a] by {
        assert forall|b: char| t[a].dom().contains(b) <==> table[a].dom().contains(b) by {
            assert(f(a, b) == count_in(table, a, b));
        }
    }
    assert(t =~~= table);
}

/// What a word adds to each count: its number of occurrences of that pair.
pub proof fn lemma_count_with_word(table: Counts, word: Seq<char>, a: char, b: char)
    ensures
        count_in(with_word(table, word), a, b) == count_in(table, a, b) + pair_count(word, a, b),
        well_formed(with_word(table, word)),
{
    lemma_count_in_tally(|x: char, y: char| count_in(table, x, y) + pair_count(word, x, y), a, b);
}

/// A word with fewer than two characters leaves a well-formed table as it is.
pub proof fn lemma_short_word_adds_nothing(table: Counts, word: Seq<char>)
    requires
        well_formed(table),
        word.len() < 2,
    ensures
        with_word(table, word) == table,
{
    let f = |a: char, b: char| count_in(table, a, b) + pair_count(word, a, b);
    let g = |a: char, b: char| count_in(table, a, b);
    assert forall|a: char, b: char| #[trigger] f(a, b) == g(a, b) by {}
    assert(f =~= g);
    lemma_tally_of_counts(table);
}

/// Two well-formed tables with the same counts are the same table.
pub proof fn lemma_same_counts_same_table(first: Counts, second: Counts)
    requires
        well_formed(first),
        well_formed(second),
        forall|a: char, b: char| count_in(first, a, b) == count_in(second, a, b),
    ensures
        first == second,
{
    let f = |a: char, b: char| count_in(first, a, b);
    let g = |a: char, b: char| count_in(second, a, b);
    assert forall|a: char, b: char| #[trigger] f(a, b) == g(a, b) by {}
    assert(f =~= g);
    lemma_tally_of_counts(first);
    lemma_tally_of_counts(second);
}

/// One more observation raises exactly one count, by one.
pub proof fn lemma_count_with_pair(table: Counts, a: char, b: char, x: char, y: char)
    ensures
        count_in(with_pair(table, a, b), x, y) == count_in(table, x, y) + if x == a && y == b {
            1nat
        } else {
            0nat
        },
{
}

/// One more observation keeps a well-formed table well-formed.
pub proof fn lemma_with_pair_well_formed(table: Counts, a: char, b: char)
    requires
        well_formed(table),
    ensures
        well_formed(with_pair(table, a, b)),
{
    let t = with_pair(table, a, b);
    assert forall|x: char| #[trigger] t.dom().contains(x) implies exists|y: char| #[trigger]
        t[x].dom().contains(y) by {
        if x == a {
            assert(t[x].dom().contains(b));
        } else {
            let y = choose|y: char| #[trigger] table[x].dom().contains(y);
            assert(t[x].dom().contains(y));
        }
    }
}

/// Taking in a word one character further is one more observation: that of
/// the word's last pair.
pub proof fn lemma_with_word_extended(table: Counts, word: Seq<char>, n: int)
    requires
        well_formed(table),
        1 <= n < word.len(),
    ensures
        with_word(table, word.take(n + 1)) == with_pair(
            with_word(table, word.take(n)),
            word[n - 1],
            word[n],
        ),
{
    let shorter = word.take(n);
    let longer = word.take(n + 1);
    let before = with_word(table, shorter);
    let after = with_pair(before, word[n - 1], word[n]);
    assert(longer.drop_last() =~= shorter);
    assert forall|a: char, b: char|
        count_in(with_word(table, longer), a, b) == count_in(after, a, b) by {
        lemma_count_with_word(table, longer, a, b);
        lemma_count_with_word(table, shorter, a, b);
        lemma_count_with_pair(before, word[n - 1], word[n], a, b);
    }
    lemma_count_with_word(table, longer, word[0], word[0]);
    lemma_count_with_word(table, shorter, word[0], word[0]);
    lemma_with_pair_well_formed(before, word[n - 1], word[n]);
    lemma_same_counts_same_table(with_word(table, longer), after);
}

} // verus!
