//! Taking words into a dictionary of transitions.
//!
//! `Dictionary` is the storage: a row of successors for each main character.
//! `Analyzer` is the training on top of it: every adjacent pair of a word is
//! counted once.

use crate::ordered::{lemma_place, lists, place_of};
use crate::successors::Successors;
use crate::tally::{
    lemma_short_word_adds_nothing, lemma_with_word_extended, pairs_in, well_formed, with_pair,
    with_word, with_words, Counts,
};
use vstd::prelude::*;

verus! {

/// The transition table that a map of rows stands for.
pub open spec fn counts_of(rows: Map<char, Successors>) -> Counts {
    rows.map_values(|row: Successors| row@)
}

/// The recorded sum of the row of `c`; zero where there is no such row.
pub open spec fn row_sum(rows: Map<char, Successors>, c: char) -> nat {
    if rows.dom().contains(c) {
        rows[c].sum()
    } else {
        0
    }
}

/// A row that may stand in a dictionary: sound and not empty.
pub open spec fn acceptable(row: Successors) -> bool {
    row.wf() && row.listing().len() > 0
}

/// What every valid dictionary offers: acceptable rows, none heavier than the
/// number of observations, and a number of observations that a machine
/// integer can hold.
pub open spec fn sound(rows: Map<char, Successors>, observed: nat) -> bool {
    &&& observed <= usize::MAX
    &&& forall|c: char| #[trigger]
        rows.dom().contains(c) ==> acceptable(rows[c]) && rows[c].sum() <= observed
}

/// The number of adjacent pairs in all of `words`.
pub open spec fn pairs_in_all(words: Seq<Seq<char>>) -> nat
    decreases words.len(),
{
    if words.len() == 0 {
        0
    } else {
        pairs_in_all(words.drop_last()) + pairs_in(words.last())
    }
}

/// The character sequences of a list of strings.
pub open spec fn texts(words: Seq<String>) -> Seq<Seq<char>> {
    words.map_values(|w: String| w@)
}

/// An acceptable row lists a successor, and all its counts are positive.
pub proof fn lemma_acceptable_row(row: Successors)
    requires
        acceptable(row),
    ensures
        exists|b: char| #[trigger] row@.dom().contains(b),
        forall|b: char| #[trigger] row@.dom().contains(b) ==> row@[b] > 0,
{
    let l = row.listing();
    lemma_place(l, 0);
    assert(row@.dom().contains(l[0].0));
    assert forall|b: char| #[trigger] row@.dom().contains(b) implies row@[b] > 0 by {
        let p = place_of(l, b);
        assert(l[p].1 > 0);
    }
}

/// Sound rows stand for a well-formed table.
pub proof fn lemma_sound_counts(rows: Map<char, Successors>, observed: nat)
    requires
        sound(rows, observed),
    ensures
        well_formed(counts_of(rows)),
{
    let t = counts_of(rows);
    assert forall|a: char| #[trigger] t.dom().contains(a) implies exists|b: char| #[trigger]
        t[a].dom().contains(b) by {
        lemma_acceptable_row(rows[a]);
        let b = choose|b: char| #[trigger] rows[a]@.dom().contains(b);
        assert(t[a].dom().contains(b));
    }
    assert forall|a: char, b: char|
        t.dom().contains(a) && #[trigger] t[a].dom().contains(b) implies t[a][b] > 0 by {
        lemma_acceptable_row(rows[a]);
    }
}

/// A store of rows, one for each main character that has been observed.
pub trait Dictionary {
    /// The rows held, by main character.
    spec fn rows(&self) -> Map<char, Successors>;

    /// The number of observations held: the sum of all counts.
    spec fn observed(&self) -> nat;

    /// The representation is sound.
    spec fn wf(&self) -> bool;

    /// A sound representation holds sound rows.
    proof fn lemma_wf(&self)
        requires
            self.wf(),
        ensures
            sound(self.rows(), self.observed()),
    ;

    /// Lends the row of `character` for changes, if there is one. Whatever
    /// the borrower leaves in the row is what the dictionary then holds; the
    /// dictionary stays sound exactly if the row is left acceptable and the
    /// number of observations still fits.
    fn get_char(&mut self, character: char) -> (row: Option<&mut Successors>)
        requires
            old(self).wf(),
        ensures
            row is Some <==> old(self).rows().dom().contains(character),
            row is None ==> final(self).rows() == old(self).rows(),
            row is None ==> final(self).observed() == old(self).observed(),
            row is None ==> final(self).wf(),
            row is Some ==> *row.unwrap() == old(self).rows()[character],
            row is Some ==> final(self).rows() == old(self).rows().insert(
                character,
                *final(row.unwrap()),
            ),
            row is Some ==> final(self).observed() == old(self).observed() - row.unwrap().sum()
                + final(row.unwrap()).sum(),
            row is Some ==> (final(self).wf() <==> acceptable(*final(row.unwrap()))
                && final(self).observed() <= usize::MAX),
    ;

    /// Sets the row of `character`, in place of the one it had, if any.
    fn insert_char(&mut self, character: char, successors: Successors)
        requires
            old(self).wf(),
            acceptable(successors),
            old(self).observed() - row_sum(old(self).rows(), character) + successors.sum()
                <= usize::MAX,
        ensures
            final(self).wf(),
            final(self).rows() == old(self).rows().insert(character, successors),
            final(self).observed() == old(self).observed() - row_sum(old(self).rows(), character)
                + successors.sum(),
    ;
}

/// Counts one observation of `next_char` following `main_char`.
pub fn observe<D: Dictionary + ?Sized>(dictionary: &mut D, main_char: char, next_char: char)
    requires
        old(dictionary).wf(),
        old(dictionary).observed() < usize::MAX,
    ensures
        final(dictionary).wf(),
        counts_of(final(dictionary).rows()) == with_pair(
            counts_of(old(dictionary).rows()),
            main_char,
            next_char,
        ),
        final(dictionary).observed() == old(dictionary).observed() + 1,
{
    proof {
        dictionary.lemma_wf();
    }
    let ghost before = dictionary.rows();
    match dictionary.get_char(main_char) {
        Some(row) => {
            row.bump(next_char);
            proof {
                let left = *row;
                assert(left@.dom().contains(next_char));
                assert(lists(left.listing(), next_char));
                assert(counts_of(before.insert(main_char, left)) =~= with_pair(
                    counts_of(before),
                    main_char,
                    next_char,
                ));
            }
        },
        None => {
            dictionary.insert_char(main_char, Successors::single(next_char));
            proof {
                assert(counts_of(dictionary.rows()) =~= with_pair(
                    counts_of(before),
                    main_char,
                    next_char,
                ));
            }
        },
    }
}

/// Training: taking words into a dictionary.
pub trait Analyzer: Dictionary {
    /// Takes in one word; the same as `analyze`.
    fn new_word(&mut self, word: &str)
        requires
            old(self).wf(),
            old(self).observed() + pairs_in(word@) <= usize::MAX,
        ensures
            final(self).wf(),
            counts_of(final(self).rows()) == with_word(counts_of(old(self).rows()), word@),
            final(self).observed() == old(self).observed() + pairs_in(word@),
    {
        self.analyze(word);
    }

    /// Takes in each of `words`, first to last.
    fn new_words(&mut self, words: Vec<String>)
        requires
            old(self).wf(),
            old(self).observed() + pairs_in_all(texts(words@)) <= usize::MAX,
        ensures
            final(self).wf(),
            counts_of(final(self).rows()) == with_words(
                counts_of(old(self).rows()),
                texts(words@),
            ),
            final(self).observed() == old(self).observed() + pairs_in_all(texts(words@)),
    {
        let ghost all = texts(words@);
        let ghost start = counts_of(self.rows());
        let ghost start_observed = self.observed();
        let mut i: usize = 0;
        while i < words.len()
            invariant
                i <= words.len(),
                all == texts(words@),
                self.wf(),
                counts_of(self.rows()) == with_words(start, all.take(i as int)),
                self.observed() == start_observed + pairs_in_all(all.take(i as int)),
                start_observed + pairs_in_all(all) <= usize::MAX,
            decreases words.len() - i,
        {
            proof {
                assert(all.take(i + 1).drop_last() =~= all.take(i as int));
                assert(all.take(i + 1).last() == words@[i as int]@);
                assert(all.take(all.len() as int) =~= all);
                lemma_pairs_in_all_grows(all, i + 1, all.len() as int);
            }
            self.analyze(words[i].as_str());
            i = i + 1;
        }
        proof {
            assert(all.take(i as int) =~= all);
        }
    }

    /// Takes in one word: every adjacent pair of its characters is counted
    /// once more, the first of the pair as main character, the second as its
    /// successor.
    fn analyze(&mut self, word: &str)
        requires
            old(self).wf(),
            old(self).observed() + pairs_in(word@) <= usize::MAX,
        ensures
            final(self).wf(),
            counts_of(final(self).rows()) == with_word(counts_of(old(self).rows()), word@),
            final(self).observed() == old(self).observed() + pairs_in(word@),
    {
        let ghost start = counts_of(self.rows());
        let ghost start_observed = self.observed();
        proof {
            self.lemma_wf();
            lemma_sound_counts(self.rows(), self.observed());
            lemma_short_word_adds_nothing(start, word@.take(0));
        }
        let mut previous: Option<char> = None;
        for c in it: word.chars()
            invariant
                it.seq() == word@,
                self.wf(),
                well_formed(start),
                previous == if it.index() == 0 {
                    None
                } else {
                    Some(word@[it.index() - 1])
                },
                counts_of(self.rows()) == with_word(start, word@.take(it.index() as int)),
                self.observed() == start_observed + pairs_in(word@.take(it.index() as int)),
                start_observed + pairs_in(word@) <= usize::MAX,
        {
            let ghost n = it.index() as int;
            match previous {
                Some(main_char) => {
                    proof {
                        lemma_with_word_extended(start, word@, n);
                    }
                    observe(self, main_char, c);
                },
                None => {
                    proof {
                        lemma_short_word_adds_nothing(start, word@.take(0));
                        lemma_short_word_adds_nothing(start, word@.take(1));
                    }
                },
            }
            previous = Some(c);
        }
        proof {
            assert(word@.take(word@.len() as int) =~= word@);
        }
    }
}

/// The pairs of the first `i` words are among the pairs of the first `j`.
pub proof fn lemma_pairs_in_all_grows(words: Seq<Seq<char>>, i: int, j: int)
    requires
        0 <= i <= j <= words.len(),
    ensures
        pairs_in_all(words.take(i)) <= pairs_in_all(words.take(j)),
    decreases j - i,
{
    if i < j {
        assert(words.take(j).drop_last() =~= words.take(j - 1));
        lemma_pairs_in_all_grows(words, i, j - 1);
    }
}

} // verus!
