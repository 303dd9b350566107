//! The model: a transition table together with the random source that words
//! are generated with.

use crate::analysis::{pairs_in_all, texts, Analyzer, Dictionary};
use crate::sampling::{
    draw_in_range, draw_weighted, entropy_source, prepare_weights, seeded_source, seeded_with,
};
use crate::successors::{weights, Successors};
use crate::table::FrequencyTable;
use crate::tally::{count_in, pairs_in, Counts};
use crate::text::push_char;
use crate::walk::{
    can_continue, continuable, is_trail, is_walk, lemma_trail_ends, lemma_trail_goes_on,
    step_allowed, trained,
};
use rand::rngs::StdRng;
use std::ops::Range;
use vstd::prelude::*;

verus! {

/// Why no word could be generated.
#[derive(Clone, Copy, Debug, PartialEq, Eq)]
pub enum GenerateError {
    /// Nothing has been observed yet: there is no character to start from.
    EmptyModel,
    /// A word of the length asked for cannot be generated: words have at
    /// least two characters.
    InvalidLength,
}

/// The reason for which a word of `length` characters is refused over
/// `table`, if it is: an untrained table comes first.
pub open spec fn refusal(table: Counts, length: int) -> Option<GenerateError> {
    if !trained(table) {
        Some(GenerateError::EmptyModel)
    } else if length < 2 {
        Some(GenerateError::InvalidLength)
    } else {
        None
    }
}

/// A transition table and a random source to walk it with.
pub struct Model {
    table: FrequencyTable,
    rng: StdRng,
}

impl View for Model {
    type V = Counts;

    open spec fn view(&self) -> Counts {
        self.table()@
    }
}

impl Model {
    /// The table that the model holds.
    pub closed spec fn table(&self) -> FrequencyTable {
        self.table
    }

    /// The random source that the model holds, as it now stands.
    pub closed spec fn source(&self) -> StdRng {
        self.rng
    }

    /// An untrained model whose random source is seeded by the system, or
    /// with zero where the system has no entropy to give.
    pub fn new() -> (model: Self)
        ensures
            model.wf(),
            model@ == Map::<char, Map<char, nat>>::empty(),
            model.observed() == 0,
    {
        let rng = match entropy_source() {
            Some(rng) => rng,
            None => seeded_source(0),
        };
        Model { table: FrequencyTable::new(), rng }
    }

    /// An untrained model whose random source is seeded with `seed`: the
    /// source is the generator that this seed gives, with nothing drawn from
    /// it yet.
    pub fn with_seed(seed: u64) -> (model: Self)
        ensures
            model.wf(),
            model@ == Map::<char, Map<char, nat>>::empty(),
            model.observed() == 0,
            model.source() == seeded_with(seed),
    {
        Model { table: FrequencyTable::new(), rng: seeded_source(seed) }
    }

    /// The table that the model holds.
    pub fn frequencies(&self) -> (table: &FrequencyTable)
        ensures
            *table == self.table(),
    {
        &self.table
    }

    /// Whether `word` can still be taken in: whether the number of
    /// observations with its pairs added is one that the machine can hold.
    pub fn room_for(&self, word: &str) -> (fits: bool)
        requires
            self.wf(),
        ensures
            fits == (self.observed() + pairs_in(word@) <= usize::MAX),
    {
        self.table.room_for(word)
    }

    /// Whether all of `words` can still be taken in.
    pub fn room_for_all(&self, words: &Vec<String>) -> (fits: bool)
        requires
            self.wf(),
        ensures
            fits == (self.observed() + pairs_in_all(texts(words@)) <= usize::MAX),
    {
        self.table.room_for_all(words)
    }

    /// A character to start from: one of the main characters, each as likely
    /// as the others. Fails on an untrained model.
    pub fn first_char(&mut self) -> (first: Result<char, GenerateError>)
        requires
            old(self).wf(),
        ensures
            final(self).table() == old(self).table(),
            match first {
                Ok(c) => old(self)@.dom().contains(c),
                Err(e) => e == GenerateError::EmptyModel && !trained(old(self)@),
            },
    {
        proof {
            self.table.lemma_keys();
        }
        let n = self.table.len();
        if n == 0 {
            return Err(GenerateError::EmptyModel);
        }
        let i = draw_in_range(&mut self.rng, 0, n);
        Ok(self.table.key_at(i))
    }

    /// A character to go on with after `character` inside a word: one of its
    /// successors that are main characters themselves, each with a chance in
    /// proportion to its count among them. There is none exactly if no
    /// successor of `character` is a main character.
    pub fn random_char(&mut self, character: char) -> (next: Option<char>)
        requires
            old(self).wf(),
        ensures
            final(self).table() == old(self).table(),
            next is Some <==> can_continue(old(self)@, character),
            next is Some ==> continuable(old(self)@, character, next.unwrap()),
    {
        let candidates = self.table.continuations(character);
        proof {
            self.table.lemma_successors(character);
        }
        let counts = weights(&candidates);
        match prepare_weights(&counts) {
            Ok(prepared) => {
                let i = draw_weighted(&prepared, &mut self.rng);
                Some(candidates[i].0)
            },
            Err(_) => None,
        }
    }

    /// A character to end a word with after `character`: one of its
    /// successors, each with a chance in proportion to its count. There is
    /// none exactly if `character` is no main character.
    pub fn last_char(&mut self, character: char) -> (last: Option<char>)
        requires
            old(self).wf(),
        ensures
            final(self).table() == old(self).table(),
            last is Some <==> old(self)@.dom().contains(character),
            last is Some ==> count_in(old(self)@, character, last.unwrap()) > 0,
    {
        proof {
            self.table.lemma_successors(character);
        }
        match self.table.successors(character) {
            Some(row) => {
                let counts = weights(row.entries());
                match prepare_weights(&counts) {
                    Ok(prepared) => {
                        let i = draw_weighted(&prepared, &mut self.rng);
                        Some(row.entries()[i].0)
                    },
                    Err(_) => None,
                }
            },
            None => None,
        }
    }

    /// The character that follows `character` inside a word. Up to as many
    /// times as the table has main characters a successor to go on with is
    /// sought; where none is found the walk starts afresh at a main
    /// character.
    pub fn middle_char(&mut self, character: char) -> (next: Result<char, GenerateError>)
        requires
            old(self).wf(),
        ensures
            final(self).table() == old(self).table(),
            match next {
                Ok(s) => step_allowed(old(self)@, character, s),
                Err(e) => e == GenerateError::EmptyModel && !trained(old(self)@),
            },
    {
        let ghost table = self@;
        let ghost held = self.table();
        proof {
            self.table.lemma_keys();
        }
        let tries = self.table.len();
        let mut found: Option<char> = None;
        let mut attempt: usize = 0;
        while attempt < tries && found.is_none()
            invariant
                self.wf(),
                self.table() == held,
                table == held@,
                found is Some ==> continuable(table, character, found.unwrap()),
                found is None && attempt > 0 ==> !can_continue(table, character),
            decreases tries - attempt,
        {
            found = self.random_char(character);
            attempt = attempt + 1;
        }
        match found {
            Some(s) => Ok(s),
            None => self.first_char(),
        }
    }

    /// A word of exactly `length` characters, walked at random over the
    /// table: a first character, then `length - 2` middle characters, then a
    /// last one. Fails on an untrained model, and for a length below two.
    pub fn random_word(&mut self, length: usize) -> (word: Result<String, GenerateError>)
        requires
            old(self).wf(),
        ensures
            final(self).table() == old(self).table(),
            match word {
                Ok(w) => refusal(old(self)@, length as int) is None && w@.len() == length
                    && is_walk(old(self)@, w@),
                Err(e) => refusal(old(self)@, length as int) == Some(e),
            },
    {
        let ghost table = self@;
        let ghost held = self.table();
        if self.table.is_empty() {
            return Err(GenerateError::EmptyModel);
        }
        if length < 2 {
            return Err(GenerateError::InvalidLength);
        }
        let mut word = String::new();
        let mut character = match self.first_char() {
            Ok(c) => c,
            Err(e) => {
                return Err(e);
            },
        };
        push_char(&mut word, character);
        let mut done: usize = 0;
        while done < length - 2
            invariant
                length >= 2,
                done <= length - 2,
                self.wf(),
                self.table() == held,
                table == held@,
                trained(table),
                word@.len() == done + 1,
                word@.last() == character,
                is_trail(table, word@),
            decreases length - 2 - done,
        {
            let next = match self.middle_char(character) {
                Ok(s) => s,
                Err(e) => {
                    return Err(e);
                },
            };
            proof {
                lemma_trail_goes_on(table, word@, next);
            }
            character = next;
            push_char(&mut word, character);
            done = done + 1;
        }
        let last = match self.last_char(character) {
            Some(c) => c,
            None => match self.first_char() {
                Ok(c) => c,
                Err(e) => {
                    return Err(e);
                },
            },
        };
        proof {
            lemma_trail_ends(table, word@, last);
        }
        push_char(&mut word, last);
        Ok(word)
    }

    /// A word whose length is drawn from `range`, each length of the range as
    /// likely as the others. Fails on an untrained model, for an empty range,
    /// and where the length drawn is below two.
    pub fn random_word_with_range(&mut self, range: Range<usize>) -> (word: Result<String, GenerateError>)
        requires
            old(self).wf(),
        ensures
            final(self).table() == old(self).table(),
            match word {
                Ok(w) => range.start <= w@.len() < range.end && is_walk(old(self)@, w@),
                Err(e) => if trained(old(self)@) {
                    e == GenerateError::InvalidLength && (range.start >= range.end || range.start
                        < 2)
                } else {
                    e == GenerateError::EmptyModel
                },
            },
            trained(old(self)@) && 2 <= range.start < range.end ==> word is Ok,
    {
        if self.table.is_empty() {
            return Err(GenerateError::EmptyModel);
        }
        if range.start >= range.end {
            return Err(GenerateError::InvalidLength);
        }
        let length = draw_in_range(&mut self.rng, range.start, range.end);
        self.random_word(length)
    }

    /// `count` words of `length` characters each, generated one after the
    /// other. Fails as `random_word` does, unless no word is asked for.
    pub fn random_words(&mut self, length: usize, count: usize) -> (words: Result<Vec<String>, GenerateError>)
        requires
            old(self).wf(),
        ensures
            final(self).table() == old(self).table(),
            match words {
                Ok(list) => {
                    &&& list@.len() == count
                    &&& count > 0 ==> refusal(old(self)@, length as int) is None
                    &&& forall|i: int|
                        0 <= i < list@.len() ==> (#[trigger] list@[i])@.len() == length && is_walk(
                            old(self)@,
                            list@[i]@,
                        )
                },
                Err(e) => count > 0 && refusal(old(self)@, length as int) == Some(e),
            },
    {
        let ghost table = self@;
        let ghost held = self.table();
        let mut result: Vec<String> = Vec::new();
        let mut done: usize = 0;
        while done < count
            invariant
                done <= count,
                self.wf(),
                self.table() == held,
                held == old(self).table(),
                table == held@,
                result@.len() == done,
                done > 0 ==> refusal(table, length as int) is None,
                forall|i: int|
                    0 <= i < result@.len() ==> (#[trigger] result@[i])@.len() == length && is_walk(
                        table,
                        result@[i]@,
                    ),
            decreases count - done,
        {
            match self.random_word(length) {
                Ok(word) => {
                    result.push(word);
                },
                Err(e) => {
                    return Err(e);
                },
            }
            done = done + 1;
        }
        Ok(result)
    }

    /// `count` words, the length of each drawn from `range` on its own. Fails
    /// as `random_word_with_range` does, unless no word is asked for.
    pub fn random_words_with_range(&mut self, range: Range<usize>, count: usize) -> (words: Result<Vec<String>, GenerateError>)
        requires
            old(self).wf(),
        ensures
            final(self).table() == old(self).table(),
            match words {
                Ok(list) => {
                    &&& list@.len() == count
                    &&& count > 0 ==> trained(old(self)@) && range.start < range.end
                    &&& forall|i: int|
                        0 <= i < list@.len() ==> range.start <= (#[trigger] list@[i])@.len()
                            < range.end && is_walk(old(self)@, list@[i]@)
                },
                Err(e) => count > 0 && if trained(old(self)@) {
                    e == GenerateError::InvalidLength && (range.start >= range.end || range.start
                        < 2)
                } else {
                    e == GenerateError::EmptyModel
                },
            },
            trained(old(self)@) && 2 <= range.start < range.end ==> words is Ok,
    {
        let ghost table = self@;
        let ghost held = self.table();
        let mut result: Vec<String> = Vec::new();
        let mut done: usize = 0;
        while done < count
            invariant
                done <= count,
                self.wf(),
                self.table() == held,
                held == old(self).table(),
                table == held@,
                result@.len() == done,
                done > 0 ==> trained(table) && range.start < range.end,
                forall|i: int|
                    0 <= i < result@.len() ==> range.start <= (#[trigger] result@[i])@.len()
                        < range.end && is_walk(table, result@[i]@),
            decreases count - done,
        {
            let chosen = Range { start: range.start, end: range.end };
            match self.random_word_with_range(chosen) {
                Ok(word) => {
                    result.push(word);
                },
                Err(e) => {
                    return Err(e);
                },
            }
            done = done + 1;
        }
        Ok(result)
    }
}

impl Dictionary for Model {
    open spec fn rows(&self) -> Map<char, Successors> {
        self.table().rows()
    }

    open spec fn observed(&self) -> nat {
        self.table().observed()
    }

    open spec fn wf(&self) -> bool {
        self.table().wf()
    }

    proof fn lemma_wf(&self) {
        self.table().lemma_wf();
    }

    fn get_char(&mut self, character: char) -> (row: Option<&mut Successors>) {
        self.table.get_char(character)
    }

    fn insert_char(&mut self, character: char, successors: Successors) {
        self.table.insert_char(character, successors)
    }
}

impl Analyzer for Model {

}

} // verus!
