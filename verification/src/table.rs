//! The transition table: one row of successors for each main character, the
//! rows kept in ascending order of the main character.

use crate::analysis::{
    acceptable, counts_of, lemma_pairs_in_all_grows, pairs_in_all, sound, texts, Analyzer,
    Dictionary,
};
use crate::ordered::{
    as_map, ascending, keys_of, lemma_inserted, lemma_place, lemma_replaced, lemma_same_keys,
    lists, locate, place_of,
};
use crate::sampling::drawable;
use crate::successors::{lemma_filtered_weights, lemma_same_entries, weights_of, Successors};
use crate::sums::lemma_sum_bounds;
use crate::tally::{count_in, pairs_in, Counts};
use crate::walk::{can_continue, continuable, trained};
use vstd::prelude::*;

verus! {

/// The number of observations held by a list of rows: the sum of their sums.
pub open spec fn observed_in(entries: Seq<(char, Successors)>) -> nat
    decreases entries.len(),
{
    if entries.len() == 0 {
        0
    } else {
        observed_in(entries.drop_last()) + entries.last().1.sum()
    }
}

/// No row holds more than all rows together.
pub proof fn lemma_observed_bounds(entries: Seq<(char, Successors)>, i: int)
    requires
        0 <= i < entries.len(),
    ensures
        entries[i].1.sum() <= observed_in(entries),
    decreases entries.len(),
{
    if i < entries.len() - 1 {
        lemma_observed_bounds(entries.drop_last(), i);
    }
}

/// Replacing one row changes the number of observations by the difference.
pub proof fn lemma_observed_update(
    entries: Seq<(char, Successors)>,
    i: int,
    entry: (char, Successors),
)
    requires
        0 <= i < entries.len(),
    ensures
        observed_in(entries.update(i, entry)) == observed_in(entries) - entries[i].1.sum()
            + entry.1.sum(),
    decreases entries.len(),
{
    let changed = entries.update(i, entry);
    if i == entries.len() - 1 {
        assert(changed.drop_last() =~= entries.drop_last());
    } else {
        assert(changed.drop_last() =~= entries.drop_last().update(i, entry));
        lemma_observed_update(entries.drop_last(), i, entry);
    }
}

/// Inserting a row adds its sum to the number of observations.
pub proof fn lemma_observed_insert(
    entries: Seq<(char, Successors)>,
    i: int,
    entry: (char, Successors),
)
    requires
        0 <= i <= entries.len(),
    ensures
        observed_in(entries.insert(i, entry)) == observed_in(entries) + entry.1.sum(),
    decreases entries.len(),
{
    let grown = entries.insert(i, entry);
    if i == entries.len() {
        assert(grown.drop_last() =~= entries);
    } else {
        assert(grown.drop_last() =~= entries.drop_last().insert(i, entry));
        assert(grown.last() == entries.last());
        lemma_observed_insert(entries.drop_last(), i, entry);
    }
}

/// The test that an entry of a row passes if its successor is a main
/// character of `entries`.
pub open spec fn is_live(entries: Seq<(char, Successors)>) -> spec_fn((char, usize)) -> bool {
    |e: (char, usize)| lists(entries, e.0)
}

/// The successors of `c` that are main characters themselves, with their
/// counts, in ascending order; empty where `c` is no main character.
pub open spec fn live_successors(entries: Seq<(char, Successors)>, c: char) -> Seq<(char, usize)> {
    if lists(entries, c) {
        entries[place_of(entries, c)].1.listing().filter(is_live(entries))
    } else {
        Seq::empty()
    }
}

/// All successors of `c` with their counts, in ascending order; empty where
/// `c` is no main character.
pub open spec fn all_successors(entries: Seq<(char, Successors)>, c: char) -> Seq<(char, usize)> {
    if lists(entries, c) {
        entries[place_of(entries, c)].1.listing()
    } else {
        Seq::empty()
    }
}

/// The observations of the first `i` rows are among those of the first `j`.
pub proof fn lemma_observed_grows(entries: Seq<(char, Successors)>, i: int, j: int)
    requires
        0 <= i <= j <= entries.len(),
    ensures
        observed_in(entries.take(i)) <= observed_in(entries.take(j)),
    decreases j - i,
{
    if i < j {
        assert(entries.take(j).drop_last() =~= entries.take(j - 1));
        lemma_observed_grows(entries, i, j - 1);
    }
}

/// The observed transitions between characters, with their frequencies.
pub struct FrequencyTable {
    rows: Vec<(char, Successors)>,
}

impl View for FrequencyTable {
    type V = Counts;

    open spec fn view(&self) -> Counts {
        counts_of(as_map(self.entries()))
    }
}

impl FrequencyTable {
    /// The rows with their main characters, in ascending order of the main
    /// character.
    pub closed spec fn entries(&self) -> Seq<(char, Successors)> {
        self.rows@
    }

    /// The main characters, in ascending order.
    pub open spec fn keys(&self) -> Seq<char> {
        keys_of(self.entries())
    }

    /// The table in which nothing has been observed.
    pub fn new() -> (table: Self)
        ensures
            table.wf(),
            table.entries() == Seq::<(char, Successors)>::empty(),
            table@ == Map::<char, Map<char, nat>>::empty(),
            table.observed() == 0,
    {
        let table = FrequencyTable { rows: Vec::new() };
        proof {
            assert(as_map(table.entries()) =~= Map::<char, Successors>::empty());
            assert(table@ =~= Map::<char, Map<char, nat>>::empty());
        }
        table
    }
}

impl FrequencyTable {
    /// The number of main characters.
    pub fn len(&self) -> (n: usize)
        ensures
            n == self.keys().len(),
    {
        self.rows.len()
    }

    /// Whether nothing has been observed.
    pub fn is_empty(&self) -> (empty: bool)
        requires
            self.wf(),
        ensures
            empty == !trained(self@),
    {
        proof {
            self.lemma_keys();
            if self.keys().len() > 0 {
                assert(self@.dom().contains(self.keys()[0]));
            }
        }
        self.rows.len() == 0
    }

    /// The main character at position `i` of the ascending order.
    pub fn key_at(&self, i: usize) -> (c: char)
        requires
            i < self.keys().len(),
        ensures
            c == self.keys()[i as int],
    {
        self.rows[i].0
    }

    /// Whether `c` is a main character.
    pub fn contains_key(&self, c: char) -> (found: bool)
        requires
            self.wf(),
        ensures
            found == self@.dom().contains(c),
    {
        let (_, hit) = locate(&self.rows, c);
        hit
    }

    /// The row of `c`, if it is a main character.
    pub fn successors(&self, c: char) -> (row: Option<&Successors>)
        requires
            self.wf(),
        ensures
            row is Some <==> self@.dom().contains(c),
            row is Some ==> *row.unwrap() == self.rows()[c] && row.unwrap()@ == self@[c],
    {
        let (i, hit) = locate(&self.rows, c);
        if hit {
            proof {
                lemma_place(self.entries(), i as int);
            }
            Some(&self.rows[i].1)
        } else {
            None
        }
    }

    /// How often `b` was observed after `a`; zero if never.
    pub fn count(&self, a: char, b: char) -> (n: usize)
        requires
            self.wf(),
        ensures
            n == count_in(self@, a, b),
    {
        match self.successors(a) {
            Some(row) => row.count(b),
            None => 0,
        }
    }

    /// The number of observations held.
    pub fn observed_pairs(&self) -> (n: usize)
        requires
            self.wf(),
        ensures
            n == self.observed(),
    {
        let mut n: usize = 0;
        let mut i: usize = 0;
        while i < self.rows.len()
            invariant
                i <= self.rows.len(),
                n == observed_in(self.entries().take(i as int)),
                observed_in(self.entries()) <= usize::MAX,
            decreases self.rows.len() - i,
        {
            proof {
                assert(self.entries().take(i + 1).drop_last() =~= self.entries().take(i as int));
                lemma_observed_grows(self.entries(), i + 1, self.entries().len() as int);
                assert(self.entries().take(self.entries().len() as int) =~= self.entries());
            }
            n = n + self.rows[i].1.total();
            i = i + 1;
        }
        proof {
            assert(self.entries().take(i as int) =~= self.entries());
        }
        n
    }

    /// Whether `word` can still be taken in: whether the number of
    /// observations with its pairs added is one that the machine can hold.
    pub fn room_for(&self, word: &str) -> (fits: bool)
        requires
            self.wf(),
        ensures
            fits == (self.observed() + pairs_in(word@) <= usize::MAX),
    {
        let held = self.observed_pairs();
        let n = word.unicode_len();
        let pairs = if n < 2 {
            0
        } else {
            n - 1
        };
        pairs <= usize::MAX - held
    }

    /// Whether all of `words` can still be taken in.
    pub fn room_for_all(&self, words: &Vec<String>) -> (fits: bool)
        requires
            self.wf(),
        ensures
            fits == (self.observed() + pairs_in_all(texts(words@)) <= usize::MAX),
    {
        let ghost all = texts(words@);
        let mut left = usize::MAX - self.observed_pairs();
        let mut i: usize = 0;
        while i < words.len()
            invariant
                i <= words.len(),
                all == texts(words@),
                self.observed() + pairs_in_all(all.take(i as int)) + left == usize::MAX,
            decreases words.len() - i,
        {
            let n = words[i].as_str().unicode_len();
            let pairs = if n < 2 {
                0
            } else {
                n - 1
            };
            proof {
                assert(all.take(i + 1).drop_last() =~= all.take(i as int));
                assert(all.take(i + 1).last() == words@[i as int]@);
                assert(all.take(all.len() as int) =~= all);
                lemma_pairs_in_all_grows(all, i + 1, all.len() as int);
            }
            if pairs > left {
                return false;
            }
            left = left - pairs;
            i = i + 1;
        }
        proof {
            assert(all.take(i as int) =~= all);
        }
        true
    }

    /// The successors of `c` from which a walk can go on, with their counts.
    pub fn continuations(&self, c: char) -> (out: Vec<(char, usize)>)
        requires
            self.wf(),
        ensures
            out@ == live_successors(self.entries(), c),
    {
        let mut out: Vec<(char, usize)> = Vec::new();
        let (i, hit) = locate(&self.rows, c);
        if hit {
            proof {
                lemma_place(self.entries(), i as int);
            }
            let row = self.rows[i].1.entries();
            let mut j: usize = 0;
            proof {
                reveal(Seq::filter);
                assert(row@.take(0).filter(is_live(self.entries())) =~= Seq::<
                    (char, usize),
                >::empty());
            }
            while j < row.len()
                invariant
                    j <= row.len(),
                    self.wf(),
                    out@ == row@.take(j as int).filter(is_live(self.entries())),
                decreases row.len() - j,
            {
                let entry = row[j];
                let (_, live) = locate(&self.rows, entry.0);
                proof {
                    assert(row@.take(j + 1) =~= row@.take(j as int).push(entry));
                    row@.take(j as int).lemma_filter_push(entry, is_live(self.entries()));
                }
                if live {
                    out.push(entry);
                }
                j = j + 1;
            }
            proof {
                assert(row@.take(j as int) =~= row@);
            }
        }
        out
    }

    /// The main characters are exactly the characters that have a row.
    pub proof fn lemma_keys(&self)
        requires
            self.wf(),
        ensures
            forall|i: int| 0 <= i < self.keys().len() ==> self@.dom().contains(#[trigger] self.keys()[i]),
            forall|c: char| #[trigger] self@.dom().contains(c) ==> self.keys().contains(c),
            forall|i: int, j: int| 0 <= i < j < self.keys().len() ==> self.keys()[i] < self.keys()[j],
            self.keys().len() > 0 <==> trained(self@),
    {
        let e = self.entries();
        assert forall|i: int| 0 <= i < self.keys().len() implies self@.dom().contains(
            #[trigger] self.keys()[i],
        ) by {
            lemma_place(e, i);
        }
        assert forall|c: char| #[trigger] self@.dom().contains(c) implies self.keys().contains(
            c,
        ) by {
            let p = place_of(e, c);
            assert(self.keys()[p] == c);
        }
        if self.keys().len() > 0 {
            lemma_place(e, 0);
            assert(self@.dom().contains(self.keys()[0]));
        }
        if trained(self@) {
            let c = choose|c: char| #[trigger] self@.dom().contains(c);
            assert(lists(e, c));
        }
    }

    /// What the lists of successors mean in terms of the table: the live
    /// successors of `c` are exactly the characters a walk can go on with
    /// from `c`, all successors are exactly those seen after `c`, and either
    /// list can be drawn from by weight unless it is empty.
    pub proof fn lemma_successors(&self, c: char)
        requires
            self.wf(),
        ensures
            live_successors(self.entries(), c).len() > 0 <==> can_continue(self@, c),
            all_successors(self.entries(), c).len() > 0 <==> self@.dom().contains(c),
            forall|i: int|
                0 <= i < live_successors(self.entries(), c).len() ==> continuable(
                    self@,
                    c,
                    (#[trigger] live_successors(self.entries(), c)[i]).0,
                ),
            forall|i: int|
                0 <= i < all_successors(self.entries(), c).len() ==> count_in(
                    self@,
                    c,
                    (#[trigger] all_successors(self.entries(), c)[i]).0,
                ) > 0,
            live_successors(self.entries(), c).len() > 0 ==> drawable(
                weights_of(live_successors(self.entries(), c)),
            ),
            all_successors(self.entries(), c).len() > 0 ==> drawable(
                weights_of(all_successors(self.entries(), c)),
            ),
    {
        let e = self.entries();
        let live = live_successors(e, c);
        let all = all_successors(e, c);
        if lists(e, c) {
            let p = place_of(e, c);
            lemma_place(e, p);
            let row = e[p].1;
            let l = row.listing();
            assert(acceptable(row));
            assert(self@[c] == row@);
            assert forall|q: int| 0 <= q < l.len() implies count_in(self@, c, (#[trigger] l[q]).0)
                > 0 by {
                lemma_place(l, q);
            }
            assert forall|i: int| 0 <= i < live.len() implies continuable(
                self@,
                c,
                (#[trigger] live[i]).0,
            ) by {
                l.lemma_filter_pred(is_live(e), i);
                assert(live.contains(live[i]));
                l.lemma_filter_contains_rev(is_live(e), live[i]);
                let q = choose|q: int| 0 <= q < l.len() && l[q] == live[i];
                assert(count_in(self@, c, l[q].0) > 0);
            }
            if live.len() > 0 {
                assert(continuable(self@, c, live[0].0));
                l.lemma_filter_pred(is_live(e), 0);
                assert(live.contains(live[0]));
                l.lemma_filter_contains_rev(is_live(e), live[0]);
                let q = choose|q: int| 0 <= q < l.len() && l[q] == live[0];
                assert(weights_of(live)[0] == l[q].1);
                lemma_sum_bounds(weights_of(live), 0);
                lemma_filtered_weights(l, is_live(e));
            }
            if can_continue(self@, c) {
                let s = choose|s: char| #[trigger] continuable(self@, c, s);
                assert(row@.dom().contains(s));
                let q = place_of(l, s);
                assert(is_live(e)(l[q]));
                l.lemma_filter_contains(is_live(e), q);
            }
            assert(weights_of(all)[0] == l[0].1);
            lemma_sum_bounds(weights_of(all), 0);
        } else {
            assert(!self@.dom().contains(c));
            assert forall|s: char| !continuable(self@, c, s) by {}
        }
    }
}

/// The table has one representation only: two sound tables that hold the
/// same counts list the same main characters in the same order, and offer
/// the same successors, in the same order and with the same counts, to
/// every draw. What is generated from a table therefore depends on its
/// counts and on the draws, not on the order in which it was trained.
pub proof fn law_one_representation(one: FrequencyTable, other: FrequencyTable, c: char)
    requires
        one.wf(),
        other.wf(),
        one@ == other@,
    ensures
        one.keys() == other.keys(),
        all_successors(one.entries(), c) == all_successors(other.entries(), c),
        live_successors(one.entries(), c) == live_successors(other.entries(), c),
{
    let e = one.entries();
    let f = other.entries();
    assert forall|x: char| lists(e, x) <==> lists(f, x) by {
        assert(lists(e, x) <==> as_map(e).dom().contains(x));
        assert(lists(f, x) <==> as_map(f).dom().contains(x));
        assert(as_map(e).dom().contains(x) <==> one@.dom().contains(x));
        assert(as_map(f).dom().contains(x) <==> other@.dom().contains(x));
    }
    lemma_same_keys(e, f);
    assert(is_live(e) =~= is_live(f)) by {
        assert forall|entry: (char, usize)| #[trigger] is_live(e)(entry) == is_live(f)(entry) by {
            assert(lists(e, entry.0) <==> lists(f, entry.0));
        }
    }
    if lists(e, c) {
        let p = place_of(e, c);
        let q = place_of(f, c);
        lemma_place(e, p);
        lemma_place(f, q);
        assert(acceptable(e[p].1));
        assert(acceptable(f[q].1));
        assert(one@[c] == e[p].1@);
        assert(other@[c] == f[q].1@);
        lemma_same_entries(e[p].1.listing(), f[q].1.listing());
    }
}

impl Dictionary for FrequencyTable {
    open spec fn rows(&self) -> Map<char, Successors> {
        as_map(self.entries())
    }

    open spec fn observed(&self) -> nat {
        observed_in(self.entries())
    }

    open spec fn wf(&self) -> bool {
        &&& ascending(self.entries())
        &&& forall|i: int| 0 <= i < self.entries().len() ==> acceptable(#[trigger] self.entries()[i].1)
        &&& observed_in(self.entries()) <= usize::MAX
    }

    proof fn lemma_wf(&self) {
        let e = self.entries();
        assert forall|c: char| #[trigger] self.rows().dom().contains(c) implies acceptable(
            self.rows()[c],
        ) && self.rows()[c].sum() <= self.observed() by {
            let p = place_of(e, c);
            assert(acceptable(e[p].1));
            lemma_observed_bounds(e, p);
        }
    }

    fn get_char(&mut self, character: char) -> (row: Option<&mut Successors>) {
        let (i, hit) = locate(&self.rows, character);
        let ghost before = self.entries();
        if hit {
            proof {
                lemma_place(before, i as int);
            }
            let row = &mut self.rows[i].1;
            proof {
                let left = (character, *final(row));
                lemma_replaced(before, i as int, *final(row));
                lemma_observed_update(before, i as int, left);
                let after = before.update(i as int, left);
                assert(after[i as int].1 == *final(row));
                assert forall|j: int| 0 <= j < after.len() && j != i implies acceptable(
                    #[trigger] after[j].1,
                ) by {
                    assert(after[j].1 == before[j].1);
                }
            }
            Some(row)
        } else {
            None
        }
    }

    fn insert_char(&mut self, character: char, successors: Successors) {
        let (i, hit) = locate(&self.rows, character);
        let ghost before = self.entries();
        if hit {
            proof {
                lemma_place(before, i as int);
                lemma_replaced(before, i as int, successors);
                lemma_observed_update(before, i as int, (character, successors));
            }
            self.rows[i].1 = successors;
            proof {
                let after = self.entries();
                assert(after == before.update(i as int, (character, successors)));
                assert forall|j: int| 0 <= j < after.len() implies acceptable(
                    #[trigger] after[j].1,
                ) by {
                    if j != i {
                        assert(after[j].1 == before[j].1);
                    }
                }
            }
        } else {
            proof {
                lemma_inserted(before, i as int, character, successors);
                lemma_observed_insert(before, i as int, (character, successors));
            }
            self.rows.insert(i, (character, successors));
            proof {
                let after = self.entries();
                assert(after == before.insert(i as int, (character, successors)));
                assert forall|j: int| 0 <= j < after.len() implies acceptable(
                    #[trigger] after[j].1,
                ) by {
                    if j < i {
                        assert(after[j].1 == before[j].1);
                    } else if j > i {
                        assert(after[j].1 == before[j - 1].1);
                    }
                }
            }
        }
    }
}

impl Analyzer for FrequencyTable {

}

} // verus!
