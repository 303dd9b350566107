//! One row of a transition table: the successors of a single character with
//! their counts, kept in ascending order of the successor.

use crate::ordered::{
    as_map, ascending, keys_of, lemma_inserted, lemma_place, lemma_replaced, lemma_same_keys,
    lists, locate,
};
use crate::sampling::weight_sum;
use crate::sums::{lemma_sum_bounds, lemma_sum_insert, lemma_sum_update};
use vstd::prelude::*;

verus! {

/// The counts of the entries, in their order.
pub open spec fn weights_of(entries: Seq<(char, usize)>) -> Seq<usize> {
    entries.map_values(|e: (char, usize)| e.1)
}

/// The entries read as a map from character to count.
pub open spec fn as_counts(entries: Seq<(char, usize)>) -> Map<char, nat> {
    as_map(entries).map_values(|n: usize| n as nat)
}

/// The count that `row` has for `c`; zero where it has none.
pub open spec fn count_or_zero(row: Map<char, nat>, c: char) -> nat {
    if row.dom().contains(c) {
        row[c]
    } else {
        0
    }
}

/// Ascending entries that read as the same map are the same entries.
pub proof fn lemma_same_entries(one: Seq<(char, usize)>, other: Seq<(char, usize)>)
    requires
        ascending(one),
        ascending(other),
        as_counts(one) == as_counts(other),
    ensures
        one == other,
{
    assert forall|c: char| lists(one, c) <==> lists(other, c) by {
        assert(lists(one, c) <==> as_map(one).dom().contains(c));
        assert(lists(other, c) <==> as_map(other).dom().contains(c));
        assert(as_map(one).dom().contains(c) <==> as_counts(one).dom().contains(c));
        assert(as_map(other).dom().contains(c) <==> as_counts(other).dom().contains(c));
    }
    lemma_same_keys(one, other);
    assert(one.len() == keys_of(one).len());
    assert(other.len() == keys_of(other).len());
    assert forall|i: int| 0 <= i < one.len() implies one[i] == other[i] by {
        assert(keys_of(one)[i] == keys_of(other)[i]);
        lemma_place(one, i);
        lemma_place(other, i);
        assert(as_counts(one)[one[i].0] == one[i].1 as nat);
        assert(as_counts(other)[other[i].0] == other[i].1 as nat);
    }
    assert(one =~= other);
}

/// Leaving entries out does not raise the sum of the counts.
pub proof fn lemma_filtered_weights(entries: Seq<(char, usize)>, keep: spec_fn((char, usize)) -> bool)
    ensures
        weight_sum(weights_of(entries.filter(keep))) <= weight_sum(weights_of(entries)),
    decreases entries.len(),
{
    reveal(Seq::filter);
    if entries.len() > 0 {
        let rest = entries.drop_last();
        lemma_filtered_weights(rest, keep);
        assert(weights_of(entries).drop_last() =~= weights_of(rest));
        if keep(entries.last()) {
            assert(weights_of(entries.filter(keep)) =~= weights_of(rest.filter(keep)).push(
                entries.last().1,
            ));
            crate::sums::lemma_sum_push(weights_of(rest.filter(keep)), entries.last().1);
        }
    }
}

/// Copies the counts out of a list of entries, in their order.
pub fn weights(entries: &Vec<(char, usize)>) -> (out: Vec<usize>)
    ensures
        out@ == weights_of(entries@),
{
    let mut out: Vec<usize> = Vec::new();
    let mut i: usize = 0;
    while i < entries.len()
        invariant
            i <= entries.len(),
            out@ == weights_of(entries@.take(i as int)),
        decreases entries.len() - i,
    {
        out.push(entries[i].1);
        proof {
            assert(weights_of(entries@.take(i + 1)) =~= weights_of(entries@.take(i as int)).push(
                entries@[i as int].1,
            ));
        }
        i = i + 1;
    }
    proof {
        assert(entries@.take(i as int) =~= entries@);
    }
    out
}

/// The successors of one character, each with the number of times it was
/// observed.
pub struct Successors {
    entries: Vec<(char, usize)>,
    total: usize,
}

impl View for Successors {
    type V = Map<char, nat>;

    open spec fn view(&self) -> Map<char, nat> {
        as_counts(self.listing())
    }
}

impl Successors {
    /// The entries, in ascending order of the successor.
    pub closed spec fn listing(&self) -> Seq<(char, usize)> {
        self.entries@
    }

    /// The recorded sum of all counts.
    pub closed spec fn sum(&self) -> nat {
        self.total as nat
    }

    /// The representation is sound: ascending entries, no zero count, and a
    /// recorded sum that is the sum.
    pub open spec fn wf(&self) -> bool {
        &&& ascending(self.listing())
        &&& forall|i: int| 0 <= i < self.listing().len() ==> (#[trigger] self.listing()[i]).1 > 0
        &&& self.sum() == weight_sum(weights_of(self.listing()))
        &&& self.sum() <= usize::MAX
    }

    /// The entries, in ascending order of the successor.
    pub fn entries(&self) -> (entries: &Vec<(char, usize)>)
        ensures
            entries@ == self.listing(),
    {
        &self.entries
    }

    /// The sum of all counts.
    pub fn total(&self) -> (total: usize)
        ensures
            total == self.sum(),
    {
        self.total
    }

    /// How often `c` was observed; zero if never.
    pub fn count(&self, c: char) -> (n: usize)
        requires
            self.wf(),
        ensures
            n == count_or_zero(self@, c),
    {
        let (i, hit) = locate(&self.entries, c);
        if hit {
            proof {
                lemma_place(self.listing(), i as int);
            }
            self.entries[i].1
        } else {
            0
        }
    }

    /// The row in which `c` was observed once and nothing else was.
    pub fn single(c: char) -> (row: Self)
        ensures
            row.wf(),
            row.listing() == seq![(c, 1usize)],
            row@ == Map::<char, nat>::empty().insert(c, 1),
            row.sum() == 1,
    {
        let mut entries: Vec<(char, usize)> = Vec::new();
        entries.push((c, 1));
        let row = Successors { entries, total: 1 };
        proof {
            let none = Seq::<(char, usize)>::empty();
            let l = row.listing();
            assert(l =~= none.insert(0, (c, 1usize)));
            lemma_inserted(none, 0, c, 1usize);
            assert(as_map(none) =~= Map::<char, usize>::empty());
            assert(row@ =~= Map::<char, nat>::empty().insert(c, 1));
            assert(weights_of(l).drop_last() =~= Seq::<usize>::empty());
            assert(weight_sum(weights_of(l).drop_last()) == 0);
        }
        row
    }

    /// Counts one more observation of `c`.
    pub fn bump(&mut self, c: char)
        requires
            old(self).wf(),
            old(self).sum() < usize::MAX,
        ensures
            final(self).wf(),
            final(self)@ == old(self)@.insert(c, count_or_zero(old(self)@, c) + 1),
            final(self).sum() == old(self).sum() + 1,
    {
        let (i, hit) = locate(&self.entries, c);
        let ghost before = self.listing();
        if hit {
            proof {
                lemma_place(before, i as int);
                lemma_sum_bounds(weights_of(before), i as int);
            }
            let entry = &mut self.entries[i];
            entry.1 = entry.1 + 1;
            self.total = self.total + 1;
            proof {
                let after = self.listing();
                let n = (before[i as int].1 + 1) as usize;
                assert(after == before.update(i as int, (c, n)));
                assert(weights_of(after) =~= weights_of(before).update(i as int, n));
                lemma_sum_update(weights_of(before), i as int, n);
                lemma_replaced(before, i as int, n);
                assert(as_counts(after) =~= as_counts(before).insert(c, n as nat));
            }
        } else {
            self.entries.insert(i, (c, 1));
            self.total = self.total + 1;
            proof {
                let after = self.listing();
                assert(after == before.insert(i as int, (c, 1usize)));
                assert(weights_of(after) =~= weights_of(before).insert(i as int, 1usize));
                lemma_sum_insert(weights_of(before), i as int, 1usize);
                lemma_inserted(before, i as int, c, 1usize);
                assert(as_counts(after) =~= as_counts(before).insert(c, 1nat));
            }
        }
    }
}

} // verus!
