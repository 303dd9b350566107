//! What a generated word must look like: a walk over the transitions of a
//! table, stated over the table alone.

use crate::tally::{count_in, Counts};
use vstd::prelude::*;

verus! {

/// Something has been observed: the table has a main character.
pub open spec fn trained(table: Counts) -> bool {
    exists|c: char| #[trigger] table.dom().contains(c)
}

/// `s` was seen after `c` and is a main character itself, so that a walk
/// which goes from `c` to `s` can go on from `s`.
pub open spec fn continuable(table: Counts, c: char, s: char) -> bool {
    count_in(table, c, s) > 0 && table.dom().contains(s)
}

/// Some successor of `c` lets a walk go on.
pub open spec fn can_continue(table: Counts, c: char) -> bool {
    exists|s: char| #[trigger] continuable(table, c, s)
}

/// `s` may stand behind `c` inside a word: it is a main character, and it was
/// seen after `c` unless no successor of `c` lets the walk go on, in which
/// case the walk starts afresh at `s`.
pub open spec fn step_allowed(table: Counts, c: char, s: char) -> bool {
    &&& table.dom().contains(s)
    &&& can_continue(table, c) ==> count_in(table, c, s) > 0
}

/// `s` may stand behind `c` at the end of a word: it was seen after `c`, or,
/// where `c` has no successors at all, it is a main character.
pub open spec fn end_allowed(table: Counts, c: char, s: char) -> bool {
    if table.dom().contains(c) {
        count_in(table, c, s) > 0
    } else {
        table.dom().contains(s)
    }
}

/// `word` is a walk over `table`: it starts at a main character, every
/// character but the last is followed by an allowed step, and the last
/// character is an allowed end.
pub open spec fn is_walk(table: Counts, word: Seq<char>) -> bool {
    &&& word.len() >= 2
    &&& table.dom().contains(word[0])
    &&& forall|i: int| 1 <= i < word.len() - 1 ==> step_allowed(table, word[i - 1], #[trigger] word[i])
    &&& end_allowed(table, word[word.len() - 2], word.last())
}

/// `trail` is the beginning of a walk: it starts at a main character and
/// every further character is an allowed step from the one before.
pub open spec fn is_trail(table: Counts, trail: Seq<char>) -> bool {
    &&& trail.len() >= 1
    &&& table.dom().contains(trail[0])
    &&& forall|i: int| 1 <= i < trail.len() ==> step_allowed(table, trail[i - 1], #[trigger] trail[i])
}

/// A trail goes on by an allowed step.
pub proof fn lemma_trail_goes_on(table: Counts, trail: Seq<char>, s: char)
    requires
        is_trail(table, trail),
        step_allowed(table, trail.last(), s),
    ensures
        is_trail(table, trail.push(s)),
{
    let longer = trail.push(s);
    assert forall|i: int| 1 <= i < longer.len() implies step_allowed(
        table,
        longer[i - 1],
        #[trigger] longer[i],
    ) by {
        if i < trail.len() {
            assert(step_allowed(table, trail[i - 1], trail[i]));
        }
    }
}

/// A trail with an allowed end is a walk.
pub proof fn lemma_trail_ends(table: Counts, trail: Seq<char>, s: char)
    requires
        is_trail(table, trail),
        end_allowed(table, trail.last(), s),
    ensures
        is_walk(table, trail.push(s)),
{
    let word = trail.push(s);
    assert forall|i: int| 1 <= i < word.len() - 1 implies step_allowed(
        table,
        word[i - 1],
        #[trigger] word[i],
    ) by {
        assert(step_allowed(table, trail[i - 1], trail[i]));
    }
}

/// Every character of a walk but its last is a main character of the table.
pub proof fn lemma_walk_stays_on_keys(table: Counts, word: Seq<char>, i: int)
    requires
        is_walk(table, word),
        0 <= i < word.len() - 1,
    ensures
        table.dom().contains(word[i]),
{
}

/// In a walk every character was seen after the one before it, unless the
/// walk started afresh there because the one before had no successor to go
/// on with.
pub proof fn lemma_walk_follows_transitions(table: Counts, word: Seq<char>, i: int)
    requires
        is_walk(table, word),
        1 <= i < word.len(),
    ensures
        count_in(table, word[i - 1], word[i]) > 0 || !can_continue(table, word[i - 1]),
{
    if i == word.len() - 1 {
        if i >= 2 {
            assert(step_allowed(table, word[i - 2], word[i - 1]));
        }
    } else {
        assert(step_allowed(table, word[i - 1], word[i]));
    }
}

} // verus!
