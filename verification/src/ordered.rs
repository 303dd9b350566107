//! Lists of entries keyed by a character and kept in ascending order of the
//! key: the representation shared by a row and by the table of rows.

use vstd::prelude::*;

verus! {

/// The entries are in strictly ascending order of their character.
pub open spec fn ascending<V>(entries: Seq<(char, V)>) -> bool {
    forall|i: int, j: int| 0 <= i < j < entries.len() ==> entries[i].0 < entries[j].0
}

/// Some entry is about the character `c`.
pub open spec fn lists<V>(entries: Seq<(char, V)>, c: char) -> bool {
    exists|i: int| 0 <= i < entries.len() && entries[i].0 == c
}

/// The position of an entry about `c`.
pub open spec fn place_of<V>(entries: Seq<(char, V)>, c: char) -> int {
    choose|i: int| 0 <= i < entries.len() && entries[i].0 == c
}

/// The characters of the entries, in their order.
pub open spec fn keys_of<V>(entries: Seq<(char, V)>) -> Seq<char> {
    entries.map_values(|e: (char, V)| e.0)
}

/// The entries read as a map from character to value.
pub open spec fn as_map<V>(entries: Seq<(char, V)>) -> Map<char, V> {
    Map::new(|c: char| lists(entries, c), |c: char| entries[place_of(entries, c)].1)
}

/// In ascending entries a character stands at one place only.
pub proof fn lemma_place<V>(entries: Seq<(char, V)>, i: int)
    requires
        ascending(entries),
        0 <= i < entries.len(),
    ensures
        lists(entries, entries[i].0),
        place_of(entries, entries[i].0) == i,
        as_map(entries).dom().contains(entries[i].0),
        as_map(entries)[entries[i].0] == entries[i].1,
{
    let p = place_of(entries, entries[i].0);
    if p < i {
        assert(entries[p].0 < entries[i].0);
    } else if i < p {
        assert(entries[i].0 < entries[p].0);
    }
}

/// Replacing the value at one place replaces it in the map and keeps the
/// order.
pub proof fn lemma_replaced<V>(entries: Seq<(char, V)>, i: int, v: V)
    requires
        ascending(entries),
        0 <= i < entries.len(),
    ensures
        ascending(entries.update(i, (entries[i].0, v))),
        as_map(entries.update(i, (entries[i].0, v))) == as_map(entries).insert(entries[i].0, v),
        keys_of(entries.update(i, (entries[i].0, v))) == keys_of(entries),
{
    let c = entries[i].0;
    let after = entries.update(i, (c, v));
    assert(ascending(after)) by {
        assert forall|j: int, k: int| 0 <= j < k < after.len() implies after[j].0 < after[k].0 by {
            assert(entries[j].0 < entries[k].0);
        }
    }
    assert forall|x: char| #[trigger]
        as_map(after).dom().contains(x) <==> as_map(entries).insert(c, v).dom().contains(x) by {
        if lists(after, x) {
            let p = place_of(after, x);
            assert(entries[p].0 == x);
        }
        if lists(entries, x) {
            let p = place_of(entries, x);
            assert(after[p].0 == x);
        }
        lemma_place(after, i);
    }
    assert forall|x: char| #[trigger] as_map(after).dom().contains(x) implies as_map(after)[x]
        == as_map(entries).insert(c, v)[x] by {
        let p = place_of(after, x);
        lemma_place(after, p);
        lemma_place(entries, p);
    }
    assert(as_map(after) =~= as_map(entries).insert(c, v));
    assert(keys_of(after) =~= keys_of(entries));
}

/// Putting a new character at the place where the order wants it adds it to
/// the map and keeps the order.
pub proof fn lemma_inserted<V>(entries: Seq<(char, V)>, i: int, c: char, v: V)
    requires
        ascending(entries),
        0 <= i <= entries.len(),
        forall|j: int| 0 <= j < i ==> entries[j].0 < c,
        forall|j: int| i <= j < entries.len() ==> c < entries[j].0,
    ensures
        !lists(entries, c),
        ascending(entries.insert(i, (c, v))),
        as_map(entries.insert(i, (c, v))) == as_map(entries).insert(c, v),
        keys_of(entries.insert(i, (c, v))) == keys_of(entries).insert(i, c),
{
    let after = entries.insert(i, (c, v));
    if lists(entries, c) {
        let p = place_of(entries, c);
        assert(entries[p].0 == c);
    }
    assert(ascending(after)) by {
        assert forall|j: int, k: int| 0 <= j < k < after.len() implies after[j].0 < after[k].0 by {
            if k < i {
                assert(entries[j].0 < entries[k].0);
            } else if k == i {
            } else if j == i {
            } else if j < i {
                assert(entries[j].0 < entries[k - 1].0);
            } else {
                assert(entries[j - 1].0 < entries[k - 1].0);
            }
        }
    }
    lemma_place(after, i);
    assert forall|x: char| #[trigger]
        as_map(after).dom().contains(x) <==> as_map(entries).insert(c, v).dom().contains(x) by {
        if lists(after, x) {
            let p = place_of(after, x);
            if p < i {
                assert(entries[p].0 == x);
            } else if p > i {
                assert(entries[p - 1].0 == x);
            }
        }
        if lists(entries, x) {
            let p = place_of(entries, x);
            if p < i {
                assert(after[p].0 == x);
            } else {
                assert(after[p + 1].0 == x);
            }
        }
    }
    assert forall|x: char| #[trigger] as_map(after).dom().contains(x) implies as_map(after)[x]
        == as_map(entries).insert(c, v)[x] by {
        let p = place_of(after, x);
        lemma_place(after, p);
        if p < i {
            lemma_place(entries, p);
        } else if p > i {
            lemma_place(entries, p - 1);
        }
    }
    assert(as_map(after) =~= as_map(entries).insert(c, v));
    assert(keys_of(after) =~= keys_of(entries).insert(i, c));
}

/// Ascending entries about the same characters list them at the same places.
pub proof fn lemma_same_keys<V, W>(one: Seq<(char, V)>, other: Seq<(char, W)>)
    requires
        ascending(one),
        ascending(other),
        forall|c: char| lists(one, c) <==> lists(other, c),
    ensures
        keys_of(one) == keys_of(other),
    decreases one.len(),
{
    if one.len() == 0 {
        if other.len() > 0 {
            assert(lists(other, other[0].0));
            let p = place_of(one, other[0].0);
        }
        assert(keys_of(one) =~= keys_of(other));
    } else {
        let top = one.last().0;
        assert(lists(one, top));
        let p = place_of(other, top);
        assert(other[p].0 == top);
        let peak = other.last().0;
        assert(lists(other, peak));
        let q = place_of(one, peak);
        assert(one[q].0 == peak);
        if q < one.len() - 1 {
            assert(one[q].0 < one[one.len() - 1].0);
        }
        if p < other.len() - 1 {
            assert(other[p].0 < other[other.len() - 1].0);
        }
        assert(top == peak);
        let less = one.drop_last();
        let fewer = other.drop_last();
        assert forall|c: char| lists(less, c) <==> lists(fewer, c) by {
            if lists(less, c) {
                let i = place_of(less, c);
                assert(one[i].0 == c);
                assert(one[i].0 < one[one.len() - 1].0);
                assert(lists(one, c));
                let j = place_of(other, c);
                assert(fewer[j].0 == c);
            }
            if lists(fewer, c) {
                let j = place_of(fewer, c);
                assert(other[j].0 == c);
                assert(other[j].0 < other[other.len() - 1].0);
                assert(lists(other, c));
                let i = place_of(one, c);
                assert(less[i].0 == c);
            }
        }
        assert(ascending(less)) by {
            assert forall|i: int, j: int| 0 <= i < j < less.len() implies less[i].0 < less[j].0 by {
                assert(one[i].0 < one[j].0);
            }
        }
        assert(ascending(fewer)) by {
            assert forall|i: int, j: int| 0 <= i < j < fewer.len() implies fewer[i].0
                < fewer[j].0 by {
                assert(other[i].0 < other[j].0);
            }
        }
        lemma_same_keys(less, fewer);
        assert(keys_of(one) =~= keys_of(less).push(top));
        assert(keys_of(other) =~= keys_of(fewer).push(peak));
    }
}

/// Finds where `c` stands, or would stand, in ascending entries: the first
/// position whose character is not below `c`, and whether that position
/// holds `c`.
pub fn locate<V>(entries: &Vec<(char, V)>, c: char) -> (found: (usize, bool))
    requires
        ascending(entries@),
    ensures
        found.0 <= entries@.len(),
        forall|j: int| 0 <= j < found.0 ==> entries@[j].0 < c,
        found.1 <==> lists(entries@, c),
        found.1 ==> found.0 < entries@.len() && entries@[found.0 as int].0 == c,
        !found.1 ==> forall|j: int| found.0 <= j < entries@.len() ==> c < entries@[j].0,
{
    let mut i: usize = 0;
    while i < entries.len() && entries[i].0 < c
        invariant
            i <= entries.len(),
            forall|j: int| 0 <= j < i ==> entries@[j].0 < c,
        decreases entries.len() - i,
    {
        i = i + 1;
    }
    let hit = i < entries.len() && entries[i].0 == c;
    proof {
        let l = entries@;
        assert forall|j: int| i <= j < l.len() implies c <= l[j].0 by {
            if i < j {
                assert(l[i as int].0 < l[j].0);
            }
        }
        if !hit && lists(l, c) {
            let p = place_of(l, c);
            if p < i {
                assert(l[p].0 < c);
            } else if p > i {
                assert(l[i as int].0 < l[p].0);
            }
        }
    }
    (i, hit)
}

} // verus!
