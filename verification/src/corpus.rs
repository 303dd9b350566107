//! Reading a corpus: from the text of a file to the list of words to train on.

use crate::analysis::texts;
use crate::text::{lowercase_of, push_char, to_lowercase};
use vstd::prelude::*;

verus! {

/// The characters that end a line.
pub open spec fn is_break(c: char) -> bool {
    c == '\n' || c == '\r'
}

/// The pieces into which the line ends cut a text: one more than there are
/// line ends, empty pieces among them where two line ends meet or one stands
/// at either end of the text.
pub open spec fn pieces(text: Seq<char>) -> Seq<Seq<char>>
    decreases text.len(),
{
    if text.len() == 0 {
        seq![Seq::empty()]
    } else {
        let before = pieces(text.drop_last());
        if is_break(text.last()) {
            before.push(Seq::empty())
        } else {
            before.drop_last().push(before.last().push(text.last()))
        }
    }
}

/// The test that a piece passes if it is not empty.
pub open spec fn not_empty() -> spec_fn(Seq<char>) -> bool {
    |piece: Seq<char>| piece.len() > 0
}

/// The lower-case forms of the pieces that are not empty, in their order.
pub open spec fn lowered(pieces: Seq<Seq<char>>) -> Seq<Seq<char>> {
    pieces.filter(not_empty()).map_values(|piece: Seq<char>| lowercase_of(piece))
}

/// The words of a corpus: its lines that are not empty, in lower case.
pub open spec fn words_of(text: Seq<char>) -> Seq<Seq<char>> {
    lowered(pieces(text))
}

/// A text is always cut into at least one piece.
pub proof fn lemma_pieces_exist(text: Seq<char>)
    ensures
        pieces(text).len() >= 1,
    decreases text.len(),
{
    if text.len() > 0 {
        lemma_pieces_exist(text.drop_last());
    }
}

/// One more piece adds its lower-case form, unless it is empty.
pub proof fn lemma_lowered_push(pieces: Seq<Seq<char>>, piece: Seq<char>)
    ensures
        lowered(pieces.push(piece)) == if piece.len() > 0 {
            lowered(pieces).push(lowercase_of(piece))
        } else {
            lowered(pieces)
        },
{
    pieces.lemma_filter_push(piece, not_empty());
    if piece.len() > 0 {
        assert(lowered(pieces.push(piece)) =~= lowered(pieces).push(lowercase_of(piece)));
    }
}

/// The reader of a corpus.
pub struct TxtReader;

impl TxtReader {
    /// The words in the text of a corpus: the text is cut at every line
    /// feed and carriage return, empty lines are dropped, and each line that
    /// is left is turned to lower case.
    pub fn parse(text: &str) -> (words: Vec<String>)
        ensures
            texts(words@) == words_of(text@),
    {
        let mut words: Vec<String> = Vec::new();
        let mut line = String::new();
        let mut blank = true;
        proof {
            reveal(Seq::filter);
            assert(text@.take(0) =~= Seq::<char>::empty());
            assert(pieces(text@.take(0)).drop_last() =~= Seq::<Seq<char>>::empty());
            assert(texts(words@) =~= lowered(Seq::<Seq<char>>::empty()));
        }
        for c in it: text.chars()
            invariant
                it.seq() == text@,
                blank == (line@.len() == 0),
                line@ == pieces(text@.take(it.index() as int)).last(),
                texts(words@) == lowered(pieces(text@.take(it.index() as int)).drop_last()),
        {
            let ghost n = it.index() as int;
            let ghost before = pieces(text@.take(n));
            proof {
                lemma_pieces_exist(text@.take(n));
                assert(text@.take(n + 1).drop_last() =~= text@.take(n));
                assert(before =~= before.drop_last().push(before.last()));
            }
            if c == '\n' || c == '\r' {
                proof {
                    lemma_lowered_push(before.drop_last(), before.last());
                    assert(pieces(text@.take(n + 1)).drop_last() =~= before);
                }
                if !blank {
                    let ghost listed = texts(words@);
                    let word = to_lowercase(line.as_str());
                    words.push(word);
                    proof {
                        assert(texts(words@) =~= listed.push(word@));
                    }
                }
                line = String::new();
                blank = true;
            } else {
                proof {
                    assert(pieces(text@.take(n + 1)).drop_last() =~= before.drop_last());
                }
                push_char(&mut line, c);
                blank = false;
            }
        }
        proof {
            let all = pieces(text@.take(text@.len() as int));
            lemma_pieces_exist(text@.take(text@.len() as int));
            assert(text@.take(text@.len() as int) =~= text@);
            assert(all =~= all.drop_last().push(all.last()));
            lemma_lowered_push(all.drop_last(), all.last());
        }
        if !blank {
            let ghost listed = texts(words@);
            let word = to_lowercase(line.as_str());
            words.push(word);
            proof {
                assert(texts(words@) =~= listed.push(word@));
            }
        }
        words
    }
}

} // verus!
