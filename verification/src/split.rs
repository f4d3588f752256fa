//! Splitting a text into sentences.
//!
//! A sentence ends with a full stop, an exclamation mark or a question
//! mark, which belongs to it, or at the end of a line. What lies between two
//! such ends is trimmed and put in lower case; nothing is kept of a piece
//! that is empty or only a closing mark after trimming.

use vstd::prelude::*;
use vstd::string::StrSliceExecFns;
use crate::text::{is_part_of, lowercase, lowercased, texts, trim, trimmed};

verus! {

/// The marks that close a sentence.
pub open spec fn is_terminator(c: char) -> bool {
    c == '.' || c == '!' || c == '?'
}

/// What follows the last end of a piece in `s`: the piece that is still
/// open.
pub open spec fn open_piece(s: Seq<char>) -> Seq<char>
    decreases s.len(),
{
    if s.len() == 0 {
        Seq::empty()
    } else if s.last() == '\n' || is_terminator(s.last()) {
        Seq::empty()
    } else {
        open_piece(s.drop_last()).push(s.last())
    }
}

/// The pieces that end within `s`. A piece that ends at a line feed does not
/// hold it; one that ends with a closing mark holds the mark.
pub open spec fn closed_pieces(s: Seq<char>) -> Seq<Seq<char>>
    decreases s.len(),
{
    if s.len() == 0 {
        Seq::empty()
    } else {
        let before = closed_pieces(s.drop_last());
        let unfinished = open_piece(s.drop_last());
        if s.last() == '\n' {
            before.push(unfinished)
        } else if is_terminator(s.last()) {
            before.push(unfinished.push(s.last()))
        } else {
            before
        }
    }
}

/// All pieces of a text in order: those that end within it, then what
/// follows the last end.
pub open spec fn pieces(s: Seq<char>) -> Seq<Seq<char>> {
    closed_pieces(s).push(open_piece(s))
}

/// A trimmed piece counts as a sentence unless it is empty or a closing
/// mark alone.
pub open spec fn is_sentence(t: Seq<char>) -> bool {
    t.len() > 0 && !(t.len() == 1 && is_terminator(t[0]))
}

/// The sentences that a list of pieces gives: each piece trimmed, dropped
/// if it is no sentence, and put in lower case.
pub open spec fn sentences_of(list: Seq<Seq<char>>) -> Seq<Seq<char>>
    decreases list.len(),
{
    if list.len() == 0 {
        Seq::empty()
    } else {
        let before = sentences_of(list.drop_last());
        let t = trimmed(list.last());
        if is_sentence(t) {
            before.push(lowercased(t))
        } else {
            before
        }
    }
}

fn closes_sentence(c: char) -> (b: bool)
    ensures
        b == is_terminator(c),
{
    c == '.' || c == '!' || c == '?'
}

/// Appends the sentence of one piece to the list, if the piece gives one.
fn keep_sentence(sentences: &mut Vec<String>, piece: &str)
    ensures
        texts(final(sentences)@) == if is_sentence(trimmed(piece@)) {
            texts(old(sentences)@).push(lowercased(trimmed(piece@)))
        } else {
            texts(old(sentences)@)
        },
        is_part_of(trimmed(piece@), piece@),
{
    let t = trim(piece);
    if t.is_empty() {
        return ;
    }
    if t.unicode_len() == 1 && closes_sentence(t.get_char(0)) {
        return ;
    }
    let ghost earlier = texts(sentences@);
    let lower = lowercase(t);
    sentences.push(lower);
    proof {
        assert(texts(sentences@) =~= earlier.push(lowercased(t@)));
    }
}

/// Of every piece in the list, what is left after trimming is a part of the
/// piece.
pub open spec fn trimmed_within(list: Seq<Seq<char>>) -> bool {
    forall|i: int| 0 <= i < list.len() ==> is_part_of(trimmed(#[trigger] list[i]), list[i])
}

/// Splits a text into its sentences, in lower case.
///
/// The text is divided at every line feed, which is dropped, and after every
/// full stop, exclamation mark and question mark, which stays with what
/// precedes it. Each piece is trimmed. Pieces that are then empty or consist
/// of the closing mark alone are left out; the others are returned in lower
/// case, in the order of the text.
pub fn split_into_sentences(input: &str) -> (sentences: Vec<String>)
    ensures
        texts(sentences@) == sentences_of(pieces(input@)),
        trimmed_within(pieces(input@)),
{
    broadcast use vstd::string::group_string_axioms;

    let mut sentences: Vec<String> = Vec::new();
    let mut current = String::new();
    proof {
        assert(texts(sentences@) =~= sentences_of(closed_pieces(input@.take(0))));
    }
    for c in it: input.chars()
        invariant
            it.seq() == input@,
            texts(sentences@) == sentences_of(closed_pieces(it.seq().take(it.index() as int))),
            trimmed_within(closed_pieces(it.seq().take(it.index() as int))),
            current@ == open_piece(it.seq().take(it.index() as int)),
    {
        let ghost read = it.seq().take(it.index() as int);
        let ghost longer = it.seq().take(it.index() + 1);
        proof {
            assert(longer.drop_last() =~= read);
            assert(longer.last() == c);
            let closed = closed_pieces(read);
            assert(closed.push(open_piece(read)).drop_last() =~= closed);
            assert(closed.push(open_piece(read).push(c)).drop_last() =~= closed);
        }
        if c == '\n' {
            keep_sentence(&mut sentences, current.as_str());
            current = String::new();
        } else if closes_sentence(c) {
            current.push(c);
            keep_sentence(&mut sentences, current.as_str());
            current = String::new();
        } else {
            current.push(c);
        }
        proof {
            let before = closed_pieces(read);
            let after = closed_pieces(longer);
            assert forall|i: int| 0 <= i < after.len() implies is_part_of(
                trimmed(#[trigger] after[i]),
                after[i],
            ) by {
                if i < before.len() {
                    assert(after[i] == before[i]);
                }
            }
        }
    }
    proof {
        assert(input@.take(input@.len() as int) =~= input@);
        assert(pieces(input@).drop_last() =~= closed_pieces(input@));
    }
    keep_sentence(&mut sentences, current.as_str());
    proof {
        let before = closed_pieces(input@);
        let all = pieces(input@);
        assert forall|i: int| 0 <= i < all.len() implies is_part_of(
            trimmed(#[trigger] all[i]),
            all[i],
        ) by {
            if i < before.len() {
                assert(all[i] == before[i]);
            }
        }
    }
    sentences
}

} // verus!
