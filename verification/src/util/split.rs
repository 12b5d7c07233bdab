//! Splitting at separators that no brace encloses.

use vstd::prelude::*;
use crate::text::{
    byte_len, cut, lemma_encode_single, lemma_offset_ends, lemma_offset_step, offset_of,
};
use crate::util::level::{lemma_level_concat, lemma_level_step, level};

verus! {

/// The character at index `i` of `s` is `sep`, and the text before it has
/// level zero.
pub open spec fn is_boundary(s: Seq<char>, sep: char, i: int) -> bool {
    0 <= i < s.len() && s[i] == sep && level(s.take(i)) == 0
}

/// The first boundary of `s` at index `from` or later.
pub open spec fn boundary_from(s: Seq<char>, sep: char, from: int) -> Option<int>
    decreases s.len() - from,
{
    if from < 0 || from >= s.len() {
        None
    } else if is_boundary(s, sep, from) {
        Some(from)
    } else {
        boundary_from(s, sep, from + 1)
    }
}

/// The first boundary of `s`, if it has one.
pub open spec fn first_boundary(s: Seq<char>, sep: char) -> Option<int> {
    boundary_from(s, sep, 0)
}

/// What a splitter that has `s` left to read will still hand out: the text
/// up to the first boundary, then the pieces of what follows the separator.
/// Without a boundary `s` is the one piece, also when it is empty.
pub open spec fn pieces(s: Seq<char>, sep: char) -> Seq<Seq<char>>
    decreases s.len(),
{
    match first_boundary(s, sep) {
        Some(i) => if 0 <= i < s.len() {
            seq![s.take(i)] + pieces(s.skip(i + 1), sep)
        } else {
            seq![s]
        },
        None => seq![s],
    }
}

/// The items of `s` split at `sep`: none for the empty text, else its pieces.
pub open spec fn parts(s: Seq<char>, sep: char) -> Seq<Seq<char>> {
    if s.len() == 0 {
        Seq::empty()
    } else {
        pieces(s, sep)
    }
}

/// `boundary_from` finds the least boundary that is not before `from`.
pub proof fn lemma_boundary_from(s: Seq<char>, sep: char, from: int)
    requires
        0 <= from,
    ensures
        match boundary_from(s, sep, from) {
            Some(i) => from <= i && is_boundary(s, sep, i) && forall|j: int|
                from <= j < i ==> !is_boundary(s, sep, j),
            None => forall|j: int| from <= j ==> !is_boundary(s, sep, j),
        },
    decreases s.len() - from,
{
    if from < s.len() && !is_boundary(s, sep, from) {
        lemma_boundary_from(s, sep, from + 1);
    }
}

/// A text without a boundary is a single piece.
pub proof fn lemma_single_piece(s: Seq<char>, sep: char)
    requires
        forall|i: int| !is_boundary(s, sep, i),
    ensures
        pieces(s, sep) == seq![s],
{
    lemma_boundary_from(s, sep, 0);
}

/// The items with the separator between them.
pub open spec fn joined(items: Seq<Seq<char>>, sep: char) -> Seq<char>
    decreases items.len(),
{
    if items.len() == 0 {
        Seq::empty()
    } else if items.len() == 1 {
        items[0]
    } else {
        items[0] + seq![sep] + joined(items.drop_first(), sep)
    }
}

/// The pieces of a text, with the separator between them, are the text.
pub proof fn lemma_pieces_joined(s: Seq<char>, sep: char)
    ensures
        pieces(s, sep).len() >= 1,
        joined(pieces(s, sep), sep) == s,
    decreases s.len(),
{
    lemma_boundary_from(s, sep, 0);
    match first_boundary(s, sep) {
        Some(i) => {
            let tail = pieces(s.skip(i + 1), sep);
            lemma_pieces_joined(s.skip(i + 1), sep);
            assert(pieces(s, sep).drop_first() =~= tail);
            assert(s =~= s.take(i) + seq![sep] + s.skip(i + 1));
        },
        None => {},
    }
}

/// No piece of a text has a boundary of its own.
pub proof fn lemma_pieces_whole(s: Seq<char>, sep: char, k: int)
    requires
        0 <= k < pieces(s, sep).len(),
    ensures
        first_boundary(pieces(s, sep)[k], sep) is None,
    decreases s.len(),
{
    lemma_boundary_from(s, sep, 0);
    match first_boundary(s, sep) {
        Some(i) => {
            let head = s.take(i);
            if k == 0 {
                lemma_boundary_from(head, sep, 0);
                if first_boundary(head, sep) is Some {
                    let j = first_boundary(head, sep).unwrap();
                    assert(head.take(j) =~= s.take(j));
                    assert(is_boundary(s, sep, j));
                }
            } else {
                lemma_pieces_whole(s.skip(i + 1), sep, k - 1);
            }
        },
        None => {},
    }
}

/// Items that are balanced and have no boundary, joined by a separator
/// that is no brace, are the pieces of the text that they make.
pub proof fn lemma_joined_pieces(items: Seq<Seq<char>>, sep: char)
    requires
        items.len() >= 1,
        sep != '{',
        sep != '}',
        forall|k: int| 0 <= k < items.len() ==> level(#[trigger] items[k]) == 0,
        forall|k: int| 0 <= k < items.len() ==> first_boundary(#[trigger] items[k], sep) is None,
    ensures
        pieces(joined(items, sep), sep) == items,
    decreases items.len(),
{
    let head = items[0];
    let s = joined(items, sep);
    lemma_boundary_from(head, sep, 0);
    lemma_boundary_from(s, sep, 0);
    if items.len() == 1 {
        assert(pieces(s, sep) =~= items);
    } else {
        let rest = items.drop_first();
        let tail = joined(rest, sep);
        assert forall|k: int| 0 <= k < rest.len() implies level(#[trigger] rest[k]) == 0 by {
            assert(rest[k] == items[k + 1]);
        }
        assert forall|k: int| 0 <= k < rest.len() implies first_boundary(#[trigger] rest[k], sep)
            is None by {
            assert(rest[k] == items[k + 1]);
        }
        lemma_joined_pieces(rest, sep);
        let n = head.len() as int;
        assert(s.take(n) =~= head);
        assert(s.skip(n + 1) =~= tail);
        assert(is_boundary(s, sep, n));
        assert forall|j: int| 0 <= j < n implies !is_boundary(s, sep, j) by {
            assert(s.take(j) =~= head.take(j));
            assert(!is_boundary(head, sep, j));
        }
        assert(first_boundary(s, sep) == Some(n));
        assert(pieces(s, sep) =~= items);
    }
}

/// Unless the separator is itself a brace, the boundaries of `s` behind its
/// first one are those of the text that follows the first one: the level
/// may be counted from the start of `s` as well as from the start of a piece.
pub proof fn lemma_boundaries_shift(s: Seq<char>, sep: char, i: int, j: int)
    requires
        is_boundary(s, sep, i),
        sep != '{',
        sep != '}',
        i < j,
    ensures
        is_boundary(s, sep, j) <==> is_boundary(s.skip(i + 1), sep, j - (i + 1)),
{
    if j < s.len() {
        let head = s.take(i + 1);
        let tail = s.skip(i + 1);
        lemma_level_step(s, i);
        assert(s.take(j) =~= head + tail.take(j - (i + 1)));
        lemma_level_concat(head, tail.take(j - (i + 1)));
    }
}

/// The byte offset of the first boundary of `s`.
fn find_boundary(s: &str, sep: char) -> (found: Option<usize>)
    ensures
        match first_boundary(s@, sep) {
            Some(i) => is_boundary(s@, sep, i) && found == Some(offset_of(s@, i) as usize)
                && offset_of(s@, i) <= usize::MAX,
            None => found is None,
        },
{
    let total = byte_len(s);
    let mut depth: i128 = 0;
    let mut pos: usize = 0;
    proof {
        lemma_offset_ends(s@);
    }
    for c in it: s.chars()
        invariant
            it.seq() == s@,
            s@.len() <= total == offset_of(s@, s@.len() as int),
            pos == offset_of(s@, it.index() as int),
            depth == level(s@.take(it.index() as int)),
            -it.index() <= depth <= it.index(),
            first_boundary(s@, sep) == boundary_from(s@, sep, it.index() as int),
    {
        proof {
            lemma_offset_step(s@, it.index() as int);
            lemma_level_step(s@, it.index() as int);
        }
        if c == sep && depth == 0 {
            return Some(pos);
        } else if c == '{' {
            depth = depth + 1;
        } else if c == '}' {
            depth = depth - 1;
        }
        pos = pos + c.len_utf8();
    }
    None
}

/// The text before the first boundary of `s` and the text behind it.
pub(crate) fn cut_at_boundary<'a>(s: &'a str, sep: char) -> (r: Option<(&'a str, &'a str)>)
    ensures
        match first_boundary(s@, sep) {
            Some(i) => {
                &&& 0 <= i < s@.len()
                &&& r matches Some(pair) && pair.0@ == s@.take(i) && pair.1@ == s@.skip(i + 1)
            },
            None => r is None,
        },
{
    match find_boundary(s, sep) {
        Some(pos) => {
            let ghost i = first_boundary(s@, sep).unwrap();
            let (head, tail) = cut(s, pos, Ghost(i));
            proof {
                assert(tail@.take(1) =~= seq![sep]);
                lemma_encode_single(sep);
            }
            let after = cut(tail, sep.len_utf8(), Ghost(1)).1;
            proof {
                assert(after@ =~= s@.skip(i + 1));
            }
            Some((head, after))
        },
        None => None,
    }
}

/// The error type for [`safesplit_once`].
#[derive(Debug, PartialEq, Eq, Structural)]
pub enum SafesplitOnceError {
    SeparatorNotFound,
}

/// The items of a string between separators that no brace encloses.
/// Created with the function [`safesplit`].
pub struct SafesplitIter<'a> {
    // what has not been handed out yet
    rest: &'a str,
    // character to split at
    sep: char,
    // whether the last item has been handed out
    exhausted: bool,
}

impl<'a> SafesplitIter<'a> {
    /// The items that are still to come, in order.
    pub closed spec fn remaining(&self) -> Seq<Seq<char>> {
        if self.exhausted {
            Seq::empty()
        } else {
            pieces(self.rest@, self.sep)
        }
    }

    /// The next item, or `None` after the last one.
    pub fn next(&mut self) -> (item: Option<&'a str>)
        ensures
            match item {
                Some(piece) => {
                    &&& old(self).remaining().len() > 0
                    &&& piece@ == old(self).remaining()[0]
                    &&& final(self).remaining() == old(self).remaining().drop_first()
                },
                None => {
                    &&& old(self).remaining().len() == 0
                    &&& final(self).remaining().len() == 0
                },
            },
    {
        if self.exhausted {
            return None;
        }
        let rest = self.rest;
        match cut_at_boundary(rest, self.sep) {
            Some((piece, after)) => {
                proof {
                    let i = first_boundary(rest@, self.sep).unwrap();
                    assert(pieces(rest@, self.sep).drop_first() =~= pieces(
                        rest@.skip(i + 1),
                        self.sep,
                    ));
                }
                self.rest = after;
                Some(piece)
            },
            None => {
                proof {
                    assert(seq![rest@].drop_first() =~= Seq::<Seq<char>>::empty());
                }
                self.exhausted = true;
                Some(rest)
            },
        }
    }

    /// All the items that are still to come.
    pub fn collect(self) -> (items: Vec<&'a str>)
        ensures
            items@.len() == self.remaining().len(),
            forall|i: int| 0 <= i < items@.len() ==> (#[trigger] items@[i])@ == self.remaining()[i],
    {
        let mut iter = self;
        let mut items: Vec<&'a str> = Vec::new();
        loop
            invariant
                items@.len() + iter.remaining().len() == self.remaining().len(),
                forall|i: int|
                    0 <= i < items@.len() ==> (#[trigger] items@[i])@ == self.remaining()[i],
                forall|i: int|
                    0 <= i < iter.remaining().len() ==> #[trigger] iter.remaining()[i]
                        == self.remaining()[items@.len() + i],
            ensures
                iter.remaining().len() == 0,
            decreases iter.remaining().len(),
        {
            let ghost before = iter.remaining();
            match iter.next() {
                Some(piece) => {
                    items.push(piece);
                    proof {
                        assert forall|i: int| 0 <= i < iter.remaining().len() implies
                            #[trigger] iter.remaining()[i] == self.remaining()[items@.len() + i] by {
                            assert(iter.remaining()[i] == before[i + 1]);
                        }
                    }
                },
                None => {
                    break ;
                },
            }
        }
        items
    }
}

/// The items of `s` between the occurrences of `sep` that no brace encloses.
///
/// A separator splits where the level of the text before it, counted from
/// the start of its item, is zero.  The empty string has no items.
pub fn safesplit(s: &str, sep: char) -> (iter: SafesplitIter<'_>)
    ensures
        iter.remaining() == parts(s@, sep),
{
    SafesplitIter { rest: s, sep, exhausted: s.is_empty() }
}

/// Splits `s` once, at the first occurrence of `sep` that no brace encloses.
///
/// # Errors
///
/// `SeparatorNotFound` if there is no such occurrence.
pub fn safesplit_once(s: &str, sep: char) -> (r: Result<(&str, &str), SafesplitOnceError>)
    ensures
        match first_boundary(s@, sep) {
            Some(i) => r matches Ok(pair) && pair.0@ == s@.take(i) && pair.1@ == s@.skip(i + 1),
            None => r == Err::<(&str, &str), _>(SafesplitOnceError::SeparatorNotFound),
        },
{
    match cut_at_boundary(s, sep) {
        Some(pair) => Ok(pair),
        None => Err(SafesplitOnceError::SeparatorNotFound),
    }
}

} // verus!
