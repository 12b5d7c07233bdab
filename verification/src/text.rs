//! Positions in UTF-8 text.
//!
//! The views of `str` and `String` are sequences of characters, while the
//! standard library slices strings at byte offsets.  This module relates the
//! two: a scan that adds up the encoded width of every character it passes
//! knows the byte offset of the character it stands at, and can cut the
//! string there in constant time.

use vstd::prelude::*;
use vstd::string::*;
use vstd::utf8::*;

verus! {

/// `char::len_utf8` is the number of bytes of the character's UTF-8 encoding.
///
/// Not proved: this states the standard library's documentation of
/// `char::len_utf8` over vstd's definition of the encoding.
pub assume_specification[ char::len_utf8 ](c: char) -> (n: usize)
    ensures
        n == encode_scalar(c as u32).len(),
;

/// `String::push` appends the character to the string.
///
/// Not proved: this states the standard library's documentation of
/// `String::push`.
pub assume_specification[ String::push ](s: &mut String, c: char)
    ensures
        final(s)@ == old(s)@.push(c),
;

/// The byte of `{`.
pub const OPEN_BRACE: u8 = 0x7B;

/// The byte of `}`.
pub const CLOSE_BRACE: u8 = 0x7D;

/// The byte of the space.
pub const SPACE: u8 = 0x20;

/// The byte of `<`.
pub const LESS: u8 = 0x3C;

/// The byte of `>`.
pub const GREATER: u8 = 0x3E;

/// The byte of `|`.
pub const BAR: u8 = 0x7C;

/// The byte offset at which the character with index `k` starts in the
/// encoding of `s` (for `k == s.len()`: the length of the encoding).
pub open spec fn offset_of(s: Seq<char>, k: int) -> nat {
    encode_utf8(s.take(k)).len()
}

/// The index of the first `c` in `s` at index `from` or later.
pub open spec fn index_from(s: Seq<char>, c: char, from: int) -> Option<int>
    decreases s.len() - from,
{
    if from < 0 || from >= s.len() {
        None
    } else if s[from] == c {
        Some(from)
    } else {
        index_from(s, c, from + 1)
    }
}

/// The index of the first `c` in `s`.
pub open spec fn first_index(s: Seq<char>, c: char) -> Option<int> {
    index_from(s, c, 0)
}

/// `index_from` finds the least index of `c` that is not before `from`.
pub proof fn lemma_index_from(s: Seq<char>, c: char, from: int)
    requires
        0 <= from,
    ensures
        match index_from(s, c, from) {
            Some(i) => from <= i < s.len() && s[i] == c && forall|j: int|
                from <= j < i ==> s[j] != c,
            None => forall|j: int| from <= j < s.len() ==> s[j] != c,
        },
    decreases s.len() - from,
{
    if from < s.len() && s[from] != c {
        lemma_index_from(s, c, from + 1);
    }
}

/// Every character takes between one and four bytes.
pub proof fn lemma_scalar_width(c: char)
    ensures
        1 <= encode_scalar(c as u32).len() <= 4,
{
}

/// The encoding of a concatenation is the concatenation of the encodings.
pub proof fn lemma_encode_concat(a: Seq<char>, b: Seq<char>)
    ensures
        encode_utf8(a + b) =~= encode_utf8(a) + encode_utf8(b),
    decreases a.len(),
{
    if a.len() == 0 {
        assert(a + b =~= b);
    } else {
        assert((a + b).drop_first() =~= a.drop_first() + b);
        lemma_encode_concat(a.drop_first(), b);
    }
}

/// The encoding of a single character.
pub proof fn lemma_encode_single(c: char)
    ensures
        encode_utf8(seq![c]) =~= encode_scalar(c as u32),
{
    assert(seq![c].drop_first() =~= Seq::<char>::empty());
    reveal_with_fuel(encode_utf8, 2);
}

/// Passing one character moves the offset by that character's width.
pub proof fn lemma_offset_step(s: Seq<char>, k: int)
    requires
        0 <= k < s.len(),
    ensures
        offset_of(s, k + 1) == offset_of(s, k) + encode_scalar(s[k] as u32).len(),
        offset_of(s, k) < offset_of(s, k + 1) <= offset_of(s, s.len() as int),
{
    assert(s.take(k + 1) =~= s.take(k) + seq![s[k]]);
    lemma_encode_concat(s.take(k), seq![s[k]]);
    lemma_encode_single(s[k]);
    lemma_scalar_width(s[k]);
    lemma_offset_monotone(s, k + 1, s.len() as int);
}

/// Offsets grow with the index, at least as fast as the index does.
pub proof fn lemma_offset_monotone(s: Seq<char>, j: int, k: int)
    requires
        0 <= j <= k <= s.len(),
    ensures
        offset_of(s, j) + (k - j) <= offset_of(s, k),
    decreases k - j,
{
    if j < k {
        lemma_offset_monotone(s, j, k - 1);
        assert(s.take(k) =~= s.take(k - 1) + seq![s[k - 1]]);
        lemma_encode_concat(s.take(k - 1), seq![s[k - 1]]);
        lemma_encode_single(s[k - 1]);
        lemma_scalar_width(s[k - 1]);
    }
}

/// The offset of the end is the length of the whole encoding, and the
/// offset of the start is zero.
pub proof fn lemma_offset_ends(s: Seq<char>)
    ensures
        offset_of(s, 0) == 0,
        offset_of(s, s.len() as int) == encode_utf8(s).len(),
        s.len() <= encode_utf8(s).len(),
{
    assert(s.take(0) =~= Seq::<char>::empty());
    assert(s.take(s.len() as int) =~= s);
    lemma_offset_monotone(s, 0, s.len() as int);
}

/// The end of an encoded prefix is a character boundary of the whole.
pub proof fn lemma_prefix_boundary(a: Seq<char>, b: Seq<char>)
    ensures
        is_char_boundary(encode_utf8(a + b), encode_utf8(a).len() as int),
    decreases a.len(),
{
    broadcast use encode_utf8_valid_utf8;

    let bytes = encode_utf8(a + b);
    if a.len() > 0 {
        let rest = a.drop_first();
        assert((a + b).drop_first() =~= rest + b);
        encode_utf8_first_scalar(a + b);
        assert(pop_first_scalar(bytes) =~= encode_utf8(rest + b));
        lemma_prefix_boundary(rest, b);
        lemma_scalar_width(a[0]);
        assert(encode_utf8(a).len() == encode_scalar(a[0] as u32).len() + encode_utf8(rest).len());
        lemma_encode_concat(a, b);
    }
}

/// Two texts with the same encoding are the same text.
pub proof fn lemma_encode_injective(a: Seq<char>, b: Seq<char>)
    requires
        encode_utf8(a) == encode_utf8(b),
    ensures
        a == b,
{
    encode_utf8_decode_utf8(a);
    encode_utf8_decode_utf8(b);
}

/// A character below 128 is encoded as the one byte of its own value.
pub proof fn lemma_encode_ascii(c: char)
    requires
        c as u32 <= 0x7F,
    ensures
        encode_scalar(c as u32) =~= seq![c as u8],
{
    let v = c as u32;
    assert((v & 0x7F) as u8 == v as u8) by (bit_vector)
        requires
            v <= 0x7F,
    ;
}

/// Every byte of the encoding of a character from 128 on is 128 or more.
pub proof fn lemma_encode_wide(c: char)
    requires
        c as u32 > 0x7F,
    ensures
        forall|i: int|
            0 <= i < encode_scalar(c as u32).len() ==> #[trigger] encode_scalar(c as u32)[i]
                >= 0x80,
{
    let v = c as u32;
    assert(0xC0 | ((v >> 6) & 0x1F) as u8 >= 0x80) by (bit_vector);
    assert(0xE0 | ((v >> 12) & 0x0F) as u8 >= 0x80) by (bit_vector);
    assert(0xF0 | ((v >> 18) & 0x7) as u8 >= 0x80) by (bit_vector);
    assert(0x80 | (v & 0x3F) as u8 >= 0x80) by (bit_vector);
    assert(0x80 | ((v >> 6) & 0x3F) as u8 >= 0x80) by (bit_vector);
    assert(0x80 | ((v >> 12) & 0x3F) as u8 >= 0x80) by (bit_vector);
}

/// The first byte of an encoded text is that of a character below 128
/// exactly when the text starts with that character.
pub proof fn lemma_first_byte(s: Seq<char>, c: char)
    requires
        s.len() > 0,
        c as u32 <= 0x7F,
    ensures
        encode_utf8(s).len() > 0,
        encode_utf8(s)[0] == c as u8 <==> s[0] == c,
{
    let d = s[0];
    let first = encode_scalar(d as u32);
    lemma_scalar_width(d);
    assert(encode_utf8(s)[0] == first[0]);
    char_u32_cast(d, d as u32);
    char_u32_cast(c, c as u32);
    if d as u32 <= 0x7F {
        lemma_encode_ascii(d);
    } else {
        lemma_encode_wide(d);
        assert(first[0] >= 0x80);
    }
}

/// The last byte of an encoded text is that of a character below 128
/// exactly when the text ends with that character.
pub proof fn lemma_last_byte(s: Seq<char>, c: char)
    requires
        s.len() > 0,
        c as u32 <= 0x7F,
    ensures
        encode_utf8(s).len() > 0,
        encode_utf8(s).last() == c as u8 <==> s.last() == c,
{
    let d = s.last();
    assert(s =~= s.drop_last() + seq![d]);
    lemma_encode_concat(s.drop_last(), seq![d]);
    lemma_encode_single(d);
    lemma_scalar_width(d);
    let end = encode_scalar(d as u32);
    assert(encode_utf8(s).last() == end.last());
    char_u32_cast(d, d as u32);
    char_u32_cast(c, c as u32);
    if d as u32 <= 0x7F {
        lemma_encode_ascii(d);
    } else {
        lemma_encode_wide(d);
        assert(end[end.len() - 1] >= 0x80);
    }
}

/// Where only characters below 128 come before, the byte offset of a
/// character is its index.
pub proof fn lemma_ascii_offset(s: Seq<char>, k: int)
    requires
        0 <= k <= s.len(),
        forall|j: int| 0 <= j < k ==> s[j] as u32 <= 0x7F,
    ensures
        offset_of(s, k) == k,
    decreases k,
{
    if k == 0 {
        assert(s.take(0) =~= Seq::<char>::empty());
    } else {
        lemma_ascii_offset(s, k - 1);
        lemma_offset_step(s, k - 1);
        lemma_encode_ascii(s[k - 1]);
    }
}

/// The byte at the offset of a character is that of a character below 128
/// exactly when it is that character.
pub proof fn lemma_byte_at(s: Seq<char>, k: int, c: char)
    requires
        0 <= k < s.len(),
        c as u32 <= 0x7F,
    ensures
        offset_of(s, k) < encode_utf8(s).len(),
        encode_utf8(s)[offset_of(s, k) as int] == c as u8 <==> s[k] == c,
{
    assert(s =~= s.take(k) + s.skip(k));
    lemma_encode_concat(s.take(k), s.skip(k));
    lemma_first_byte(s.skip(k), c);
}

/// The byte before the offset of a character is that of a character below
/// 128 exactly when that character stands before it; and then it stands
/// one byte before it.
pub proof fn lemma_byte_before(s: Seq<char>, k: int, c: char)
    requires
        0 < k <= s.len(),
        c as u32 <= 0x7F,
    ensures
        0 < offset_of(s, k) <= encode_utf8(s).len(),
        encode_utf8(s)[offset_of(s, k) - 1] == c as u8 <==> s[k - 1] == c,
        s[k - 1] == c ==> offset_of(s, k - 1) == offset_of(s, k) - 1,
{
    assert(s =~= s.take(k) + s.skip(k));
    lemma_encode_concat(s.take(k), s.skip(k));
    lemma_last_byte(s.take(k), c);
    lemma_offset_step(s, k - 1);
    if s[k - 1] == c {
        lemma_encode_ascii(c);
    }
}

/// Number of bytes in `s`, which bounds every offset into it.
pub(crate) fn byte_len(s: &str) -> (n: usize)
    ensures
        n == offset_of(s@, s@.len() as int),
        s@.len() <= n,
{
    proof {
        lemma_offset_ends(s@);
    }
    s.as_bytes().len()
}

/// Cuts `s` in two before the character with index `k`, which starts at
/// byte offset `mid`.
pub(crate) fn cut<'a>(s: &'a str, mid: usize, Ghost(k): Ghost<int>) -> (r: (&'a str, &'a str))
    requires
        0 <= k <= s@.len(),
        mid == offset_of(s@, k),
    ensures
        r.0@ == s@.take(k),
        r.1@ == s@.skip(k),
{
    proof {
        assert(s@.take(k) + s@.skip(k) =~= s@);
        lemma_prefix_boundary(s@.take(k), s@.skip(k));
        lemma_encode_concat(s@.take(k), s@.skip(k));
    }
    let r = s.split_at(mid);
    proof {
        let bytes = encode_utf8(s@);
        assert(bytes.subrange(0, mid as int) =~= encode_utf8(s@.take(k)));
        assert(bytes.subrange(mid as int, bytes.len() as int) =~= encode_utf8(s@.skip(k)));
        lemma_encode_injective(r.0@, s@.take(k));
        lemma_encode_injective(r.1@, s@.skip(k));
    }
    r
}

/// The part of `s` from the character with index `j`, at byte offset
/// `from`, up to the character with index `k`, at byte offset `to`.
pub(crate) fn slice<'a>(
    s: &'a str,
    from: usize,
    to: usize,
    Ghost(j): Ghost<int>,
    Ghost(k): Ghost<int>,
) -> (r: &'a str)
    requires
        0 <= j <= k <= s@.len(),
        from == offset_of(s@, j),
        to == offset_of(s@, k),
    ensures
        r@ == s@.subrange(j, k),
{
    let head = cut(s, to, Ghost(k)).0;
    proof {
        assert(head@.take(j) =~= s@.take(j));
    }
    let r = cut(head, from, Ghost(j)).1;
    proof {
        assert(r@ =~= s@.subrange(j, k));
    }
    r
}

/// Whether `s` starts with `c`, a character below 128.
pub(crate) fn starts_with(s: &str, c: u8) -> (b: bool)
    requires
        c <= 0x7F,
    ensures
        b == (s@.len() > 0 && s@[0] == c as char),
{
    let bytes = s.as_bytes();
    proof {
        lemma_offset_ends(s@);
        if s@.len() > 0 {
            lemma_first_byte(s@, c as char);
        }
    }
    bytes.len() > 0 && bytes[0] == c
}

/// Whether `s` ends with `c`, a character below 128.
pub(crate) fn ends_with(s: &str, c: u8) -> (b: bool)
    requires
        c <= 0x7F,
    ensures
        b == (s@.len() > 0 && s@.last() == c as char),
{
    let bytes = s.as_bytes();
    proof {
        lemma_offset_ends(s@);
        if s@.len() > 0 {
            lemma_last_byte(s@, c as char);
        }
    }
    bytes.len() > 0 && bytes[bytes.len() - 1] == c
}

/// The byte offset of the first `c` in `s`.
pub(crate) fn find(s: &str, c: char) -> (at: Option<usize>)
    ensures
        match first_index(s@, c) {
            Some(i) => 0 <= i < s@.len() && s@[i] == c && at == Some(offset_of(s@, i) as usize)
                && offset_of(s@, i) <= usize::MAX,
            None => at is None,
        },
{
    let total = byte_len(s);
    let mut pos: usize = 0;
    proof {
        lemma_offset_ends(s@);
    }
    for d in it: s.chars()
        invariant
            it.seq() == s@,
            s@.len() <= total == offset_of(s@, s@.len() as int),
            pos == offset_of(s@, it.index() as int),
            first_index(s@, c) == index_from(s@, c, it.index() as int),
    {
        proof {
            lemma_offset_step(s@, it.index() as int);
        }
        if d == c {
            return Some(pos);
        }
        pos = pos + d.len_utf8();
    }
    None
}

/// Whether the character with index `k` of `s` is `c`, where `c` and all
/// characters before index `k` are below 128.
pub(crate) fn ascii_at(s: &str, k: usize, c: u8) -> (b: bool)
    requires
        c <= 0x7F,
        k <= s@.len(),
        forall|j: int| 0 <= j < k ==> s@[j] as u32 <= 0x7F,
    ensures
        b == (k < s@.len() && s@[k as int] == c as char),
{
    let bytes = s.as_bytes();
    proof {
        lemma_offset_ends(s@);
        lemma_ascii_offset(s@, k as int);
        if k < s@.len() {
            lemma_byte_at(s@, k as int, c as char);
        }
    }
    k < bytes.len() && bytes[k] == c
}

/// The number of spaces that `s` starts with.
pub(crate) fn leading_spaces(s: &str) -> (n: usize)
    ensures
        0 <= n <= s@.len(),
        forall|j: int| 0 <= j < n ==> s@[j] == ' ',
        n < s@.len() ==> s@[n as int] != ' ',
{
    let total = byte_len(s);
    let mut n: usize = 0;
    while ascii_at(s, n, SPACE)
        invariant
            n <= s@.len() <= total,
            forall|j: int| 0 <= j < n ==> s@[j] == ' ',
        decreases s@.len() - n,
    {
        n = n + 1;
    }
    n
}

} // verus!
