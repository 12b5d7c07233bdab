//! Balancer markers.
//!
//! A left balancer is `<`, any number of `{`, then `>`.  A right balancer is
//! `<`, any number of `}`, then `>`.  Inside the braces of a protected text
//! they stand for the braces that the text itself lacks.

use vstd::prelude::*;
use vstd::utf8::encode_utf8;
use crate::text::{
    byte_len, lemma_byte_before, lemma_offset_ends, lemma_offset_step, offset_of, CLOSE_BRACE,
    GREATER, LESS,
};
use crate::util::level::run;

verus! {

/// The balancer of `n` braces `c`.
pub open spec fn marker(c: char, n: nat) -> Seq<char> {
    seq!['<'] + run(c, n) + seq!['>']
}

/// How many times `c` stands at the start of `s`, without a gap.
pub open spec fn leading(s: Seq<char>, c: char) -> int
    decreases s.len(),
{
    if s.len() > 0 && s[0] == c {
        1 + leading(s.drop_first(), c)
    } else {
        0
    }
}

/// How many times `c` stands at the end of `s`, without a gap.
pub open spec fn trailing(s: Seq<char>, c: char) -> int
    decreases s.len(),
{
    if s.len() > 0 && s.last() == c {
        1 + trailing(s.drop_last(), c)
    } else {
        0
    }
}

/// The length of the left balancer that `s` starts with, if it starts with
/// one.
pub open spec fn left_balancer_len(s: Seq<char>) -> Option<int> {
    if s.len() > 0 && s[0] == '<' {
        let n = leading(s.drop_first(), '{');
        if n + 1 < s.len() && s[n + 1] == '>' {
            Some(n + 2)
        } else {
            None
        }
    } else {
        None
    }
}

/// The length of the right balancer that `s` ends with, if it ends with one.
pub open spec fn right_balancer_len(s: Seq<char>) -> Option<int> {
    if s.len() > 0 && s.last() == '>' {
        let n = trailing(s.drop_last(), '}');
        if n + 1 < s.len() && s[s.len() - n - 2] == '<' {
            Some(n + 2)
        } else {
            None
        }
    } else {
        None
    }
}

/// `leading` is the length of the longest prefix that holds only `c`.
pub proof fn lemma_leading(s: Seq<char>, c: char, n: int)
    requires
        0 <= n <= s.len(),
        forall|j: int| 0 <= j < n ==> s[j] == c,
        n < s.len() ==> s[n] != c,
    ensures
        leading(s, c) == n,
    decreases n,
{
    if n > 0 {
        lemma_leading(s.drop_first(), c, n - 1);
    }
}

/// The characters that `leading` counts are `c`, and the next one is not.
pub proof fn lemma_leading_bound(s: Seq<char>, c: char)
    ensures
        0 <= leading(s, c) <= s.len(),
        forall|j: int| 0 <= j < leading(s, c) ==> s[j] == c,
        leading(s, c) < s.len() ==> s[leading(s, c) as int] != c,
    decreases s.len(),
{
    if s.len() > 0 && s[0] == c {
        let t = s.drop_first();
        lemma_leading_bound(t, c);
        assert forall|j: int| 0 <= j < leading(s, c) implies s[j] == c by {
            if j > 0 {
                assert(s[j] == t[j - 1]);
            }
        }
        if leading(s, c) < s.len() {
            assert(s[leading(s, c) as int] == t[leading(t, c) as int]);
        }
    }
}

/// `trailing` is the length of the longest suffix that holds only `c`.
pub proof fn lemma_trailing(s: Seq<char>, c: char, n: int)
    requires
        0 <= n <= s.len(),
        forall|j: int| s.len() - n <= j < s.len() ==> s[j] == c,
        n < s.len() ==> s[s.len() - n - 1] != c,
    ensures
        trailing(s, c) == n,
    decreases n,
{
    if n > 0 {
        lemma_trailing(s.drop_last(), c, n - 1);
    }
}

/// The characters that `trailing` counts are `c`, and the one before them
/// is not.
pub proof fn lemma_trailing_bound(s: Seq<char>, c: char)
    ensures
        0 <= trailing(s, c) <= s.len(),
        forall|j: int| s.len() - trailing(s, c) <= j < s.len() ==> s[j] == c,
        trailing(s, c) < s.len() ==> s[s.len() - trailing(s, c) - 1] != c,
    decreases s.len(),
{
    if s.len() > 0 && s.last() == c {
        let t = s.drop_last();
        lemma_trailing_bound(t, c);
        assert forall|j: int| s.len() - trailing(s, c) <= j < s.len() implies s[j] == c by {
            if j < s.len() - 1 {
                assert(s[j] == t[j]);
            }
        }
        if trailing(s, c) < s.len() {
            assert(s[s.len() - trailing(s, c) - 1] == t[t.len() - trailing(t, c) - 1]);
        }
    }
}

/// A text starts with a left balancer of length `n + 2` exactly when it
/// starts with the marker of `n` opening braces.
pub proof fn lemma_left_balancer_marker(s: Seq<char>, n: int)
    requires
        0 <= n,
    ensures
        left_balancer_len(s) == Some(n + 2) <==> (s.len() >= n + 2 && s.take(n + 2) == marker(
            '{',
            n as nat,
        )),
{
    let m = marker('{', n as nat);
    if s.len() >= n + 2 && s.take(n + 2) == m {
        assert(s[0] == m[0]);
        assert(s[n + 1] == m[n + 1]);
        assert forall|j: int| 0 <= j < n implies s.drop_first()[j] == '{' by {
            assert(s[j + 1] == m[j + 1]);
        }
        lemma_leading(s.drop_first(), '{', n);
    }
    if left_balancer_len(s) == Some(n + 2) {
        lemma_leading_bound(s.drop_first(), '{');
        assert forall|j: int| 0 <= j < n + 2 implies s.take(n + 2)[j] == m[j] by {
            if 0 < j < n + 1 {
                assert(s[j] == s.drop_first()[j - 1]);
            }
        }
        assert(s.take(n + 2) =~= m);
    }
}

/// A text ends with a right balancer of length `n + 2` exactly when it ends
/// with the marker of `n` closing braces.
pub proof fn lemma_right_balancer_marker(s: Seq<char>, n: int)
    requires
        0 <= n,
    ensures
        right_balancer_len(s) == Some(n + 2) <==> (s.len() >= n + 2 && s.skip(s.len() - n - 2)
            == marker('}', n as nat)),
{
    let m = marker('}', n as nat);
    let k = s.len() - n - 2;
    if s.len() >= n + 2 && s.skip(k) == m {
        assert(s[k] == m[0]);
        assert(s.last() == m[n + 1]);
        let t = s.drop_last();
        assert forall|j: int| t.len() - n <= j < t.len() implies t[j] == '}' by {
            assert(s[j] == m[j - k]);
        }
        assert(t[t.len() - n - 1] == '<');
        lemma_trailing(t, '}', n);
    }
    if right_balancer_len(s) == Some(n + 2) {
        lemma_trailing_bound(s.drop_last(), '}');
        assert forall|j: int| 0 <= j < n + 2 implies s.skip(k)[j] == m[j] by {
            if 0 < j < n + 1 {
                assert(s[k + j] == s.drop_last()[k + j]);
            }
        }
        assert(s.skip(k) =~= m);
    }
}

/// The byte offset at which the left balancer at the start of `s` ends.
pub fn left_balancer_end(s: &str) -> (end: Option<usize>)
    ensures
        match left_balancer_len(s@) {
            Some(k) => 2 <= k <= s@.len() && end == Some(offset_of(s@, k) as usize) && offset_of(
                s@,
                k,
            ) <= usize::MAX,
            None => end is None,
        },
{
    let total = byte_len(s);
    let mut pos: usize = 0;
    let mut inside = false;
    proof {
        lemma_offset_ends(s@);
    }
    for c in it: s.chars()
        invariant
            it.seq() == s@,
            s@.len() <= total == offset_of(s@, s@.len() as int),
            pos == offset_of(s@, it.index() as int),
            inside == (it.index() > 0),
            inside ==> s@[0] == '<',
            forall|j: int| 1 <= j < it.index() ==> s@[j] == '{',
    {
        let ghost i = it.index() as int;
        proof {
            lemma_offset_step(s@, i);
        }
        pos = pos + c.len_utf8();
        if !inside {
            if c != '<' {
                return None;
            }
            inside = true;
        } else if c == '>' {
            proof {
                assert forall|j: int| 0 <= j < i - 1 implies s@.drop_first()[j] == '{' by {
                    assert(s@.drop_first()[j] == s@[j + 1]);
                }
                lemma_leading(s@.drop_first(), '{', i - 1);
            }
            return Some(pos);
        } else if c != '{' {
            proof {
                assert forall|j: int| 0 <= j < i - 1 implies s@.drop_first()[j] == '{' by {
                    assert(s@.drop_first()[j] == s@[j + 1]);
                }
                lemma_leading(s@.drop_first(), '{', i - 1);
            }
            return None;
        }
    }
    proof {
        if s@.len() > 0 {
            assert forall|j: int| 0 <= j < s@.len() - 1 implies s@.drop_first()[j] == '{' by {
                assert(s@.drop_first()[j] == s@[j + 1]);
            }
            lemma_leading(s@.drop_first(), '{', s@.len() - 1);
        }
    }
    None
}

/// The byte offset at which the right balancer at the end of `s` starts.
/// Reads `s` from its end, and no further than the balancer reaches.
pub fn right_balancer_start(s: &str) -> (start: Option<usize>)
    ensures
        match right_balancer_len(s@) {
            Some(k) => 2 <= k <= s@.len() && start == Some(offset_of(s@, s@.len() - k) as usize)
                && offset_of(s@, s@.len() - k) <= usize::MAX,
            None => start is None,
        },
{
    let bytes = s.as_bytes();
    let total = bytes.len();
    let ghost len = s@.len() as int;
    proof {
        lemma_offset_ends(s@);
        if len > 0 {
            lemma_byte_before(s@, len, '>');
        }
    }
    if total == 0 || bytes[total - 1] != GREATER {
        return None;
    }
    // the offset and the index of the first character that is known to
    // belong to the balancer, if there is one
    let mut pos: usize = total - 1;
    let ghost mut at: int = len - 1;
    loop
        invariant
            bytes@ == encode_utf8(s@),
            len == s@.len(),
            0 <= at < len,
            pos == offset_of(s@, at) < total,
            s@.last() == '>',
            forall|j: int| at <= j < len - 1 ==> s@[j] == '}',
        decreases pos,
    {
        let ghost rest = s@.drop_last();
        proof {
            lemma_offset_ends(s@);
            if at > 0 {
                lemma_byte_before(s@, at, '}');
                lemma_byte_before(s@, at, '<');
                assert(rest[at - 1] == s@[at - 1]);
            } else {
                assert(s@.take(0) =~= Seq::<char>::empty());
            }
            assert forall|j: int| rest.len() - (len - 1 - at) <= j < rest.len() implies rest[j]
                == '}' by {
                assert(rest[j] == s@[j]);
            }
        }
        if pos == 0 {
            proof {
                lemma_trailing(rest, '}', len - 1 - at);
            }
            return None;
        }
        let byte = bytes[pos - 1];
        if byte == CLOSE_BRACE {
            pos = pos - 1;
            proof {
                at = at - 1;
            }
        } else {
            proof {
                lemma_trailing(rest, '}', len - 1 - at);
            }
            if byte == LESS {
                return Some(pos - 1);
            } else {
                return None;
            }
        }
    }
}

/// Whether `s` starts with a left balancer.
pub fn starts_with_balancer(s: &str) -> (b: bool)
    ensures
        b == left_balancer_len(s@).is_some(),
{
    left_balancer_end(s).is_some()
}

/// Whether `s` ends with a right balancer.
pub fn ends_with_balancer(s: &str) -> (b: bool)
    ensures
        b == right_balancer_len(s@).is_some(),
{
    right_balancer_start(s).is_some()
}

} // verus!
