//! Protection: wrapping a text in braces so that it is one balanced item,
//! and taking the wrapping off again.

use vstd::prelude::*;
use vstd::string::*;
use crate::text::{
    byte_len, cut, ends_with, find, first_index, lemma_encode_ascii, lemma_offset_ends,
    lemma_offset_step, slice, starts_with, CLOSE_BRACE, OPEN_BRACE,
};
use crate::util::balancer::{
    ends_with_balancer, left_balancer_end, left_balancer_len, marker, right_balancer_len,
    right_balancer_start, starts_with_balancer,
};
use crate::util::guarantees::{lemma_protected_balanced, lemma_unprotect_protect};
use crate::util::level::{
    balanced, delta, is_balanced, lemma_balanced_lowest, lemma_level_step, level, lowest, run,
};

verus! {

/// Character test for [`protect`].
pub trait ProtectTest {
    /// `true` when [`protect`] should protect the string unconditionally.
    const UNCONDITIONAL: bool;

    /// The value of `UNCONDITIONAL`, for contracts.
    spec fn unconditional() -> bool;

    /// The characters that need protection.
    spec fn protects(&self, ch: char) -> bool;

    /// `unconditional` is the value of `UNCONDITIONAL`.
    proof fn lemma_unconditional()
        ensures
            Self::unconditional() == Self::UNCONDITIONAL,
    ;

    /// Tests if character needs protection.
    fn test(&self, ch: char) -> (b: bool)
        ensures
            b == self.protects(ch),
    ;
}

struct ProtectTestTrue;

impl ProtectTest for ProtectTestTrue {
    const UNCONDITIONAL: bool = true;

    open spec fn unconditional() -> bool {
        true
    }

    proof fn lemma_unconditional() {
    }

    open spec fn protects(&self, ch: char) -> bool {
        true
    }

    fn test(&self, _ch: char) -> (b: bool) {
        true
    }
}

struct ProtectTestFalse;

impl ProtectTest for ProtectTestFalse {
    const UNCONDITIONAL: bool = false;

    open spec fn unconditional() -> bool {
        false
    }

    proof fn lemma_unconditional() {
    }

    open spec fn protects(&self, ch: char) -> bool {
        false
    }

    fn test(&self, _ch: char) -> (b: bool) {
        false
    }
}

/// Tests `true` for a single character.
impl ProtectTest for char {
    const UNCONDITIONAL: bool = false;

    open spec fn unconditional() -> bool {
        false
    }

    proof fn lemma_unconditional() {
    }

    open spec fn protects(&self, ch: char) -> bool {
        ch == *self
    }

    fn test(&self, ch: char) -> (b: bool) {
        ch == *self
    }
}

/// Tests `true` for two characters.
impl ProtectTest for [char; 2] {
    const UNCONDITIONAL: bool = false;

    open spec fn unconditional() -> bool {
        false
    }

    proof fn lemma_unconditional() {
    }

    open spec fn protects(&self, ch: char) -> bool {
        ch == self[0] || ch == self[1]
    }

    fn test(&self, ch: char) -> (b: bool) {
        ch == self[0] || ch == self[1]
    }
}

/// `s` starts with `{` and ends with `}`.
pub open spec fn enclosed(s: Seq<char>) -> bool {
    s.len() > 0 && s[0] == '{' && s.last() == '}'
}

/// The character at index `i` of `s` is no brace, stands at level zero and
/// tests true.
pub open spec fn exposed_at<T: ProtectTest>(s: Seq<char>, test: T, i: int) -> bool {
    0 <= i < s.len() && delta(s[i]) == 0 && level(s.take(i)) == 0 && test.protects(s[i])
}

/// Whether [`protect`] wraps `s`: always when the test is unconditional;
/// else when `s` would lose its own outer braces to [`unprotect`], when it
/// is not balanced, or when a character outside all braces tests true.
pub open spec fn needs_wrapping<T: ProtectTest>(s: Seq<char>, test: T) -> bool {
    ||| T::unconditional()
    ||| enclosed(s)
    ||| !balanced(s)
    ||| exists|i: int| exposed_at(s, test, i)
}

/// The number of opening braces that `s` lacks: how far below zero its
/// level goes.
pub open spec fn left_need(s: Seq<char>) -> nat {
    (-lowest(s)) as nat
}

/// The number of closing braces that `s` lacks once the missing opening
/// braces stand before it.
pub open spec fn right_need(s: Seq<char>) -> nat {
    (level(s) - lowest(s)) as nat
}

/// What stands between the opening brace and `s` in the wrapped text: the
/// balancer of the missing opening braces, if any is missing or if `s`
/// itself starts with what reads as a left balancer.
pub open spec fn left_pad(s: Seq<char>) -> Seq<char> {
    if left_need(s) > 0 || left_balancer_len(s) is Some {
        marker('{', left_need(s))
    } else {
        Seq::empty()
    }
}

/// What stands between `s` and the closing brace in the wrapped text.
pub open spec fn right_pad(s: Seq<char>) -> Seq<char> {
    if right_need(s) > 0 || right_balancer_len(s) is Some {
        marker('}', right_need(s))
    } else {
        Seq::empty()
    }
}

/// `s` in braces, with the balancers it needs.
pub open spec fn wrapped(s: Seq<char>) -> Seq<char> {
    seq!['{'] + left_pad(s) + s + right_pad(s) + seq!['}']
}

/// What [`protect`] returns for `s`.
pub open spec fn protected<T: ProtectTest>(s: Seq<char>, test: T) -> Seq<char> {
    if needs_wrapping(s, test) {
        wrapped(s)
    } else {
        s
    }
}

/// What [`unprotect`] returns for `s`.
pub open spec fn unprotected(s: Seq<char>) -> Seq<char> {
    if enclosed(s) {
        let inner = s.subrange(1, s.len() - 1);
        let body = match right_balancer_len(inner) {
            Some(k) => inner.take(inner.len() - k),
            None => inner,
        };
        match left_balancer_len(body) {
            Some(k) => body.skip(k),
            None => body,
        }
    } else {
        s
    }
}

/// Appends `n` copies of the one character of `unit`.
fn append_run(out: &mut String, unit: &str, n: i128)
    requires
        unit@.len() == 1,
        0 <= n,
    ensures
        final(out)@ == old(out)@ + run(unit@[0], n as nat),
{
    let mut k: i128 = 0;
    proof {
        assert(out@ + run(unit@[0], 0) =~= out@);
    }
    while k < n
        invariant
            0 <= k <= n,
            unit@.len() == 1,
            out@ == old(out)@ + run(unit@[0], k as nat),
        decreases n - k,
    {
        out.append(unit);
        k = k + 1;
        proof {
            assert(old(out)@ + run(unit@[0], (k - 1) as nat) + unit@ =~= old(out)@ + run(
                unit@[0],
                k as nat,
            ));
        }
    }
}

/// Appends the balancer of `n` braces, of which `unit` holds one.
fn append_marker(out: &mut String, unit: &str, n: i128)
    requires
        unit@.len() == 1,
        0 <= n,
    ensures
        final(out)@ == old(out)@ + marker(unit@[0], n as nat),
{
    proof {
        reveal_strlit("<");
        reveal_strlit(">");
    }
    out.append("<");
    append_run(out, unit, n);
    out.append(">");
    proof {
        assert("<"@ =~= seq!['<']);
        assert(">"@ =~= seq!['>']);
        assert(out@ =~= old(out)@ + marker(unit@[0], n as nat));
    }
}

/// Conditionally encloses string in curly braces and makes balanced.
///
/// The string is returned as it is unless `test` is unconditional, the
/// string starts with `{` and ends with `}`, it is not balanced, or one of
/// its characters outside all braces tests true.  Else it is enclosed in
/// braces, with a left balancer before it and a right balancer behind it
/// where braces are missing or where the string itself starts or ends with
/// what reads as a balancer.
pub fn protect<T: ProtectTest>(s: &str, test: T) -> (r: String)
    ensures
        r@ == protected(s@, test),
        balanced(r@),
        unprotected(r@) == s@,
{
    proof {
        lemma_protected_balanced(s@, test);
        lemma_unprotect_protect(s@, test);
    }
    let total = byte_len(s);
    let mut depth: i128 = 0;
    let mut low: i128 = 0;
    let mut hit = false;
    proof {
        T::lemma_unconditional();
        assert(s@.take(0) =~= Seq::<char>::empty());
    }
    for c in it: s.chars()
        invariant
            it.seq() == s@,
            s@.len() <= total,
            depth == level(s@.take(it.index() as int)),
            low == lowest(s@.take(it.index() as int)),
            -it.index() <= low <= 0,
            -it.index() <= depth <= it.index(),
            T::unconditional() == T::UNCONDITIONAL,
            hit ==> exists|j: int| exposed_at(s@, test, j),
            !T::unconditional() && !hit ==> forall|j: int|
                0 <= j < it.index() ==> !exposed_at(s@, test, j),
    {
        let ghost i = it.index() as int;
        proof {
            lemma_level_step(s@, i);
            assert(s@.take(i + 1).drop_last() =~= s@.take(i));
        }
        if c == '{' {
            depth = depth + 1;
        } else if c == '}' {
            depth = depth - 1;
            if depth < low {
                low = depth;
            }
        } else if !T::UNCONDITIONAL && !hit && depth == 0 && test.test(c) {
            assert(exposed_at(s@, test, i));
            hit = true;
        }
    }
    proof {
        assert(s@.take(s@.len() as int) =~= s@);
        lemma_balanced_lowest(s@);
    }
    let l = -low;
    let r = depth - low;
    let wrap = T::UNCONDITIONAL || hit || l > 0 || r > 0 || (starts_with(s, OPEN_BRACE)
        && ends_with(s, CLOSE_BRACE));
    if wrap {
        proof {
            reveal_strlit("{");
            reveal_strlit("}");
        }
        let mut out = String::new();
        out.append("{");
        if l > 0 || starts_with_balancer(s) {
            append_marker(&mut out, "{", l);
        }
        out.append(s);
        if r > 0 || ends_with_balancer(s) {
            append_marker(&mut out, "}", r);
        }
        out.append("}");
        proof {
            assert("{"@ =~= seq!['{']);
            assert("}"@ =~= seq!['}']);
            assert(out@ =~= wrapped(s@));
        }
        out
    } else {
        s.to_owned()
    }
}

/// Unconditionally protect a string.
pub fn protect_unconditionally(s: &str) -> (r: String)
    ensures
        r@ == wrapped(s@),
        balanced(r@),
        unprotected(r@) == s@,
{
    protect(s, ProtectTestTrue)
}

/// Protect unbalanced strings.
pub fn protect_unbalanced(s: &str) -> (r: String)
    ensures
        r@ == if enclosed(s@) || !balanced(s@) {
            wrapped(s@)
        } else {
            s@
        },
        balanced(r@),
        unprotected(r@) == s@,
{
    protect(s, ProtectTestFalse)
}

/// Inverse of [`protect`].
///
/// A string that does not both start with `{` and end with `}` is returned
/// as it is.  Else the two braces are taken off, then a right balancer at
/// the end of what is left, then a left balancer at its start.
pub fn unprotect(s: &str) -> (r: &str)
    ensures
        r@ == unprotected(s@),
{
    if starts_with(s, OPEN_BRACE) && ends_with(s, CLOSE_BRACE) {
        let total = byte_len(s);
        let ghost n = s@.len() as int;
        proof {
            lemma_offset_ends(s@);
            lemma_offset_step(s@, 0);
            lemma_offset_step(s@, n - 1);
            lemma_encode_ascii('{');
            lemma_encode_ascii('}');
        }
        let inner = slice(s, 1, total - 1, Ghost(1), Ghost(n - 1));
        let body = match right_balancer_start(inner) {
            Some(at) => cut(
                inner,
                at,
                Ghost(inner@.len() - right_balancer_len(inner@).unwrap()),
            ).0,
            None => inner,
        };
        match left_balancer_end(body) {
            Some(at) => cut(body, at, Ghost(left_balancer_len(body@).unwrap())).1,
            None => body,
        }
    } else {
        s
    }
}

/// The error type for [`splitarg`].
#[derive(Debug, PartialEq, Eq, Structural)]
pub enum SplitArgError {
    NotAnEnum,
}

/// What [`splitarg`] makes of `s`: the tag and its payload, or nothing
/// where `s` is no tag with an optional payload in braces.
pub open spec fn tag_and_payload(s: Seq<char>) -> Option<(Seq<char>, Seq<char>)> {
    if !balanced(s) {
        None
    } else {
        match first_index(s, '{') {
            Some(i) => if i > 0 && s.last() == '}' {
                Some((s.take(i), unprotected(s.skip(i))))
            } else {
                None
            },
            None => Some((s, Seq::empty())),
        }
    }
}

/// Splits key from unconditionally protected value if present.
///
/// Inverse of `key + protect_unconditionally(value)` or `key`, where `key`
/// is a string without curly braces.  Returns `key` and `value`.
///
/// # Errors
///
/// `NotAnEnum` if `s` is not balanced, if it starts with `{`, or if it
/// holds a `{` and does not end with `}`.
pub fn splitarg(s: &str) -> (r: Result<(&str, &str), SplitArgError>)
    ensures
        match tag_and_payload(s@) {
            Some(pair) => r matches Ok(found) && found.0@ == pair.0 && found.1@ == pair.1,
            None => r == Err::<(&str, &str), _>(SplitArgError::NotAnEnum),
        },
{
    if !is_balanced(s) {
        return Err(SplitArgError::NotAnEnum);
    }
    match find(s, '{') {
        Some(at) => {
            if at > 0 && ends_with(s, CLOSE_BRACE) {
                proof {
                    lemma_offset_ends(s@);
                }
                let (tag, rest) = cut(s, at, Ghost(first_index(s@, '{').unwrap()));
                Ok((tag, unprotect(rest)))
            } else {
                proof {
                    lemma_offset_ends(s@);
                    let i = first_index(s@, '{').unwrap();
                    if i > 0 {
                        crate::text::lemma_offset_monotone(s@, 0, i);
                    }
                }
                Err(SplitArgError::NotAnEnum)
            }
        },
        None => {
            proof {
                reveal_strlit("");
            }
            Ok((s, ""))
        },
    }
}

} // verus!
