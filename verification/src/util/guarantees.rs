//! What protection guarantees: a protected text reads back as the text it
//! was made from, is balanced, and is a single item for the splitter.

use vstd::prelude::*;
use crate::util::balancer::{
    left_balancer_len, lemma_left_balancer_marker, lemma_right_balancer_marker,
    lemma_trailing_bound, marker, right_balancer_len,
};
use crate::util::level::{
    balanced, delta, lemma_balanced_lowest, lemma_level_concat, lemma_level_step,
    lemma_lowest_bound, lemma_lowest_concat, lemma_run_level, level, lowest, run,
};
use crate::text::{first_index, lemma_index_from};
use crate::util::protect::{
    enclosed, exposed_at, left_need, left_pad, needs_wrapping, protected, right_need, right_pad,
    tag_and_payload, unprotected, wrapped, ProtectTest,
};
use crate::util::split::{
    first_boundary, is_boundary, lemma_boundary_from, lemma_pieces_joined, lemma_single_piece,
    parts, pieces,
};

verus! {

/// The level and the lowest level of a balancer.
pub proof fn lemma_marker_level(c: char, n: nat)
    ensures
        level(marker(c, n)) == n * delta(c),
        lowest(marker(c, n)) == if delta(c) < 0 {
            -(n as int)
        } else {
            0
        },
{
    let open = seq!['<'];
    let close = seq!['>'];
    assert(level(open) == 0 && lowest(open) == 0) by {
        reveal_with_fuel(level, 2);
        reveal_with_fuel(lowest, 2);
    }
    assert(level(close) == 0 && lowest(close) == 0) by {
        reveal_with_fuel(level, 2);
        reveal_with_fuel(lowest, 2);
    }
    lemma_run_level(c, n);
    lemma_level_concat(open, run(c, n));
    lemma_lowest_concat(open, run(c, n));
    lemma_level_concat(open + run(c, n), close);
    lemma_lowest_concat(open + run(c, n), close);
    assert(n * delta(c) == 0 - (n as int) || n * delta(c) >= 0) by (nonlinear_arith)
        requires
            delta(c) == 1 || delta(c) == 0 || delta(c) == -1,
    ;
    assert(delta(c) < 0 ==> n * delta(c) == -(n as int)) by (nonlinear_arith)
        requires
            delta(c) == 1 || delta(c) == 0 || delta(c) == -1,
    ;
    assert(delta(c) >= 0 ==> n * delta(c) >= 0) by (nonlinear_arith);
}

/// The padded text `left_pad(s) + s + right_pad(s)` ends at level zero and
/// never goes below: the balancers make up for the braces that `s` lacks.
pub proof fn lemma_padded_level(s: Seq<char>)
    ensures
        level(left_pad(s) + s + right_pad(s)) == 0,
        lowest(left_pad(s) + s + right_pad(s)) == 0,
        level(left_pad(s) + s) == right_need(s),
        lowest(left_pad(s) + s) == 0,
{
    let l = left_pad(s);
    let r = right_pad(s);
    lemma_lowest_bound(s, s.len() as int);
    assert(s.take(s.len() as int) =~= s);
    lemma_marker_level('{', left_need(s));
    lemma_marker_level('}', right_need(s));
    assert(level(l) == left_need(s) && lowest(l) == 0) by {
        assert(left_need(s) * 1 == left_need(s));
    }
    assert(level(r) == -(right_need(s) as int) && lowest(r) == -(right_need(s) as int)) by {
        assert(right_need(s) * (-1) == -(right_need(s) as int));
    }
    lemma_level_concat(l, s);
    lemma_lowest_concat(l, s);
    lemma_level_concat(l + s, r);
    lemma_lowest_concat(l + s, r);
}

/// A protected text is balanced.
pub proof fn lemma_protected_balanced<T: ProtectTest>(s: Seq<char>, test: T)
    ensures
        balanced(protected(s, test)),
{
    if needs_wrapping(s, test) {
        lemma_wrapped_balanced(s);
    }
}

/// A wrapped text is balanced, and between its outer braces the level
/// stays above zero.
pub proof fn lemma_wrapped_balanced(s: Seq<char>)
    ensures
        balanced(wrapped(s)),
        forall|i: int| 1 <= i < wrapped(s).len() ==> level(#[trigger] wrapped(s).take(i)) >= 1,
{
    let body = left_pad(s) + s + right_pad(s);
    let open = seq!['{'];
    let close = seq!['}'];
    let t = wrapped(s);
    assert(t =~= open + body + close);
    lemma_padded_level(s);
    assert(level(open) == 1 && lowest(open) == 0) by {
        reveal_with_fuel(level, 2);
        reveal_with_fuel(lowest, 2);
    }
    assert(level(close) == -1 && lowest(close) == -1) by {
        reveal_with_fuel(level, 2);
        reveal_with_fuel(lowest, 2);
    }
    lemma_level_concat(open, body);
    lemma_lowest_concat(open, body);
    lemma_level_concat(open + body, close);
    lemma_lowest_concat(open + body, close);
    lemma_balanced_lowest(t);
    assert forall|i: int| 1 <= i < t.len() implies level(#[trigger] t.take(i)) >= 1 by {
        assert(t.take(i) =~= open + body.take(i - 1));
        lemma_level_concat(open, body.take(i - 1));
        lemma_lowest_bound(body, i - 1);
    }
}

/// Where a text does not end with a right balancer, it does not do so
/// with its left pad before it either.
proof fn lemma_left_pad_is_no_right_balancer(s: Seq<char>)
    requires
        right_balancer_len(s) is None,
    ensures
        right_balancer_len(left_pad(s) + s) is None,
{
    let pad = left_pad(s);
    let u = pad + s;
    if pad.len() > 0 && right_balancer_len(u) is Some {
        let k = right_balancer_len(u).unwrap();
        let n = k - 2;
        lemma_trailing_bound(u.drop_last(), '}');
        let l = left_need(s) as int;
        let m = marker('}', n as nat);
        lemma_right_balancer_marker(u, n);
        let p = u.len() - k;
        assert(u.skip(p) == m);
        if k <= s.len() {
            assert(s.skip(s.len() - k) =~= u.skip(p));
            lemma_right_balancer_marker(s, n);
        } else {
            // the balancer would start inside the pad: at its `<`
            assert(u[p] == m[0]);
            assert(pad[p] == '<');
            assert(p == 0);
            assert(u[1] == m[1]);
            if l > 0 {
                assert(pad[1] == '{');
            } else {
                // the pad is `<>`: it stands there because `s` starts
                // with a balancer, so `s` is not empty
                assert(pad[1] == '>');
                assert(n == 0);
                assert(left_balancer_len(s) is Some);
            }
        }
    }
    if pad.len() == 0 {
        assert(u =~= s);
    }
}

/// Unprotecting what protection made gives back the text.
pub proof fn lemma_unprotect_protect<T: ProtectTest>(s: Seq<char>, test: T)
    ensures
        unprotected(protected(s, test)) == s,
{
    if needs_wrapping(s, test) {
        lemma_unprotect_wrapped(s);
    }
}

/// Unprotecting a wrapped text gives back the text.
pub proof fn lemma_unprotect_wrapped(s: Seq<char>)
    ensures
        unprotected(wrapped(s)) == s,
{
    let l = left_pad(s);
    let r = right_pad(s);
    let t = wrapped(s);
    let inner = t.subrange(1, t.len() - 1);
    assert(inner =~= l + s + r);
    let body = l + s;
    // the right balancer goes first
    if r.len() > 0 {
        let n = right_need(s) as int;
        assert(inner.skip(inner.len() - n - 2) =~= r);
        lemma_right_balancer_marker(inner, n);
        assert(inner.take(inner.len() - (n + 2)) =~= body);
    } else {
        lemma_left_pad_is_no_right_balancer(s);
        assert(inner =~= body);
    }
    // then the left one
    if l.len() > 0 {
        let n = left_need(s) as int;
        assert(body.take(n + 2) =~= l);
        lemma_left_balancer_marker(body, n);
        assert(body.skip(n + 2) =~= s);
    } else {
        assert(body =~= s);
    }
}

/// A text that is balanced, does not both start with `{` and end with
/// `}`, and has no character outside all braces that tests true is
/// protected as it is, unless the test is unconditional.
pub proof fn lemma_protect_minimal<T: ProtectTest>(s: Seq<char>, test: T)
    requires
        !T::unconditional(),
        balanced(s),
        !enclosed(s),
        forall|i: int| !exposed_at(s, test, i),
    ensures
        protected(s, test) == s,
{
}

/// A text that is protected for a character has that character only
/// inside braces.  (A brace is not a character to protect for: it is never
/// tested.)
pub proof fn lemma_protected_no_boundary<T: ProtectTest>(s: Seq<char>, test: T, sep: char)
    requires
        test.protects(sep),
        sep != '{',
        sep != '}',
    ensures
        forall|i: int| !is_boundary(protected(s, test), sep, i),
{
    let t = protected(s, test);
    assert forall|i: int| !is_boundary(t, sep, i) by {
        if is_boundary(t, sep, i) {
            if needs_wrapping(s, test) {
                lemma_wrapped_balanced(s);
                if i > 0 {
                    assert(level(t.take(i)) >= 1);
                }
            } else {
                assert(exposed_at(s, test, i));
            }
        }
    }
}

/// A text protected for a separator is a single item when split at that
/// separator.  The empty text stays empty and has no items; and for the
/// separator `{` this holds of the texts without braces only.
pub proof fn lemma_protected_is_one_item(s: Seq<char>, sep: char)
    requires
        s.len() > 0,
        sep == '{' ==> forall|i: int| 0 <= i < s.len() ==> delta(s[i]) == 0,
    ensures
        parts(protected(s, sep), sep) == seq![protected(s, sep)],
{
    let t = protected(s, sep);
    if sep == '{' {
        // a text without braces is returned as it is
        lemma_level_zero(s);
        assert(delta(s[0]) == 0);
        assert(t == s) by {
            if exists|j: int| exposed_at(s, sep, j) {
                let j = choose|j: int| exposed_at(s, sep, j);
                assert(delta(s[j]) == 0);
            }
        }
        assert forall|i: int| !is_boundary(t, sep, i) by {
            if is_boundary(t, sep, i) {
                assert(delta(s[i]) == 0);
            }
        }
    } else if sep == '}' {
        lemma_protected_balanced(s, sep);
        assert forall|i: int| !is_boundary(t, sep, i) by {
            if is_boundary(t, sep, i) {
                lemma_level_step(t, i);
                assert(level(t.take(i + 1)) >= 0);
            }
        }
    } else {
        lemma_protected_no_boundary(s, sep, sep);
    }
    lemma_single_piece(t, sep);
}

/// The first brace of a text that has one.
proof fn lemma_first_brace(s: Seq<char>, k: int) -> (i: int)
    requires
        0 <= k < s.len(),
        delta(s[k]) != 0,
    ensures
        0 <= i <= k,
        delta(s[i]) != 0,
        forall|j: int| 0 <= j < i ==> delta(s[j]) == 0,
    decreases k,
{
    if exists|j: int| 0 <= j < k && delta(s[j]) != 0 {
        let j = choose|j: int| 0 <= j < k && delta(s[j]) != 0;
        lemma_first_brace(s, j)
    } else {
        k
    }
}

/// A text protected for a separator is a single item when split at that
/// separator, except for the empty text, and except for a text with a
/// brace where the separator is `{`: and for no other.
pub proof fn lemma_protected_is_one_item_exactly(s: Seq<char>, sep: char)
    ensures
        parts(protected(s, sep), sep) == seq![protected(s, sep)] <==> {
            &&& s.len() > 0
            &&& sep == '{' ==> forall|i: int| 0 <= i < s.len() ==> delta(s[i]) == 0
        },
{
    let t = protected(s, sep);
    if s.len() > 0 && (sep == '{' ==> forall|i: int| 0 <= i < s.len() ==> delta(s[i]) == 0) {
        lemma_protected_is_one_item(s, sep);
    } else if s.len() == 0 {
        // the empty text is returned as it is, and has no items
        assert(forall|i: int| 0 <= i <= s.len() ==> s.take(i) =~= s);
        assert(balanced(s));
        assert(t == s);
        assert(parts(t, sep).len() == 0);
        assert(seq![t].len() == 1);
    } else {
        // a brace in the text: the protected text starts with a `{`, or its
        // first brace is a `{` outside all braces
        let k = choose|k: int| 0 <= k < s.len() && delta(s[k]) != 0;
        lemma_boundary_from(t, sep, 0);
        if needs_wrapping(s, sep) {
            assert(t[0] == '{');
            assert(t.take(0) =~= Seq::<char>::empty());
            assert(is_boundary(t, sep, 0));
        } else {
            let i = lemma_first_brace(s, k);
            assert forall|j: int| 0 <= j < s.take(i).len() implies delta(s.take(i)[j]) == 0 by {
                assert(s.take(i)[j] == s[j]);
            }
            lemma_level_zero(s.take(i));
            lemma_level_step(s, i);
            assert(level(s.take(i + 1)) >= 0);
            assert(is_boundary(t, sep, i));
        }
        let cut = first_boundary(t, sep).unwrap();
        lemma_pieces_joined(t.skip(cut + 1), sep);
        assert(pieces(t, sep).len() >= 2);
        assert(seq![t].len() == 1);
    }
}

/// Protection returns a text as it is exactly where the text needs no
/// wrapping: where the test is not unconditional, and the text is
/// balanced, does not both start with `{` and end with `}`, and has no
/// character outside all braces that tests true.
pub proof fn lemma_protect_minimal_exactly<T: ProtectTest>(s: Seq<char>, test: T)
    ensures
        protected(s, test) == s <==> !needs_wrapping(s, test),
{
    assert(wrapped(s).len() >= s.len() + 2);
}

/// A text without braces is balanced.
pub proof fn lemma_level_zero(s: Seq<char>)
    requires
        forall|i: int| 0 <= i < s.len() ==> delta(s[i]) == 0,
    ensures
        balanced(s),
    decreases s.len(),
{
    assert forall|i: int| 0 <= i <= s.len() implies level(#[trigger] s.take(i)) == 0 by {
        lemma_flat_prefix(s, i);
    }
    assert(s.take(s.len() as int) =~= s);
}

/// Every prefix of a text without braces has level zero.
proof fn lemma_flat_prefix(s: Seq<char>, i: int)
    requires
        forall|j: int| 0 <= j < s.len() ==> delta(s[j]) == 0,
        0 <= i <= s.len(),
    ensures
        level(s.take(i)) == 0,
    decreases i,
{
    if i > 0 {
        lemma_flat_prefix(s, i - 1);
        lemma_level_step(s, i - 1);
    } else {
        assert(s.take(0) =~= Seq::<char>::empty());
    }
}

/// Two balanced texts in a row are balanced.
pub proof fn lemma_balanced_concat(a: Seq<char>, b: Seq<char>)
    requires
        balanced(a),
        balanced(b),
    ensures
        balanced(a + b),
{
    lemma_balanced_lowest(a);
    lemma_balanced_lowest(b);
    lemma_level_concat(a, b);
    lemma_lowest_concat(a, b);
    lemma_balanced_lowest(a + b);
}

/// A tag without braces that is not empty, followed by a wrapped payload,
/// is split into the tag and the payload; and the tag alone into the tag
/// and the empty payload.
pub proof fn lemma_tag_and_payload(tag: Seq<char>, payload: Seq<char>)
    requires
        tag.len() > 0,
        forall|i: int| 0 <= i < tag.len() ==> delta(tag[i]) == 0,
    ensures
        tag_and_payload(tag + wrapped(payload)) == Some((tag, payload)),
        tag_and_payload(tag) == Some((tag, Seq::<char>::empty())),
{
    let w = wrapped(payload);
    let t = tag + w;
    let n = tag.len() as int;
    lemma_level_zero(tag);
    lemma_wrapped_balanced(payload);
    lemma_balanced_concat(tag, w);
    lemma_unprotect_wrapped(payload);
    lemma_index_from(t, '{', 0);
    lemma_index_from(tag, '{', 0);
    assert(t[n] == w[0]);
    assert forall|j: int| 0 <= j < n implies t[j] != '{' by {
        assert(t[j] == tag[j]);
        assert(delta(tag[j]) == 0);
    }
    assert(first_index(t, '{') == Some(n));
    assert(t.last() == w.last());
    assert(t.take(n) =~= tag);
    assert(t.skip(n) =~= w);
    if first_index(tag, '{') is Some {
        let j = first_index(tag, '{').unwrap();
        assert(delta(tag[j]) == 0);
    }
}

} // verus!
