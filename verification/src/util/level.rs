//! Brace nesting levels.
//!
//! The level of a text is the number of its opening braces minus the number
//! of its closing braces.  A text is balanced when its level is zero and no
//! prefix of it has a negative level.

use vstd::prelude::*;

verus! {

/// What one character adds to the level.
pub open spec fn delta(c: char) -> int {
    if c == '{' {
        1
    } else if c == '}' {
        -1
    } else {
        0
    }
}

/// The level at the end of `s`, counted from zero at its start.
pub open spec fn level(s: Seq<char>) -> int
    decreases s.len(),
{
    if s.len() == 0 {
        0
    } else {
        level(s.drop_last()) + delta(s.last())
    }
}

/// The lowest level that any prefix of `s` reaches, the empty prefix
/// included: never above zero.
pub open spec fn lowest(s: Seq<char>) -> int
    decreases s.len(),
{
    if s.len() == 0 {
        0
    } else if level(s) < lowest(s.drop_last()) {
        level(s)
    } else {
        lowest(s.drop_last())
    }
}

/// No prefix of `s` has a negative level, and `s` itself has level zero.
pub open spec fn balanced(s: Seq<char>) -> bool {
    &&& level(s) == 0
    &&& forall|i: int| 0 <= i <= s.len() ==> level(#[trigger] s.take(i)) >= 0
}

/// `n` copies of `c`.
pub open spec fn run(c: char, n: nat) -> Seq<char> {
    Seq::new(n, |i: int| c)
}

/// The level one character further along `s`.
pub proof fn lemma_level_step(s: Seq<char>, i: int)
    requires
        0 <= i < s.len(),
    ensures
        level(s.take(i + 1)) == level(s.take(i)) + delta(s[i]),
        -(i + 1) <= level(s.take(i + 1)) <= i + 1,
        -i <= level(s.take(i)) <= i,
    decreases i,
{
    assert(s.take(i + 1).drop_last() =~= s.take(i));
    if i > 0 {
        lemma_level_step(s, i - 1);
    } else {
        assert(s.take(0) =~= Seq::<char>::empty());
    }
}

/// The level of two texts in a row is the sum of their levels.
pub proof fn lemma_level_concat(a: Seq<char>, b: Seq<char>)
    ensures
        level(a + b) == level(a) + level(b),
    decreases b.len(),
{
    if b.len() == 0 {
        assert(a + b =~= a);
    } else {
        assert((a + b).drop_last() =~= a + b.drop_last());
        lemma_level_concat(a, b.drop_last());
    }
}

/// `lowest` is a lower bound of the levels of all prefixes, and at most zero.
pub proof fn lemma_lowest_bound(s: Seq<char>, i: int)
    requires
        0 <= i <= s.len(),
    ensures
        lowest(s) <= level(s.take(i)),
        lowest(s) <= 0,
    decreases s.len(),
{
    if s.len() == 0 {
        assert(s.take(i) =~= s);
    } else if i == s.len() {
        assert(s.take(i) =~= s);
        lemma_lowest_bound(s.drop_last(), 0);
    } else {
        assert(s.drop_last().take(i) =~= s.take(i));
        lemma_lowest_bound(s.drop_last(), i);
    }
}

/// Some prefix reaches `lowest`.
pub proof fn lemma_lowest_reached(s: Seq<char>) -> (i: int)
    ensures
        0 <= i <= s.len(),
        level(s.take(i)) == lowest(s),
    decreases s.len(),
{
    if s.len() == 0 {
        assert(s.take(0) =~= s);
        0
    } else if level(s) < lowest(s.drop_last()) {
        assert(s.take(s.len() as int) =~= s);
        s.len() as int
    } else {
        let i = lemma_lowest_reached(s.drop_last());
        assert(s.drop_last().take(i) =~= s.take(i));
        i
    }
}

/// The lowest level of two texts in a row: that of the first, or the
/// level of the first and the lowest level of the second.
pub proof fn lemma_lowest_concat(a: Seq<char>, b: Seq<char>)
    ensures
        lowest(a + b) == if level(a) + lowest(b) < lowest(a) {
            level(a) + lowest(b)
        } else {
            lowest(a)
        },
    decreases b.len(),
{
    if b.len() == 0 {
        assert(a + b =~= a);
        lemma_lowest_bound(a, a.len() as int);
        assert(a.take(a.len() as int) =~= a);
    } else {
        assert((a + b).drop_last() =~= a + b.drop_last());
        lemma_lowest_concat(a, b.drop_last());
        lemma_level_concat(a, b);
    }
}

/// A text is balanced exactly when it ends at level zero without having
/// gone below.
pub proof fn lemma_balanced_lowest(s: Seq<char>)
    ensures
        balanced(s) <==> (level(s) == 0 && lowest(s) == 0),
{
    if level(s) == 0 && lowest(s) == 0 {
        assert forall|i: int| 0 <= i <= s.len() implies level(#[trigger] s.take(i)) >= 0 by {
            lemma_lowest_bound(s, i);
        }
    }
    if balanced(s) {
        let i = lemma_lowest_reached(s);
        assert(level(s.take(i)) >= 0);
        lemma_lowest_bound(s, 0);
    }
}

/// The level and the lowest level of a run of one character.
pub proof fn lemma_run_level(c: char, n: nat)
    ensures
        level(run(c, n)) == n * delta(c),
        lowest(run(c, n)) == if delta(c) < 0 { -(n as int) } else { 0 },
    decreases n,
{
    if n > 0 {
        assert(run(c, n).drop_last() =~= run(c, (n - 1) as nat));
        lemma_run_level(c, (n - 1) as nat);
        assert(n * delta(c) == (n - 1) * delta(c) + delta(c)) by (nonlinear_arith);
    } else {
        assert(n * delta(c) == 0) by (nonlinear_arith)
            requires n == 0;
    }
}

/// Returns `true` if the string is balanced.
pub fn is_balanced(s: &str) -> (b: bool)
    ensures
        b == balanced(s@),
{
    let total = crate::text::byte_len(s);
    let mut depth: usize = 0;
    for c in it: s.chars()
        invariant
            it.seq() == s@,
            s@.len() <= total,
            depth == level(s@.take(it.index() as int)),
            forall|i: int| 0 <= i <= it.index() ==> level(#[trigger] s@.take(i)) >= 0,
    {
        proof {
            lemma_level_step(s@, it.index() as int);
        }
        if c == '{' {
            depth = depth + 1;
        } else if c == '}' {
            if depth == 0 {
                assert(level(s@.take(it.index() + 1)) < 0);
                return false;
            }
            depth = depth - 1;
        }
    }
    proof {
        assert(s@.take(s@.len() as int) =~= s@);
    }
    depth == 0
}

} // verus!
