//! Decimal numerals of integers.

use vstd::prelude::*;
use vstd::string::*;

verus! {

/// The character of the digit `d`.
pub open spec fn digit_char(d: int) -> char {
    ((d + 48) as u8) as char
}

/// The digits of `n`, without leading zeros.
pub open spec fn numeral(n: nat) -> Seq<char>
    decreases n,
{
    if n < 10 {
        seq![digit_char(n as int)]
    } else {
        numeral(n / 10).push(digit_char((n % 10) as int))
    }
}

/// The numeral of an integer: `-` before that of a negative one.
pub open spec fn signed_numeral(v: int) -> Seq<char> {
    if v < 0 {
        seq!['-'] + numeral((-v) as nat)
    } else {
        numeral(v as nat)
    }
}

/// The value of a digit.
pub open spec fn digit_value(c: char) -> Option<int> {
    if '0' <= c <= '9' {
        Some(c as int - 48)
    } else {
        None
    }
}

/// The value of a text of one or more digits.
pub open spec fn numeral_value(s: Seq<char>) -> Option<int>
    decreases s.len(),
{
    if s.len() == 0 {
        None
    } else {
        match digit_value(s.last()) {
            Some(d) => if s.len() == 1 {
                Some(d)
            } else {
                match numeral_value(s.drop_last()) {
                    Some(v) => Some(v * 10 + d),
                    None => None,
                }
            },
            None => None,
        }
    }
}

/// The value of a numeral with an optional sign: `+` is always accepted,
/// `-` where `signed`.
pub open spec fn integer_value(s: Seq<char>, signed: bool) -> Option<int> {
    if s.len() > 0 && s[0] == '+' {
        numeral_value(s.skip(1))
    } else if signed && s.len() > 0 && s[0] == '-' {
        match numeral_value(s.skip(1)) {
            Some(v) => Some(-v),
            None => None,
        }
    } else {
        numeral_value(s)
    }
}

/// The string of one digit.
fn digit_str(d: u128) -> (s: &'static str)
    requires
        d < 10,
    ensures
        s@ == seq![digit_char(d as int)],
{
    proof {
        reveal_strlit("0");
        reveal_strlit("1");
        reveal_strlit("2");
        reveal_strlit("3");
        reveal_strlit("4");
        reveal_strlit("5");
        reveal_strlit("6");
        reveal_strlit("7");
        reveal_strlit("8");
        reveal_strlit("9");
    }
    let s = if d == 0 {
        "0"
    } else if d == 1 {
        "1"
    } else if d == 2 {
        "2"
    } else if d == 3 {
        "3"
    } else if d == 4 {
        "4"
    } else if d == 5 {
        "5"
    } else if d == 6 {
        "6"
    } else if d == 7 {
        "7"
    } else if d == 8 {
        "8"
    } else {
        "9"
    };
    proof {
        assert(s@ =~= seq![digit_char(d as int)]);
    }
    s
}

/// Appends the numeral of `n`.
pub fn append_numeral(out: &mut String, n: u128)
    ensures
        final(out)@ == old(out)@ + numeral(n as nat),
    decreases n,
{
    if n >= 10 {
        append_numeral(out, n / 10);
    }
    out.append(digit_str(n % 10));
    proof {
        assert(out@ =~= old(out)@ + numeral(n as nat));
    }
}

/// The numeral of `v`.
pub fn integer_to_string(v: i128) -> (s: String)
    ensures
        s@ == signed_numeral(v as int),
{
    let mut out = String::new();
    if v < 0 {
        proof {
            reveal_strlit("-");
        }
        out.append("-");
        let magnitude: u128 = (-(v + 1)) as u128 + 1;
        append_numeral(&mut out, magnitude);
        proof {
            assert(out@ =~= signed_numeral(v as int));
        }
    } else {
        append_numeral(&mut out, v as u128);
        proof {
            assert(out@ =~= signed_numeral(v as int));
        }
    }
    out
}

/// A numeral is worth at least what its digits but the last are worth.
pub proof fn lemma_numeral_value_grows(s: Seq<char>, k: int)
    requires
        1 <= k <= s.len(),
        numeral_value(s) is Some,
    ensures
        numeral_value(s.take(k)) is Some,
        0 <= numeral_value(s.take(k)).unwrap() <= numeral_value(s).unwrap(),
    decreases s.len() - k,
{
    if k == s.len() {
        assert(s.take(k) =~= s);
        lemma_numeral_value_positive(s);
    } else {
        assert(s.drop_last().take(k) =~= s.take(k));
        lemma_numeral_value_grows(s.drop_last(), k);
    }
}

/// No numeral is worth less than zero.
pub proof fn lemma_numeral_value_positive(s: Seq<char>)
    requires
        numeral_value(s) is Some,
    ensures
        0 <= numeral_value(s).unwrap(),
    decreases s.len(),
{
    if s.len() > 1 {
        lemma_numeral_value_positive(s.drop_last());
    }
}

/// The value of the digit `c`.
fn digit_of(c: char) -> (d: Option<u128>)
    ensures
        match digit_value(c) {
            Some(v) => d == Some(v as u128) && 0 <= v < 10,
            None => d is None,
        },
{
    if c == '0' {
        Some(0)
    } else if c == '1' {
        Some(1)
    } else if c == '2' {
        Some(2)
    } else if c == '3' {
        Some(3)
    } else if c == '4' {
        Some(4)
    } else if c == '5' {
        Some(5)
    } else if c == '6' {
        Some(6)
    } else if c == '7' {
        Some(7)
    } else if c == '8' {
        Some(8)
    } else if c == '9' {
        Some(9)
    } else {
        None
    }
}

/// The integer that `s` is the numeral of, if it is one and the integer
/// lies between `min` and `max`.
pub(crate) fn parse_integer(s: &str, signed: bool, min: i128, max: i128) -> (r: Option<i128>)
    requires
        -0x1_0000_0000_0000_0000 <= min <= 0 <= max <= 0x1_0000_0000_0000_0000,
    ensures
        r == match integer_value(s@, signed) {
            Some(v) => if min <= v <= max {
                Some(v as i128)
            } else {
                None
            },
            None => None,
        },
{
    let mut value: u128 = 0;
    let mut negative = false;
    let mut digits = false;
    let mut first = true;
    let ghost skipped: int = 0;
    proof {
        assert(s@.skip(0) =~= s@);
    }
    for c in it: s.chars()
        invariant
            it.seq() == s@,
            -0x1_0000_0000_0000_0000 <= min <= 0 <= max <= 0x1_0000_0000_0000_0000,
            first == (it.index() == 0),
            0 <= skipped <= 1,
            skipped <= it.index(),
            it.index() > 0 ==> skipped == if s@[0] == '+' || (signed && s@[0] == '-') {
                1int
            } else {
                0int
            },
            negative == (it.index() > 0 && signed && s@[0] == '-'),
            digits == (it.index() > skipped),
            value <= 0x1_0000_0000_0000_0000,
            digits ==> numeral_value(s@.subrange(skipped, it.index() as int)) == Some(value as int),
            !digits ==> value == 0,
    {
        let ghost i = it.index() as int;
        if first && (c == '+' || (signed && c == '-')) {
            negative = c == '-';
            proof {
                skipped = 1;
            }
        } else {
            let ghost body = s@.skip(skipped);
            let ghost upto = s@.subrange(skipped, i + 1);
            proof {
                assert(upto.drop_last() =~= s@.subrange(skipped, i));
                assert(upto.last() == c);
                assert(upto =~= body.take(i + 1 - skipped));
                assert(s@.skip(0) =~= s@);
                assert(integer_value(s@, signed) == if skipped == 0 {
                    numeral_value(body)
                } else if s@[0] == '+' {
                    numeral_value(body)
                } else {
                    match numeral_value(body) {
                        Some(v) => Some(-v),
                        None => None,
                    }
                });
            }
            match digit_of(c) {
                Some(d) => {
                    let next = value * 10 + d;
                    if next > 0x1_0000_0000_0000_0000 {
                        proof {
                            if numeral_value(body) is Some {
                                lemma_numeral_value_grows(body, i + 1 - skipped);
                            }
                        }
                        return None;
                    }
                    value = next;
                    digits = true;
                },
                None => {
                    proof {
                        if numeral_value(body) is Some {
                            lemma_numeral_value_grows(body, i + 1 - skipped);
                        }
                    }
                    return None;
                },
            }
        }
        first = false;
    }
    proof {
        if s@.len() > 0 {
            assert(s@.subrange(skipped, s@.len() as int) =~= s@.skip(skipped));
        }
    }
    if !digits {
        return None;
    }
    if negative {
        let v = -(value as i128);
        if v < min {
            None
        } else {
            Some(v)
        }
    } else {
        if value > max as u128 {
            None
        } else {
            Some(value as i128)
        }
    }
}

/// A numeral is not empty, holds digits only, and is worth its number.
pub proof fn lemma_numeral_value(n: nat)
    ensures
        numeral(n).len() > 0,
        forall|i: int| 0 <= i < numeral(n).len() ==> '0' <= #[trigger] numeral(n)[i] <= '9',
        numeral_value(numeral(n)) == Some(n as int),
    decreases n,
{
    let d = (n % 10) as int;
    let c = digit_char(d);
    assert('0' <= c <= '9' && c as int - 48 == d);
    if n >= 10 {
        let front = numeral(n / 10);
        lemma_numeral_value(n / 10);
        assert(front.push(c).drop_last() =~= front);
        assert forall|i: int| 0 <= i < numeral(n).len() implies '0' <= #[trigger] numeral(n)[i]
            <= '9' by {
            if i < front.len() {
                assert(numeral(n)[i] == front[i]);
            }
        }
    }
}

/// What is written for an integer is read as that integer; and what is
/// written for one that is not negative, also where no sign is read.
pub proof fn lemma_integer_value(v: int)
    ensures
        integer_value(signed_numeral(v), true) == Some(v),
        v >= 0 ==> integer_value(signed_numeral(v), false) == Some(v),
{
    if v < 0 {
        let digits = numeral((-v) as nat);
        lemma_numeral_value((-v) as nat);
        assert(signed_numeral(v).skip(1) =~= digits);
    } else {
        lemma_numeral_value(v as nat);
        assert('0' <= numeral(v as nat)[0] <= '9');
    }
}

} // verus!
