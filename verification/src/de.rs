//! Reading values: what the text of each kind of value holds.

use vstd::prelude::*;
use vstd::string::*;
use crate::error::Error;
use crate::number::{integer_value, parse_integer};
use crate::util::protect::{splitarg, tag_and_payload, unprotect, unprotected};
use crate::util::split::{first_boundary, parts, safesplit, safesplit_once, SafesplitIter};

verus! {

/// The lower case of an upper-case letter from `A` to `Z`; any other
/// character itself.
pub open spec fn lower_of(c: char) -> char {
    if 'A' <= c <= 'Z' {
        ((c as u32 + 32) as u32) as char
    } else {
        c
    }
}

/// `s` with the upper-case letters from `A` to `Z` in lower case.
pub open spec fn lowered(s: Seq<char>) -> Seq<char> {
    s.map_values(|c: char| lower_of(c))
}

/// The boolean that `s` spells, in whatever case.
pub open spec fn bool_value(s: Seq<char>) -> Option<bool> {
    let word = lowered(s);
    if word == "true"@ || word == "yes"@ {
        Some(true)
    } else if word == "false"@ || word == "no"@ {
        Some(false)
    } else {
        None
    }
}

/// The characters of `s`.
fn chars_of(s: &str) -> (v: Vec<char>)
    ensures
        v@ == s@,
{
    let mut v: Vec<char> = Vec::new();
    for c in it: s.chars()
        invariant
            it.seq() == s@,
            v@ == s@.take(it.index() as int),
    {
        v.push(c);
        proof {
            assert(s@.take(it.index() + 1) =~= s@.take(it.index() as int).push(c));
        }
    }
    proof {
        assert(s@.take(s@.len() as int) =~= s@);
    }
    v
}

/// Whether `s` is `word` but for the case of its letters.  `word` is
/// written in lower case, and `upper` is `word` in upper case.
fn spells(s: &Vec<char>, word: &str, upper: &str) -> (b: bool)
    requires
        word@.len() == upper@.len(),
        forall|i: int|
            0 <= i < word@.len() ==> 'a' <= #[trigger] word@[i] <= 'z' && lower_of(upper@[i])
                == word@[i] && upper@[i] != word@[i] && 'A' <= upper@[i] <= 'Z',
    ensures
        b == (lowered(s@) == word@),
{
    let lower = chars_of(word);
    let caps = chars_of(upper);
    if s.len() != lower.len() {
        return false;
    }
    let mut i: usize = 0;
    while i < s.len()
        invariant
            0 <= i <= s.len(),
            s.len() == lower.len() == caps.len(),
            lower@ == word@,
            caps@ == upper@,
            forall|k: int|
                0 <= k < word@.len() ==> 'a' <= #[trigger] word@[k] <= 'z' && lower_of(upper@[k])
                    == word@[k] && upper@[k] != word@[k] && 'A' <= upper@[k] <= 'Z',
            forall|k: int| 0 <= k < i ==> lower_of(#[trigger] s@[k]) == word@[k],
        decreases s.len() - i,
    {
        let c = s[i];
        if c != lower[i] && c != caps[i] {
            proof {
                assert(word@[i as int] == lower@[i as int]);
                assert(lowered(s@)[i as int] == lower_of(c));
                assert(lower_of(c) != word@[i as int]) by {
                    let w = word@[i as int];
                    let u = upper@[i as int];
                    assert(lower_of(u) == w);
                    if lower_of(c) == w {
                        if 'A' <= c <= 'Z' {
                            assert(c as u32 + 32 == u as u32 + 32);
                            vstd::utf8::char_u32_cast(c, c as u32);
                            vstd::utf8::char_u32_cast(u, u as u32);
                        }
                    }
                }
            }
            return false;
        }
        proof {
            assert(word@[i as int] == lower@[i as int]);
        }
        i = i + 1;
    }
    proof {
        assert(lowered(s@) =~= word@);
    }
    true
}

/// Reads a value from its text.
pub struct Deserializer<T> {
    input: T,
}

/// The elements of a sequence or a tuple that have not been read.
pub struct DeserializeSequence<'a> {
    iter: SafesplitIter<'a>,
}

/// The entries of a map or a struct that have not been read, and the
/// value of the entry whose key was read last.
pub struct DeserializeMap<'a> {
    iter: SafesplitIter<'a>,
    value: Option<&'a str>,
}

/// The name of a variant and the text of what it holds.
pub struct DeserializeEnum<'a> {
    variant: &'a str,
    value: &'a str,
}

impl<'de> Deserializer<&'de str> {
    /// The text that is read.
    pub closed spec fn text(&self) -> Seq<char> {
        self.input@
    }

    pub fn from_str(input: &'de str) -> (d: Self)
        ensures
            d.text() == input@,
    {
        Deserializer { input }
    }

    /// `true` for `true` and `yes`, `false` for `false` and `no`, in
    /// whatever case.
    pub fn deserialize_bool(&self) -> (r: Result<bool, Error>)
        ensures
            match bool_value(self.text()) {
                Some(b) => r == Ok::<_, Error>(b),
                None => r == Err::<bool, _>(Error::NotABoolean),
            },
    {
        proof {
            reveal_strlit("true");
            reveal_strlit("TRUE");
            reveal_strlit("yes");
            reveal_strlit("YES");
            reveal_strlit("false");
            reveal_strlit("FALSE");
            reveal_strlit("no");
            reveal_strlit("NO");
        }
        let s = chars_of(self.input);
        if spells(&s, "true", "TRUE") || spells(&s, "yes", "YES") {
            Ok(true)
        } else if spells(&s, "false", "FALSE") || spells(&s, "no", "NO") {
            Ok(false)
        } else {
            Err(Error::NotABoolean)
        }
    }

    pub fn deserialize_i8(&self) -> (r: Result<i8, Error>)
        ensures
            r == match integer_value(self.text(), true) {
                Some(v) if i8::MIN <= v <= i8::MAX => Ok::<_, Error>(v as i8),
                _ => Err(Error::NotAnInteger),
            },
    {
        match parse_integer(self.input, true, i8::MIN as i128, i8::MAX as i128) {
            Some(v) => Ok(v as i8),
            None => Err(Error::NotAnInteger),
        }
    }

    pub fn deserialize_i16(&self) -> (r: Result<i16, Error>)
        ensures
            r == match integer_value(self.text(), true) {
                Some(v) if i16::MIN <= v <= i16::MAX => Ok::<_, Error>(v as i16),
                _ => Err(Error::NotAnInteger),
            },
    {
        match parse_integer(self.input, true, i16::MIN as i128, i16::MAX as i128) {
            Some(v) => Ok(v as i16),
            None => Err(Error::NotAnInteger),
        }
    }

    pub fn deserialize_i32(&self) -> (r: Result<i32, Error>)
        ensures
            r == match integer_value(self.text(), true) {
                Some(v) if i32::MIN <= v <= i32::MAX => Ok::<_, Error>(v as i32),
                _ => Err(Error::NotAnInteger),
            },
    {
        match parse_integer(self.input, true, i32::MIN as i128, i32::MAX as i128) {
            Some(v) => Ok(v as i32),
            None => Err(Error::NotAnInteger),
        }
    }

    pub fn deserialize_i64(&self) -> (r: Result<i64, Error>)
        ensures
            r == match integer_value(self.text(), true) {
                Some(v) if i64::MIN <= v <= i64::MAX => Ok::<_, Error>(v as i64),
                _ => Err(Error::NotAnInteger),
            },
    {
        match parse_integer(self.input, true, i64::MIN as i128, i64::MAX as i128) {
            Some(v) => Ok(v as i64),
            None => Err(Error::NotAnInteger),
        }
    }

    pub fn deserialize_u8(&self) -> (r: Result<u8, Error>)
        ensures
            r == match integer_value(self.text(), false) {
                Some(v) if 0 <= v <= u8::MAX => Ok::<_, Error>(v as u8),
                _ => Err(Error::NotAnUnsignedInteger),
            },
    {
        match parse_integer(self.input, false, 0, u8::MAX as i128) {
            Some(v) => Ok(v as u8),
            None => Err(Error::NotAnUnsignedInteger),
        }
    }

    pub fn deserialize_u16(&self) -> (r: Result<u16, Error>)
        ensures
            r == match integer_value(self.text(), false) {
                Some(v) if 0 <= v <= u16::MAX => Ok::<_, Error>(v as u16),
                _ => Err(Error::NotAnUnsignedInteger),
            },
    {
        match parse_integer(self.input, false, 0, u16::MAX as i128) {
            Some(v) => Ok(v as u16),
            None => Err(Error::NotAnUnsignedInteger),
        }
    }

    pub fn deserialize_u32(&self) -> (r: Result<u32, Error>)
        ensures
            r == match integer_value(self.text(), false) {
                Some(v) if 0 <= v <= u32::MAX => Ok::<_, Error>(v as u32),
                _ => Err(Error::NotAnUnsignedInteger),
            },
    {
        match parse_integer(self.input, false, 0, u32::MAX as i128) {
            Some(v) => Ok(v as u32),
            None => Err(Error::NotAnUnsignedInteger),
        }
    }

    pub fn deserialize_u64(&self) -> (r: Result<u64, Error>)
        ensures
            r == match integer_value(self.text(), false) {
                Some(v) if 0 <= v <= u64::MAX => Ok::<_, Error>(v as u64),
                _ => Err(Error::NotAnUnsignedInteger),
            },
    {
        match parse_integer(self.input, false, 0, u64::MAX as i128) {
            Some(v) => Ok(v as u64),
            None => Err(Error::NotAnUnsignedInteger),
        }
    }

    /// The character, where the text is a single one.
    pub fn deserialize_char(&self) -> (r: Result<char, Error>)
        ensures
            r == if self.text().len() == 1 {
                Ok::<_, Error>(self.text()[0])
            } else {
                Err(Error::NotASingleCharacter)
            },
    {
        let mut found: Option<char> = None;
        for c in it: self.input.chars()
            invariant
                it.seq() == self.input@,
                it.index() <= 1,
                found == if it.index() == 0 {
                    None
                } else {
                    Some(self.input@[0])
                },
        {
            if found.is_some() {
                return Err(Error::NotASingleCharacter);
            }
            found = Some(c);
        }
        match found {
            Some(c) => Ok(c),
            None => Err(Error::NotASingleCharacter),
        }
    }

    /// The text itself.
    pub fn deserialize_str(&self) -> (r: Result<&'de str, Error>)
        ensures
            r matches Ok(s) && s@ == self.text(),
    {
        Ok(self.input)
    }

    /// Nothing for the empty text; else the reader of the value, which is
    /// the text unprotected.
    pub fn deserialize_option(&self) -> (r: Option<Deserializer<&'de str>>)
        ensures
            match r {
                Some(inner) => self.text().len() > 0 && inner.text() == unprotected(self.text()),
                None => self.text().len() == 0,
            },
    {
        if self.input.is_empty() {
            None
        } else {
            Some(Deserializer { input: unprotect(self.input) })
        }
    }

    /// The unit, which is written as the empty text.
    pub fn deserialize_unit(&self) -> (r: Result<(), Error>)
        ensures
            r == if self.text().len() == 0 {
                Ok::<_, Error>(())
            } else {
                Err(Error::UnexpectedValueForUnit)
            },
    {
        if self.input.is_empty() {
            Ok(())
        } else {
            Err(Error::UnexpectedValueForUnit)
        }
    }

    /// The elements of a sequence or a tuple.
    pub fn deserialize_seq(&self) -> (seq: DeserializeSequence<'de>)
        ensures
            seq.remaining() == parts(self.text(), ','),
    {
        DeserializeSequence { iter: safesplit(self.input, ',') }
    }

    /// The entries of a map or a struct.
    pub fn deserialize_map(&self) -> (map: DeserializeMap<'de>)
        ensures
            map.remaining() == parts(self.text(), ','),
            map.value() is None,
    {
        DeserializeMap { iter: safesplit(self.input, ','), value: None }
    }

    /// The variant of an enum: its name, and the text of what it holds.
    pub fn deserialize_enum(&self) -> (r: Result<DeserializeEnum<'de>, Error>)
        ensures
            match tag_and_payload(self.text()) {
                Some(pair) => r matches Ok(found) && found.variant() == pair.0 && found.value()
                    == pair.1,
                None => r matches Err(e) && e == Error::NotAnEnum,
            },
    {
        match splitarg(self.input) {
            Ok((variant, value)) => Ok(DeserializeEnum { variant, value }),
            Err(e) => Err(Error::from(e)),
        }
    }
}

impl<'a> DeserializeSequence<'a> {
    /// The texts of the elements that have not been read.
    pub closed spec fn remaining(&self) -> Seq<Seq<char>> {
        self.iter.remaining()
    }

    /// The reader of the next element, which is its text unprotected.
    pub fn next_element(&mut self) -> (r: Option<Deserializer<&'a str>>)
        ensures
            match r {
                Some(element) => {
                    &&& old(self).remaining().len() > 0
                    &&& element.text() == unprotected(old(self).remaining()[0])
                    &&& final(self).remaining() == old(self).remaining().drop_first()
                },
                None => old(self).remaining().len() == 0 && final(self).remaining().len() == 0,
            },
    {
        match self.iter.next() {
            Some(s) => Some(Deserializer { input: unprotect(s) }),
            None => None,
        }
    }

    /// What reading the sequence comes to: `TooManyElements` where an
    /// element is left, whatever was `visited`.
    pub fn end<V>(self, visited: Result<V, Error>) -> (r: Result<V, Error>)
        ensures
            if self.remaining().len() == 0 {
                r == visited
            } else {
                r matches Err(e) && e == Error::TooManyElements
            },
    {
        let mut iter = self.iter;
        match iter.next() {
            None => visited,
            Some(_) => Err(Error::TooManyElements),
        }
    }
}

impl<'a> DeserializeMap<'a> {
    /// The texts of the entries that have not been read.
    pub closed spec fn remaining(&self) -> Seq<Seq<char>> {
        self.iter.remaining()
    }

    /// The text of the value that belongs to the key read last, until it
    /// is read.
    pub closed spec fn value(&self) -> Option<Seq<char>> {
        match self.value {
            Some(s) => Some(s@),
            None => None,
        }
    }

    /// Whether a key has been read and its value has not.
    pub fn has_value(&self) -> (b: bool)
        ensures
            b == self.value().is_some(),
    {
        self.value.is_some()
    }

    /// The reader of the next key, which is the text before the first `=`
    /// of the entry, unprotected.  The text behind the `=` is kept as the
    /// value.
    pub fn next_key(&mut self) -> (r: Result<Option<Deserializer<&'a str>>, Error>)
        ensures
            if old(self).remaining().len() == 0 {
                &&& r matches Ok(None)
                &&& final(self).remaining().len() == 0
                &&& final(self).value() == old(self).value()
            } else {
                let entry = old(self).remaining()[0];
                &&& final(self).remaining() == old(self).remaining().drop_first()
                &&& match first_boundary(entry, '=') {
                    Some(i) => {
                        &&& r matches Ok(Some(key)) && key.text() == unprotected(entry.take(i))
                        &&& final(self).value() == Some(entry.skip(i + 1))
                    },
                    None => {
                        &&& r matches Err(e) && e == Error::NotAKeyValuePair
                        &&& final(self).value() == old(self).value()
                    },
                }
            },
    {
        match self.iter.next() {
            Some(s) => match safesplit_once(s, '=') {
                Ok((key, value)) => {
                    self.value = Some(value);
                    Ok(Some(Deserializer { input: unprotect(key) }))
                },
                Err(_) => Err(Error::NotAKeyValuePair),
            },
            None => Ok(None),
        }
    }

    /// The reader of the value that belongs to the key read last, which
    /// is its text unprotected.
    pub fn next_value(&mut self) -> (r: Deserializer<&'a str>)
        requires
            old(self).value() is Some,
        ensures
            r.text() == unprotected(old(self).value().unwrap()),
            final(self).value() is None,
            final(self).remaining() == old(self).remaining(),
    {
        let s = self.value.unwrap();
        self.value = None;
        Deserializer { input: unprotect(s) }
    }

    /// What reading the map comes to: `TooManyElements` where an entry is
    /// left, whatever was `visited`.
    pub fn end<V>(self, visited: Result<V, Error>) -> (r: Result<V, Error>)
        ensures
            if self.remaining().len() == 0 {
                r == visited
            } else {
                r matches Err(e) && e == Error::TooManyElements
            },
    {
        let mut iter = self.iter;
        match iter.next() {
            None => visited,
            Some(_) => Err(Error::TooManyElements),
        }
    }
}

impl<'a> DeserializeEnum<'a> {
    /// The name of the variant.
    pub closed spec fn variant(&self) -> Seq<char> {
        self.variant@
    }

    /// The text of what the variant holds.
    pub closed spec fn value(&self) -> Seq<char> {
        self.value@
    }

    /// The reader of the name of the variant.
    pub fn variant_seed(&self) -> (r: Deserializer<&'a str>)
        ensures
            r.text() == self.variant(),
    {
        Deserializer { input: self.variant }
    }

    /// A variant without a value holds the empty text.
    pub fn unit_variant(&self) -> (r: Result<(), Error>)
        ensures
            r == if self.value().len() == 0 {
                Ok::<_, Error>(())
            } else {
                Err(Error::UnexpectedValueForUnit)
            },
    {
        if self.value.is_empty() {
            Ok(())
        } else {
            Err(Error::UnexpectedValueForUnit)
        }
    }

    /// The reader of the one value of the variant.
    pub fn newtype_variant(&self) -> (r: Deserializer<&'a str>)
        ensures
            r.text() == self.value(),
    {
        Deserializer { input: self.value }
    }

    /// The fields of a tuple variant.
    pub fn tuple_variant(&self) -> (seq: DeserializeSequence<'a>)
        ensures
            seq.remaining() == parts(self.value(), ','),
    {
        Deserializer { input: self.value }.deserialize_seq()
    }

    /// The fields of a struct variant.
    pub fn struct_variant(&self) -> (map: DeserializeMap<'a>)
        ensures
            map.remaining() == parts(self.value(), ','),
            map.value() is None,
    {
        Deserializer { input: self.value }.deserialize_map()
    }
}

} // verus!
