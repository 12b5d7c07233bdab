//! Writing values: the text of each kind of value, given the texts of its
//! parts.

use vstd::prelude::*;
use vstd::string::*;
use crate::error::Error;
use crate::number::{integer_to_string, signed_numeral};
use crate::text::{byte_len, ends_with, starts_with, CLOSE_BRACE, OPEN_BRACE};
use crate::util::guarantees::{
    lemma_protected_balanced, lemma_protected_no_boundary, lemma_unprotect_protect,
    lemma_unprotect_wrapped,
};
use crate::util::level::{balanced, lemma_level_concat, level};
use crate::util::protect::{
    enclosed, protect, protect_unconditionally, protected, unprotected, wrapped,
};
use crate::util::split::{
    first_boundary, is_boundary, joined, lemma_boundary_from, lemma_joined_pieces, parts,
};

verus! {

/// The text of an element of a sequence: protected for the comma, and `{}`
/// for the empty text.
pub open spec fn element_text(value: Seq<char>) -> Seq<char> {
    if value.len() == 0 {
        seq!['{', '}']
    } else {
        protected(value, ',')
    }
}

/// The text of a key and the `=` behind it: the key protected for the
/// comma and for the `=`.
pub open spec fn key_text(key: Seq<char>) -> Seq<char> {
    protected(key, [',', '=']).push('=')
}

/// The text of a value behind its key: protected for the comma.
pub open spec fn value_text(value: Seq<char>) -> Seq<char> {
    protected(value, ',')
}

/// The text of a present optional value: wrapped where it could be taken
/// for an absent or for a wrapped one.
pub open spec fn some_text(value: Seq<char>) -> Seq<char> {
    if enclosed(value) || value.len() == 0 {
        wrapped(value)
    } else {
        value
    }
}

/// The text of a variant with a payload: the name, and the payload wrapped.
pub open spec fn variant_text(variant: Seq<char>, payload: Seq<char>) -> Seq<char> {
    variant + wrapped(payload)
}

/// The text of a variant of one value: the name alone where the text of
/// the value is empty.
pub open spec fn newtype_variant_text(variant: Seq<char>, value: Seq<char>) -> Seq<char> {
    if value.len() == 0 {
        variant
    } else {
        variant_text(variant, value)
    }
}

/// What stands between the items of a sequence: a comma before every item
/// but the first.
pub open spec fn separator(count: nat) -> Seq<char> {
    if count == 0 {
        Seq::empty()
    } else {
        seq![',']
    }
}

/// The text of a sequence element: see [`element_text`].
pub fn protect_comma_or_empty(s: &str) -> (r: String)
    ensures
        r@ == element_text(s@),
        r@.len() > 0,
{
    if s.is_empty() {
        proof {
            reveal_strlit("{}");
            assert("{}"@ =~= seq!['{', '}']);
        }
        String::from_str("{}")
    } else {
        protect(s, ',')
    }
}

/// Writes values as texts.
pub struct Serializer;

/// The items of a sequence, a tuple, a map or a struct, as far as they
/// have been written.
pub struct SerializeSequence {
    n: usize,
    output: String,
}

/// The items of a tuple variant or a struct variant, as far as they have
/// been written.
pub struct SerializeVariantSequence {
    variant: &'static str,
    n: usize,
    output: String,
}

impl Serializer {
    pub fn serialize_bool(self, v: bool) -> (r: Result<String, Error>)
        ensures
            r matches Ok(s) && s@ == if v {
                "True"@
            } else {
                "False"@
            },
    {
        Ok(
            String::from_str(
                if v {
                    "True"
                } else {
                    "False"
                },
            ),
        )
    }

    pub fn serialize_i8(self, v: i8) -> (r: Result<String, Error>)
        ensures
            r matches Ok(s) && s@ == signed_numeral(v as int),
    {
        Ok(integer_to_string(v as i128))
    }

    pub fn serialize_i16(self, v: i16) -> (r: Result<String, Error>)
        ensures
            r matches Ok(s) && s@ == signed_numeral(v as int),
    {
        Ok(integer_to_string(v as i128))
    }

    pub fn serialize_i32(self, v: i32) -> (r: Result<String, Error>)
        ensures
            r matches Ok(s) && s@ == signed_numeral(v as int),
    {
        Ok(integer_to_string(v as i128))
    }

    pub fn serialize_i64(self, v: i64) -> (r: Result<String, Error>)
        ensures
            r matches Ok(s) && s@ == signed_numeral(v as int),
    {
        Ok(integer_to_string(v as i128))
    }

    pub fn serialize_u8(self, v: u8) -> (r: Result<String, Error>)
        ensures
            r matches Ok(s) && s@ == signed_numeral(v as int),
    {
        Ok(integer_to_string(v as i128))
    }

    pub fn serialize_u16(self, v: u16) -> (r: Result<String, Error>)
        ensures
            r matches Ok(s) && s@ == signed_numeral(v as int),
    {
        Ok(integer_to_string(v as i128))
    }

    pub fn serialize_u32(self, v: u32) -> (r: Result<String, Error>)
        ensures
            r matches Ok(s) && s@ == signed_numeral(v as int),
    {
        Ok(integer_to_string(v as i128))
    }

    pub fn serialize_u64(self, v: u64) -> (r: Result<String, Error>)
        ensures
            r matches Ok(s) && s@ == signed_numeral(v as int),
    {
        Ok(integer_to_string(v as i128))
    }

    pub fn serialize_char(self, v: char) -> (r: Result<String, Error>)
        ensures
            r matches Ok(s) && s@ == seq![v],
    {
        let mut s = String::new();
        s.push(v);
        proof {
            assert(s@ =~= seq![v]);
        }
        Ok(s)
    }

    pub fn serialize_str(self, v: &str) -> (r: Result<String, Error>)
        ensures
            r matches Ok(s) && s@ == v@,
    {
        Ok(String::from_str(v))
    }

    pub fn serialize_none(self) -> (r: Result<String, Error>)
        ensures
            r matches Ok(s) && s@.len() == 0,
    {
        Ok(String::new())
    }

    /// The text of a present optional value, of which `value` is the text.
    pub fn serialize_some(self, value: String) -> (r: Result<String, Error>)
        ensures
            r matches Ok(s) && s@ == some_text(value@),
    {
        let s = value.as_str();
        if starts_with(s, OPEN_BRACE) && ends_with(s, CLOSE_BRACE) || s.is_empty() {
            Ok(protect_unconditionally(s))
        } else {
            Ok(value)
        }
    }

    pub fn serialize_unit(self) -> (r: Result<String, Error>)
        ensures
            r matches Ok(s) && s@.len() == 0,
    {
        Ok(String::new())
    }

    pub fn serialize_unit_struct(self, _name: &'static str) -> (r: Result<String, Error>)
        ensures
            r matches Ok(s) && s@.len() == 0,
    {
        Ok(String::new())
    }

    pub fn serialize_unit_variant(
        self,
        _name: &'static str,
        _variant_index: u32,
        variant: &'static str,
    ) -> (r: Result<String, Error>)
        ensures
            r matches Ok(s) && s@ == variant@,
    {
        Ok(String::from_str(variant))
    }

    /// The text of a struct of one value, of which `value` is the text.
    pub fn serialize_newtype_struct(self, _name: &'static str, value: String) -> (r: Result<
        String,
        Error,
    >)
        ensures
            r matches Ok(s) && s == value,
    {
        Ok(value)
    }

    /// The text of a variant of one value, of which `value` is the text.
    pub fn serialize_newtype_variant(
        self,
        _name: &'static str,
        _variant_index: u32,
        variant: &'static str,
        value: String,
    ) -> (r: Result<String, Error>)
        ensures
            r matches Ok(s) && s@ == newtype_variant_text(variant@, value@),
    {
        let mut s = String::from_str(variant);
        if !value.as_str().is_empty() {
            s.append(protect_unconditionally(value.as_str()).as_str());
        }
        Ok(s)
    }

    pub fn serialize_seq(self, _len: Option<usize>) -> (r: Result<SerializeSequence, Error>)
        ensures
            r matches Ok(seq) && seq.count() == 0 && seq.text().len() == 0,
    {
        Ok(SerializeSequence::new())
    }

    pub fn serialize_tuple(self, _len: usize) -> (r: Result<SerializeSequence, Error>)
        ensures
            r matches Ok(seq) && seq.count() == 0 && seq.text().len() == 0,
    {
        Ok(SerializeSequence::new())
    }

    pub fn serialize_tuple_struct(self, _name: &'static str, _len: usize) -> (r: Result<
        SerializeSequence,
        Error,
    >)
        ensures
            r matches Ok(seq) && seq.count() == 0 && seq.text().len() == 0,
    {
        Ok(SerializeSequence::new())
    }

    pub fn serialize_tuple_variant(
        self,
        _name: &'static str,
        _variant_index: u32,
        variant: &'static str,
        _len: usize,
    ) -> (r: Result<SerializeVariantSequence, Error>)
        ensures
            r matches Ok(seq) && seq.count() == 0 && seq.text().len() == 0 && seq.variant()
                == variant@,
    {
        Ok(SerializeVariantSequence::new(variant))
    }

    pub fn serialize_map(self, _len: Option<usize>) -> (r: Result<SerializeSequence, Error>)
        ensures
            r matches Ok(seq) && seq.count() == 0 && seq.text().len() == 0,
    {
        Ok(SerializeSequence::new())
    }

    pub fn serialize_struct(self, _name: &'static str, _len: usize) -> (r: Result<
        SerializeSequence,
        Error,
    >)
        ensures
            r matches Ok(seq) && seq.count() == 0 && seq.text().len() == 0,
    {
        Ok(SerializeSequence::new())
    }

    pub fn serialize_struct_variant(
        self,
        _name: &'static str,
        _variant_index: u32,
        variant: &'static str,
        _len: usize,
    ) -> (r: Result<SerializeVariantSequence, Error>)
        ensures
            r matches Ok(seq) && seq.count() == 0 && seq.text().len() == 0 && seq.variant()
                == variant@,
    {
        Ok(SerializeVariantSequence::new(variant))
    }
}

impl SerializeSequence {
    #[verifier::type_invariant]
    spec fn counts(&self) -> bool {
        self.n <= self.output@.len()
    }

    /// The number of items written.
    pub closed spec fn count(&self) -> nat {
        self.n as nat
    }

    /// The text written.
    pub closed spec fn text(&self) -> Seq<char> {
        self.output@
    }

    fn new() -> (seq: SerializeSequence)
        ensures
            seq.count() == 0,
            seq.text().len() == 0,
    {
        SerializeSequence { n: 0, output: String::new() }
    }

    /// Writes the next item, behind a comma unless it is the first.
    fn push_item(&mut self, item: &str)
        requires
            item@.len() > 0,
        ensures
            final(self).count() == old(self).count() + 1,
            final(self).text() == old(self).text() + separator(old(self).count()) + item@,
    {
        proof {
            use_type_invariant(&*self);
        }
        let n = self.n;
        let mut output = String::new();
        self.n = 0;
        core::mem::swap(&mut output, &mut self.output);
        if n != 0 {
            output.push(',');
        }
        output.append(item);
        let bound = byte_len(output.as_str());
        proof {
            assert(output@ =~= old(self).output@ + separator(n as nat) + item@);
        }
        self.output = output;
        self.n = n + 1;
    }

    /// Writes the next element of a sequence or a tuple, of which `value`
    /// is the text.
    pub fn serialize_element(&mut self, value: &str) -> (r: Result<(), Error>)
        ensures
            r is Ok,
            final(self).count() == old(self).count() + 1,
            final(self).text() == old(self).text() + separator(old(self).count()) + element_text(
                value@,
            ),
    {
        self.push_item(protect_comma_or_empty(value).as_str());
        Ok(())
    }

    /// Writes the next key of a map, of which `key` is the text, and the
    /// `=` behind it.
    pub fn serialize_key(&mut self, key: &str) -> (r: Result<(), Error>)
        ensures
            r is Ok,
            final(self).count() == old(self).count() + 1,
            final(self).text() == old(self).text() + separator(old(self).count()) + key_text(
                key@,
            ),
    {
        let mut item = protect(key, [',', '=']);
        item.push('=');
        self.push_item(item.as_str());
        Ok(())
    }

    /// Writes the value that belongs to the key written last, of which
    /// `value` is the text.
    pub fn serialize_value(&mut self, value: &str) -> (r: Result<(), Error>)
        ensures
            r is Ok,
            final(self).count() == old(self).count(),
            final(self).text() == old(self).text() + value_text(value@),
    {
        proof {
            use_type_invariant(&*self);
        }
        let n = self.n;
        let mut output = String::new();
        self.n = 0;
        core::mem::swap(&mut output, &mut self.output);
        output.append(protect(value, ',').as_str());
        self.output = output;
        self.n = n;
        Ok(())
    }

    /// Writes the next field of a struct: its name, and `value`, the text
    /// of its value.
    pub fn serialize_field(&mut self, key: &'static str, value: &str) -> (r: Result<(), Error>)
        ensures
            r is Ok,
            final(self).count() == old(self).count() + 1,
            final(self).text() == old(self).text() + separator(old(self).count()) + key_text(
                key@,
            ) + value_text(value@),
    {
        let mut item = protect(key, [',', '=']);
        item.push('=');
        item.append(protect(value, ',').as_str());
        self.push_item(item.as_str());
        proof {
            assert(self.text() =~= old(self).text() + separator(old(self).count()) + key_text(
                key@,
            ) + value_text(value@));
        }
        Ok(())
    }

    /// The text of the sequence, tuple, map or struct.
    pub fn end(self) -> (r: Result<String, Error>)
        ensures
            r matches Ok(s) && s@ == self.text(),
    {
        Ok(self.output)
    }
}

impl SerializeVariantSequence {
    #[verifier::type_invariant]
    spec fn counts(&self) -> bool {
        self.n <= self.output@.len()
    }

    /// The number of items written.
    pub closed spec fn count(&self) -> nat {
        self.n as nat
    }

    /// The text written.
    pub closed spec fn text(&self) -> Seq<char> {
        self.output@
    }

    /// The name of the variant.
    pub closed spec fn variant(&self) -> Seq<char> {
        self.variant@
    }

    fn new(variant: &'static str) -> (seq: SerializeVariantSequence)
        ensures
            seq.count() == 0,
            seq.text().len() == 0,
            seq.variant() == variant@,
    {
        SerializeVariantSequence { variant, n: 0, output: String::new() }
    }

    /// Writes the next item, behind a comma unless it is the first.
    fn push_item(&mut self, item: &str)
        requires
            item@.len() > 0,
        ensures
            final(self).count() == old(self).count() + 1,
            final(self).variant() == old(self).variant(),
            final(self).text() == old(self).text() + separator(old(self).count()) + item@,
    {
        proof {
            use_type_invariant(&*self);
        }
        let n = self.n;
        let mut output = String::new();
        self.n = 0;
        core::mem::swap(&mut output, &mut self.output);
        if n != 0 {
            output.push(',');
        }
        output.append(item);
        let bound = byte_len(output.as_str());
        proof {
            assert(output@ =~= old(self).output@ + separator(n as nat) + item@);
        }
        self.output = output;
        self.n = n + 1;
    }

    /// Writes the next field of a tuple variant, of which `value` is the
    /// text.
    pub fn serialize_element(&mut self, value: &str) -> (r: Result<(), Error>)
        ensures
            r is Ok,
            final(self).count() == old(self).count() + 1,
            final(self).variant() == old(self).variant(),
            final(self).text() == old(self).text() + separator(old(self).count()) + element_text(
                value@,
            ),
    {
        self.push_item(protect_comma_or_empty(value).as_str());
        Ok(())
    }

    /// Writes the next field of a struct variant: its name, and `value`,
    /// the text of its value.
    pub fn serialize_field(&mut self, key: &'static str, value: &str) -> (r: Result<(), Error>)
        ensures
            r is Ok,
            final(self).count() == old(self).count() + 1,
            final(self).variant() == old(self).variant(),
            final(self).text() == old(self).text() + separator(old(self).count()) + key_text(
                key@,
            ) + value_text(value@),
    {
        let mut item = protect(key, [',', '=']);
        item.push('=');
        item.append(protect(value, ',').as_str());
        self.push_item(item.as_str());
        proof {
            assert(self.text() =~= old(self).text() + separator(old(self).count()) + key_text(
                key@,
            ) + value_text(value@));
        }
        Ok(())
    }

    /// The text of the variant: its name, and the fields wrapped.
    pub fn end(self) -> (r: Result<String, Error>)
        ensures
            r matches Ok(s) && s@ == variant_text(self.variant(), self.text()),
    {
        let mut s = String::from_str(self.variant);
        s.append(protect_unconditionally(self.output.as_str()).as_str());
        Ok(s)
    }
}

/// The text of an element is never empty, is balanced and has no comma
/// outside braces; unprotected, it is the text of the value.
pub proof fn lemma_element_text(value: Seq<char>)
    ensures
        element_text(value).len() > 0,
        level(element_text(value)) == 0,
        first_boundary(element_text(value), ',') is None,
        unprotected(element_text(value)) == value,
{
    let t = element_text(value);
    lemma_boundary_from(t, ',', 0);
    if value.len() == 0 {
        assert(level(t) == 0) by {
            reveal_with_fuel(level, 3);
        }
        assert(t.subrange(1, 1) =~= value);
    } else {
        lemma_protected_balanced(value, ',');
        lemma_protected_no_boundary(value, ',', ',');
        lemma_unprotect_protect(value, ',');
    }
}

/// The text of an entry: its key, `=`, and its value.  It is never empty,
/// is balanced and has no comma outside braces.  Its first `=` outside
/// braces is the one behind the key; what stands before it is the key
/// when unprotected, and what stands behind it the value.
#[verifier::rlimit(40)]
pub proof fn lemma_entry_text(key: Seq<char>, value: Seq<char>)
    ensures
        (key_text(key) + value_text(value)).len() > 0,
        level(key_text(key) + value_text(value)) == 0,
        first_boundary(key_text(key) + value_text(value), ',') is None,
        first_boundary(key_text(key) + value_text(value), '=') == Some(
            key_text(key).len() - 1,
        ),
        unprotected((key_text(key) + value_text(value)).take(key_text(key).len() - 1)) == key,
        unprotected((key_text(key) + value_text(value)).skip(key_text(key).len() as int))
            == value,
{
    let test = [',', '='];
    let k = protected(key, test);
    let v = value_text(value);
    let head = key_text(key);
    let entry = head + v;
    let n = k.len() as int;
    lemma_protected_balanced(key, test);
    lemma_protected_balanced(value, ',');
    lemma_protected_no_boundary(key, test, ',');
    lemma_protected_no_boundary(key, test, '=');
    lemma_protected_no_boundary(value, ',', ',');
    lemma_unprotect_protect(key, test);
    lemma_unprotect_protect(value, ',');
    assert(k.take(n) =~= k);
    assert(v.take(v.len() as int) =~= v);
    assert(level(head) == 0) by {
        assert(head =~= k + seq!['=']);
        lemma_level_concat(k, seq!['=']);
        reveal_with_fuel(level, 2);
    }
    lemma_level_concat(head, v);
    assert(entry.take(n) =~= k);
    assert(entry.skip(n + 1) =~= v);
    assert forall|i: int| !is_boundary(entry, ',', i) by {
        if is_boundary(entry, ',', i) {
            if i < n {
                assert(entry.take(i) =~= k.take(i));
                assert(is_boundary(k, ',', i));
            } else if i > n {
                assert(entry.take(i) =~= head + v.take(i - n - 1));
                lemma_level_concat(head, v.take(i - n - 1));
                assert(is_boundary(v, ',', i - n - 1));
            }
        }
    }
    assert forall|i: int| 0 <= i < n implies !is_boundary(entry, '=', i) by {
        if is_boundary(entry, '=', i) {
            assert(entry.take(i) =~= k.take(i));
            assert(is_boundary(k, '=', i));
        }
    }
    assert(is_boundary(entry, '=', n));
    lemma_boundary_from(entry, ',', 0);
    lemma_boundary_from(entry, '=', 0);
}

/// What is written as a sequence is read as that sequence: the items of
/// the text are the texts of the elements.
pub proof fn lemma_sequence_items(values: Seq<Seq<char>>)
    ensures
        parts(joined(values.map_values(|v: Seq<char>| element_text(v)), ','), ',')
            == values.map_values(|v: Seq<char>| element_text(v)),
    decreases values.len(),
{
    let texts = values.map_values(|v: Seq<char>| element_text(v));
    if values.len() > 0 {
        assert forall|k: int| 0 <= k < texts.len() implies level(#[trigger] texts[k]) == 0
            && first_boundary(texts[k], ',') is None by {
            lemma_element_text(values[k]);
        }
        lemma_joined_pieces(texts, ',');
        lemma_element_text(values[0]);
        assert(joined(texts, ',').len() > 0) by {
            if texts.len() > 1 {
                assert(joined(texts, ',') == texts[0] + seq![','] + joined(
                    texts.drop_first(),
                    ',',
                ));
            }
        }
    } else {
        assert(parts(joined(texts, ','), ',') =~= texts);
    }
}

/// One more item behind the items written: the text grows by the comma,
/// unless the item is the first, and by the item.
pub proof fn lemma_joined_push(items: Seq<Seq<char>>, item: Seq<char>)
    ensures
        joined(items.push(item), ',') == joined(items, ',') + separator(items.len()) + item,
    decreases items.len(),
{
    let all = items.push(item);
    if items.len() == 0 {
        assert(joined(all, ',') =~= joined(items, ',') + separator(items.len()) + item);
    } else {
        assert(all.drop_first() =~= items.drop_first().push(item));
        lemma_joined_push(items.drop_first(), item);
        if items.len() == 1 {
            assert(joined(all, ',') =~= joined(items, ',') + separator(items.len()) + item);
        } else {
            assert(joined(all, ',') =~= joined(items, ',') + separator(items.len()) + item);
        }
    }
}

/// What is written as an optional value is read as that value: the text
/// of a present value is not empty and is the value when unprotected.
pub proof fn lemma_some_text(value: Seq<char>)
    ensures
        some_text(value).len() > 0,
        unprotected(some_text(value)) == value,
{
    if enclosed(value) || value.len() == 0 {
        lemma_unprotect_wrapped(value);
    }
}

} // verus!
