use stringly::de::{DeserializeEnum, DeserializeMap, DeserializeSequence};
use stringly::{Deserializer, Error, Serializer};

fn de(s: &str) -> Deserializer<&str> {
    Deserializer::from_str(s)
}

fn ser_str(v: &str) -> String {
    Serializer.serialize_str(v).unwrap()
}

fn ser_i32(v: i32) -> String {
    Serializer.serialize_i32(v).unwrap()
}

fn ser_seq(items: &[String]) -> String {
    let mut seq = Serializer.serialize_seq(Some(items.len())).unwrap();
    for item in items {
        seq.serialize_element(item).unwrap();
    }
    seq.end().unwrap()
}

fn ser_tuple(items: &[String]) -> String {
    let mut seq = Serializer.serialize_tuple(items.len()).unwrap();
    for item in items {
        seq.serialize_element(item).unwrap();
    }
    seq.end().unwrap()
}

fn ser_map(entries: &[(String, String)]) -> String {
    let mut map = Serializer.serialize_map(Some(entries.len())).unwrap();
    for (key, value) in entries {
        map.serialize_key(key).unwrap();
        map.serialize_value(value).unwrap();
    }
    map.end().unwrap()
}

fn de_strs(s: &str, len: usize) -> Result<Vec<String>, Error> {
    let mut seq = de(s).deserialize_seq();
    let visited = read_strs(&mut seq, len);
    seq.end(visited)
}

fn read_strs(seq: &mut DeserializeSequence, len: usize) -> Result<Vec<String>, Error> {
    let mut items = Vec::new();
    while items.len() < len {
        match seq.next_element() {
            Some(element) => items.push(element.deserialize_str()?.to_string()),
            None => break,
        }
    }
    Ok(items)
}

fn de_i32s(s: &str, len: usize) -> Result<Vec<i32>, Error> {
    let mut seq = de(s).deserialize_seq();
    let visited = read_i32s(&mut seq, len);
    seq.end(visited)
}

fn read_i32s(seq: &mut DeserializeSequence, len: usize) -> Result<Vec<i32>, Error> {
    let mut items = Vec::new();
    while items.len() < len {
        match seq.next_element() {
            Some(element) => items.push(element.deserialize_i32()?),
            None => break,
        }
    }
    Ok(items)
}

fn de_i32_f64(seq: &mut DeserializeSequence) -> Result<(i32, f64), Error> {
    let a = seq.next_element().unwrap().deserialize_i32()?;
    let b = match seq.next_element().unwrap().deserialize_str()?.parse() {
        Ok(v) => v,
        Err(_) => return Err(Error::NotAFloatingPointNumber),
    };
    Ok((a, b))
}

fn read_entries(map: &mut DeserializeMap) -> Result<Vec<(String, String)>, Error> {
    let mut entries = Vec::new();
    while let Some(key) = map.next_key()? {
        let key = key.deserialize_str()?.to_string();
        assert!(map.has_value());
        let value = map.next_value().deserialize_str()?.to_string();
        entries.push((key, value));
    }
    Ok(entries)
}

fn de_map(s: &str) -> Result<Vec<(String, String)>, Error> {
    let mut map = de(s).deserialize_map();
    let visited = read_entries(&mut map);
    map.end(visited)
}

fn variant_of(s: &str) -> Result<(String, DeserializeEnum), Error> {
    let found = de(s).deserialize_enum()?;
    let name = found.variant_seed().deserialize_str()?.to_string();
    Ok((name, found))
}

fn owned(items: &[&str]) -> Vec<String> {
    items.iter().map(|s| s.to_string()).collect()
}

#[test]
fn test_bool() {
    assert_eq!(Serializer.serialize_bool(true).unwrap(), "True");
    assert_eq!(de("True").deserialize_bool(), Ok(true));
    assert_eq!(de("true").deserialize_bool(), Ok(true));
    assert_eq!(de("yes").deserialize_bool(), Ok(true));
    assert_eq!(de("YES").deserialize_bool(), Ok(true));
    assert_eq!(Serializer.serialize_bool(false).unwrap(), "False");
    assert_eq!(de("False").deserialize_bool(), Ok(false));
    assert_eq!(de("false").deserialize_bool(), Ok(false));
    assert_eq!(de("no").deserialize_bool(), Ok(false));
    assert_eq!(de("NO").deserialize_bool(), Ok(false));
}

#[test]
fn test_integer() {
    assert_eq!(Serializer.serialize_i8(1).unwrap(), "1");
    assert_eq!(de("1").deserialize_i8(), Ok(1i8));
    assert_eq!(Serializer.serialize_i16(2).unwrap(), "2");
    assert_eq!(de("2").deserialize_i16(), Ok(2i16));
    assert_eq!(Serializer.serialize_i32(3).unwrap(), "3");
    assert_eq!(de("3").deserialize_i32(), Ok(3i32));
    assert_eq!(Serializer.serialize_i64(4).unwrap(), "4");
    assert_eq!(de("4").deserialize_i64(), Ok(4i64));
    assert_eq!(Serializer.serialize_u8(1).unwrap(), "1");
    assert_eq!(de("1").deserialize_u8(), Ok(1u8));
    assert_eq!(Serializer.serialize_u16(2).unwrap(), "2");
    assert_eq!(de("2").deserialize_u16(), Ok(2u16));
    assert_eq!(Serializer.serialize_u32(3).unwrap(), "3");
    assert_eq!(de("3").deserialize_u32(), Ok(3u32));
    assert_eq!(Serializer.serialize_u64(4).unwrap(), "4");
    assert_eq!(de("4").deserialize_u64(), Ok(4u64));
    assert_eq!(de("1.").deserialize_i32(), Err(Error::NotAnInteger));
    assert_eq!(de("1a").deserialize_i32(), Err(Error::NotAnInteger));
}

#[test]
fn test_char() {
    assert_eq!(Serializer.serialize_char('a').unwrap(), "a");
    assert_eq!(de("a").deserialize_char(), Ok('a'));
    assert_eq!(de("ab").deserialize_char(), Err(Error::NotASingleCharacter));
    assert_eq!(de("").deserialize_char(), Err(Error::NotASingleCharacter));
}

#[test]
fn test_str() {
    assert_eq!(ser_str("abc"), "abc");
    assert_eq!(de("abc").deserialize_str(), Ok("abc"));
}

#[test]
fn test_string() {
    assert_eq!(ser_str(&"abc".to_string()), "abc");
    assert_eq!(de("abc").deserialize_str().unwrap().to_string(), "abc".to_string());
}

fn assert_some_str(value: &str, serial: &str) {
    assert_eq!(Serializer.serialize_some(ser_str(value)).unwrap(), serial);
    assert_eq!(de(serial).deserialize_option().unwrap().deserialize_str(), Ok(value));
}

#[test]
fn test_option() {
    assert_some_str("1", "1");
    assert_some_str("", "{}");
    assert_some_str("{}", "{{}}");
    assert_some_str("{", "{");
    assert_some_str("}", "}");
    assert_eq!(Serializer.serialize_some(ser_i32(1)).unwrap(), "1");
    assert_eq!(de("1").deserialize_option().unwrap().deserialize_i32(), Ok(1));
    assert_eq!(Serializer.serialize_none().unwrap(), "");
    assert!(de("").deserialize_option().is_none());
}

#[test]
fn test_tuple() {
    assert_eq!(Serializer.serialize_unit().unwrap(), "");
    assert_eq!(de("").deserialize_unit(), Ok(()));
    assert_eq!(de("a").deserialize_unit(), Err(Error::UnexpectedValueForUnit));

    assert_eq!(ser_tuple(&[ser_str("")]), "{}");
    assert_eq!(de_strs("{}", 1), Ok(owned(&[""])));
    assert_eq!(ser_tuple(&[ser_i32(1)]), "1");
    assert_eq!(de_i32s("1", 1), Ok(vec![1]));
    assert_eq!(de_i32s("1,2", 1), Err(Error::TooManyElements));

    assert_eq!(ser_tuple(&[ser_str(""), ser_str("")]), "{},{}");
    assert_eq!(de_strs("{},{}", 2), Ok(owned(&["", ""])));
    assert_eq!(ser_tuple(&[ser_i32(1), 2f64.to_string()]), "1,2");
    let mut seq = de("1,2").deserialize_seq();
    let visited = de_i32_f64(&mut seq);
    assert_eq!(seq.end(visited), Ok((1i32, 2f64)));
    assert_eq!(ser_tuple(&[ser_str("{"), ser_str("}")]), "{{<}>},{<{>}}");
    assert_eq!(de_strs("{{<}>},{<{>}}", 2), Ok(owned(&["{", "}"])));
}

#[test]
fn tests_test_struct() {
    assert_eq!(Serializer.serialize_unit_struct("S").unwrap(), "");
    assert_eq!(de("").deserialize_unit(), Ok(()));
    assert_eq!(de("a").deserialize_unit(), Err(Error::UnexpectedValueForUnit));

    assert_eq!(Serializer.serialize_newtype_struct("Ss", ser_str("")).unwrap(), "");
    assert_eq!(de("").deserialize_str(), Ok(""));
    assert_eq!(Serializer.serialize_newtype_struct("Ss", ser_str("1")).unwrap(), "1");
    assert_eq!(de("1").deserialize_str(), Ok("1"));

    let mut sss = Serializer.serialize_tuple_struct("Sss", 2).unwrap();
    sss.serialize_element("").unwrap();
    sss.serialize_element("").unwrap();
    assert_eq!(sss.end().unwrap(), "{},{}");
    assert_eq!(de_strs("{},{}", 2), Ok(owned(&["", ""])));
    let mut sss = Serializer.serialize_tuple_struct("Sss", 2).unwrap();
    sss.serialize_element("1").unwrap();
    sss.serialize_element("2").unwrap();
    assert_eq!(sss.end().unwrap(), "1,2");
    assert_eq!(de_strs("1,2", 2), Ok(owned(&["1", "2"])));

    assert_eq!(Serializer.serialize_newtype_struct("Si", ser_i32(1)).unwrap(), "1");
    assert_eq!(de("1").deserialize_i32(), Ok(1));
    assert_eq!(de("1,2").deserialize_i32(), Err(Error::NotAnInteger));

    let mut sif = Serializer.serialize_tuple_struct("Sif", 2).unwrap();
    sif.serialize_element(&ser_i32(1)).unwrap();
    sif.serialize_element(&1f64.to_string()).unwrap();
    assert_eq!(sif.end().unwrap(), "1,1");
    let mut seq = de("1,1").deserialize_seq();
    let visited = de_i32_f64(&mut seq);
    assert_eq!(seq.end(visited), Ok((1, 1.)));
    let mut seq = de("1,2,3").deserialize_seq();
    let visited = de_i32_f64(&mut seq);
    assert_eq!(seq.end(visited), Err(Error::TooManyElements));
}

#[test]
fn tests_test_enum() {
    assert_eq!(Serializer.serialize_unit_variant("Test", 0, "A").unwrap(), "A");
    let (name, found) = variant_of("A").unwrap();
    assert_eq!(name, "A");
    assert_eq!(found.unit_variant(), Ok(()));
    let (name, found) = variant_of("A{a}").unwrap();
    assert_eq!(name, "A");
    assert_eq!(found.unit_variant(), Err(Error::UnexpectedValueForUnit));

    assert_eq!(Serializer.serialize_newtype_variant("Test", 1, "B", ser_str("")).unwrap(), "B");
    let (name, found) = variant_of("B").unwrap();
    assert_eq!(name, "B");
    assert_eq!(found.newtype_variant().deserialize_str(), Ok(""));
    assert_eq!(
        Serializer.serialize_newtype_variant("Test", 1, "B", ser_str("1")).unwrap(),
        "B{1}"
    );
    let (name, found) = variant_of("B{1}").unwrap();
    assert_eq!(name, "B");
    assert_eq!(found.newtype_variant().deserialize_str(), Ok("1"));
    assert_eq!(Serializer.serialize_newtype_variant("Test", 2, "C", ser_i32(1)).unwrap(), "C{1}");
    let (name, found) = variant_of("C{1}").unwrap();
    assert_eq!(name, "C");
    assert_eq!(found.newtype_variant().deserialize_i32(), Ok(1));
    let (_, found) = variant_of("C{1,2}").unwrap();
    assert_eq!(found.newtype_variant().deserialize_i32(), Err(Error::NotAnInteger));

    let d = |a: &str, b: &str| {
        let mut seq = Serializer.serialize_tuple_variant("Test", 3, "D", 2).unwrap();
        seq.serialize_element(a).unwrap();
        seq.serialize_element(b).unwrap();
        seq.end().unwrap()
    };
    let read_d = |s: &str| {
        let (name, found) = variant_of(s).unwrap();
        assert_eq!(name, "D");
        let mut seq = found.tuple_variant();
        let visited = read_strs(&mut seq, 2);
        seq.end(visited)
    };
    assert_eq!(d("", ""), "D{{},{}}");
    assert_eq!(read_d("D{{},{}}"), Ok(owned(&["", ""])));
    assert_eq!(d("1", "2"), "D{1,2}");
    assert_eq!(read_d("D{1,2}"), Ok(owned(&["1", "2"])));
    assert_eq!(d("{", "}"), "D{{{<}>},{<{>}}}");
    assert_eq!(read_d("D{{{<}>},{<{>}}}"), Ok(owned(&["{", "}"])));

    let mut seq = Serializer.serialize_tuple_variant("Test", 4, "E", 2).unwrap();
    seq.serialize_element(&ser_i32(1)).unwrap();
    seq.serialize_element(&2f64.to_string()).unwrap();
    assert_eq!(seq.end().unwrap(), "E{1,2}");
    let (name, found) = variant_of("E{1,2}").unwrap();
    assert_eq!(name, "E");
    let mut seq = found.tuple_variant();
    let visited = de_i32_f64(&mut seq);
    assert_eq!(seq.end(visited), Ok((1, 2.)));
    let (_, found) = variant_of("E{1,2,3}").unwrap();
    let mut seq = found.tuple_variant();
    let visited = de_i32_f64(&mut seq);
    assert_eq!(seq.end(visited), Err(Error::TooManyElements));
}

#[test]
fn test_seq() {
    assert_eq!(ser_seq(&[]), "");
    assert_eq!(de_i32s("", usize::MAX), Ok(vec![]));
    assert_eq!(ser_seq(&[ser_str("")]), "{}");
    assert_eq!(de_strs("{}", usize::MAX), Ok(owned(&[""])));
    assert_eq!(ser_seq(&[ser_str(""), ser_str("")]), "{},{}");
    assert_eq!(de_strs("{},{}", usize::MAX), Ok(owned(&["", ""])));
    assert_eq!(ser_seq(&[ser_str(&"".to_string())]), "{}");
    assert_eq!(ser_seq(&[ser_str(&"".to_string()), ser_str(&"".to_string())]), "{},{}");
    assert_eq!(ser_seq(&[ser_i32(1)]), "1");
    assert_eq!(de_i32s("1", usize::MAX), Ok(vec![1]));
    assert_eq!(ser_seq(&[ser_i32(1), ser_i32(2), ser_i32(3)]), "1,2,3");
    assert_eq!(de_i32s("1,2,3", usize::MAX), Ok(vec![1, 2, 3]));
}

#[test]
fn test_map() {
    let pair = |k: &str, v: &str| (k.to_string(), v.to_string());
    assert_eq!(ser_map(&[]), "");
    assert_eq!(de_map(""), Ok(vec![]));
    assert_eq!(ser_map(&[pair("A", "B")]), "A=B");
    assert_eq!(de_map("A=B"), Ok(vec![pair("A", "B")]));
    assert_eq!(ser_map(&[pair("A", "B"), pair("C", "D")]), "A=B,C=D");
    assert_eq!(de_map("A=B,C=D"), Ok(vec![pair("A", "B"), pair("C", "D")]));

    let none = ser_seq(&[]);
    let one = ser_seq(&[ser_i32(1)]);
    let two = ser_seq(&[ser_i32(2), ser_i32(3)]);
    assert_eq!(ser_map(&[pair("A", &none)]), "A=");
    assert_eq!(ser_map(&[pair("A", &none), pair("B", &one)]), "A=,B=1");
    let serial = ser_map(&[pair("A", &none), pair("B", &one), pair("C", &two)]);
    assert_eq!(serial, "A=,B=1,C={2,3}");
    let mut map = de(&serial).deserialize_map();
    let mut read = Vec::new();
    while let Some(key) = map.next_key().unwrap() {
        let key = key.deserialize_str().unwrap().to_string();
        let mut seq = map.next_value().deserialize_seq();
        let visited = read_i32s(&mut seq, usize::MAX);
        read.push((key, seq.end(visited).unwrap()));
    }
    assert_eq!(map.end(Ok(())), Ok(()));
    assert_eq!(
        read,
        vec![("A".to_string(), vec![]), ("B".to_string(), vec![1]), ("C".to_string(), vec![2, 3])]
    );
}

#[test]
fn ser_test_struct() {
    let mut fields = Serializer.serialize_struct("Test", 2).unwrap();
    fields.serialize_field("int", &Serializer.serialize_u32(1).unwrap()).unwrap();
    fields.serialize_field("seq", &ser_seq(&[ser_str("a"), ser_str("b")])).unwrap();
    assert_eq!(fields.end().unwrap(), "int=1,seq={a,b}");
}

#[test]
fn ser_test_enum() {
    assert_eq!(Serializer.serialize_unit_variant("E", 0, "Unit").unwrap(), "Unit");
    let one = Serializer.serialize_u32(1).unwrap();
    let two = Serializer.serialize_u32(2).unwrap();
    assert_eq!(
        Serializer.serialize_newtype_variant("E", 1, "Newtype", one.clone()).unwrap(),
        "Newtype{1}"
    );
    let mut tuple = Serializer.serialize_tuple_variant("E", 2, "Tuple", 2).unwrap();
    tuple.serialize_element(&one).unwrap();
    tuple.serialize_element(&two).unwrap();
    assert_eq!(tuple.end().unwrap(), "Tuple{1,2}");
    let mut fields = Serializer.serialize_struct_variant("E", 3, "Struct", 1).unwrap();
    fields.serialize_field("a", &one).unwrap();
    assert_eq!(fields.end().unwrap(), "Struct{a=1}");
}

#[test]
fn de_test_struct() {
    let mut map = de("int=1,seq={a,b}").deserialize_map();
    assert_eq!(map.next_key().unwrap().unwrap().deserialize_str(), Ok("int"));
    assert_eq!(map.next_value().deserialize_u32(), Ok(1));
    assert_eq!(map.next_key().unwrap().unwrap().deserialize_str(), Ok("seq"));
    let mut seq = map.next_value().deserialize_seq();
    let visited = read_strs(&mut seq, usize::MAX);
    assert_eq!(seq.end(visited), Ok(owned(&["a", "b"])));
    assert!(map.next_key().unwrap().is_none());
    assert_eq!(map.end(Ok(())), Ok(()));
}

#[test]
fn de_test_enum() {
    let (name, found) = variant_of("Unit").unwrap();
    assert_eq!(name, "Unit");
    assert_eq!(found.unit_variant(), Ok(()));

    let (name, found) = variant_of("Newtype{1}").unwrap();
    assert_eq!(name, "Newtype");
    assert_eq!(found.newtype_variant().deserialize_u32(), Ok(1));

    let (name, found) = variant_of("Tuple{1,2}").unwrap();
    assert_eq!(name, "Tuple");
    let mut seq = found.tuple_variant();
    assert_eq!(seq.next_element().unwrap().deserialize_u32(), Ok(1));
    let second: f32 = seq.next_element().unwrap().deserialize_str().unwrap().parse().unwrap();
    assert_eq!(second, 2f32);
    assert_eq!(seq.end(Ok(())), Ok(()));

    let (name, found) = variant_of("Struct{a=1}").unwrap();
    assert_eq!(name, "Struct");
    let mut map = found.struct_variant();
    assert_eq!(map.next_key().unwrap().unwrap().deserialize_str(), Ok("a"));
    assert_eq!(map.next_value().deserialize_u32(), Ok(1));
    assert_eq!(map.end(Ok(())), Ok(()));
}

#[test]
fn integers_are_written_and_read_with_their_sign() {
    assert_eq!(Serializer.serialize_i64(i64::MIN).unwrap(), "-9223372036854775808");
    assert_eq!(Serializer.serialize_u64(u64::MAX).unwrap(), "18446744073709551615");
    assert_eq!(Serializer.serialize_i8(-128).unwrap(), "-128");
    assert_eq!(Serializer.serialize_u8(0).unwrap(), "0");
    assert_eq!(de("-9223372036854775808").deserialize_i64(), Ok(i64::MIN));
    assert_eq!(de("9223372036854775808").deserialize_i64(), Err(Error::NotAnInteger));
    assert_eq!(de("18446744073709551615").deserialize_u64(), Ok(u64::MAX));
    assert_eq!(de("18446744073709551616").deserialize_u64(), Err(Error::NotAnUnsignedInteger));
    assert_eq!(de("99999999999999999999999999999999999999999").deserialize_u64(), Err(Error::NotAnUnsignedInteger));
    assert_eq!(de("+7").deserialize_u8(), Ok(7));
    assert_eq!(de("+7").deserialize_i8(), Ok(7));
    assert_eq!(de("-7").deserialize_i8(), Ok(-7));
    assert_eq!(de("-0").deserialize_i8(), Ok(0));
    assert_eq!(de("007").deserialize_i8(), Ok(7));
    assert_eq!(de("-7").deserialize_u8(), Err(Error::NotAnUnsignedInteger));
    assert_eq!(de("-0").deserialize_u8(), Err(Error::NotAnUnsignedInteger));
    assert_eq!(de("128").deserialize_i8(), Err(Error::NotAnInteger));
    assert_eq!(de("-129").deserialize_i8(), Err(Error::NotAnInteger));
    assert_eq!(de("256").deserialize_u8(), Err(Error::NotAnUnsignedInteger));
    for bad in ["", "+", "-", "+-1", "--1", " 1", "1 ", "1_0", "\u{661}"] {
        assert_eq!(de(bad).deserialize_i32(), Err(Error::NotAnInteger), "{:?}", bad);
        assert_eq!(de(bad).deserialize_u32(), Err(Error::NotAnUnsignedInteger), "{:?}", bad);
    }
    for v in [i64::MIN, -1, 0, 1, 9, 10, 11, 99, 100, 12345, i64::MAX] {
        assert_eq!(Serializer.serialize_i64(v).unwrap(), v.to_string());
        assert_eq!(de(&v.to_string()).deserialize_i64(), Ok(v));
        assert_eq!(v.to_string().parse::<i32>().ok(), de(&v.to_string()).deserialize_i32().ok());
    }
}

#[test]
fn booleans_are_read_in_any_case() {
    assert_eq!(de("tRuE").deserialize_bool(), Ok(true));
    assert_eq!(de("yEs").deserialize_bool(), Ok(true));
    assert_eq!(de("fAlSe").deserialize_bool(), Ok(false));
    assert_eq!(de("No").deserialize_bool(), Ok(false));
    for bad in ["", "t", "tru", "truee", "1", "0", "on", "y", "n", "ye\u{17f}", "\u{212a}"] {
        assert_eq!(de(bad).deserialize_bool(), Err(Error::NotABoolean), "{:?}", bad);
    }
}

#[test]
fn a_pair_without_separator_is_no_entry() {
    assert_eq!(de_map("a"), Err(Error::NotAKeyValuePair));
    assert_eq!(de_map("{a=b}"), Err(Error::NotAKeyValuePair));
    assert_eq!(de_map("{a,b}=c"), Ok(vec![("a,b".to_string(), "c".to_string())]));
    assert_eq!(ser_map(&[("a=b".to_string(), "c,d".to_string())]), "{a=b}={c,d}");
    assert_eq!(de_map("{a=b}={c,d}"), Ok(vec![("a=b".to_string(), "c,d".to_string())]));
    assert_eq!(de_map("a=b,c"), Err(Error::NotAKeyValuePair));
}

#[test]
fn a_malformed_variant_is_no_enum() {
    assert!(matches!(de("key{val}}").deserialize_enum(), Err(Error::NotAnEnum)));
    assert!(matches!(de("{val}").deserialize_enum(), Err(Error::NotAnEnum)));
    assert_eq!(Error::from(stringly::util::SplitArgError::NotAnEnum), Error::NotAnEnum);
}

#[test]
fn errors_have_messages() {
    assert_eq!(Error::Message("custom".to_string()).to_string(), "custom");
    assert_eq!(
        Error::NotABoolean.to_string(),
        "expected a boolean (`true`, `yes`, `false`, `no`; case insensitive)"
    );
    assert_eq!(Error::NotAnInteger.to_string(), "expected an integer");
    assert_eq!(Error::NotAnUnsignedInteger.to_string(), "expected an unsigned integer");
    assert_eq!(Error::NotAFloatingPointNumber.to_string(), "expected a floating point number");
    assert_eq!(Error::NotASingleCharacter.to_string(), "expected a single character");
    assert_eq!(Error::NotAnEnum.to_string(), "expected an enum (`VARIANT` or `VARIANT{ARGS}`");
    assert_eq!(Error::NotAKeyValuePair.to_string(), "expected a key-value pair (`KEY=VALUE`)");
    assert_eq!(Error::UnexpectedValueForUnit.to_string(), "unit got an unexpected value");
    assert_eq!(Error::TooManyElements.to_string(), "too many elements");
    assert_eq!(
        Error::IndentTooSmall { lineno: 12 }.to_string(),
        "line 12: indentation should be two or more space but got one"
    );
    assert_eq!(
        Error::UnmatchedUnindent { lineno: 3 }.to_string(),
        "line 3: unindent does not match any outer indentation level"
    );
}
