use stringly::util::{
    is_balanced, protect, protect_unbalanced, protect_unconditionally, safesplit, safesplit_once,
    splitarg, unprotect, SafesplitOnceError, SplitArgError,
};

fn assert_protected(orig: &str, check_protected: Option<&str>, sep: Option<char>) {
    let orig_protected = match sep {
        Some(sep_) => protect(orig, sep_),
        None => protect_unconditionally(orig),
    };
    if let Some(protected_) = check_protected {
        assert_eq!(orig_protected, protected_);
    }
    if let Some(sep_) = sep {
        let parts: Vec<&str> = safesplit(&orig_protected, sep_).collect();
        match orig {
            "" => assert_eq!(parts.len(), 0),
            _ => assert_eq!(parts, [&orig_protected]),
        };
    }
    assert_eq!(unprotect(&orig_protected), orig);
    assert!(is_balanced(&orig_protected));
}

fn assert_normal(s: &str) {
    let sep = ',';
    assert_eq!(s.contains(sep), false);
    assert_protected(s, Some(s), Some(sep));
    assert_protected(s, Some(&["{", s, "}"].concat()), None);
}

fn assert_normal_unless_unconditional_protection(s: &str, protected: &str) {
    let sep = ',';
    assert_eq!(s.contains(sep), false);
    assert_protected(s, Some(s), Some(sep));
    assert_protected(s, Some(protected), None);
}

#[test]
fn test_safesplit() {
    assert_eq!(safesplit("", ',').collect().len(), 0);
    assert_eq!(safesplit(" ", ',').collect(), [" "]);
    assert_eq!(safesplit("a,b{c,d}", ',').collect(), ["a", "b{c,d}"]);
    assert_eq!(safesplit(",", ',').collect(), ["", ""]);
}

#[test]
fn test_safesplit_once() {
    assert_eq!(safesplit_once("", ','), Err(SafesplitOnceError::SeparatorNotFound));
    assert_eq!(safesplit_once("{,}", ','), Err(SafesplitOnceError::SeparatorNotFound));
    assert_eq!(safesplit_once("a,b", ','), Ok(("a", "b")));
    assert_eq!(safesplit_once("a,b,c", ','), Ok(("a", "b,c")));
    assert_eq!(safesplit_once("{a,b},c", ','), Ok(("{a,b}", "c")));
}

#[test]
fn test_protect_combinations() {
    let chs1 = ['{', '}', '<', '>'];
    let chs2 = ['{', '}', ',', 'x'];
    let makestr = |i: usize, length: u32, chs: [char; 4]| {
        let mut v = String::new();
        let mut k = i;
        for _j in 0..length {
            v.push(chs[k % 4]);
            k /= 4;
        }
        v
    };
    for length in 0..6 {
        for i in 0..(4 as usize).pow(length) {
            assert_protected(&makestr(i, length, chs1), None, Some(','));
            assert_protected(&makestr(i, length, chs1), None, None);
            assert_protected(&makestr(i, length, chs2), None, Some(','));
        }
    }
}

#[test]
fn test_protect_normality() {
    assert_normal("");
    assert_normal("abc");
    assert_normal("ab{cd}ef");
    assert_normal("<abc>");
    assert_normal("<abc></abc>");
    assert_normal("<{}>");
    assert_normal("a\nb");
}

#[test]
fn test_protect_protection() {
    assert_protected("abc,def", Some("{abc,def}"), Some(','));
    assert_protected("ab{c,d}ef", Some("ab{c,d}ef"), Some(','));
    assert_protected("a{b,c}d,ef", Some("{a{b,c}d,ef}"), Some(','));
}

#[test]
fn test_protect_braces() {
    assert_protected("{abc}", Some("{{abc}}"), Some(','));
    assert_protected("{abc{", Some("{{abc{<}}>}"), Some(','));
    assert_protected("}abc}", Some("{<{{>}abc}}"), Some(','));
    assert_protected("}abc{", Some("{<{>}abc{<}>}"), Some(','));
    assert_protected("}abc", Some("{<{>}abc}"), Some(','));
    assert_protected("abc{", Some("{abc{<}>}"), Some(','));
    assert_protected("abc}def", Some("{<{>abc}def}"), Some(','));
    assert_protected("abc{def", Some("{abc{def<}>}"), Some(','));
    assert_protected("a{bc}de{f", Some("{a{bc}de{f<}>}"), Some(','));
    assert_protected("a}bc{de}f", Some("{<{>a}bc{de}f}"), Some(','));
}

#[test]
fn test_protect_balancers() {
    assert_normal_unless_unconditional_protection("<>", "{<><><>}");
    assert_normal_unless_unconditional_protection("a<>", "{a<><>}");
    assert_normal_unless_unconditional_protection("<>a", "{<><>a}");
    assert_normal_unless_unconditional_protection("<{><}>", "{<><{><}><>}");
    assert_normal_unless_unconditional_protection("<{{><}}>", "{<><{{><}}><>}");
    assert_protected("<{>", Some("{<><{><}>}"), Some(','));
    assert_protected("<}>", Some("{<{><}><>}"), Some(','));
    assert_protected("<{{>", Some("{<><{{><}}>}"), Some(','));
    assert_protected("<}}>", Some("{<{{><}}><>}"), Some(','));
    assert_protected("<>,", Some("{<><>,}"), Some(','));
    assert_protected(",<>", Some("{,<><>}"), Some(','));
    assert_protected("<>,<>", Some("{<><>,<><>}"), Some(','));
}

#[test]
fn test_protect_two_symbols() {
    assert_eq!(protect("a=b", ['=', ',']), "{a=b}");
}

#[test]
fn test_splitarg() {
    assert_eq!(splitarg("key"), Ok(("key", "")));
    assert_eq!(splitarg("key{val}"), Ok(("key", "val")));
    assert_eq!(splitarg("key{<{>val}}"), Ok(("key", "val}")));
    assert_eq!(splitarg("key{val"), Err(SplitArgError::NotAnEnum));
    assert_eq!(splitarg("k}ey{val"), Err(SplitArgError::NotAnEnum));
    assert_eq!(splitarg("key{val}}"), Err(SplitArgError::NotAnEnum));
    assert_eq!(splitarg("key{val}}{}"), Err(SplitArgError::NotAnEnum));
}

#[test]
fn splitarg_rejects_an_empty_tag() {
    assert_eq!(splitarg("{val}"), Err(SplitArgError::NotAnEnum));
    assert_eq!(splitarg(""), Ok(("", "")));
}

#[test]
fn protect_edge_cases() {
    assert_eq!(protect_unconditionally(""), "{}");
    assert_eq!(protect("}", ','), "{<{>}}");
    assert_eq!(protect("a,b,c", ','), "{a,b,c}");
    assert_eq!(protect("a{b,c}", ','), "a{b,c}");
    assert_eq!(protect("a,}", ','), "{<{>a,}}");
    assert_eq!(protect("a,b", [',', '=']), "{a,b}");
    assert_eq!(protect_unbalanced("a,b"), "a,b");
    assert_eq!(protect_unbalanced("a{"), "{a{<}>}");
    assert_eq!(protect_unbalanced("{a}"), "{{a}}");
}

#[test]
fn protect_leaves_braces_untested() {
    assert_eq!(protect("a{}b", '{'), "a{}b");
    assert_eq!(protect("}x{", 'x'), "{<{>}x{<}>}");
    assert_eq!(protect("}x{y", 'x'), "{<{>}x{y<}>}");
}

#[test]
fn unprotect_takes_off_what_protect_put_on() {
    assert_eq!(unprotect("abc"), "abc");
    assert_eq!(unprotect("{abc"), "{abc");
    assert_eq!(unprotect("{}"), "");
    assert_eq!(unprotect("{<>}"), "");
    assert_eq!(unprotect("{<><>}"), "");
    assert_eq!(unprotect("{<><><>}"), "<>");
    assert_eq!(unprotect("{<{>}}"), "}");
    assert_eq!(unprotect("{a<b>}"), "a<b>");
    assert_eq!(unprotect("{\u{e9}<}>}"), "\u{e9}");
}

#[test]
fn splitting_respects_wide_characters() {
    assert_eq!(safesplit("\u{e9}\u{2192}b\u{2192}{c\u{2192}d}", '\u{2192}').collect(), ["\u{e9}", "b", "{c\u{2192}d}"]);
    assert_eq!(safesplit_once("\u{1f600}=\u{e9}", '='), Ok(("\u{1f600}", "\u{e9}")));
    assert_eq!(safesplit("a}b,c{d,e", ',').collect(), ["a}b,c{d", "e"]);
}

#[test]
fn the_iterator_hands_out_items_one_by_one() {
    let mut iter = safesplit("a,,b", ',');
    assert_eq!(iter.next(), Some("a"));
    assert_eq!(iter.next(), Some(""));
    assert_eq!(iter.next(), Some("b"));
    assert_eq!(iter.next(), None);
    assert_eq!(iter.next(), None);
}

#[test]
fn balance_is_checked_prefix_by_prefix() {
    assert!(is_balanced(""));
    assert!(is_balanced("a{b{c}}d{}"));
    assert!(!is_balanced("}{"));
    assert!(!is_balanced("{"));
    assert!(!is_balanced("{}}"));
}

#[test]
fn documented_examples() {
    assert_eq!(safesplit("a,b,{c,d}", ',').collect(), ["a", "b", "{c,d}"]);
    assert_eq!(safesplit("", ',').next(), None);
    assert_eq!(safesplit_once("a,b", ','), Ok(("a", "b")));
    assert_eq!(safesplit_once("{a,b}", ','), Err(SafesplitOnceError::SeparatorNotFound));
    assert_eq!(protect("a,b,c", ','), "{a,b,c}");
    assert_eq!(protect("a{b,c}", ','), "a{b,c}");
    assert_eq!(protect("a=b", [',', '=']), "{a=b}");
    assert_eq!(protect("a,b", [',', '=']), "{a,b}");
    assert_eq!(protect("}", ','), "{<{>}}");
}

#[test]
fn collecting_takes_what_is_left() {
    let mut iter = safesplit("a,b,c", ',');
    assert_eq!(iter.next(), Some("a"));
    assert_eq!(iter.collect(), ["b", "c"]);
    let mut iter = safesplit("a", ',');
    assert_eq!(iter.next(), Some("a"));
    assert_eq!(iter.collect().len(), 0);
}

#[test]
fn a_brace_as_separator_splits_before_it_counts() {
    assert_eq!(safesplit("a{b}c", '{').collect(), ["a", "b}c"]);
    assert_eq!(safesplit("a{b}c", '}').collect(), ["a{b}c"]);
    assert_eq!(safesplit("a}b", '}').collect(), ["a", "b"]);
    assert_eq!(safesplit(&protect("a", '{'), '{').collect(), ["a"]);
    assert_eq!(safesplit(&protect("a{}", '{'), '{').collect(), ["a", "}"]);
    assert_eq!(safesplit(&protect("}", '}'), '}').collect(), ["{<{>}}"]);
}
