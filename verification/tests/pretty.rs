use stringly::util::{deprettify, is_prettifiable, prettify, DeprettifyError};

fn check_prettify(s: &str, pretty: &str) {
    assert_eq!(prettify(s), pretty);
    assert_eq!(deprettify(pretty).unwrap(), s);
}

#[test]
fn test_prettify_normal() {
    check_prettify("a=1,b=c", "a=1\nb=c\n");
    check_prettify("a=b{c,d}", "a=b\n  c\n  d\n");
    check_prettify("a=b{c=d,e{f,g}},h=i", "a=b\n  c=d\n  e\n    f\n    g\nh=i\n");
}

#[test]
fn test_prettify_leading_whitespace() {
    check_prettify(" ", ">| \n");
    check_prettify(" a", ">| a\n");
    check_prettify("a={ ,c}", "a=\n  >| \n  c\n");
}

#[test]
fn test_prettify_newline() {
    check_prettify("\n", ">|\n |\n");
    check_prettify("\na", ">|\n |a\n");
    check_prettify("a={\n,c}", "a=\n  >|\n   |\n  c\n");
}

#[test]
fn test_prettify_startswith_escape() {
    check_prettify(">|", ">|>|\n");
}

#[test]
fn test_prettify_startswith_continuation() {
    check_prettify(" >", ">| >\n");
}

#[test]
fn test_prettify_consecutive_escape() {
    check_prettify("a={ b,\nc}", "a=\n  >| b\n  >|\n   |c\n");
}

#[test]
fn test_prettify_escape_indent() {
    check_prettify("a={ b{c},d}", "a=\n  >| b\n    c\n  d\n");
}

#[test]
fn test_prettify_double_scope() {
    check_prettify("a{b}c{d}", "a{b}c{d}\n");
}

#[test]
fn test_prettify_all_indented() {
    assert_eq!(deprettify("  a=b\n  c=\n    d\n").unwrap(), "a=b,c={d}");
}

#[test]
fn test_prettify_invalid_unindent() {
    assert_eq!(deprettify("a=\n  b\n c\n"), Err(DeprettifyError::UnmatchedUnindent { lineno: 3 }));
}

#[test]
fn test_prettify_invalid_indent() {
    assert_eq!(deprettify("a=\n b\n"), Err(DeprettifyError::IndentTooSmall { lineno: 2 }));
    assert_eq!(deprettify("a=\n  >|\n   b\n"), Err(DeprettifyError::IndentTooSmall { lineno: 3 }));
}

#[test]
fn prettify_documented_examples() {
    assert_eq!(prettify("a=1,b=2,{d=1,e=2}"), "a=1\nb=2\n{d=1,e=2}\n");
    assert_eq!(prettify("a=1,b={c=2,d=3},e=4"), "a=1\nb=\n  c=2\n  d=3\ne=4\n");
    assert_eq!(
        prettify("a={ multi\nline\n  string\n},b=2"),
        "a=\n  >| multi\n   |line\n   |  string\n   |\nb=2\n"
    );
    check_prettify("a={ multi\nline\n  string\n},b=2", "a=\n  >| multi\n   |line\n   |  string\n   |\nb=2\n");
}

#[test]
fn prettify_of_the_empty_string_is_empty() {
    check_prettify("", "");
}

#[test]
fn an_empty_scope_is_marked_without_a_line_break() {
    check_prettify("a{}", "a\n  >|");
    check_prettify("x,a{b{}}", "x\na\n  b\n    >|");
    assert_eq!(prettify("a{},b"), "a\n  >|b\n");
    assert_eq!(deprettify("a\n  >|b\n").unwrap(), "a{b}");
}

#[test]
fn empty_items_are_escaped() {
    check_prettify(",", ">|\n>|\n");
    check_prettify("a,,b", "a\n>|\nb\n");
}

#[test]
fn unbalanced_items_stay_on_their_line() {
    check_prettify("}", "}\n");
    check_prettify("{", "{\n");
    check_prettify("a{", "a{\n");
    check_prettify("}a{b}", "}a\n  b\n");
    check_prettify("a{b{c},d}", "a\n  b\n    c\n  d\n");
    check_prettify("a{b{c}},d", "a\n  b\n    c\nd\n");
}

#[test]
fn wide_characters_pass_through() {
    check_prettify("a\u{e9}{\u{1f600},>\u{e9}}", "a\u{e9}\n  \u{1f600}\n  >\u{e9}\n");
    assert_eq!(deprettify(" >|\n\u{e9}a"), Err(DeprettifyError::UnmatchedUnindent { lineno: 2 }));
    assert_eq!(deprettify(" >|\n \u{e9}a").unwrap(), ",\u{e9}a");
    assert_eq!(deprettify("a\u{e9}\n").unwrap(), "a\u{e9}");
}

#[test]
fn empty_lines_are_passed_over() {
    assert_eq!(deprettify("\n\na\n\n  b\n\n").unwrap(), "a{b}");
    assert_eq!(deprettify(">|a\n\n |b\n"), Err(DeprettifyError::IndentTooSmall { lineno: 3 }));
    assert_eq!(deprettify("  ").unwrap(), "");
}

#[test]
fn unindent_closes_several_scopes() {
    assert_eq!(deprettify("a\n   b\n        c\n   d\ne\n").unwrap(), "a{b{c},d},e");
    assert_eq!(deprettify("  a\nb\n"), Err(DeprettifyError::UnmatchedUnindent { lineno: 2 }));
}

#[test]
fn errors_name_their_line() {
    assert_eq!(
        DeprettifyError::IndentTooSmall { lineno: 2 }.to_string(),
        "line 2: indentation should be two or more space but got one"
    );
    assert_eq!(
        DeprettifyError::UnmatchedUnindent { lineno: 1048576 }.to_string(),
        "line 1048576: unindent does not match any outer indentation level"
    );
    assert_eq!(
        deprettify("a\n\n\n\n\n\n\n\n\n\n b").unwrap_err().to_string(),
        "line 11: indentation should be two or more space but got one"
    );
}

#[test]
fn an_empty_scope_before_a_line_is_not_read_back() {
    assert!(is_prettifiable(""));
    assert!(is_prettifiable("a{}"));
    assert!(is_prettifiable("x,a{b{}}"));
    assert!(is_prettifiable("a{b}c{},d"));
    assert!(is_prettifiable("a{b{c},d},e"));
    assert!(!is_prettifiable("a{},b"));
    assert!(!is_prettifiable("a{b{}},c"));
    assert!(!is_prettifiable("a{b{},c}"));
    assert!(!is_prettifiable("T{},T{}"));
    assert_eq!(deprettify(&prettify("T{},T{}")).unwrap(), "T{T,}");
    assert_eq!(
        deprettify(&prettify("a{},>|\nb")),
        Err(DeprettifyError::UnmatchedUnindent { lineno: 3 })
    );
}

#[test]
fn what_is_prettifiable_is_read_back_and_nothing_else() {
    let alphabet = ['a', '{', '}', ',', ' ', '\n', '>', '|'];
    let mut count = 0;
    for length in 0..6u32 {
        for code in 0..alphabet.len().pow(length) {
            let mut s = String::new();
            let mut k = code;
            for _ in 0..length {
                s.push(alphabet[k % alphabet.len()]);
                k /= alphabet.len();
            }
            let read_back = deprettify(&prettify(&s)) == Ok(s.clone());
            assert_eq!(read_back, is_prettifiable(&s), "{:?}", s);
            count += 1;
        }
    }
    assert_eq!(count, 1 + 8 + 64 + 512 + 4096 + 32768);
}
