//! The indented form holds no other serializations than the prettifiable.
//!
//! Every line of the indented form that is not the first adds one `{` or
//! one `,` to what is read, besides its own text: the braces and commas of
//! a serialization are as many as its lines and their texts make.  Where
//! the mark of an empty scope is followed by a line, the two are read as
//! one line, and a brace or a comma is lost.

use vstd::prelude::*;
use crate::text::{first_index, lemma_index_from};
use crate::util::inverse::{
    lemma_deprettify_prettify, lemma_item_parts, lemma_leading_spaces,
    lemma_plain_concat, lemma_read_lines_scan, lemma_scan_break, lemma_scan_concat,
    lemma_scan_plain, lemma_scan_text, lemma_spaces_plain, lemma_step_first_line, levels, opening,
    ready, scan, spaces, Reading,
};
use crate::util::level::run;
use crate::util::pretty::{
    continued, finish, item_closed, item_scope, item_text, item_tidy,
    lemma_continued_concat, lemma_continued_plain, needs_escape, prettifiable, prettified,
    pretty_item, pretty_rest, pretty_scope, rendered, rest_closed, rest_tidy, step, unprettified,
    unwind, DeprettifyError, Fault, Progress,
};
use crate::util::split::{first_boundary, lemma_boundary_from};

verus! {

/// Whether the character is `{` or `,`.
pub open spec fn is_joint(c: char) -> bool {
    c == '{' || c == ','
}

/// The number of `{` and `,` in a text.
pub open spec fn joints(s: Seq<char>) -> int
    decreases s.len(),
{
    if s.len() == 0 {
        0
    } else if is_joint(s.last()) {
        joints(s.drop_last()) + 1
    } else {
        joints(s.drop_last())
    }
}

/// The joints of two texts in a row are those of both.
pub proof fn lemma_joints_concat(a: Seq<char>, b: Seq<char>)
    ensures
        joints(a + b) == joints(a) + joints(b),
    decreases b.len(),
{
    if b.len() == 0 {
        assert(a + b =~= a);
    } else {
        assert((a + b).drop_last() =~= a + b.drop_last());
        lemma_joints_concat(a, b.drop_last());
    }
}

/// A text without `{` and `,` has no joints.
pub proof fn lemma_joints_none(s: Seq<char>)
    requires
        forall|i: int| 0 <= i < s.len() ==> !is_joint(s[i]),
    ensures
        joints(s) == 0,
    decreases s.len(),
{
    if s.len() > 0 {
        lemma_joints_none(s.drop_last());
    }
}

/// The joints of a text of one character.
pub proof fn lemma_joints_one(c: char)
    ensures
        joints(seq![c]) == if is_joint(c) {
            1int
        } else {
            0int
        },
{
    assert(seq![c].drop_last() =~= Seq::<char>::empty());
    reveal_with_fuel(joints, 2);
}

/// What a line adds before its text has one joint, unless it is the first
/// line: the `{` that opens a scope, or the `,` behind the braces that
/// close scopes.
pub proof fn lemma_joints_opening(m: int, j: int)
    ensures
        joints(opening(m, j)) == if m <= 0 {
            0int
        } else {
            1int
        },
{
    if m <= 0 {
    } else if m <= j {
        lemma_joints_one('{');
    } else {
        let closers = run('}', (m - 1 - j) as nat);
        lemma_joints_none(closers);
        assert(closers.push(',') =~= closers + seq![',']);
        lemma_joints_concat(closers, seq![',']);
        lemma_joints_one(',');
    }
}

/// The continuation of a text behind an indent without joints has the
/// joints of the text.
pub proof fn lemma_joints_continued(text: Seq<char>, indent: Seq<char>)
    requires
        joints(indent) == 0,
    ensures
        joints(continued(text, indent)) == joints(text),
    decreases text.len(),
{
    if text.len() > 0 {
        let front = continued(text.drop_last(), indent);
        lemma_joints_continued(text.drop_last(), indent);
        if text.last() == '\n' {
            let bar = seq![' ', '|'];
            lemma_joints_concat(front, seq!['\n']);
            lemma_joints_one('\n');
            lemma_joints_concat(front + seq!['\n'], indent);
            lemma_joints_concat(front + seq!['\n'] + indent, bar);
            assert(joints(bar) == 0) by {
                lemma_joints_none(bar);
            }
        } else {
            assert(front.push(text.last()) =~= front + seq![text.last()]);
            lemma_joints_concat(front, seq![text.last()]);
            lemma_joints_one(text.last());
        }
    }
}

/// Spaces have no joints.
pub proof fn lemma_joints_spaces(n: int)
    ensures
        joints(spaces(n)) == 0,
{
    lemma_joints_none(spaces(n));
}

/// The text of an item as it stands on its lines has the joints of the
/// text.
pub proof fn lemma_joints_rendered(text: Seq<char>, n: int)
    ensures
        joints(rendered(text, spaces(n))) == joints(text),
{
    if needs_escape(text) {
        let mark = seq!['>', '|'];
        lemma_joints_spaces(n);
        lemma_joints_continued(text, spaces(n));
        lemma_joints_concat(mark, continued(text, spaces(n)));
        lemma_joints_none(mark);
    }
}

/// The joints of an item: those of its text, and with a scope the brace
/// that opens it and those of the scope.
pub proof fn lemma_joints_item(part: Seq<char>)
    ensures
        joints(part) == joints(item_text(part)) + match item_scope(part) {
            Some(scope) => 1 + joints(scope),
            None => 0,
        },
{
    lemma_item_parts(part);
    match item_scope(part) {
        Some(scope) => {
            let text = item_text(part);
            lemma_joints_concat(text, seq!['{']);
            lemma_joints_concat(text + seq!['{'], scope);
            lemma_joints_concat(text + seq!['{'] + scope, seq!['}']);
            lemma_joints_one('{');
            lemma_joints_one('}');
        },
        None => {},
    }
}

/// The joints of items: those of the first, the comma, and those of the
/// rest.
pub proof fn lemma_joints_rest(rest: Seq<char>, i: int)
    requires
        0 <= i < rest.len(),
        rest[i] == ',',
    ensures
        joints(rest) == joints(rest.take(i)) + 1 + joints(rest.skip(i + 1)),
{
    assert(rest =~= rest.take(i) + seq![','] + rest.skip(i + 1));
    lemma_joints_concat(rest.take(i), seq![',']);
    lemma_joints_concat(rest.take(i) + seq![','], rest.skip(i + 1));
    lemma_joints_one(',');
}

/// Closing the open scopes at the end adds no joints.
pub proof fn lemma_joints_finish(p: Progress)
    ensures
        joints(finish(p)) == joints(p.out),
{
    if p.indents.len() > 0 {
        let closers = run('}', (p.indents.len() - 1) as nat);
        lemma_joints_none(closers);
        lemma_joints_concat(p.out, closers);
    }
}

/// Among scopes that are two spaces apart none has an odd indent.
pub proof fn lemma_unwind_odd(m: int, j: int)
    requires
        0 <= m,
    ensures
        unwind(levels(m), 2 * j + 1) is None,
    decreases m,
{
    if m > 0 {
        assert(levels(m).drop_last() =~= levels(m - 1));
        lemma_unwind_odd(m - 1, j);
    }
}

/// A line that would continue the escaped text of the scope `j` is not
/// read where that text is not being read and deeper scopes are open: its
/// indent is that of no scope.
pub proof fn lemma_step_stray_continuation(p: Progress, m: int, j: int, tail: Seq<char>)
    requires
        0 <= j,
        j + 2 <= m,
        p.indents == levels(m),
        p.block != Some(2 * j),
    ensures
        step(p, spaces(2 * j) + seq![' ', '|'] + tail) is Err,
{
    let n = 2 * j;
    let line = spaces(n) + seq![' ', '|'] + tail;
    assert(line =~= spaces(n + 1) + (seq!['|'] + tail));
    lemma_leading_spaces(n + 1, seq!['|'] + tail);
    lemma_unwind_odd(m, j);
    assert(levels(m).last() == 2 * (m - 1));
}

/// The mark of the empty scope `i`, as it stands on its line.
pub open spec fn pending(i: int) -> Seq<char> {
    spaces(2 * i) + seq!['>', '|']
}

/// A line that is read behind the mark of the empty scope `i` is read as
/// the text of that scope.
pub proof fn lemma_step_merged(p: Progress, m: int, i: int, line: Seq<char>)
    requires
        ready(p, m),
        1 <= i <= m,
    ensures
        step(p, pending(i) + line) == Ok::<_, Fault>(
            Progress {
                out: p.out + opening(m, i) + line,
                indents: levels(i + 1),
                block: Some(2 * i),
            },
        ),
{
    let tail = seq!['>', '|'] + line;
    lemma_step_first_line(p, m, i, tail);
    assert(spaces(2 * i) + tail =~= pending(i) + line);
    assert(tail.skip(2) =~= line);
}

/// The line of a text without line break, read behind the mark of the
/// empty scope `i`: its joints are added, and one for the line of the mark.
pub proof fn lemma_scan_line_merged(
    p: Progress,
    m: int,
    i: int,
    j: int,
    text: Seq<char>,
    lineno: int,
) -> (r: Reading)
    requires
        ready(p, m),
        0 <= j < i <= m,
        first_index(text, '\n') is None,
    ensures
        scan(
            Reading { progress: p, partial: pending(i), lineno },
            spaces(2 * j) + rendered(text, spaces(2 * j)) + seq!['\n'],
        ) == Ok::<_, DeprettifyError>(r),
        r.partial == Seq::<char>::empty(),
        ready(r.progress, i + 1),
        joints(r.progress.out) == joints(p.out) + 1 + joints(text),
{
    let indent = spaces(2 * j);
    let body = rendered(text, indent);
    let line = indent + body;
    let start = Reading { progress: p, partial: pending(i), lineno };
    lemma_spaces_plain(2 * j);
    assert(first_index(body, '\n') is None) by {
        if needs_escape(text) {
            let mark = seq!['>', '|'];
            lemma_continued_plain(text, indent);
            assert(first_index(mark, '\n') is None) by {
                lemma_index_from(mark, '\n', 0);
            }
            lemma_plain_concat(mark, text);
        }
    }
    lemma_plain_concat(indent, body);
    lemma_scan_plain(start, line);
    let at_end = Reading { partial: pending(i) + line, ..start };
    lemma_scan_concat(start, line, seq!['\n']);
    lemma_scan_break(at_end);
    lemma_step_merged(p, m, i, line);
    let q = Progress { out: p.out + opening(m, i) + line, indents: levels(i + 1), block: Some(2 * i) };
    lemma_joints_opening(m, i);
    lemma_joints_spaces(2 * j);
    lemma_joints_rendered(text, 2 * j);
    lemma_joints_concat(p.out, opening(m, i));
    lemma_joints_concat(p.out + opening(m, i), line);
    lemma_joints_concat(indent, body);
    Reading { progress: q, partial: Seq::empty(), lineno: lineno + 1 }
}

/// A text with a line break is its first line, the line break, and the
/// rest.
pub proof fn lemma_first_line(text: Seq<char>) -> (res: (Seq<char>, Seq<char>))
    requires
        first_index(text, '\n') is Some,
    ensures
        first_index(res.0, '\n') is None,
        text == res.0 + seq!['\n'] + res.1,
{
    lemma_index_from(text, '\n', 0);
    let k = first_index(text, '\n').unwrap();
    let head = text.take(k);
    let tail = text.skip(k + 1);
    assert(text =~= head + seq!['\n'] + tail);
    lemma_index_from(head, '\n', 0);
    if first_index(head, '\n') is Some {
        let x = first_index(head, '\n').unwrap();
        assert(text[x] == head[x]);
    }
    (head, tail)
}

/// The continuation of a first line, a line break and a rest: the first
/// line, the line break, the indent and ` |`, and the continuation of the
/// rest.
pub proof fn lemma_continued_break(head: Seq<char>, tail: Seq<char>, indent: Seq<char>)
    requires
        first_index(head, '\n') is None,
    ensures
        continued(head + seq!['\n'] + tail, indent) == head + seq!['\n'] + indent + seq![
            ' ',
            '|',
        ] + continued(tail, indent),
{
    lemma_continued_concat(head + seq!['\n'], tail, indent);
    lemma_continued_concat(head, seq!['\n'], indent);
    lemma_continued_plain(head, indent);
    assert(continued(seq!['\n'], indent) =~= seq!['\n'] + indent + seq![' ', '|']) by {
        assert(seq!['\n'].drop_last() =~= Seq::<char>::empty());
        reveal_with_fuel(continued, 2);
    }
    assert(head + (seq!['\n'] + indent + seq![' ', '|']) + continued(tail, indent) =~= head
        + seq!['\n'] + indent + seq![' ', '|'] + continued(tail, indent));
}

/// The first two lines of the lines of a text with a line break, and
/// what follows them: the text up to its first line break behind the mark
/// `>|`, and a continuation line.
#[verifier::rlimit(40)]
pub proof fn lemma_escaped_lines(text: Seq<char>, indent: Seq<char>) -> (res: (
    Seq<char>,
    Seq<char>,
    Seq<char>,
))
    requires
        first_index(text, '\n') is Some,
    ensures
        first_index(res.0, '\n') is None,
        first_index(res.1, '\n') is None,
        indent + rendered(text, indent) + seq!['\n'] == indent + seq!['>', '|'] + res.0 + seq![
            '\n',
        ] + (indent + seq![' ', '|'] + res.1) + seq!['\n'] + res.2,
{
    let (t0, t1) = lemma_first_line(text);
    lemma_continued_break(t0, t1, indent);
    let rest = continued(t1, indent) + seq!['\n'];
    assert(first_index(rest, '\n') is Some) by {
        lemma_index_from(rest, '\n', 0);
        assert(rest[rest.len() - 1] == '\n');
    }
    let (w0, w1) = lemma_first_line(rest);
    let front = indent + seq!['>', '|'] + t0 + seq!['\n'] + indent + seq![' ', '|'];
    assert(indent + rendered(text, indent) + seq!['\n'] =~= front + rest);
    assert(front + (w0 + seq!['\n'] + w1) =~= indent + seq!['>', '|'] + t0 + seq!['\n'] + (indent
        + seq![' ', '|'] + w0) + seq!['\n'] + w1);
    (t0, w0, w1)
}

/// Where the second of two lines is not read, nothing behind it is.
pub proof fn lemma_scan_second_line(
    start: Reading,
    a: Seq<char>,
    b: Seq<char>,
    more: Seq<char>,
    read: Progress,
)
    requires
        first_index(a, '\n') is None,
        first_index(b, '\n') is None,
        step(start.progress, start.partial + a) == Ok::<_, Fault>(read),
        step(read, b) is Err,
    ensures
        scan(start, a + seq!['\n'] + b + seq!['\n'] + more) is Err,
{
    let second = Reading { progress: read, partial: Seq::empty(), lineno: start.lineno + 1 };
    lemma_scan_plain(start, a);
    lemma_scan_concat(start, a, seq!['\n']);
    lemma_scan_break(Reading { partial: start.partial + a, ..start });
    lemma_scan_plain(second, b);
    assert(second.partial + b =~= b);
    lemma_scan_concat(start, a + seq!['\n'], b);
    lemma_scan_concat(start, a + seq!['\n'] + b, seq!['\n']);
    lemma_scan_break(Reading { partial: b, ..second });
    lemma_scan_concat(start, a + seq!['\n'] + b + seq!['\n'], more);
}

/// The lines of a text with a line break are not read behind the mark of
/// an empty scope: the second of them is a continuation that continues
/// nothing.
pub proof fn lemma_scan_lines_merged(
    p: Progress,
    m: int,
    i: int,
    j: int,
    text: Seq<char>,
    lineno: int,
)
    requires
        ready(p, m),
        0 <= j < i <= m,
        first_index(text, '\n') is Some,
    ensures
        scan(
            Reading { progress: p, partial: pending(i), lineno },
            spaces(2 * j) + rendered(text, spaces(2 * j)) + seq!['\n'],
        ) is Err,
{
    let indent = spaces(2 * j);
    let mark = seq!['>', '|'];
    let bar = seq![' ', '|'];
    let start = Reading { progress: p, partial: pending(i), lineno };
    let (t0, w0, w1) = lemma_escaped_lines(text, indent);
    let a = indent + mark + t0;
    let b = indent + bar + w0;
    lemma_spaces_plain(2 * j);
    assert(first_index(mark, '\n') is None) by {
        lemma_index_from(mark, '\n', 0);
    }
    assert(first_index(bar, '\n') is None) by {
        lemma_index_from(bar, '\n', 0);
    }
    lemma_plain_concat(indent, mark);
    lemma_plain_concat(indent + mark, t0);
    lemma_plain_concat(indent, bar);
    lemma_plain_concat(indent + bar, w0);
    lemma_step_merged(p, m, i, a);
    let read = Progress { out: p.out + opening(m, i) + a, indents: levels(i + 1), block: Some(2 * i) };
    lemma_step_stray_continuation(read, i + 1, j, w0);
    lemma_scan_second_line(start, a, b, w1, read);
}

/// How the reader stands between two items: the number of open scopes,
/// and the empty scope behind whose mark it stands, or zero where it
/// stands at the start of a line.
pub struct Stand {
    pub scopes: int,
    pub marker: int,
}

/// The reader stands before an item of the scope `j`: at the start of a
/// line, with the scope of the item or deeper ones open; or behind the
/// mark of an empty scope deeper than `j`.
pub open spec fn stands(r: Reading, at: Stand, j: int) -> bool {
    &&& ready(r.progress, at.scopes)
    &&& if at.marker == 0 {
        r.partial == Seq::<char>::empty() && j <= at.scopes
    } else {
        j < at.marker <= at.scopes && r.partial == pending(at.marker)
    }
}

/// The joints of what was read, and one for a mark whose line is not yet
/// read.
pub open spec fn weight(r: Reading) -> int {
    joints(r.progress.out) + if r.partial.len() > 0 {
        1int
    } else {
        0int
    }
}

/// The joint that the next line adds before its text: none for the first
/// line of all.
pub open spec fn line_joint(at: Stand) -> int {
    if at.scopes <= 0 && at.marker == 0 {
        0
    } else {
        1
    }
}

/// What the lines of an item do to the joints: the reader fails, or it
/// has the joints of the item and of its first line, less one for every
/// line that stood behind the mark of an empty scope (`res.1`).  Without
/// such a line the item is tidy, and closed where the reader does not end
/// behind a mark.
pub proof fn lemma_weigh_item(start: Reading, at: Stand, j: int, part: Seq<char>) -> (res: (
    Stand,
    int,
))
    requires
        0 <= j,
        stands(start, at, j),
    ensures
        match scan(start, pretty_item(part, spaces(2 * j))) {
            Ok(r) => {
                &&& stands(r, res.0, j)
                &&& j < res.0.scopes
                &&& weight(r) + res.1 == weight(start) + joints(part) + line_joint(at)
                &&& 0 <= res.1
                &&& at.marker != 0 ==> 1 <= res.1
                &&& res.1 == 0 ==> item_tidy(part)
                &&& res.1 == 0 && res.0.marker == 0 ==> item_closed(part)
            },
            Err(_) => true,
        },
    decreases part.len(), 0nat,
{
    let indent = spaces(2 * j);
    let text = item_text(part);
    let line = indent + rendered(text, indent) + seq!['\n'];
    let p = start.progress;
    let m = at.scopes;
    lemma_item_parts(part);
    lemma_joints_item(part);
    // the line of the text
    if at.marker != 0 && first_index(text, '\n') is Some {
        lemma_scan_lines_merged(p, m, at.marker, j, text, start.lineno);
        match item_scope(part) {
            Some(scope) => {
                lemma_scan_concat(start, line, pretty_scope(scope, indent + seq![' ', ' ']));
            },
            None => {},
        }
        return (at, 1);
    }
    let (r0, lost): (Reading, int) = if at.marker == 0 {
        let r0 = lemma_scan_text(p, m, j, text, start.lineno);
        lemma_joints_opening(m, j);
        lemma_joints_concat(p.out, opening(m, j));
        lemma_joints_concat(p.out + opening(m, j), text);
        (r0, 0)
    } else {
        (lemma_scan_line_merged(p, m, at.marker, j, text, start.lineno), 1)
    };
    let scopes = if at.marker == 0 {
        j + 1
    } else {
        at.marker + 1
    };
    assert(scan(start, line) == Ok::<_, DeprettifyError>(r0));
    assert(joints(r0.progress.out) + lost == weight(start) + joints(text) + line_joint(at));
    // the lines of the scope
    match item_scope(part) {
        Some(scope) => {
            assert(indent + seq![' ', ' '] =~= spaces(2 * (j + 1)));
            let deeper = spaces(2 * (j + 1));
            lemma_scan_concat(start, line, pretty_scope(scope, deeper));
            if scope.len() == 0 {
                let mark = seq!['>', '|'];
                lemma_spaces_plain(2 * (j + 1));
                assert(first_index(mark, '\n') is None) by {
                    lemma_index_from(mark, '\n', 0);
                }
                lemma_plain_concat(deeper, mark);
                lemma_scan_plain(r0, pending(j + 1));
                assert(r0.partial + pending(j + 1) =~= pending(j + 1));
                assert(joints(scope) == 0);
                (Stand { scopes, marker: j + 1 }, lost)
            } else {
                let inner = Stand { scopes, marker: 0 };
                let (end, more) = lemma_weigh_rest(r0, inner, j + 1, scope);
                (end, lost + more)
            }
        },
        None => (Stand { scopes, marker: 0 }, lost),
    }
}

/// What the lines of the items of a scope do to the joints: as
/// [`lemma_weigh_item`] says of one item.
pub proof fn lemma_weigh_rest(start: Reading, at: Stand, j: int, rest: Seq<char>) -> (res: (
    Stand,
    int,
))
    requires
        0 <= j,
        stands(start, at, j),
    ensures
        match scan(start, pretty_rest(rest, spaces(2 * j))) {
            Ok(r) => {
                &&& stands(r, res.0, j)
                &&& j < res.0.scopes
                &&& weight(r) + res.1 == weight(start) + joints(rest) + line_joint(at)
                &&& 0 <= res.1
                &&& at.marker != 0 ==> 1 <= res.1
                &&& res.1 == 0 ==> rest_tidy(rest)
                &&& res.1 == 0 && res.0.marker == 0 ==> rest_closed(rest)
            },
            Err(_) => true,
        },
    decreases rest.len(), 1nat,
{
    let indent = spaces(2 * j);
    lemma_boundary_from(rest, ',', 0);
    match first_boundary(rest, ',') {
        Some(i) => {
            let part = rest.take(i);
            let tail = rest.skip(i + 1);
            let (mid, lost) = lemma_weigh_item(start, at, j, part);
            lemma_scan_concat(start, pretty_item(part, indent), pretty_rest(tail, indent));
            lemma_joints_rest(rest, i);
            match scan(start, pretty_item(part, indent)) {
                Ok(r1) => {
                    let (end, more) = lemma_weigh_rest(r1, mid, j, tail);
                    (end, lost + more)
                },
                Err(_) => (at, 1),
            }
        },
        None => lemma_weigh_item(start, at, j, rest),
    }
}

/// Only a prettifiable serialization is read back from its indented form.
pub proof fn lemma_only_prettifiable(s: Seq<char>)
    requires
        unprettified(prettified(s)) == Ok::<_, DeprettifyError>(s),
    ensures
        prettifiable(s),
{
    if s.len() > 0 {
        let p = Progress { out: Seq::empty(), indents: Seq::empty(), block: None };
        let start = Reading { progress: p, partial: Seq::empty(), lineno: 1 };
        let at = Stand { scopes: 0, marker: 0 };
        assert(levels(0) =~= Seq::<int>::empty());
        assert(spaces(0) =~= Seq::<char>::empty());
        lemma_read_lines_scan(p, prettified(s), 1);
        let (end, lost) = lemma_weigh_rest(start, at, 0, s);
        match scan(start, pretty_rest(s, spaces(0))) {
            Ok(r) => {
                // what the last line adds is in the weight
                if end.marker == 0 {
                    let q = Progress { block: None, ..r.progress };
                    assert(step(r.progress, r.partial) == Ok::<_, Fault>(q));
                    lemma_joints_finish(q);
                } else {
                    let line = Seq::<char>::empty();
                    lemma_step_merged(r.progress, end.scopes, end.marker, line);
                    assert(pending(end.marker) + line =~= r.partial);
                    let q = Progress {
                        out: r.progress.out + opening(end.scopes, end.marker) + line,
                        indents: levels(end.marker + 1),
                        block: Some(2 * end.marker),
                    };
                    lemma_joints_finish(q);
                    lemma_joints_opening(end.scopes, end.marker);
                    lemma_joints_concat(r.progress.out, opening(end.scopes, end.marker));
                    lemma_joints_concat(r.progress.out + opening(end.scopes, end.marker), line);
                }
                assert(joints(s) == weight(r));
            },
            Err(_) => {},
        }
    }
}

/// Reading back the indented form of a serialization gives the
/// serialization exactly where the indented form can hold it.
pub proof fn lemma_deprettify_prettify_exactly(s: Seq<char>)
    ensures
        unprettified(prettified(s)) == Ok::<_, DeprettifyError>(s) <==> prettifiable(s),
{
    if prettifiable(s) {
        lemma_deprettify_prettify(s);
    }
    if unprettified(prettified(s)) == Ok::<_, DeprettifyError>(s) {
        lemma_only_prettifiable(s);
    }
}

} // verus!
