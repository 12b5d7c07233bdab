//! Reading the indented form back gives the serialization it was made of.
//!
//! The proof follows the indented form character by character: what
//! [`deprettify`](crate::util::pretty::deprettify) has read and the line it
//! stands in.  The lines of an item leave the reader with the item appended
//! to the serialization, but for the closing braces of the scopes that the
//! next line or the end of the input will close.

use vstd::prelude::*;
use crate::text::{first_index, lemma_index_from};
use crate::util::balancer::{leading, lemma_leading};
use crate::util::level::run;
use crate::util::pretty::{
    continued, enter, fault_at, finish, item_closed, item_scope, item_text, item_tidy,
    needs_escape, prettifiable, prettified, pretty_item, pretty_rest, pretty_scope, read_lines,
    rendered, rest_closed, rest_tidy, scope_start, step, unprettified, unwind, DeprettifyError,
    Fault, Progress,
};
use crate::util::split::{first_boundary, lemma_boundary_from};

verus! {

/// `n` spaces.
pub open spec fn spaces(n: int) -> Seq<char> {
    run(' ', n as nat)
}

/// The indents of `m` scopes, each two spaces deeper than the one around it.
pub open spec fn levels(m: int) -> Seq<int> {
    Seq::new(m as nat, |i: int| 2 * i)
}

/// What has been read, the text of the line that is being read, and the
/// number of that line.
pub struct Reading {
    pub progress: Progress,
    pub partial: Seq<char>,
    pub lineno: int,
}

/// Reading on through `text`, character by character: a line break ends
/// the line that was being read.
pub open spec fn scan(start: Reading, text: Seq<char>) -> Result<Reading, DeprettifyError>
    decreases text.len(),
{
    if text.len() == 0 {
        Ok(start)
    } else {
        match scan(start, text.drop_last()) {
            Ok(r) => if text.last() == '\n' {
                match step(r.progress, r.partial) {
                    Ok(q) => Ok(
                        Reading { progress: q, partial: Seq::empty(), lineno: r.lineno + 1 },
                    ),
                    Err(fault) => Err(fault_at(fault, r.lineno)),
                }
            } else {
                Ok(Reading { partial: r.partial.push(text.last()), ..r })
            },
            Err(e) => Err(e),
        }
    }
}

/// The result at the end of the input: the line that was being read is
/// the last one.
pub open spec fn conclude(r: Reading) -> Result<Seq<char>, DeprettifyError> {
    match step(r.progress, r.partial) {
        Ok(q) => Ok(finish(q)),
        Err(fault) => Err(fault_at(fault, r.lineno)),
    }
}

/// Reading through two texts in a row is reading through both.
pub proof fn lemma_scan_concat(start: Reading, a: Seq<char>, b: Seq<char>)
    ensures
        scan(start, a + b) == match scan(start, a) {
            Ok(r) => scan(r, b),
            Err(e) => Err(e),
        },
    decreases b.len(),
{
    if b.len() == 0 {
        assert(a + b =~= a);
    } else {
        assert((a + b).drop_last() =~= a + b.drop_last());
        lemma_scan_concat(start, a, b.drop_last());
    }
}

/// Reading through a text without a line break adds it to the line.
pub proof fn lemma_scan_plain(start: Reading, text: Seq<char>)
    requires
        first_index(text, '\n') is None,
    ensures
        scan(start, text) == Ok::<_, DeprettifyError>(
            Reading { partial: start.partial + text, ..start },
        ),
    decreases text.len(),
{
    lemma_index_from(text, '\n', 0);
    if text.len() == 0 {
        assert(start.partial + text =~= start.partial);
    } else {
        let head = text.drop_last();
        lemma_index_from(head, '\n', 0);
        if first_index(head, '\n') is Some {
            let i = first_index(head, '\n').unwrap();
            assert(text[i] == head[i]);
        }
        lemma_scan_plain(start, head);
        assert((start.partial + head).push(text.last()) =~= start.partial + text);
    }
}

/// Reading a line break ends the line.
pub proof fn lemma_scan_break(start: Reading)
    ensures
        scan(start, seq!['\n']) == match step(start.progress, start.partial) {
            Ok(q) => Ok(Reading { progress: q, partial: Seq::empty(), lineno: start.lineno + 1 }),
            Err(fault) => Err(fault_at(fault, start.lineno)),
        },
{
    let text = seq!['\n'];
    assert(text.drop_last() =~= Seq::<char>::empty());
    reveal_with_fuel(scan, 2);
}

/// Reading line by line and reading character by character come to the
/// same result.
pub proof fn lemma_read_lines_scan(p: Progress, rest: Seq<char>, lineno: int)
    ensures
        read_lines(p, rest, lineno) == match scan(
            Reading { progress: p, partial: Seq::empty(), lineno },
            rest,
        ) {
            Ok(r) => conclude(r),
            Err(e) => Err(e),
        },
    decreases rest.len(),
{
    let start = Reading { progress: p, partial: Seq::empty(), lineno };
    lemma_index_from(rest, '\n', 0);
    match first_index(rest, '\n') {
        Some(i) => {
            let line = rest.take(i);
            let tail = rest.skip(i + 1);
            assert(rest =~= line + seq!['\n'] + tail);
            assert(first_index(line, '\n') is None) by {
                lemma_index_from(line, '\n', 0);
                if first_index(line, '\n') is Some {
                    let j = first_index(line, '\n').unwrap();
                    assert(rest[j] == line[j]);
                }
            }
            lemma_scan_plain(start, line);
            assert(start.partial + line =~= line);
            let at_end = Reading { partial: line, ..start };
            lemma_scan_break(at_end);
            lemma_scan_concat(start, line, seq!['\n']);
            lemma_scan_concat(start, line + seq!['\n'], tail);
            match step(p, line) {
                Ok(q) => {
                    lemma_read_lines_scan(q, tail, lineno + 1);
                },
                Err(_) => {},
            }
        },
        None => {
            lemma_scan_plain(start, rest);
            assert(start.partial + rest =~= rest);
        },
    }
}

/// The spaces before a text that does not start with one are all the
/// spaces that the line starts with.
pub proof fn lemma_leading_spaces(n: int, tail: Seq<char>)
    requires
        0 <= n,
        tail.len() == 0 || tail[0] != ' ',
    ensures
        leading(spaces(n) + tail, ' ') == n,
{
    lemma_leading(spaces(n) + tail, ' ', n);
}

/// Among scopes that are two spaces apart, the scope `j` is reached from
/// the innermost of `m` by closing the `m - 1 - j` scopes inside it.
pub proof fn lemma_unwind_levels(m: int, j: int)
    requires
        0 <= j < m,
    ensures
        unwind(levels(m), 2 * j) == Some(m - 1 - j),
    decreases m,
{
    if j + 1 < m {
        assert(levels(m).drop_last() =~= levels(m - 1));
        lemma_unwind_levels(m - 1, j);
    }
}

/// What a line of the scope `j` adds before its own text when `m` scopes
/// are open: nothing as the first line of all, `{` as the first line of
/// its scope, else the braces that close the scopes inside, and a comma.
pub open spec fn opening(m: int, j: int) -> Seq<char> {
    if m <= 0 {
        Seq::empty()
    } else if m <= j {
        seq!['{']
    } else {
        run('}', (m - 1 - j) as nat).push(',')
    }
}

/// The scopes are two spaces apart, and an escaped text that the next
/// line might continue has an even indent.
pub open spec fn ready(p: Progress, m: int) -> bool {
    &&& 0 <= m
    &&& p.indents == levels(m)
    &&& p.block is Some ==> p.block.unwrap() >= 0 && p.block.unwrap() % 2 == 0
}

/// A line of the scope `j` enters that scope.
pub proof fn lemma_enter_levels(m: int, j: int)
    requires
        0 <= j <= m,
    ensures
        enter(levels(m), 2 * j) == Ok::<_, Fault>((levels(j + 1), opening(m, j))),
{
    if m == 0 {
        assert(levels(1) =~= seq![0int]);
    } else if m == j {
        assert(levels(m).push(2 * j) =~= levels(j + 1));
    } else {
        lemma_unwind_levels(m, j);
        assert(levels(m).take(m - (m - 1 - j)) =~= levels(j + 1));
    }
}

/// The first line of an item of the scope `j`: the text behind the indent
/// is added as it is, or without the mark `>|` that it starts with.
pub proof fn lemma_step_first_line(p: Progress, m: int, j: int, tail: Seq<char>)
    requires
        ready(p, m),
        0 <= j <= m,
        tail.len() > 0,
        tail[0] != ' ',
    ensures
        step(p, spaces(2 * j) + tail) == Ok::<_, Fault>(
            if tail.len() >= 2 && tail[0] == '>' && tail[1] == '|' {
                Progress {
                    out: p.out + opening(m, j) + tail.skip(2),
                    indents: levels(j + 1),
                    block: Some(2 * j),
                }
            } else {
                Progress {
                    out: p.out + opening(m, j) + tail,
                    indents: levels(j + 1),
                    block: None,
                }
            },
        ),
{
    let n = 2 * j;
    let line = spaces(n) + tail;
    lemma_leading_spaces(n, tail);
    lemma_enter_levels(m, j);
    assert(line.skip(n) =~= tail);
    assert(line[n] == tail[0]);
    if tail.len() >= 2 {
        assert(line.skip(n + 2) =~= tail.skip(2));
        assert(line[n + 1] == tail[1]);
    }
}

/// A line that continues the escaped text of the scope `j`.
pub proof fn lemma_step_continuation(p: Progress, j: int, tail: Seq<char>)
    requires
        0 <= j,
        p.block == Some(2 * j),
    ensures
        step(p, spaces(2 * j) + seq![' ', '|'] + tail) == Ok::<_, Fault>(
            Progress { out: p.out + seq!['\n'] + tail, ..p },
        ),
{
    let n = 2 * j;
    let line = spaces(n) + seq![' ', '|'] + tail;
    assert(line =~= spaces(n + 1) + (seq!['|'] + tail));
    lemma_leading_spaces(n + 1, seq!['|'] + tail);
    assert(line[n + 1] == '|');
    assert(line.skip(n + 2) =~= tail);
}

/// Spaces hold no line break.
pub proof fn lemma_spaces_plain(n: int)
    ensures
        first_index(spaces(n), '\n') is None,
{
    lemma_index_from(spaces(n), '\n', 0);
}

/// Two texts without a line break have none together.
pub proof fn lemma_plain_concat(a: Seq<char>, b: Seq<char>)
    requires
        first_index(a, '\n') is None,
        first_index(b, '\n') is None,
    ensures
        first_index(a + b, '\n') is None,
{
    lemma_index_from(a, '\n', 0);
    lemma_index_from(b, '\n', 0);
    lemma_index_from(a + b, '\n', 0);
    if first_index(a + b, '\n') is Some {
        let i = first_index(a + b, '\n').unwrap();
        if i < a.len() {
            assert((a + b)[i] == a[i]);
        } else {
            assert((a + b)[i] == b[i - a.len()]);
        }
    }
}

/// What has been read once the line of an escaped text is complete.
pub open spec fn escaped_read(p: Progress, m: int, j: int, text: Seq<char>) -> Progress {
    Progress { out: p.out + opening(m, j) + text, indents: levels(j + 1), block: Some(2 * j) }
}

/// How the reader stands in the lines of an escaped text of which it has
/// read `text` so far.  Either the first line is still being read (`first`)
/// and holds all of `text` behind the mark; or a continuation line is being
/// read, and `text` is what was added before it, a line break, and what the
/// line holds (`tail`).
pub open spec fn in_escaped(
    p: Progress,
    m: int,
    j: int,
    text: Seq<char>,
    r: Reading,
    first: bool,
    tail: Seq<char>,
) -> bool {
    &&& first_index(r.partial, '\n') is None
    &&& first ==> {
        &&& r.progress == p
        &&& r.partial == spaces(2 * j) + seq!['>', '|'] + text
    }
    &&& !first ==> {
        &&& r.progress.indents == levels(j + 1)
        &&& r.progress.block == Some(2 * j)
        &&& r.partial == spaces(2 * j) + seq![' ', '|'] + tail
        &&& r.progress.out + seq!['\n'] + tail == p.out + opening(m, j) + text
    }
}

/// Where the reader stands in the lines of an escaped text, the end of the
/// line completes the text read so far.
pub proof fn lemma_in_escaped_step(
    p: Progress,
    m: int,
    j: int,
    text: Seq<char>,
    r: Reading,
    first: bool,
    tail: Seq<char>,
)
    requires
        ready(p, m),
        0 <= j <= m,
        in_escaped(p, m, j, text, r, first, tail),
    ensures
        step(r.progress, r.partial) == Ok::<_, Fault>(escaped_read(p, m, j, text)),
{
    let indent = spaces(2 * j);
    let mark = seq!['>', '|'];
    if first {
        lemma_step_first_line(p, m, j, mark + text);
        assert(indent + (mark + text) =~= r.partial);
        assert((mark + text).skip(2) =~= text);
    } else {
        lemma_step_continuation(r.progress, j, tail);
    }
}

/// One more character of the escaped text that is no line break.
pub proof fn lemma_in_escaped_push(
    p: Progress,
    m: int,
    j: int,
    text: Seq<char>,
    r: Reading,
    first: bool,
    tail: Seq<char>,
    c: char,
)
    requires
        in_escaped(p, m, j, text, r, first, tail),
        c != '\n',
    ensures
        in_escaped(
            p,
            m,
            j,
            text.push(c),
            Reading { partial: r.partial.push(c), ..r },
            first,
            tail.push(c),
        ),
{
    let indent = spaces(2 * j);
    assert(first_index(seq![c], '\n') is None) by {
        lemma_index_from(seq![c], '\n', 0);
    }
    lemma_plain_concat(r.partial, seq![c]);
    assert(r.partial + seq![c] =~= r.partial.push(c));
    if first {
        assert(indent + seq!['>', '|'] + text.push(c) =~= r.partial.push(c));
    } else {
        assert(indent + seq![' ', '|'] + tail.push(c) =~= r.partial.push(c));
        assert(r.progress.out + seq!['\n'] + tail.push(c) =~= (r.progress.out + seq!['\n']
            + tail).push(c));
        assert(p.out + opening(m, j) + text.push(c) =~= (p.out + opening(m, j) + text).push(c));
    }
}

/// A line break in the escaped text: a continuation line starts.
pub proof fn lemma_in_escaped_break(p: Progress, m: int, j: int, text: Seq<char>, lineno: int)
    requires
        0 <= j <= m,
    ensures
        in_escaped(
            p,
            m,
            j,
            text.push('\n'),
            Reading {
                progress: escaped_read(p, m, j, text),
                partial: spaces(2 * j) + seq![' ', '|'],
                lineno,
            },
            false,
            Seq::empty(),
        ),
{
    let indent = spaces(2 * j);
    let bar = seq![' ', '|'];
    lemma_spaces_plain(2 * j);
    assert(first_index(bar, '\n') is None) by {
        lemma_index_from(bar, '\n', 0);
    }
    lemma_plain_concat(indent, bar);
    assert(indent + bar + Seq::<char>::empty() =~= indent + bar);
    assert(p.out + opening(m, j) + text + seq!['\n'] + Seq::<char>::empty() =~= p.out + opening(
        m,
        j,
    ) + text.push('\n'));
}

/// Reading the mark `>|` and an escaped text, up to its end and not yet
/// beyond.
pub proof fn lemma_scan_escaped(p: Progress, m: int, j: int, text: Seq<char>, lineno: int) -> (res:
    (Reading, bool, Seq<char>))
    requires
        ready(p, m),
        0 <= j <= m,
    ensures
        scan(
            Reading { progress: p, partial: Seq::empty(), lineno },
            spaces(2 * j) + seq!['>', '|'] + continued(text, spaces(2 * j)),
        ) == Ok::<_, DeprettifyError>(res.0),
        in_escaped(p, m, j, text, res.0, res.1, res.2),
    decreases text.len(),
{
    let indent = spaces(2 * j);
    let mark = seq!['>', '|'];
    let bar = seq![' ', '|'];
    let start = Reading { progress: p, partial: Seq::empty(), lineno };
    if text.len() == 0 {
        let head = indent + mark;
        lemma_spaces_plain(2 * j);
        assert(first_index(mark, '\n') is None) by {
            lemma_index_from(mark, '\n', 0);
        }
        lemma_plain_concat(indent, mark);
        assert(head + continued(text, indent) =~= head);
        lemma_scan_plain(start, head);
        assert(start.partial + head =~= head);
        assert(indent + mark + text =~= head);
        (Reading { partial: head, ..start }, true, text)
    } else {
        let front = text.drop_last();
        let c = text.last();
        let (before, first, old_tail) = lemma_scan_escaped(p, m, j, front, lineno);
        let g = indent + mark + continued(front, indent);
        assert(front.push(c) =~= text);
        if c == '\n' {
            assert(indent + mark + continued(text, indent) =~= g + seq!['\n'] + (indent + bar));
            lemma_scan_concat(start, g, seq!['\n']);
            lemma_scan_break(before);
            lemma_in_escaped_step(p, m, j, front, before, first, old_tail);
            let broken = Reading {
                progress: escaped_read(p, m, j, front),
                partial: Seq::empty(),
                lineno: before.lineno + 1,
            };
            lemma_in_escaped_break(p, m, j, front, before.lineno + 1);
            lemma_scan_plain(broken, indent + bar);
            lemma_scan_concat(start, g + seq!['\n'], indent + bar);
            assert(broken.partial + (indent + bar) =~= indent + bar);
            (Reading { partial: indent + bar, ..broken }, false, Seq::empty())
        } else {
            assert(indent + mark + continued(text, indent) =~= g + seq![c]);
            lemma_scan_concat(start, g, seq![c]);
            assert(first_index(seq![c], '\n') is None) by {
                lemma_index_from(seq![c], '\n', 0);
            }
            lemma_scan_plain(before, seq![c]);
            assert(before.partial + seq![c] =~= before.partial.push(c));
            lemma_in_escaped_push(p, m, j, front, before, first, old_tail, c);
            (Reading { partial: before.partial.push(c), ..before }, first, old_tail.push(c))
        }
    }
}

/// Reading the line of the text of an item, or its lines where the text
/// is escaped: the text is added to what was read.
pub proof fn lemma_scan_text(p: Progress, m: int, j: int, text: Seq<char>, lineno: int) -> (r:
    Reading)
    requires
        ready(p, m),
        0 <= j <= m,
    ensures
        scan(
            Reading { progress: p, partial: Seq::empty(), lineno },
            spaces(2 * j) + rendered(text, spaces(2 * j)) + seq!['\n'],
        ) == Ok::<_, DeprettifyError>(r),
        r.partial == Seq::<char>::empty(),
        r.progress.out == p.out + opening(m, j) + text,
        ready(r.progress, j + 1),
{
    let indent = spaces(2 * j);
    let start = Reading { progress: p, partial: Seq::empty(), lineno };
    if needs_escape(text) {
        let (before, first, tail) = lemma_scan_escaped(p, m, j, text, lineno);
        lemma_in_escaped_step(p, m, j, text, before, first, tail);
        let g = indent + seq!['>', '|'] + continued(text, indent);
        assert(indent + rendered(text, indent) =~= g);
        lemma_scan_concat(start, g, seq!['\n']);
        lemma_scan_break(before);
        Reading {
            progress: escaped_read(p, m, j, text),
            partial: Seq::empty(),
            lineno: before.lineno + 1,
        }
    } else {
        let line = indent + text;
        lemma_spaces_plain(2 * j);
        lemma_plain_concat(indent, text);
        lemma_scan_plain(start, line);
        assert(start.partial + line =~= line);
        let at_end = Reading { partial: line, ..start };
        lemma_scan_concat(start, line, seq!['\n']);
        lemma_scan_break(at_end);
        lemma_step_first_line(p, m, j, text);
        Reading {
            progress: Progress {
                out: p.out + opening(m, j) + text,
                indents: levels(j + 1),
                block: None,
            },
            partial: Seq::empty(),
            lineno: lineno + 1,
        }
    }
}

/// An item is its text, or its text and its scope in braces.
pub proof fn lemma_item_parts(part: Seq<char>)
    ensures
        match item_scope(part) {
            Some(scope) => scope.len() < part.len() && part == item_text(part) + seq!['{'] + scope
                + seq!['}'],
            None => part == item_text(part),
        },
{
    lemma_index_from(part, '{', 0);
    match scope_start(part) {
        Some(i) => {
            let scope = part.subrange(i + 1, part.len() - 1);
            assert(part =~= part.take(i) + seq!['{'] + scope + seq!['}']);
        },
        None => {},
    }
}

/// The lines of a closed item leave the reader in a scope of the item or
/// deeper, with the item added but for the braces that close the scopes
/// inside its own.
pub proof fn lemma_scan_closed_item(p: Progress, m: int, j: int, part: Seq<char>, lineno: int) -> (res:
    (Reading, int))
    requires
        ready(p, m),
        0 <= j <= m,
        item_closed(part),
    ensures
        scan(
            Reading { progress: p, partial: Seq::empty(), lineno },
            pretty_item(part, spaces(2 * j)),
        ) == Ok::<_, DeprettifyError>(res.0),
        res.0.partial == Seq::<char>::empty(),
        j + 1 <= res.1,
        ready(res.0.progress, res.1),
        res.0.progress.out + run('}', (res.1 - j - 1) as nat) == p.out + opening(m, j) + part,
    decreases part.len(), 0nat,
{
    let indent = spaces(2 * j);
    let start = Reading { progress: p, partial: Seq::empty(), lineno };
    let text = item_text(part);
    let line = indent + rendered(text, indent) + seq!['\n'];
    let r0 = lemma_scan_text(p, m, j, text, lineno);
    lemma_item_parts(part);
    match item_scope(part) {
        Some(scope) => {
            assert(indent + seq![' ', ' '] =~= spaces(2 * (j + 1)));
            let deeper = spaces(2 * (j + 1));
            assert(pretty_item(part, indent) == line + pretty_rest(scope, deeper));
            let (r1, m1) = lemma_scan_closed_rest(r0.progress, j + 1, j + 1, scope, r0.lineno);
            lemma_scan_concat(start, line, pretty_rest(scope, deeper));
            assert(r0 == Reading {
                progress: r0.progress,
                partial: Seq::<char>::empty(),
                lineno: r0.lineno,
            });
            assert(r1.progress.out + run('}', (m1 - j - 1) as nat) =~= p.out + opening(m, j)
                + part) by {
                assert(run('}', (m1 - j - 1) as nat) =~= run('}', (m1 - j - 2) as nat) + seq!['}']);
                assert(opening(j + 1, j + 1) =~= seq!['{']);
                let closed = r1.progress.out + run('}', (m1 - j - 2) as nat);
                assert(closed == r0.progress.out + seq!['{'] + scope);
                assert(r1.progress.out + run('}', (m1 - j - 1) as nat) =~= closed + seq!['}']);
                assert(p.out + opening(m, j) + part =~= p.out + opening(m, j) + text + seq!['{']
                    + scope + seq!['}']);
            }
            (r1, m1)
        },
        None => {
            assert(r0.progress.out + run('}', 0) =~= r0.progress.out);
            (r0, j + 1)
        },
    }
}

/// The lines of closed items leave the reader in their scope or deeper,
/// with the items added but for the braces that close the scopes inside
/// their own.
pub proof fn lemma_scan_closed_rest(p: Progress, m: int, j: int, rest: Seq<char>, lineno: int) -> (res:
    (Reading, int))
    requires
        ready(p, m),
        0 <= j <= m,
        rest_closed(rest),
    ensures
        scan(
            Reading { progress: p, partial: Seq::empty(), lineno },
            pretty_rest(rest, spaces(2 * j)),
        ) == Ok::<_, DeprettifyError>(res.0),
        res.0.partial == Seq::<char>::empty(),
        j + 1 <= res.1,
        ready(res.0.progress, res.1),
        res.0.progress.out + run('}', (res.1 - j - 1) as nat) == p.out + opening(m, j) + rest,
    decreases rest.len(), 1nat,
{
    let indent = spaces(2 * j);
    let start = Reading { progress: p, partial: Seq::empty(), lineno };
    lemma_boundary_from(rest, ',', 0);
    match first_boundary(rest, ',') {
        Some(i) => {
            let part = rest.take(i);
            let tail = rest.skip(i + 1);
            let (r1, m1) = lemma_scan_closed_item(p, m, j, part, lineno);
            let (r2, m2) = lemma_scan_closed_rest(r1.progress, m1, j, tail, r1.lineno);
            lemma_scan_concat(start, pretty_item(part, indent), pretty_rest(tail, indent));
            assert(r1 == Reading {
                progress: r1.progress,
                partial: Seq::<char>::empty(),
                lineno: r1.lineno,
            });
            assert(r2.progress.out + run('}', (m2 - j - 1) as nat) =~= p.out + opening(m, j)
                + rest) by {
                lemma_join(p.out + opening(m, j), rest, i, r1.progress.out, m1, j);
            }
            (r2, m2)
        },
        None => lemma_scan_closed_item(p, m, j, rest, lineno),
    }
}

/// What the next item of a scope adds to an item of which the inner scopes
/// are still open: the braces that close them, the comma, and itself.
proof fn lemma_join(before: Seq<char>, rest: Seq<char>, i: int, out: Seq<char>, m: int, j: int)
    requires
        0 <= i < rest.len(),
        rest[i] == ',',
        0 <= j < m,
        out + run('}', (m - j - 1) as nat) == before + rest.take(i),
    ensures
        out + opening(m, j) + rest.skip(i + 1) == before + rest,
{
    assert(rest =~= rest.take(i) + seq![','] + rest.skip(i + 1));
    assert(out + opening(m, j) =~= out + run('}', (m - j - 1) as nat) + seq![',']);
    assert(out + opening(m, j) + rest.skip(i + 1) =~= before + rest.take(i) + seq![',']
        + rest.skip(i + 1));
    assert(before + rest =~= before + rest.take(i) + seq![','] + rest.skip(i + 1));
}

/// At the end of the lines of a tidy item, the reader has the item, and
/// closes the scopes around it.
pub proof fn lemma_conclude_item(p: Progress, m: int, j: int, part: Seq<char>, lineno: int)
    requires
        ready(p, m),
        0 <= j <= m,
        item_tidy(part),
    ensures
        match scan(
            Reading { progress: p, partial: Seq::empty(), lineno },
            pretty_item(part, spaces(2 * j)),
        ) {
            Ok(r) => conclude(r) == Ok::<_, DeprettifyError>(
                p.out + opening(m, j) + part + run('}', j as nat),
            ),
            Err(_) => false,
        },
    decreases part.len(), 0nat,
{
    let indent = spaces(2 * j);
    let start = Reading { progress: p, partial: Seq::empty(), lineno };
    let text = item_text(part);
    let line = indent + rendered(text, indent) + seq!['\n'];
    let r0 = lemma_scan_text(p, m, j, text, lineno);
    lemma_item_parts(part);
    assert(r0 == Reading { progress: r0.progress, partial: Seq::<char>::empty(), lineno: r0.lineno });
    let target = p.out + opening(m, j) + part + run('}', j as nat);
    match item_scope(part) {
        Some(scope) => {
            assert(indent + seq![' ', ' '] =~= spaces(2 * (j + 1)));
            let deeper = spaces(2 * (j + 1));
            assert(pretty_item(part, indent) == line + pretty_scope(scope, deeper));
            lemma_scan_concat(start, line, pretty_scope(scope, deeper));
            assert(opening(j + 1, j + 1) =~= seq!['{']);
            assert(run('}', (j + 1) as nat) =~= seq!['}'] + run('}', j as nat));
            assert(target =~= r0.progress.out + seq!['{'] + scope + run('}', (j + 1) as nat)) by {
                assert(p.out + opening(m, j) + part =~= p.out + opening(m, j) + text + seq!['{']
                    + scope + seq!['}']);
            }
            if scope.len() == 0 {
                let mark = seq!['>', '|'];
                lemma_spaces_plain(2 * (j + 1));
                assert(first_index(mark, '\n') is None) by {
                    lemma_index_from(mark, '\n', 0);
                }
                lemma_plain_concat(deeper, mark);
                lemma_scan_plain(r0, deeper + mark);
                assert(r0.partial + (deeper + mark) =~= deeper + mark);
                lemma_step_first_line(r0.progress, j + 1, j + 1, mark);
                assert(mark.skip(2) =~= Seq::<char>::empty());
                let q = Progress {
                    out: r0.progress.out + seq!['{'] + Seq::<char>::empty(),
                    indents: levels(j + 2),
                    block: Some(2 * (j + 1)),
                };
                assert(finish(q) =~= target);
            } else {
                lemma_conclude_rest(r0.progress, j + 1, j + 1, scope, r0.lineno);
            }
        },
        None => {
            let q = Progress { block: None, ..r0.progress };
            assert(step(r0.progress, r0.partial) == Ok::<_, Fault>(q));
            assert(finish(q) =~= target);
        },
    }
}

/// At the end of the lines of tidy items, the reader has the items, and
/// closes the scopes around them.
pub proof fn lemma_conclude_rest(p: Progress, m: int, j: int, rest: Seq<char>, lineno: int)
    requires
        ready(p, m),
        0 <= j <= m,
        rest_tidy(rest),
    ensures
        match scan(
            Reading { progress: p, partial: Seq::empty(), lineno },
            pretty_rest(rest, spaces(2 * j)),
        ) {
            Ok(r) => conclude(r) == Ok::<_, DeprettifyError>(
                p.out + opening(m, j) + rest + run('}', j as nat),
            ),
            Err(_) => false,
        },
    decreases rest.len(), 1nat,
{
    let indent = spaces(2 * j);
    let start = Reading { progress: p, partial: Seq::empty(), lineno };
    lemma_boundary_from(rest, ',', 0);
    match first_boundary(rest, ',') {
        Some(i) => {
            let part = rest.take(i);
            let tail = rest.skip(i + 1);
            let (r1, m1) = lemma_scan_closed_item(p, m, j, part, lineno);
            lemma_conclude_rest(r1.progress, m1, j, tail, r1.lineno);
            lemma_scan_concat(start, pretty_item(part, indent), pretty_rest(tail, indent));
            assert(r1 == Reading {
                progress: r1.progress,
                partial: Seq::<char>::empty(),
                lineno: r1.lineno,
            });
            lemma_join(p.out + opening(m, j), rest, i, r1.progress.out, m1, j);
        },
        None => {
            lemma_conclude_item(p, m, j, rest, lineno);
        },
    }
}

/// Reading back the indented form of a serialization gives the
/// serialization, where the indented form can hold it.
pub proof fn lemma_deprettify_prettify(s: Seq<char>)
    requires
        prettifiable(s),
    ensures
        unprettified(prettified(s)) == Ok::<_, DeprettifyError>(s),
{
    let p = Progress { out: Seq::empty(), indents: Seq::empty(), block: None };
    lemma_read_lines_scan(p, prettified(s), 1);
    if s.len() == 0 {
        assert(finish(p) =~= s);
    } else {
        assert(levels(0) =~= Seq::<int>::empty());
        assert(spaces(0) =~= Seq::<char>::empty());
        lemma_conclude_rest(p, 0, 0, s, 1);
        assert(p.out + opening(0, 0) + s + run('}', 0) =~= s);
    }
}

} // verus!
