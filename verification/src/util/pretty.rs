//! The indented form of a serialization, and the way back from it.
//!
//! In the indented form every item stands on a line of its own.  Where an
//! item is a text followed by a balanced scope in braces, the text stands
//! on the line and the items of the scope follow, two spaces deeper.  A
//! text that could not be read back as it is stands behind the mark `>|`,
//! and its further lines behind ` |`.

use vstd::prelude::*;
use vstd::string::*;
use crate::number::{append_numeral, numeral};
use crate::text::{
    ascii_at, byte_len, cut, ends_with, find, first_index, leading_spaces, lemma_ascii_offset,
    lemma_encode_ascii, lemma_index_from, lemma_offset_ends, lemma_offset_monotone,
    lemma_offset_step, slice, starts_with, BAR, CLOSE_BRACE, GREATER, SPACE,
};
use crate::util::balancer::{leading, lemma_leading};
use crate::util::level::{balanced, is_balanced, run};
use crate::util::split::{cut_at_boundary, first_boundary};

verus! {

/// Where the scope of the item `part` opens: at its first `{`, if that is
/// not its first character, `part` ends with `}`, and what stands between
/// the two is balanced.
pub open spec fn scope_start(part: Seq<char>) -> Option<int> {
    match first_index(part, '{') {
        Some(i) => if i > 0 && part.last() == '}' && balanced(
            part.subrange(i + 1, part.len() - 1),
        ) {
            Some(i)
        } else {
            None
        },
        None => None,
    }
}

/// The text of the item `part`: what stands before its scope, or all of it.
pub open spec fn item_text(part: Seq<char>) -> Seq<char> {
    match scope_start(part) {
        Some(i) => part.take(i),
        None => part,
    }
}

/// The scope of the item `part`, without its braces.
pub open spec fn item_scope(part: Seq<char>) -> Option<Seq<char>> {
    match scope_start(part) {
        Some(i) => Some(part.subrange(i + 1, part.len() - 1)),
        None => None,
    }
}

/// A text that cannot stand on a line as it is: it is empty, starts with a
/// space or with `>|`, or holds a line break.
pub open spec fn needs_escape(text: Seq<char>) -> bool {
    ||| text.len() == 0
    ||| text[0] == ' '
    ||| (text.len() >= 2 && text[0] == '>' && text[1] == '|')
    ||| first_index(text, '\n') is Some
}

/// `text` with `indent` and ` |` put behind each of its line breaks.
pub open spec fn continued(text: Seq<char>, indent: Seq<char>) -> Seq<char>
    decreases text.len(),
{
    if text.len() == 0 {
        Seq::empty()
    } else if text.last() == '\n' {
        continued(text.drop_last(), indent) + seq!['\n'] + indent + seq![' ', '|']
    } else {
        continued(text.drop_last(), indent).push(text.last())
    }
}

/// How the text of an item stands behind the indent of its line.
pub open spec fn rendered(text: Seq<char>, indent: Seq<char>) -> Seq<char> {
    if needs_escape(text) {
        seq!['>', '|'] + continued(text, indent)
    } else {
        text
    }
}

/// The lines of one item: its text, then its scope two spaces deeper.
pub open spec fn pretty_item(part: Seq<char>, indent: Seq<char>) -> Seq<char>
    decreases part.len(), 0nat,
{
    let line = indent + rendered(item_text(part), indent) + seq!['\n'];
    match item_scope(part) {
        Some(scope) => if scope.len() < part.len() {
            line + pretty_scope(scope, indent + seq![' ', ' '])
        } else {
            line
        },
        None => line,
    }
}

/// The lines of the items that a splitter at `,` still finds in `rest`.
pub open spec fn pretty_rest(rest: Seq<char>, indent: Seq<char>) -> Seq<char>
    decreases rest.len(), 1nat,
{
    match first_boundary(rest, ',') {
        Some(i) => if 0 <= i < rest.len() {
            pretty_item(rest.take(i), indent) + pretty_rest(rest.skip(i + 1), indent)
        } else {
            pretty_item(rest, indent)
        },
        None => pretty_item(rest, indent),
    }
}

/// The lines of a scope: those of its items, or for the empty scope the
/// mark `>|` behind the indent, without a line break.
pub open spec fn pretty_scope(s: Seq<char>, indent: Seq<char>) -> Seq<char>
    decreases s.len(), 2nat,
{
    if s.len() == 0 {
        indent + seq!['>', '|']
    } else {
        pretty_rest(s, indent)
    }
}

/// What [`prettify`] returns for `s`.
pub open spec fn prettified(s: Seq<char>) -> Seq<char> {
    if s.len() == 0 {
        s
    } else {
        pretty_scope(s, Seq::empty())
    }
}

/// The lines of the item end with a line break: the item has no scope, or
/// a scope that is not empty and whose items all are such.
pub open spec fn item_closed(part: Seq<char>) -> bool
    decreases part.len(), 0nat,
{
    match item_scope(part) {
        Some(scope) => scope.len() < part.len() && scope.len() > 0 && rest_closed(scope),
        None => true,
    }
}

/// The lines of all the items that a splitter still finds in `rest` end
/// with a line break.
pub open spec fn rest_closed(rest: Seq<char>) -> bool
    decreases rest.len(), 1nat,
{
    match first_boundary(rest, ',') {
        Some(i) => 0 <= i < rest.len() && item_closed(rest.take(i)) && rest_closed(
            rest.skip(i + 1),
        ),
        None => item_closed(rest),
    }
}

/// Only the last of the lines of the item may be the mark of an empty
/// scope.
pub open spec fn item_tidy(part: Seq<char>) -> bool
    decreases part.len(), 0nat,
{
    match item_scope(part) {
        Some(scope) => scope.len() < part.len() && (scope.len() == 0 || rest_tidy(scope)),
        None => true,
    }
}

/// Only the last of the lines of the items that a splitter still finds in
/// `rest` may be the mark of an empty scope.
pub open spec fn rest_tidy(rest: Seq<char>) -> bool
    decreases rest.len(), 1nat,
{
    match first_boundary(rest, ',') {
        Some(i) => 0 <= i < rest.len() && item_closed(rest.take(i)) && rest_tidy(
            rest.skip(i + 1),
        ),
        None => item_tidy(rest),
    }
}

/// The serializations that the indented form can hold: no empty scope `{}`
/// of an item is followed by anything but the closing braces of the scopes
/// around it.  The mark of an empty scope has no line break behind it, so
/// that a line after it would be read as its text.
pub open spec fn prettifiable(s: Seq<char>) -> bool {
    s.len() == 0 || rest_tidy(s)
}

/// The continuation of two texts in a row is that of both.
pub proof fn lemma_continued_concat(a: Seq<char>, b: Seq<char>, indent: Seq<char>)
    ensures
        continued(a + b, indent) == continued(a, indent) + continued(b, indent),
    decreases b.len(),
{
    if b.len() == 0 {
        assert(a + b =~= a);
        assert(continued(a, indent) + continued(b, indent) =~= continued(a, indent));
    } else {
        assert((a + b).drop_last() =~= a + b.drop_last());
        lemma_continued_concat(a, b.drop_last(), indent);
        assert(continued(a + b, indent) =~= continued(a, indent) + continued(b, indent));
    }
}

/// A text without a line break is continued as it is.
pub proof fn lemma_continued_plain(text: Seq<char>, indent: Seq<char>)
    requires
        first_index(text, '\n') is None,
    ensures
        continued(text, indent) == text,
    decreases text.len(),
{
    lemma_index_from(text, '\n', 0);
    if text.len() > 0 {
        let head = text.drop_last();
        lemma_index_from(head, '\n', 0);
        if first_index(head, '\n') is Some {
            let i = first_index(head, '\n').unwrap();
            assert(text[i] == head[i]);
        }
        lemma_continued_plain(head, indent);
        assert(head.push(text.last()) =~= text);
    }
}

/// Appends `text` behind the mark `>|`, with `indent` and ` |` behind each
/// of its line breaks.
fn append_escaped(out: &mut String, text: &str, indent: &str)
    ensures
        final(out)@ == old(out)@ + seq!['>', '|'] + continued(text@, indent@),
{
    proof {
        reveal_strlit(">|");
        reveal_strlit(" |");
        reveal_strlit("\n");
        assert(">|"@ =~= seq!['>', '|']);
        assert(" |"@ =~= seq![' ', '|']);
        assert("\n"@ =~= seq!['\n']);
    }
    out.append(">|");
    let mut rest = text;
    let ghost start = out@;
    let ghost done = Seq::<char>::empty();
    proof {
        assert(done + rest@ =~= text@);
        assert(start + continued(done, indent@) =~= out@);
    }
    loop
        invariant_except_break
            done + rest@ == text@,
            out@ == start + continued(done, indent@),
        invariant
            ">|"@ == seq!['>', '|'],
            " |"@ == seq![' ', '|'],
            "\n"@ == seq!['\n'],
            start == old(out)@ + seq!['>', '|'],
        ensures
            out@ == start + continued(text@, indent@),
        decreases rest@.len(),
    {
        match find(rest, '\n') {
            Some(at) => {
                let ghost i = first_index(rest@, '\n').unwrap();
                let (line, tail) = cut(rest, at, Ghost(i));
                proof {
                    lemma_index_from(rest@, '\n', 0);
                    lemma_offset_step(tail@, 0);
                    lemma_offset_ends(tail@);
                    lemma_encode_ascii('\n');
                }
                let after = cut(tail, 1, Ghost(1)).1;
                out.append(line);
                out.append("\n");
                out.append(indent);
                out.append(" |");
                proof {
                    let piece = line@.push('\n');
                    assert(first_index(line@, '\n') is None) by {
                        lemma_index_from(line@, '\n', 0);
                        if first_index(line@, '\n') is Some {
                            let j = first_index(line@, '\n').unwrap();
                            assert(rest@[j] == line@[j]);
                        }
                    }
                    lemma_continued_plain(line@, indent@);
                    assert(piece.drop_last() =~= line@);
                    assert(continued(piece, indent@) =~= line@ + seq!['\n'] + indent@ + seq![
                        ' ',
                        '|',
                    ]);
                    lemma_continued_concat(done, piece, indent@);
                    assert(rest@ =~= piece + after@);
                    assert((done + piece) + after@ =~= text@);
                    assert(out@ =~= start + continued(done + piece, indent@));
                    done = done + piece;
                }
                rest = after;
            },
            None => {
                out.append(rest);
                proof {
                    lemma_continued_plain(rest@, indent@);
                    lemma_continued_concat(done, rest@, indent@);
                    assert(out@ =~= start + continued(text@, indent@));
                }
                break ;
            },
        }
    }
    proof {
        assert(out@ =~= old(out)@ + seq!['>', '|'] + continued(text@, indent@));
    }
}

/// Whether `text` cannot stand on a line as it is.
fn escape_needed(text: &str) -> (b: bool)
    ensures
        b == needs_escape(text@),
{
    if text.is_empty() || starts_with(text, SPACE) {
        return true;
    }
    if starts_with(text, GREATER) && ascii_at(text, 1, BAR) {
        return true;
    }
    find(text, '\n').is_some()
}

/// The text of the item `part` and its scope.
fn split_scope<'a>(part: &'a str) -> (r: (&'a str, Option<&'a str>))
    ensures
        r.0@ == item_text(part@),
        match item_scope(part@) {
            Some(scope) => r.1 matches Some(found) && found@ == scope && scope.len() < part@.len(),
            None => r.1 is None,
        },
{
    match find(part, '{') {
        Some(at) => {
            if at > 0 && ends_with(part, CLOSE_BRACE) {
                let total = byte_len(part);
                let ghost i = first_index(part@, '{').unwrap();
                let ghost n = part@.len() as int;
                proof {
                    lemma_offset_ends(part@);
                    lemma_offset_step(part@, i);
                    lemma_offset_step(part@, n - 1);
                    lemma_encode_ascii('{');
                    lemma_encode_ascii('}');
                    lemma_offset_monotone(part@, i + 1, n - 1);
                }
                let inner = slice(part, at + 1, total - 1, Ghost(i + 1), Ghost(n - 1));
                if is_balanced(inner) {
                    (cut(part, at, Ghost(i)).0, Some(inner))
                } else {
                    (part, None)
                }
            } else {
                proof {
                    let i = first_index(part@, '{').unwrap();
                    lemma_offset_ends(part@);
                    if i > 0 {
                        lemma_offset_monotone(part@, 0, i);
                    }
                }
                (part, None)
            }
        },
        None => (part, None),
    }
}

/// Appends the lines of the item `part`.
fn prettify_item(part: &str, indent: &str, pretty: &mut String)
    ensures
        final(pretty)@ == old(pretty)@ + pretty_item(part@, indent@),
    decreases part@.len(), 0nat,
{
    proof {
        reveal_strlit("\n");
        reveal_strlit("  ");
        assert("\n"@ =~= seq!['\n']);
        assert("  "@ =~= seq![' ', ' ']);
    }
    let (text, scope) = split_scope(part);
    pretty.append(indent);
    if escape_needed(text) {
        append_escaped(pretty, text, indent);
    } else {
        pretty.append(text);
    }
    pretty.append("\n");
    proof {
        assert(pretty@ =~= old(pretty)@ + (indent@ + rendered(item_text(part@), indent@) + seq![
            '\n',
        ]));
    }
    if let Some(inner) = scope {
        let mut deeper = String::from_str(indent);
        deeper.append("  ");
        prettify_scope(inner, deeper.as_str(), pretty);
        proof {
            assert(pretty@ =~= old(pretty)@ + pretty_item(part@, indent@));
        }
    }
}

/// Appends the lines of the scope `s`.
fn prettify_scope(s: &str, indent: &str, pretty: &mut String)
    ensures
        final(pretty)@ == old(pretty)@ + pretty_scope(s@, indent@),
    decreases s@.len(), 2nat,
{
    if s.is_empty() {
        proof {
            reveal_strlit(">|");
            assert(">|"@ =~= seq!['>', '|']);
        }
        pretty.append(indent);
        pretty.append(">|");
        proof {
            assert(pretty@ =~= old(pretty)@ + pretty_scope(s@, indent@));
        }
        return ;
    }
    let mut rest = s;
    proof {
        assert(pretty@ + pretty_rest(rest@, indent@) =~= old(pretty)@ + pretty_scope(s@, indent@));
    }
    loop
        invariant_except_break
            rest@.len() <= s@.len(),
            pretty@ + pretty_rest(rest@, indent@) == old(pretty)@ + pretty_scope(s@, indent@),
        ensures
            pretty@ == old(pretty)@ + pretty_scope(s@, indent@),
        decreases rest@.len(),
    {
        let ghost before = pretty@;
        match cut_at_boundary(rest, ',') {
            Some((part, after)) => {
                prettify_item(part, indent, pretty);
                proof {
                    assert(pretty@ + pretty_rest(after@, indent@) =~= before + pretty_rest(
                        rest@,
                        indent@,
                    ));
                }
                rest = after;
            },
            None => {
                prettify_item(rest, indent, pretty);
                break ;
            },
        }
    }
}

/// Whether the lines of the item end with a line break.
fn item_is_closed(part: &str) -> (b: bool)
    ensures
        b == item_closed(part@),
    decreases part@.len(), 0nat,
{
    match split_scope(part).1 {
        Some(scope) => !scope.is_empty() && rest_is_closed(scope),
        None => true,
    }
}

/// Whether the lines of all the items in `s` end with a line break.
fn rest_is_closed(s: &str) -> (b: bool)
    ensures
        b == rest_closed(s@),
    decreases s@.len(), 1nat,
{
    let mut rest = s;
    loop
        invariant
            rest@.len() <= s@.len(),
            rest_closed(s@) == rest_closed(rest@),
        decreases rest@.len(),
    {
        match cut_at_boundary(rest, ',') {
            Some((part, after)) => {
                if !item_is_closed(part) {
                    return false;
                }
                rest = after;
            },
            None => {
                return item_is_closed(rest);
            },
        }
    }
}

/// Whether only the last of the lines of the item may be the mark of an
/// empty scope.
fn item_is_tidy(part: &str) -> (b: bool)
    ensures
        b == item_tidy(part@),
    decreases part@.len(), 0nat,
{
    match split_scope(part).1 {
        Some(scope) => scope.is_empty() || rest_is_tidy(scope),
        None => true,
    }
}

/// Whether only the last of the lines of the items in `s` may be the mark
/// of an empty scope.
fn rest_is_tidy(s: &str) -> (b: bool)
    ensures
        b == rest_tidy(s@),
    decreases s@.len(), 1nat,
{
    let mut rest = s;
    loop
        invariant
            rest@.len() <= s@.len(),
            rest_tidy(s@) == rest_tidy(rest@),
        decreases rest@.len(),
    {
        match cut_at_boundary(rest, ',') {
            Some((part, after)) => {
                if !item_is_closed(part) {
                    return false;
                }
                rest = after;
            },
            None => {
                return item_is_tidy(rest);
            },
        }
    }
}

/// Whether [`deprettify`] gives `s` back from what [`prettify`] makes of
/// it: whether no empty scope `{}` of an item of `s` is followed by
/// anything but the closing braces of the scopes around it.
pub fn is_prettifiable(s: &str) -> (b: bool)
    ensures
        b == prettifiable(s@),
        b == (unprettified(prettified(s@)) == Ok::<_, DeprettifyError>(s@)),
{
    proof {
        crate::util::converse::lemma_deprettify_prettify_exactly(s@);
    }
    s.is_empty() || rest_is_tidy(s)
}

/// Returns a prettyprinted form of a serialization.
///
/// Commas outside all braces become line breaks.  Where an item is a text
/// followed by a balanced scope in braces, the items of the scope follow on
/// lines of their own, indented by two more spaces.  A text that is empty,
/// starts with a space or with `>|`, or holds a line break stands behind
/// `>|`, and each of its further lines behind ` |`.  The empty string is
/// returned as it is.
///
/// The scope of an item may be empty: it is rendered as the mark `>|`
/// without a line break.  [`deprettify`] reads the result back as `s`
/// unless such a mark is followed by a line: see [`is_prettifiable`].
pub fn prettify(s: &str) -> (pretty: String)
    ensures
        pretty@ == prettified(s@),
        prettifiable(s@) <==> unprettified(pretty@) == Ok::<_, DeprettifyError>(s@),
{
    proof {
        crate::util::converse::lemma_deprettify_prettify_exactly(s@);
    }
    let mut pretty = String::new();
    if !s.is_empty() {
        prettify_scope(s, "", &mut pretty);
        proof {
            reveal_strlit("");
            assert(""@ =~= Seq::<char>::empty());
            assert(pretty@ =~= prettified(s@));
        }
    } else {
        proof {
            assert(pretty@ =~= s@);
        }
    }
    pretty
}

/// The error type for [`deprettify`].
#[derive(Debug, PartialEq, Eq, Structural)]
pub enum DeprettifyError {
    IndentTooSmall { lineno: usize },
    UnmatchedUnindent { lineno: usize },
}

/// The message for a line that is indented by one space.
pub open spec fn indent_too_small_text(lineno: nat) -> Seq<char> {
    "line "@ + numeral(lineno) + ": indentation should be two or more space but got one"@
}

/// The message for a line whose indent is that of no open scope.
pub open spec fn unmatched_unindent_text(lineno: nat) -> Seq<char> {
    "line "@ + numeral(lineno) + ": unindent does not match any outer indentation level"@
}

/// Writes the message for a line that is indented by one space.
pub fn indent_too_small_message(lineno: usize) -> (s: String)
    ensures
        s@ == indent_too_small_text(lineno as nat),
{
    let mut s = String::from_str("line ");
    append_numeral(&mut s, lineno as u128);
    s.append(": indentation should be two or more space but got one");
    s
}

/// Writes the message for a line whose indent is that of no open scope.
pub fn unmatched_unindent_message(lineno: usize) -> (s: String)
    ensures
        s@ == unmatched_unindent_text(lineno as nat),
{
    let mut s = String::from_str("line ");
    append_numeral(&mut s, lineno as u128);
    s.append(": unindent does not match any outer indentation level");
    s
}

impl DeprettifyError {
    /// The message of the error.
    pub open spec fn text(&self) -> Seq<char> {
        match self {
            DeprettifyError::IndentTooSmall { lineno } => indent_too_small_text(*lineno as nat),
            DeprettifyError::UnmatchedUnindent { lineno } => unmatched_unindent_text(
                *lineno as nat,
            ),
        }
    }

    /// The message of the error.
    pub fn to_string(&self) -> (s: String)
        ensures
            s@ == self.text(),
    {
        match self {
            DeprettifyError::IndentTooSmall { lineno } => indent_too_small_message(*lineno),
            DeprettifyError::UnmatchedUnindent { lineno } => unmatched_unindent_message(*lineno),
        }
    }
}

/// What is wrong with the indent of a line.
pub enum Fault {
    /// It is one space deeper than the line before.
    IndentTooSmall,
    /// It is less deep than the line before, and as deep as no open scope.
    UnmatchedUnindent,
}

/// What [`deprettify`] knows between two lines.
pub struct Progress {
    /// The serialization read so far.
    pub out: Seq<char>,
    /// The indents of the scopes that are open, the outermost first.
    pub indents: Seq<int>,
    /// The indent of the escaped text that the next line may continue.
    pub block: Option<int>,
}

/// The number of scopes to close, innermost first, until a scope with
/// the given indent is the innermost: `None` where no open scope has it.
pub open spec fn unwind(indents: Seq<int>, indent: int) -> Option<int>
    decreases indents.len(),
{
    if indents.len() == 0 {
        None
    } else if indents.last() == indent {
        Some(0)
    } else {
        match unwind(indents.drop_last(), indent) {
            Some(k) => Some(k + 1),
            None => None,
        }
    }
}

/// The open scopes after a line with the given indent, and what the line
/// adds to the serialization before its own text: nothing for the first
/// line; `{` where it is two or more spaces deeper than the line before;
/// else a `}` for each scope that it leaves, and a `,`.
pub open spec fn enter(indents: Seq<int>, indent: int) -> Result<(Seq<int>, Seq<char>), Fault> {
    if indents.len() == 0 {
        Ok((seq![indent], Seq::empty()))
    } else if indent > indents.last() {
        if indent - indents.last() == 1 {
            Err(Fault::IndentTooSmall)
        } else {
            Ok((indents.push(indent), seq!['{']))
        }
    } else {
        match unwind(indents, indent) {
            Some(k) => Ok((indents.take(indents.len() - k), run('}', k as nat).push(','))),
            None => Err(Fault::UnmatchedUnindent),
        }
    }
}

/// Each open scope is indented by two or more spaces more than the scope
/// around it.
pub open spec fn well_indented(indents: Seq<int>) -> bool {
    forall|i: int| 0 < i < indents.len() ==> indents[i - 1] + 2 <= #[trigger] indents[i]
}

/// The scope that `unwind` finds is open and has the given indent.
pub proof fn lemma_unwind(indents: Seq<int>, indent: int)
    ensures
        unwind(indents, indent) matches Some(k) ==> 0 <= k < indents.len() && indents[indents.len()
            - 1 - k] == indent,
    decreases indents.len(),
{
    if indents.len() > 0 && indents.last() != indent {
        lemma_unwind(indents.drop_last(), indent);
    }
}

/// The scopes that stay open after a line are indented as they should.
pub proof fn lemma_enter_well_indented(indents: Seq<int>, indent: int)
    requires
        well_indented(indents),
    ensures
        enter(indents, indent) matches Ok(entered) ==> well_indented(entered.0),
{
    lemma_unwind(indents, indent);
    match enter(indents, indent) {
        Ok(entered) => {
            let stack = entered.0;
            assert forall|i: int| 0 < i < stack.len() implies stack[i - 1] + 2
                <= #[trigger] stack[i] by {
                if i < indents.len() {
                    assert(indents[i - 1] + 2 <= indents[i]);
                }
            }
        },
        Err(_) => {},
    }
}

/// The line continues an escaped text with indent `d`: it starts with
/// `d + 1` spaces and a `|`.
pub open spec fn is_continuation(line: Seq<char>, d: int) -> bool {
    leading(line, ' ') == d + 1 && d + 1 < line.len() && line[d + 1] == '|'
}

/// The line holds, behind its `indent` spaces, the mark `>|`.
pub open spec fn is_escaped(line: Seq<char>, indent: int) -> bool {
    indent + 1 < line.len() && line[indent] == '>' && line[indent + 1] == '|'
}

/// What one more line makes of what was read.
pub open spec fn step(p: Progress, line: Seq<char>) -> Result<Progress, Fault> {
    if p.block is Some && is_continuation(line, p.block.unwrap()) {
        Ok(Progress { out: p.out + seq!['\n'] + line.skip(p.block.unwrap() + 2), ..p })
    } else if line.len() == 0 {
        Ok(Progress { block: None, ..p })
    } else {
        let indent = leading(line, ' ');
        match enter(p.indents, indent) {
            Ok((indents, opening)) => if is_escaped(line, indent) {
                Ok(
                    Progress {
                        out: p.out + opening + line.skip(indent + 2),
                        indents,
                        block: Some(indent),
                    },
                )
            } else {
                Ok(Progress { out: p.out + opening + line.skip(indent), indents, block: None })
            },
            Err(fault) => Err(fault),
        }
    }
}

/// The serialization at the end of the input: every open scope but the
/// outermost is closed.
pub open spec fn finish(p: Progress) -> Seq<char> {
    if p.indents.len() > 0 {
        p.out + run('}', (p.indents.len() - 1) as nat)
    } else {
        p.out
    }
}

/// The error for a fault in the line with the given number.
pub open spec fn fault_at(fault: Fault, lineno: int) -> DeprettifyError {
    match fault {
        Fault::IndentTooSmall => DeprettifyError::IndentTooSmall { lineno: lineno as usize },
        Fault::UnmatchedUnindent => DeprettifyError::UnmatchedUnindent { lineno: lineno as usize },
    }
}

/// What the lines of `rest` make of what was read, `rest` starting with
/// the line of the given number.
pub open spec fn read_lines(p: Progress, rest: Seq<char>, lineno: int) -> Result<
    Seq<char>,
    DeprettifyError,
>
    decreases rest.len(),
{
    match first_index(rest, '\n') {
        Some(i) => if 0 <= i < rest.len() {
            match step(p, rest.take(i)) {
                Ok(q) => read_lines(q, rest.skip(i + 1), lineno + 1),
                Err(fault) => Err(fault_at(fault, lineno)),
            }
        } else {
            Ok(p.out)
        },
        None => match step(p, rest) {
            Ok(q) => Ok(finish(q)),
            Err(fault) => Err(fault_at(fault, lineno)),
        },
    }
}

/// A line leaves the open scopes indented as they should be: each by two
/// or more spaces more than the scope around it.
pub proof fn lemma_step_well_indented(p: Progress, line: Seq<char>)
    requires
        well_indented(p.indents),
    ensures
        step(p, line) matches Ok(q) ==> well_indented(q.indents),
{
    lemma_enter_well_indented(p.indents, leading(line, ' '));
}

/// What [`deprettify`] returns for `pretty`.
pub open spec fn unprettified(pretty: Seq<char>) -> Result<Seq<char>, DeprettifyError> {
    read_lines(Progress { out: Seq::empty(), indents: Seq::empty(), block: None }, pretty, 1)
}

/// The indents of a stack as integers.
pub open spec fn depths(indents: Seq<usize>) -> Seq<int> {
    indents.map_values(|d: usize| d as int)
}

/// The indent of a block as an integer.
pub open spec fn depth(block: Option<usize>) -> Option<int> {
    match block {
        Some(d) => Some(d as int),
        None => None,
    }
}

/// Makes a scope with the given indent the innermost: closes the scopes
/// inside it.  Returns `false` where no open scope has that indent.
fn close_scopes(out: &mut String, indents: &mut Vec<usize>, indent: usize) -> (found: bool)
    ensures
        match unwind(depths(old(indents)@), indent as int) {
            Some(k) => {
                &&& found
                &&& 0 <= k < old(indents)@.len()
                &&& final(indents)@ == old(indents)@.take(old(indents)@.len() - k)
                &&& final(out)@ == old(out)@ + run('}', k as nat)
            },
            None => !found,
        },
{
    let ghost stack = indents@;
    let ghost closed: int = 0;
    proof {
        reveal_strlit("}");
        assert("}"@ =~= seq!['}']);
        assert(out@ + run('}', 0) =~= out@);
        assert(stack.take(stack.len() - 0) =~= stack);
    }
    loop
        invariant
            "}"@ == seq!['}'],
            stack == old(indents)@,
            0 <= closed <= stack.len(),
            indents@ == stack.take(stack.len() - closed),
            out@ == old(out)@ + run('}', closed as nat),
            unwind(depths(stack), indent as int) == match unwind(depths(indents@), indent as int) {
                Some(k) => Some(k + closed),
                None => None,
            },
        decreases indents@.len(),
    {
        if indents.len() == 0 {
            return false;
        }
        if indents[indents.len() - 1] == indent {
            return true;
        }
        proof {
            assert(depths(indents@).drop_last() =~= depths(indents@.drop_last()));
            assert(indents@.drop_last() =~= stack.take(stack.len() - (closed + 1)));
            assert(run('}', closed as nat) + seq!['}'] =~= run('}', (closed + 1) as nat));
            closed = closed + 1;
        }
        out.append("}");
        indents.pop();
    }
}

/// Opens the line with the given indent: see [`enter`].
fn open_line(out: &mut String, indents: &mut Vec<usize>, indent: usize) -> (r: Result<(), Fault>)
    ensures
        match enter(depths(old(indents)@), indent as int) {
            Ok((stack, opening)) => {
                &&& r is Ok
                &&& depths(final(indents)@) == stack
                &&& final(out)@ == old(out)@ + opening
            },
            Err(fault) => r == Err::<(), _>(fault),
        },
{
    proof {
        reveal_strlit("{");
        reveal_strlit(",");
        assert("{"@ =~= seq!['{']);
        assert(","@ =~= seq![',']);
    }
    let ghost stack = depths(indents@);
    if indents.len() == 0 {
        indents.push(indent);
        proof {
            assert(depths(indents@) =~= seq![indent as int]);
            assert(out@ + Seq::<char>::empty() =~= out@);
        }
        Ok(())
    } else if indent > indents[indents.len() - 1] {
        if indent - indents[indents.len() - 1] == 1 {
            return Err(Fault::IndentTooSmall);
        }
        out.append("{");
        indents.push(indent);
        proof {
            assert(depths(indents@) =~= stack.push(indent as int));
        }
        Ok(())
    } else {
        if !close_scopes(out, indents, indent) {
            return Err(Fault::UnmatchedUnindent);
        }
        out.append(",");
        proof {
            let k = unwind(stack, indent as int).unwrap();
            assert(depths(indents@) =~= stack.take(stack.len() - k));
            assert(out@ =~= old(out)@ + run('}', k as nat).push(','));
        }
        Ok(())
    }
}

/// Reads one line: see [`step`].
fn read_line(
    line: &str,
    out: &mut String,
    indents: &mut Vec<usize>,
    block: &mut Option<usize>,
) -> (r: Result<(), Fault>)
    ensures
        match step(
            Progress { out: old(out)@, indents: depths(old(indents)@), block: depth(*old(block)) },
            line@,
        ) {
            Ok(q) => r is Ok && q == (Progress {
                out: final(out)@,
                indents: depths(final(indents)@),
                block: depth(*final(block)),
            }),
            Err(fault) => r == Err::<(), _>(fault),
        },
{
    proof {
        reveal_strlit("\n");
        assert("\n"@ =~= seq!['\n']);
    }
    let total = byte_len(line);
    let n = leading_spaces(line);
    proof {
        lemma_leading(line@, ' ', n as int);
    }
    let continues = match *block {
        Some(d) => n > d && n - 1 == d && ascii_at(line, n, BAR),
        None => false,
    };
    if continues {
        proof {
            assert forall|j: int| 0 <= j < n + 1 implies line@[j] as u32 <= 0x7F by {}
            lemma_ascii_offset(line@, n + 1);
        }
        out.append("\n");
        out.append(cut(line, n + 1, Ghost(n + 1)).1);
        Ok(())
    } else if line.is_empty() {
        *block = None;
        Ok(())
    } else {
        match open_line(out, indents, n) {
            Err(fault) => {
                return Err(fault);
            },
            Ok(_) => {},
        }
        proof {
            assert forall|j: int| 0 <= j < n implies line@[j] as u32 <= 0x7F by {}
            lemma_ascii_offset(line@, n as int);
        }
        if ascii_at(line, n, GREATER) && ascii_at(line, n + 1, BAR) {
            proof {
                assert forall|j: int| 0 <= j < n + 2 implies line@[j] as u32 <= 0x7F by {}
                lemma_ascii_offset(line@, n + 2);
            }
            out.append(cut(line, n + 2, Ghost(n + 2)).1);
            *block = Some(n);
        } else {
            out.append(cut(line, n, Ghost(n as int)).1);
            *block = None;
        }
        Ok(())
    }
}

/// Returns the inverse of [`prettify`].
///
/// The indent of the first line that is not empty is the outermost.  A
/// line indented by two or more spaces more than the line before opens a
/// scope; a line indented less closes the scopes it leaves and continues
/// the one that has its indent.  The text of a line behind `>|` is taken
/// as it is, together with the lines that follow it with one more space
/// and `|`.  Empty lines are passed over.
///
/// # Errors
///
/// `IndentTooSmall` with the number of a line that is indented by one
/// space more than the line before; `UnmatchedUnindent` with the number of
/// a line that is indented less than the line before, and as no open scope.
pub fn deprettify(pretty: &str) -> (r: Result<String, DeprettifyError>)
    ensures
        match unprettified(pretty@) {
            Ok(flat) => r matches Ok(s) && s@ == flat,
            Err(e) => r == Err::<String, _>(e),
        },
{
    let total = byte_len(pretty);
    let mut out = String::new();
    let mut indents: Vec<usize> = Vec::new();
    let mut block: Option<usize> = None;
    let mut rest = pretty;
    let mut iline: usize = 0;
    proof {
        assert(depths(indents@) =~= Seq::<int>::empty());
    }
    loop
        invariant_except_break
            iline + rest@.len() <= pretty@.len(),
            unprettified(pretty@) == read_lines(
                Progress { out: out@, indents: depths(indents@), block: depth(block) },
                rest@,
                iline + 1,
            ),
        invariant
            pretty@.len() <= total,
        ensures
            unprettified(pretty@) == Ok::<_, DeprettifyError>(
                finish(Progress { out: out@, indents: depths(indents@), block: depth(block) }),
            ),
        decreases rest@.len(),
    {
        match find(rest, '\n') {
            Some(at) => {
                let ghost i = first_index(rest@, '\n').unwrap();
                let (line, tail) = cut(rest, at, Ghost(i));
                proof {
                    lemma_offset_step(tail@, 0);
                    lemma_offset_ends(tail@);
                    lemma_encode_ascii('\n');
                }
                let after = cut(tail, 1, Ghost(1)).1;
                proof {
                    assert(after@ =~= rest@.skip(i + 1));
                }
                match read_line(line, &mut out, &mut indents, &mut block) {
                    Err(fault) => {
                        return Err(at_line(fault, iline + 1));
                    },
                    Ok(_) => {},
                }
                rest = after;
                iline = iline + 1;
            },
            None => {
                match read_line(rest, &mut out, &mut indents, &mut block) {
                    Err(fault) => {
                        proof {
                            assert(rest@.len() > 0);
                        }
                        return Err(at_line(fault, iline + 1));
                    },
                    Ok(_) => {},
                }
                break ;
            },
        }
    }
    if indents.len() > 0 {
        proof {
            reveal_strlit("}");
            assert("}"@ =~= seq!['}']);
            assert(depths(indents@).len() == indents@.len());
        }
        let mut k: usize = 1;
        let ghost flat = unprettified(pretty@).unwrap();
        while k < indents.len()
            invariant
                "}"@ == seq!['}'],
                1 <= k <= indents.len(),
                flat == out@ + run('}', (indents.len() - k) as nat),
            decreases indents.len() - k,
        {
            proof {
                assert(seq!['}'] + run('}', (indents.len() - k - 1) as nat) =~= run(
                    '}',
                    (indents.len() - k) as nat,
                ));
            }
            out.append("}");
            k = k + 1;
            proof {
                assert(out@ + run('}', (indents.len() - k) as nat) =~= flat);
            }
        }
        proof {
            assert(out@ + run('}', 0) =~= out@);
        }
    }
    Ok(out)
}

/// The error for a fault in the line with the given number.
fn at_line(fault: Fault, lineno: usize) -> (e: DeprettifyError)
    ensures
        e == fault_at(fault, lineno as int),
{
    match fault {
        Fault::IndentTooSmall => DeprettifyError::IndentTooSmall { lineno },
        Fault::UnmatchedUnindent => DeprettifyError::UnmatchedUnindent { lineno },
    }
}

} // verus!
