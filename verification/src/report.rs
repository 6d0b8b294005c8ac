//! The report of a failed parse: where the text went wrong, what would have
//! been accepted there, and how this is shown.

use crate::parse_model::Tracker;
use crate::text::{
    decimal, decimal_chars, from_chars, join_with, lemma_join_push, lemma_skip_while_unique,
    skip_while, substring,
};
use vstd::prelude::*;
use vstd::string::StringExecFns;

verus! {

/// Why a source text does not match its grammar.
#[derive(Debug)]
pub struct ParseError {
    /// The index of the character at which parsing could not go on.
    pub position: usize,
    /// The line of that character, counted from 1.
    pub line: usize,
    /// The column of that character, counted from 1.
    pub column: usize,
    /// What would have been accepted there.
    pub expected: Vec<String>,
    /// What stands there instead.
    pub found: String,
    /// The rule that was being parsed.
    pub context_rule: String,
    /// The whole line.
    pub source_line: String,
}

/// The mathematical value of a [`ParseError`].
pub struct ParseErrorView {
    pub position: int,
    pub line: int,
    pub column: int,
    pub expected: Seq<Seq<char>>,
    pub found: Seq<char>,
    pub context_rule: Seq<char>,
    pub source_line: Seq<char>,
}

/// The mathematical value of a list of strings.
pub open spec fn strings_view(v: &Vec<String>) -> Seq<Seq<char>> {
    Seq::new(v.len() as nat, |i: int| v[i]@)
}

impl View for ParseError {
    type V = ParseErrorView;

    open spec fn view(&self) -> ParseErrorView {
        ParseErrorView {
            position: self.position as int,
            line: self.line as int,
            column: self.column as int,
            expected: strings_view(&self.expected),
            found: self.found@,
            context_rule: self.context_rule@,
            source_line: self.source_line@,
        }
    }
}

/// The start of the line that holds `pos`: the position after the last line
/// feed before `pos`.
pub open spec fn line_start(text: Seq<char>, pos: int) -> int
    decreases pos,
{
    if pos <= 0 {
        0
    } else if text[pos - 1] == '\n' {
        pos
    } else {
        line_start(text, pos - 1)
    }
}

/// The number of the line that holds `pos`, counted from 1.
pub open spec fn line_number(text: Seq<char>, pos: int) -> int
    decreases pos,
{
    if pos <= 0 {
        1
    } else if text[pos - 1] == '\n' {
        line_number(text, pos - 1) + 1
    } else {
        line_number(text, pos - 1)
    }
}

/// The column of `pos` in its line, counted from 1.
pub open spec fn column_number(text: Seq<char>, pos: int) -> int {
    pos - line_start(text, pos) + 1
}

/// A line starts at or before each of its positions; lines and columns count
/// from 1 and never exceed the number of characters before the position by
/// more than one.
pub proof fn lemma_line_bounds(text: Seq<char>, pos: int)
    requires
        0 <= pos,
    ensures
        0 <= line_start(text, pos) <= pos,
        1 <= line_number(text, pos) <= pos + 1,
        1 <= column_number(text, pos) <= pos + 1,
    decreases pos,
{
    if pos > 0 {
        lemma_line_bounds(text, pos - 1);
    }
}

/// The mark that stands for text that was left out.
pub const ELLIPSIS: char = '\u{2026}';

/// The line that holds `pos`, without its line ending.
pub open spec fn source_line_at(text: Seq<char>, pos: int) -> Seq<char> {
    let from = line_start(text, pos);
    let to = skip_while(text, from, |c: char| c != '\n');
    if 0 <= from <= to <= text.len() {
        if from < to < text.len() && text[to - 1] == '\r' {
            text.subrange(from, to - 1)
        } else {
            text.subrange(from, to)
        }
    } else {
        Seq::empty()
    }
}

/// What stands at `pos`: at most 20 characters, with an ellipsis after them
/// if more follow, or `end of input`.
pub open spec fn found_text(text: Seq<char>, pos: int) -> Seq<char> {
    if !(0 <= pos < text.len()) {
        "end of input"@
    } else if text.len() - pos > 20 {
        text.subrange(pos, pos + 20).push(ELLIPSIS)
    } else {
        text.subrange(pos, text.len() as int)
    }
}

/// The report for the furthest failure that `tracker` holds.
pub open spec fn report(text: Seq<char>, tracker: Tracker) -> ParseErrorView {
    ParseErrorView {
        position: tracker.pos,
        line: line_number(text, tracker.pos),
        column: column_number(text, tracker.pos),
        expected: tracker.expected,
        found: found_text(text, tracker.pos),
        context_rule: tracker.rule,
        source_line: source_line_at(text, tracker.pos),
    }
}

/// `n` spaces.
pub open spec fn spaces(n: nat) -> Seq<char> {
    Seq::new(n, |i: int| ' ')
}

/// The line that lists what was expected, if anything was.
pub open spec fn expected_line(expected: Seq<Seq<char>>) -> Seq<char> {
    if expected.len() == 0 {
        Seq::empty()
    } else {
        "Expected: "@ + join_with(expected, " or "@) + seq!['\n']
    }
}

/// How a report is shown:
///
/// ```text
/// Parse error at line L, column C:
///
///  L | <the source line>
///     ^
///
/// Expected: E1 or E2
/// Found: '<what stands there>'
/// While parsing: <the rule>
/// ```
///
/// The `^` stands under the column `C` of the source line.
pub open spec fn render(e: ParseErrorView) -> Seq<char> {
    let line = decimal(e.line as nat);
    "Parse error at line "@ + line + ", column "@ + decimal(e.column as nat) + ":\n\n "@ + line
        + " | "@ + e.source_line + seq!['\n'] + spaces(line.len() + 2) + spaces(e.column as nat)
        + "^\n\n"@ + expected_line(e.expected) + "Found: '"@ + e.found + "'\nWhile parsing: "@
        + e.context_rule + seq!['\n']
}

/// The line and the column of `pos`, both counted from 1.
pub fn pos_to_line_col(text: &Vec<char>, pos: usize) -> (r: (usize, usize))
    requires
        pos <= text.len(),
        text.len() < usize::MAX,
    ensures
        r.0 == line_number(text@, pos as int),
        r.1 == column_number(text@, pos as int),
{
    let mut line: usize = 1;
    let mut col: usize = 1;
    let mut i: usize = 0;
    while i < pos
        invariant
            i <= pos <= text.len(),
            text.len() < usize::MAX,
            line == line_number(text@, i as int),
            col == column_number(text@, i as int),
        decreases pos - i,
    {
        proof {
            lemma_line_bounds(text@, i as int);
            lemma_line_bounds(text@, i + 1);
        }
        if text[i] == '\n' {
            line += 1;
            col = 1;
        } else {
            col += 1;
        }
        i += 1;
    }
    (line, col)
}

/// The line that holds `pos`, without its line ending.
pub fn get_source_line(text: &Vec<char>, pos: usize) -> (s: String)
    requires
        pos <= text.len(),
    ensures
        s@ == source_line_at(text@, pos as int),
{
    let mut from: usize = pos;
    while from > 0 && text[from - 1] != '\n'
        invariant
            from <= pos <= text.len(),
            line_start(text@, from as int) == line_start(text@, pos as int),
        decreases from,
    {
        from -= 1;
    }
    let mut to: usize = from;
    while to < text.len() && text[to] != '\n'
        invariant
            from <= to <= text.len(),
            forall|i: int| from <= i < to ==> #[trigger] text@[i] != '\n',
        decreases text.len() - to,
    {
        to += 1;
    }
    proof {
        lemma_skip_while_unique(text@, from as int, |c: char| c != '\n', to as int);
    }
    if from < to && to < text.len() && text[to - 1] == '\r' {
        substring(text, from, to - 1)
    } else {
        substring(text, from, to)
    }
}

/// What stands at `pos`.
pub fn get_found_text(text: &Vec<char>, pos: usize) -> (s: String)
    requires
        pos <= text.len(),
    ensures
        s@ == found_text(text@, pos as int),
{
    if pos >= text.len() {
        "end of input".to_owned()
    } else if text.len() - pos > 20 {
        let mut s = substring(text, pos, pos + 20);
        s.push(ELLIPSIS);
        s
    } else {
        substring(text, pos, text.len())
    }
}

/// A copy of a list of strings.
pub fn copy_strings(v: &Vec<String>) -> (r: Vec<String>)
    ensures
        strings_view(&r) == strings_view(v),
{
    let mut r: Vec<String> = Vec::new();
    let mut i: usize = 0;
    while i < v.len()
        invariant
            i <= v.len(),
            r.len() == i,
            forall|j: int| 0 <= j < i ==> r[j]@ == v[j]@,
        decreases v.len() - i,
    {
        r.push(v[i].clone());
        i += 1;
    }
    assert(strings_view(&r) =~= strings_view(v));
    r
}

/// `n` spaces after `s`.
fn pad(s: String, n: usize) -> (r: String)
    ensures
        r@ == s@ + spaces(n as nat),
{
    let mut r = s;
    let mut i: usize = 0;
    assert(r@ =~= s@ + spaces(0));
    while i < n
        invariant
            i <= n,
            r@ == s@ + spaces(i as nat),
        decreases n - i,
    {
        r.push(' ');
        i += 1;
        assert(r@ =~= s@ + spaces(i as nat));
    }
    r
}

impl ParseError {
    /// The report as it is shown to the reader.
    pub fn to_string(&self) -> (s: String)
        ensures
            s@ == render(self@),
    {
        let line = from_chars(&decimal_chars(self.line));
        let column = from_chars(&decimal_chars(self.column));
        let mut s = "Parse error at line ".to_owned();
        s.append(line.as_str());
        s.append(", column ");
        s.append(column.as_str());
        s.append(":\n\n ");
        s.append(line.as_str());
        s.append(" | ");
        s.append(self.source_line.as_str());
        s.push('\n');
        let width = decimal_chars(self.line).len();
        s = pad(s, width);
        s = pad(s, 2);
        assert(spaces(width as nat) + spaces(2) =~= spaces((width + 2) as nat));
        s = pad(s, self.column);
        s.append("^\n\n");
        let ghost head = s@;
        if self.expected.len() > 0 {
            s.append("Expected: ");
            let ghost prefix = s@;
            let ghost mut parts: Seq<Seq<char>> = Seq::empty();
            let mut i: usize = 0;
            assert(strings_view(&self.expected).take(0) =~= parts);
            while i < self.expected.len()
                invariant
                    i <= self.expected.len(),
                    parts == strings_view(&self.expected).take(i as int),
                    s@ == prefix + join_with(parts, " or "@),
                decreases self.expected.len() - i,
            {
                proof {
                    lemma_join_push(parts, " or "@, self.expected[i as int]@);
                }
                if i > 0 {
                    s.append(" or ");
                }
                s.append(self.expected[i].as_str());
                proof {
                    parts = parts.push(self.expected[i as int]@);
                    assert(strings_view(&self.expected).take(i + 1) =~= parts);
                    assert(s@ =~= prefix + join_with(parts, " or "@));
                }
                i += 1;
            }
            assert(strings_view(&self.expected).take(self.expected.len() as int)
                =~= strings_view(&self.expected));
            s.push('\n');
            assert(s@ =~= head + expected_line(self@.expected));
        } else {
            assert(s@ =~= head + expected_line(self@.expected));
        }
        s.append("Found: '");
        s.append(self.found.as_str());
        s.append("'\nWhile parsing: ");
        s.append(self.context_rule.as_str());
        s.push('\n');
        assert(s@ =~= render(self@));
        s
    }
}

impl Clone for ParseError {
    /// A copy of the report.
    fn clone(&self) -> (copy: Self)
        ensures
            copy@ == self@,
    {
        ParseError {
            position: self.position,
            line: self.line,
            column: self.column,
            expected: copy_strings(&self.expected),
            found: self.found.clone(),
            context_rule: self.context_rule.clone(),
            source_line: self.source_line.clone(),
        }
    }
}

} // verus!
