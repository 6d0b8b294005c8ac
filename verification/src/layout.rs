//! The cursor of a running parse and the scanning of layout: inline blanks,
//! blank lines and indentation.

use crate::parse_model::{blank_lines_end, extra_dedents, inline_end, line_indent, Cursor};
use crate::text::{inline_space, is_inline_space, lemma_skip_while_unique};
use vstd::prelude::*;

verus! {

/// Where a parse stands: the position in the text and the layout state.
#[derive(Debug)]
pub struct CursorState {
    /// The index of the next character.
    pub pos: usize,
    /// The indentation of the enclosing blocks, outermost first.
    pub indent_stack: Vec<usize>,
    /// How many more blocks the current line closes.
    pub pending_dedents: usize,
    /// Whether nothing of the current line has been matched yet.
    pub at_line_start: bool,
    /// The indentation of the current line.
    pub current_line_indent: usize,
}

/// The mathematical value of a stack of indentations.
pub open spec fn stack_view(stack: &Vec<usize>) -> Seq<int> {
    Seq::new(stack.len() as nat, |i: int| stack[i] as int)
}

impl View for CursorState {
    type V = Cursor;

    open spec fn view(&self) -> Cursor {
        Cursor {
            pos: self.pos as int,
            indent_stack: stack_view(&self.indent_stack),
            pending_dedents: self.pending_dedents as int,
            at_line_start: self.at_line_start,
            current_line_indent: self.current_line_indent as int,
        }
    }
}

impl CursorState {
    /// The cursor of a parse that has not begun.
    pub fn new() -> (state: CursorState)
        ensures
            state@ == Cursor::initial(),
    {
        let mut indent_stack: Vec<usize> = Vec::new();
        indent_stack.push(0);
        let state = CursorState {
            pos: 0,
            indent_stack,
            pending_dedents: 0,
            at_line_start: true,
            current_line_indent: 0,
        };
        assert(state@.indent_stack =~= seq![0int]);
        state
    }

    /// A copy of the cursor, to come back to.
    pub fn snapshot(&self) -> (copy: CursorState)
        ensures
            copy@ == self@,
    {
        let mut indent_stack: Vec<usize> = Vec::new();
        let mut i: usize = 0;
        while i < self.indent_stack.len()
            invariant
                i <= self.indent_stack.len(),
                indent_stack.len() == i,
                forall|j: int| 0 <= j < i ==> indent_stack[j] == self.indent_stack[j],
            decreases self.indent_stack.len() - i,
        {
            indent_stack.push(self.indent_stack[i]);
            i += 1;
        }
        let copy = CursorState {
            pos: self.pos,
            indent_stack,
            pending_dedents: self.pending_dedents,
            at_line_start: self.at_line_start,
            current_line_indent: self.current_line_indent,
        };
        assert(copy@.indent_stack =~= self@.indent_stack);
        copy
    }
}

/// The end of the spaces, tabs and carriage returns that start at `pos`.
pub fn skip_inline(text: &Vec<char>, pos: usize) -> (end: usize)
    requires
        pos <= text.len(),
    ensures
        end == inline_end(text@, pos as int),
        pos <= end <= text.len(),
{
    let mut end = pos;
    while end < text.len() && inline_space(text[end])
        invariant
            pos <= end <= text.len(),
            forall|i: int| pos <= i < end ==> is_inline_space(#[trigger] text@[i]),
        decreases text.len() - end,
    {
        end += 1;
    }
    proof {
        lemma_skip_while_unique(text@, pos as int, |c: char| is_inline_space(c), end as int);
    }
    end
}

/// The start of the first line at or after `pos` that is not blank.
pub fn skip_blank_lines(text: &Vec<char>, pos: usize) -> (start: usize)
    requires
        pos <= text.len(),
    ensures
        start == blank_lines_end(text@, pos as int),
        pos <= start <= text.len(),
{
    let mut start = pos;
    loop
        invariant_except_break
            blank_lines_end(text@, start as int) == blank_lines_end(text@, pos as int),
        invariant
            pos <= start <= text.len(),
        ensures
            pos <= start <= text.len(),
            start == blank_lines_end(text@, pos as int),
        decreases text.len() - start,
    {
        let p = skip_inline(text, start);
        if p < text.len() && text[p] == '\n' {
            start = p + 1;
        } else {
            break;
        }
    }
    start
}

/// The indentation of the line that starts at `pos`.
pub fn measure_indent(text: &Vec<char>, pos: usize) -> (indent: usize)
    requires
        pos <= text.len(),
        8 * text.len() <= usize::MAX,
    ensures
        indent == line_indent(text@, pos as int, 0),
        indent <= 8 * text.len(),
{
    let mut indent: usize = 0;
    let mut at = pos;
    loop
        invariant_except_break
            line_indent(text@, at as int, indent as int) == line_indent(text@, pos as int, 0),
        invariant
            pos <= at <= text.len(),
            8 * text.len() <= usize::MAX,
            indent <= 8 * (at - pos),
        ensures
            indent == line_indent(text@, pos as int, 0),
            indent <= 8 * text.len(),
        decreases text.len() - at,
    {
        if at < text.len() && text[at] == ' ' {
            indent += 1;
            at += 1;
        } else if at < text.len() && text[at] == '\t' {
            assert(indent < (indent / 8 + 1) * 8 <= indent + 8);
            indent = (indent / 8 + 1) * 8;
            at += 1;
        } else {
            break;
        }
    }
    indent
}

/// How many blocks of `stack`, the outermost never counted, are indented
/// deeper than `indent`.
pub fn count_extra_dedents(stack: &Vec<usize>, indent: usize) -> (extra: usize)
    ensures
        extra == extra_dedents(stack_view(stack), indent as int),
        stack.len() > 0 ==> extra < stack.len(),
{
    let mut k: usize = stack.len();
    let mut extra: usize = 0;
    let ghost all = stack_view(stack);
    proof {
        assert(all.take(k as int) =~= all);
    }
    while k > 1 && indent < stack[k - 1]
        invariant
            k <= stack.len(),
            all == stack_view(stack),
            extra + k == stack.len(),
            stack.len() > 0 ==> k >= 1,
            extra + extra_dedents(all.take(k as int), indent as int) == extra_dedents(
                all,
                indent as int,
            ),
        decreases k,
    {
        proof {
            assert(all.take(k as int).last() == stack[k - 1] as int);
            assert(all.take(k as int).drop_last() =~= all.take(k - 1));
        }
        k -= 1;
        extra += 1;
    }
    proof {
        if k >= 1 {
            assert(all.take(k as int).last() == stack[k - 1] as int);
        }
    }
    extra
}

} // verus!
