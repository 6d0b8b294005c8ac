//! What parsing a source text under a source grammar means.
//!
//! A parse is a series of steps. Each step tries one expression of the
//! grammar at a cursor and either matches, giving a node and a new cursor, or
//! fails, leaving the cursor where it was. Beside the cursor runs a tracker
//! that remembers the furthest position at which a terminal failed. Rules may
//! refer to each other without end, so every step carries a budget of nested
//! steps; a parse that would nest deeper halts.

use crate::ast::NodeView;
use crate::meta_parser::{find_input_rule, GrammarExprView, InputRuleView};
use crate::pattern::{anchored_text, probe_of, ProbeView};
use crate::text::{has_prefix_at, is_inline_space, lemma_skip_while, skip_while};
use vstd::prelude::*;

verus! {

/// Where a parse stands: the position in the text and the layout state.
pub struct Cursor {
    /// The index of the next character.
    pub pos: int,
    /// The indentation of the enclosing blocks, outermost first.
    pub indent_stack: Seq<int>,
    /// How many more blocks the current line closes.
    pub pending_dedents: int,
    /// Whether nothing of the current line has been matched yet.
    pub at_line_start: bool,
    /// The indentation of the current line.
    pub current_line_indent: int,
}

/// The furthest failure of a terminal so far.
pub struct Tracker {
    /// The position of the failure.
    pub pos: int,
    /// What would have been accepted at that position.
    pub expected: Seq<Seq<char>>,
    /// The rule that was being parsed when the position was first reached.
    pub rule: Seq<char>,
}

/// Why a parse stopped without an answer.
pub enum Halt {
    /// A pattern of the grammar is no regular expression.
    BadPattern(Seq<char>),
    /// The grammar nests deeper on this text than the budget allows.
    TooDeep,
}

/// What a step gave.
pub struct Outcome {
    /// A node if the step matched, nothing if it failed.
    pub result: Result<Option<NodeView>, Halt>,
    pub cursor: Cursor,
    pub tracker: Tracker,
}

/// The step matched.
pub open spec fn matched(node: NodeView, cursor: Cursor, tracker: Tracker) -> Outcome {
    Outcome { result: Ok(Some(node)), cursor, tracker }
}

/// The step failed; the cursor is where it was before.
pub open spec fn failed(cursor: Cursor, tracker: Tracker) -> Outcome {
    Outcome { result: Ok(None), cursor, tracker }
}

/// The parse stops.
pub open spec fn halted(halt: Halt, cursor: Cursor, tracker: Tracker) -> Outcome {
    Outcome { result: Err(halt), cursor, tracker }
}

/// The tracker after a terminal failed at `pos`, where `expected` would have
/// been accepted, while `rule` was being parsed. A failure further on
/// replaces what was known; one at the same position adds to it.
pub open spec fn record(tracker: Tracker, pos: int, expected: Seq<char>, rule: Seq<char>)
    -> Tracker {
    if pos > tracker.pos {
        Tracker { pos, expected: seq![expected], rule }
    } else if pos == tracker.pos && !tracker.expected.contains(expected) {
        Tracker { expected: tracker.expected.push(expected), ..tracker }
    } else {
        tracker
    }
}

/// The end of the spaces, tabs and carriage returns that start at `pos`.
pub open spec fn inline_end(text: Seq<char>, pos: int) -> int {
    skip_while(text, pos, |c: char| is_inline_space(c))
}

/// Inline blanks end further on and within the text; what is skipped is
/// blank, and what follows is not.
pub proof fn lemma_inline_end(text: Seq<char>, pos: int)
    requires
        0 <= pos <= text.len(),
    ensures
        pos <= inline_end(text, pos) <= text.len(),
        forall|i: int| pos <= i < inline_end(text, pos) ==> is_inline_space(#[trigger] text[i]),
        inline_end(text, pos) < text.len() ==> !is_inline_space(text[inline_end(text, pos)]),
{
    lemma_skip_while(text, pos, |c: char| is_inline_space(c));
}

/// The column reached by the spaces and tabs that start at `pos`, counted
/// from `column`. A tab moves to the next multiple of 8.
pub open spec fn line_indent(text: Seq<char>, pos: int, column: int) -> int
    decreases text.len() - pos,
{
    if 0 <= pos < text.len() && text[pos] == ' ' {
        line_indent(text, pos + 1, column + 1)
    } else if 0 <= pos < text.len() && text[pos] == '\t' {
        line_indent(text, pos + 1, (column / 8 + 1) * 8)
    } else {
        column
    }
}

/// A character adds eight columns at most.
pub proof fn lemma_line_indent_bound(text: Seq<char>, pos: int, column: int)
    requires
        0 <= pos <= text.len(),
        0 <= column,
    ensures
        column <= line_indent(text, pos, column) <= column + 8 * (text.len() - pos),
    decreases text.len() - pos,
{
    if 0 <= pos < text.len() && text[pos] == ' ' {
        lemma_line_indent_bound(text, pos + 1, column + 1);
    } else if 0 <= pos < text.len() && text[pos] == '\t' {
        assert(column < (column / 8 + 1) * 8 <= column + 8);
        lemma_line_indent_bound(text, pos + 1, (column / 8 + 1) * 8);
    }
}

/// The start of the first line at or after `pos` that is not blank, where
/// `pos` starts a line.
pub open spec fn blank_lines_end(text: Seq<char>, pos: int) -> int
    decreases text.len() - pos,
{
    let p = inline_end(text, pos);
    if 0 <= pos <= text.len() && p < text.len() && text[p] == '\n' {
        proof {
            lemma_inline_end(text, pos);
        }
        blank_lines_end(text, p + 1)
    } else {
        pos
    }
}

/// Blank lines end further on and within the text.
pub proof fn lemma_blank_lines_end(text: Seq<char>, pos: int)
    requires
        0 <= pos <= text.len(),
    ensures
        pos <= blank_lines_end(text, pos) <= text.len(),
    decreases text.len() - pos,
{
    lemma_inline_end(text, pos);
    let p = inline_end(text, pos);
    if p < text.len() && text[p] == '\n' {
        lemma_blank_lines_end(text, p + 1);
    }
}

/// The indentation of the innermost block.
pub open spec fn top_indent(stack: Seq<int>) -> int {
    if stack.len() > 0 {
        stack.last()
    } else {
        0
    }
}

/// How many blocks of `stack`, the outermost never counted, are indented
/// deeper than `indent`.
pub open spec fn extra_dedents(stack: Seq<int>, indent: int) -> int
    decreases stack.len(),
{
    if stack.len() > 1 && indent < stack.last() {
        1 + extra_dedents(stack.drop_last(), indent)
    } else {
        0
    }
}

/// Fewer blocks can be closed than there are, the outermost staying open.
pub proof fn lemma_extra_dedents(stack: Seq<int>, indent: int)
    ensures
        0 <= extra_dedents(stack, indent),
        stack.len() > 0 ==> extra_dedents(stack, indent) < stack.len(),
        stack.len() == 0 ==> extra_dedents(stack, indent) == 0,
    decreases stack.len(),
{
    if stack.len() > 1 && indent < stack.last() {
        lemma_extra_dedents(stack.drop_last(), indent);
    }
}

impl Cursor {
    /// The cursor of a parse that has not begun.
    pub open spec fn initial() -> Cursor {
        Cursor {
            pos: 0,
            indent_stack: seq![0int],
            pending_dedents: 0,
            at_line_start: true,
            current_line_indent: 0,
        }
    }

    /// The cursor is within `text`; the blocks start with the outermost, at
    /// column 0, and each is indented deeper than the one around it; the
    /// blocks still to be closed are among them, the outermost excepted.
    pub open spec fn well_formed(self, text: Seq<char>) -> bool {
        &&& 0 <= self.pos <= text.len()
        &&& self.indent_stack.len() >= 1
        &&& self.indent_stack[0] == 0
        &&& forall|i: int, j: int|
            0 <= i < j < self.indent_stack.len() ==> self.indent_stack[i] < self.indent_stack[j]
        &&& 0 <= self.pending_dedents < self.indent_stack.len()
        &&& 0 <= self.current_line_indent <= 8 * text.len()
    }

    /// The cursor with the indentation of the line that starts at its
    /// position, if it is at the start of a line.
    pub open spec fn with_line_indent(self, text: Seq<char>) -> Cursor {
        if self.at_line_start {
            Cursor { current_line_indent: line_indent(text, self.pos, 0), ..self }
        } else {
            self
        }
    }
}

impl Tracker {
    /// The tracker of a parse that has not begun.
    pub open spec fn initial() -> Tracker {
        Tracker { pos: 0, expected: Seq::empty(), rule: Seq::empty() }
    }

    /// The furthest failure lies within `text`.
    pub open spec fn well_formed(self, text: Seq<char>) -> bool {
        0 <= self.pos <= text.len()
    }
}

/// What a failed literal reports as expected: the literal in quotes.
pub open spec fn expected_literal(lit: Seq<char>) -> Seq<char> {
    seq!['"'] + lit + seq!['"']
}

/// What a failed pattern reports as expected.
pub open spec fn expected_pattern(pattern: Seq<char>) -> Seq<char> {
    "pattern /"@ + pattern + seq!['/']
}

/// The regular expression that a pattern is matched with: the pattern,
/// anchored at the start.
pub open spec fn anchored_pattern(pattern: Seq<char>) -> Seq<char> {
    seq!['^'] + pattern
}

/// A literal: inline blanks are skipped, then the literal must follow.
pub open spec fn step_literal(
    text: Seq<char>,
    lit: Seq<char>,
    rule: Seq<char>,
    c: Cursor,
    t: Tracker,
) -> Outcome {
    let p = inline_end(text, c.pos);
    if has_prefix_at(text, p, lit) {
        matched(
            NodeView::leaf("_literal"@, lit),
            Cursor { pos: p + lit.len(), at_line_start: false, ..c },
            t,
        )
    } else {
        failed(c, record(t, p, expected_literal(lit), rule))
    }
}

/// What a pattern does once the regular expression has been tried on the
/// text from `p` on: it matches what the expression matched at `p`.
pub open spec fn pattern_outcome(
    text: Seq<char>,
    pattern: Seq<char>,
    rule: Seq<char>,
    c: Cursor,
    t: Tracker,
    p: int,
    probe: ProbeView,
) -> Outcome {
    if probe is Invalid {
        halted(Halt::BadPattern(pattern), c, t)
    } else {
        match anchored_text(probe) {
            Some(found) => if has_prefix_at(text, p, found) {
                matched(
                    NodeView::leaf("_pattern"@, found),
                    Cursor { pos: p + found.len(), at_line_start: false, ..c },
                    t,
                )
            } else {
                failed(c, record(t, p, expected_pattern(pattern), rule))
            },
            None => failed(c, record(t, p, expected_pattern(pattern), rule)),
        }
    }
}

/// A pattern: inline blanks are skipped, then the anchored regular
/// expression is tried on the rest of the text.
pub open spec fn step_pattern(
    text: Seq<char>,
    pattern: Seq<char>,
    rule: Seq<char>,
    c: Cursor,
    t: Tracker,
) -> Outcome {
    let p = inline_end(text, c.pos);
    pattern_outcome(
        text,
        pattern,
        rule,
        c,
        t,
        p,
        probe_of(anchored_pattern(pattern), text.skip(p)),
    )
}

/// The end of a line: inline blanks, one line feed, and any blank lines
/// after it. The cursor then stands at the start of a line whose indentation
/// it knows.
pub open spec fn step_newline(text: Seq<char>, rule: Seq<char>, c: Cursor, t: Tracker) -> Outcome {
    let p = inline_end(text, c.pos);
    if 0 <= p < text.len() && text[p] == '\n' {
        let start = blank_lines_end(text, p + 1);
        matched(
            NodeView::leaf("_newline"@, seq!['\n']),
            Cursor {
                pos: start,
                at_line_start: true,
                current_line_indent: line_indent(text, start, 0),
                ..c
            },
            t,
        )
    } else {
        failed(c, record(t, p, "NEWLINE"@, rule))
    }
}

/// The start of a block: the line is indented deeper than the innermost
/// block, and no block is waiting to be closed.
pub open spec fn step_indent(text: Seq<char>, rule: Seq<char>, c: Cursor, t: Tracker) -> Outcome {
    if c.pending_dedents <= 0 && c.current_line_indent > top_indent(c.indent_stack) {
        matched(
            NodeView::leaf("_indent"@, Seq::empty()),
            Cursor {
                pos: inline_end(text, c.pos),
                indent_stack: c.indent_stack.push(c.current_line_indent),
                at_line_start: false,
                ..c
            },
            t,
        )
    } else {
        failed(c, record(t, c.pos, "INDENT"@, rule))
    }
}

/// The end of a block: a block is waiting to be closed, or the line is
/// indented less than the innermost block. In the second case the blocks
/// that the line closes beyond the innermost are left waiting.
pub open spec fn step_dedent(rule: Seq<char>, c: Cursor, t: Tracker) -> Outcome {
    if c.pending_dedents > 0 {
        matched(
            NodeView::leaf("_dedent"@, Seq::empty()),
            Cursor {
                indent_stack: if c.indent_stack.len() > 0 {
                    c.indent_stack.drop_last()
                } else {
                    c.indent_stack
                },
                pending_dedents: c.pending_dedents - 1,
                ..c
            },
            t,
        )
    } else if c.current_line_indent < top_indent(c.indent_stack) {
        let rest = c.indent_stack.drop_last();
        matched(
            NodeView::leaf("_dedent"@, Seq::empty()),
            Cursor {
                indent_stack: rest,
                pending_dedents: extra_dedents(rest, c.current_line_indent),
                ..c
            },
            t,
        )
    } else {
        failed(c, record(t, c.pos, "DEDENT"@, rule))
    }
}

/// A line of the enclosing block: it is indented exactly as the innermost
/// block.
pub open spec fn step_same_indent(text: Seq<char>, rule: Seq<char>, c: Cursor, t: Tracker)
    -> Outcome {
    if c.current_line_indent == top_indent(c.indent_stack) {
        matched(
            NodeView::leaf("_same_indent"@, Seq::empty()),
            Cursor { pos: inline_end(text, c.pos), at_line_start: false, ..c },
            t,
        )
    } else {
        failed(c, record(t, c.pos, "SAME_INDENT"@, rule))
    }
}

/// `node` after it has taken up `child`: a node of a rule becomes a child;
/// of an internal node only the children are taken.
pub open spec fn absorb(node: NodeView, child: NodeView) -> NodeView {
    if child.is_internal() {
        node.with_children_of(child)
    } else {
        node.with_child(child)
    }
}

/// The text that a rule captures when its body gave neither children nor
/// text: what the rule matched, without the inline blanks before it.
pub open spec fn captured_text(text: Seq<char>, start: int, end: int) -> Seq<char> {
    let from = inline_end(text, start);
    if 0 <= from <= end <= text.len() {
        text.subrange(from, end)
    } else {
        Seq::empty()
    }
}

/// The node of the rule `name` whose body gave `node`.
pub open spec fn finish_rule(node: NodeView, name: Seq<char>, captured: Seq<char>) -> NodeView {
    NodeView {
        name,
        value: if node.children.len() == 0 && node.value.len() == 0 {
            captured
        } else {
            node.value
        },
        children: node.children,
    }
}

/// The group node made from what the parenthesised expression gave: only its
/// children are kept.
pub open spec fn group_node(inner: NodeView) -> NodeView {
    NodeView::leaf("_group"@, Seq::empty()).with_children_of(inner)
}

/// One step: `expr`, an expression of the rule `rule`, tried at `c`.
pub open spec fn step(
    rules: Seq<InputRuleView>,
    text: Seq<char>,
    expr: GrammarExprView,
    rule: Seq<char>,
    c: Cursor,
    t: Tracker,
    depth: nat,
) -> Outcome
    decreases depth, 0nat,
{
    if depth == 0 {
        halted(Halt::TooDeep, c, t)
    } else {
        let d = (depth - 1) as nat;
        match expr {
            GrammarExprView::Literal(lit) => step_literal(text, lit, rule, c, t),
            GrammarExprView::Pattern(pattern) => step_pattern(text, pattern, rule, c, t),
            GrammarExprView::RuleRef(name) => step_rule(rules, text, name, c, t, d),
            GrammarExprView::Sequence(items) => step_items(
                rules,
                text,
                items,
                rule,
                NodeView::leaf(rule, Seq::empty()),
                c,
                c,
                t,
                d,
            ),
            GrammarExprView::Choice(alternatives) => step_choice(
                rules,
                text,
                alternatives,
                rule,
                c,
                t,
                d,
            ),
            GrammarExprView::ZeroOrMore(inner) => step_repeat(
                rules,
                text,
                *inner,
                rule,
                NodeView::leaf("_repeat"@, Seq::empty()),
                c,
                t,
                d,
            ),
            GrammarExprView::OneOrMore(inner) => {
                let o = step(rules, text, *inner, rule, c, t, d);
                match o.result {
                    Ok(Some(child)) => {
                        let node = absorb(NodeView::leaf("_repeat"@, Seq::empty()), child);
                        if c.pos < o.cursor.pos <= text.len() {
                            step_repeat(rules, text, *inner, rule, node, o.cursor, o.tracker, d)
                        } else {
                            matched(node, o.cursor, o.tracker)
                        }
                    },
                    Ok(None) => failed(c, o.tracker),
                    Err(halt) => halted(halt, c, o.tracker),
                }
            },
            GrammarExprView::Optional(inner) => {
                let o = step(rules, text, *inner, rule, c, t, d);
                match o.result {
                    Ok(Some(child)) => o,
                    Ok(None) => matched(
                        NodeView::leaf("_optional_empty"@, Seq::empty()),
                        c,
                        o.tracker,
                    ),
                    Err(halt) => halted(halt, c, o.tracker),
                }
            },
            GrammarExprView::Group(inner) => {
                let o = step(rules, text, *inner, rule, c, t, d);
                match o.result {
                    Ok(Some(child)) => matched(group_node(child), o.cursor, o.tracker),
                    Ok(None) => failed(c, o.tracker),
                    Err(halt) => halted(halt, c, o.tracker),
                }
            },
            GrammarExprView::Indent => step_indent(text, rule, c, t),
            GrammarExprView::Dedent => step_dedent(rule, c, t),
            GrammarExprView::Newline => step_newline(text, rule, c, t),
            GrammarExprView::SameIndent => step_same_indent(text, rule, c, t),
        }
    }
}

/// The rule `name`, tried at `c`. A rule that the grammar lacks fails. The
/// node of a rule bears the rule's name.
pub open spec fn step_rule(
    rules: Seq<InputRuleView>,
    text: Seq<char>,
    name: Seq<char>,
    c: Cursor,
    t: Tracker,
    depth: nat,
) -> Outcome
    decreases depth, 0nat,
{
    if depth == 0 {
        halted(Halt::TooDeep, c, t)
    } else {
        match find_input_rule(rules, name) {
            None => failed(c, t),
            Some(body) => {
                let o = step(rules, text, body, name, c, t, (depth - 1) as nat);
                match o.result {
                    Ok(Some(node)) => matched(
                        finish_rule(node, name, captured_text(text, c.pos, o.cursor.pos)),
                        o.cursor,
                        o.tracker,
                    ),
                    Ok(None) => failed(c, o.tracker),
                    Err(halt) => halted(halt, c, o.tracker),
                }
            },
        }
    }
}

/// The items of a sequence that are still to come, tried one after the
/// other from `c`; `node` holds what the earlier ones gave. If one fails, the
/// sequence fails and the cursor is back at `start`.
pub open spec fn step_items(
    rules: Seq<InputRuleView>,
    text: Seq<char>,
    items: Seq<GrammarExprView>,
    rule: Seq<char>,
    node: NodeView,
    start: Cursor,
    c: Cursor,
    t: Tracker,
    depth: nat,
) -> Outcome
    decreases depth, items.len(),
{
    if items.len() == 0 {
        matched(node, c, t)
    } else {
        let o = step(rules, text, items[0], rule, c, t, depth);
        match o.result {
            Ok(Some(child)) => step_items(
                rules,
                text,
                items.drop_first(),
                rule,
                absorb(node, child),
                start,
                o.cursor,
                o.tracker,
                depth,
            ),
            Ok(None) => failed(start, o.tracker),
            Err(halt) => halted(halt, start, o.tracker),
        }
    }
}

/// The alternatives of a choice that are still to come, each tried at `c`:
/// the first that matches is taken. Its node is passed on if it bears the
/// name of the rule, else it is taken up by a new node of that name.
pub open spec fn step_choice(
    rules: Seq<InputRuleView>,
    text: Seq<char>,
    alternatives: Seq<GrammarExprView>,
    rule: Seq<char>,
    c: Cursor,
    t: Tracker,
    depth: nat,
) -> Outcome
    decreases depth, alternatives.len(),
{
    if alternatives.len() == 0 {
        failed(c, t)
    } else {
        let o = step(rules, text, alternatives[0], rule, c, t, depth);
        match o.result {
            Ok(Some(child)) => matched(
                if child.name == rule {
                    child
                } else {
                    absorb(NodeView::leaf(rule, Seq::empty()), child)
                },
                o.cursor,
                o.tracker,
            ),
            Ok(None) => step_choice(
                rules,
                text,
                alternatives.drop_first(),
                rule,
                c,
                o.tracker,
                depth,
            ),
            Err(halt) => halted(halt, c, o.tracker),
        }
    }
}

/// A repetition from `c` on; `node` holds what the earlier rounds gave. The
/// repetition ends with the first round that fails, or that matches without
/// moving on in the text.
pub open spec fn step_repeat(
    rules: Seq<InputRuleView>,
    text: Seq<char>,
    inner: GrammarExprView,
    rule: Seq<char>,
    node: NodeView,
    c: Cursor,
    t: Tracker,
    depth: nat,
) -> Outcome
    decreases depth, text.len() - c.pos + 1,
{
    if !(0 <= c.pos <= text.len()) {
        matched(node, c, t)
    } else {
        let o = step(rules, text, inner, rule, c, t, depth);
        match o.result {
            Ok(Some(child)) => if c.pos < o.cursor.pos <= text.len() {
                step_repeat(
                    rules,
                    text,
                    inner,
                    rule,
                    absorb(node, child),
                    o.cursor,
                    o.tracker,
                    depth,
                )
            } else {
                matched(absorb(node, child), o.cursor, o.tracker)
            },
            Ok(None) => matched(node, c, o.tracker),
            Err(halt) => halted(halt, c, o.tracker),
        }
    }
}

} // verus!
