//! What holds of every step of a parse, whatever the grammar and the text.

use crate::ast::{
    all_nodes, lemma_add_child_keeps_order, lemma_add_child_well_formed,
    lemma_take_children_keeps_order, lemma_take_children_well_formed, named, NodeView,
};
use crate::meta_parser::{
    find_input_rule, input_rule_index, lemma_input_rule_index, GrammarExprView, InputRuleView,
};
use crate::parse_model::{
    absorb, blank_lines_end, inline_end, lemma_blank_lines_end, lemma_extra_dedents,
    lemma_inline_end, lemma_line_indent_bound, pattern_outcome, step, step_choice,
    step_dedent, step_indent, step_items, step_literal, step_newline, step_pattern, step_repeat,
    step_rule, step_same_indent, top_indent, Cursor, Halt, Outcome, Tracker,
};
use crate::parser::{parse_from, FailureView};
use crate::pattern::ProbeView;
use vstd::prelude::*;

verus! {

/// Every rule that `expr` refers to is defined, and every choice in it has
/// an alternative.
pub open spec fn expr_closed(rules: Seq<InputRuleView>, expr: GrammarExprView) -> bool
    decreases expr,
{
    match expr {
        GrammarExprView::RuleRef(name) => find_input_rule(rules, name) is Some,
        GrammarExprView::Sequence(items) => forall|i: int|
            0 <= i < items.len() ==> expr_closed(rules, #[trigger] items[i]),
        GrammarExprView::Choice(alternatives) => alternatives.len() > 0 && forall|i: int|
            0 <= i < alternatives.len() ==> expr_closed(rules, #[trigger] alternatives[i]),
        GrammarExprView::ZeroOrMore(inner) => expr_closed(rules, *inner),
        GrammarExprView::OneOrMore(inner) => expr_closed(rules, *inner),
        GrammarExprView::Optional(inner) => expr_closed(rules, *inner),
        GrammarExprView::Group(inner) => expr_closed(rules, *inner),
        _ => true,
    }
}

/// Every rule that the grammar refers to is defined, and every choice in it
/// has an alternative.
pub open spec fn grammar_closed(rules: Seq<InputRuleView>) -> bool {
    forall|i: int| 0 <= i < rules.len() ==> expr_closed(rules, (#[trigger] rules[i]).expr)
}

/// Every expression of `items` is closed.
pub open spec fn all_closed(rules: Seq<InputRuleView>, items: Seq<GrammarExprView>) -> bool {
    forall|i: int| 0 <= i < items.len() ==> expr_closed(rules, #[trigger] items[i])
}

/// What holds of the outcome `o` of a step tried at `c` with the tracker `t`:
///
/// - the furthest failure has not moved back, and lies within the text;
/// - unless the parse halted, the cursor is well formed;
/// - a step that matched has not moved back in the text, and its node is
///   well formed;
/// - a step that failed has left the cursor exactly as it was, layout state
///   included, and, if `closed`, the furthest failure lies at or beyond the
///   position at which the step was tried.
pub open spec fn step_law(text: Seq<char>, c: Cursor, t: Tracker, o: Outcome, closed: bool)
    -> bool {
    &&& t.pos <= o.tracker.pos <= text.len()
    &&& o.result is Ok ==> o.cursor.well_formed(text)
    &&& o.result matches Ok(Some(node)) ==> o.cursor.pos >= c.pos && node.well_formed()
    &&& o.result matches Ok(None) ==> o.cursor == c && (closed ==> o.tracker.pos >= c.pos)
}

/// A well-formed node that takes up a well-formed node stays well formed.
pub proof fn lemma_absorb_well_formed(node: NodeView, child: NodeView)
    requires
        node.well_formed(),
        child.well_formed(),
    ensures
        absorb(node, child).well_formed(),
{
    if child.is_internal() {
        lemma_take_children_well_formed(node, child);
    } else {
        lemma_add_child_well_formed(node, child);
    }
}

/// The law of steps, for each terminal.
proof fn lemma_terminals(
    text: Seq<char>,
    word: Seq<char>,
    rule: Seq<char>,
    c: Cursor,
    t: Tracker,
    p: int,
    probe: ProbeView,
)
    requires
        c.well_formed(text),
        t.well_formed(text),
        c.pos <= p <= text.len(),
    ensures
        step_law(text, c, t, step_literal(text, word, rule, c, t), true),
        step_law(text, c, t, pattern_outcome(text, word, rule, c, t, p, probe), true),
        step_law(text, c, t, step_pattern(text, word, rule, c, t), true),
        step_law(text, c, t, step_newline(text, rule, c, t), true),
        step_law(text, c, t, step_indent(text, rule, c, t), true),
        step_law(text, c, t, step_dedent(rule, c, t), true),
        step_law(text, c, t, step_same_indent(text, rule, c, t), true),
{
    lemma_inline_end(text, c.pos);
    let q = inline_end(text, c.pos);
    if q < text.len() && text[q] == '\n' {
        lemma_blank_lines_end(text, q + 1);
        lemma_line_indent_bound(text, blank_lines_end(text, q + 1), 0);
    }
    // the start of a block
    if c.pending_dedents <= 0 && c.current_line_indent > top_indent(c.indent_stack) {
        let pushed = c.indent_stack.push(c.current_line_indent);
        assert forall|i: int, j: int| 0 <= i < j < pushed.len() implies pushed[i] < pushed[j] by {
            if j == pushed.len() - 1 {
                if i < c.indent_stack.len() - 1 {
                    assert(c.indent_stack[i] < c.indent_stack[c.indent_stack.len() - 1]);
                }
            }
        }
    }
    // the end of a block
    if c.pending_dedents > 0 {
        let rest = c.indent_stack.drop_last();
        assert(rest[0] == c.indent_stack[0]);
        assert forall|i: int, j: int| 0 <= i < j < rest.len() implies rest[i] < rest[j] by {
            assert(rest[i] == c.indent_stack[i]);
            assert(rest[j] == c.indent_stack[j]);
        }
    } else if c.current_line_indent < top_indent(c.indent_stack) {
        let rest = c.indent_stack.drop_last();
        assert(c.indent_stack.len() >= 2) by {
            if c.indent_stack.len() == 1 {
                assert(c.indent_stack.last() == c.indent_stack[0]);
            }
        }
        assert(rest[0] == c.indent_stack[0]);
        assert forall|i: int, j: int| 0 <= i < j < rest.len() implies rest[i] < rest[j] by {
            assert(rest[i] == c.indent_stack[i]);
            assert(rest[j] == c.indent_stack[j]);
        }
        lemma_extra_dedents(rest, c.current_line_indent);
    }
}

/// The rule that a name stands for is one of the rules of the grammar.
proof fn lemma_found_rule_closed(rules: Seq<InputRuleView>, name: Seq<char>)
    requires
        grammar_closed(rules),
        find_input_rule(rules, name) is Some,
    ensures
        expr_closed(rules, find_input_rule(rules, name)->Some_0),
{
    lemma_input_rule_index(rules, name);
    let k = input_rule_index(rules, name);
    assert(expr_closed(rules, rules[k].expr));
}

/// The law of steps, for one expression.
///
/// In particular, for every choice `A | B`: if `A` fails, `B` is tried from
/// the very cursor from which `A` was tried, and the furthest failure is at
/// least as far as before.
pub proof fn lemma_step(
    rules: Seq<InputRuleView>,
    text: Seq<char>,
    expr: GrammarExprView,
    rule: Seq<char>,
    c: Cursor,
    t: Tracker,
    depth: nat,
)
    requires
        c.well_formed(text),
        t.well_formed(text),
    ensures
        step_law(
            text,
            c,
            t,
            step(rules, text, expr, rule, c, t, depth),
            grammar_closed(rules) && expr_closed(rules, expr),
        ),
    decreases depth, 0nat,
{
    if depth > 0 {
        let d = (depth - 1) as nat;
        lemma_inline_end(text, c.pos);
        lemma_terminals(text, Seq::empty(), rule, c, t, inline_end(text, c.pos), ProbeView::Absent);
        match expr {
            GrammarExprView::Literal(lit) => {
                lemma_terminals(text, lit, rule, c, t, inline_end(text, c.pos), ProbeView::Absent);
            },
            GrammarExprView::Pattern(pattern) => {
                lemma_terminals(
                    text,
                    pattern,
                    rule,
                    c,
                    t,
                    inline_end(text, c.pos),
                    ProbeView::Absent,
                );
            },
            GrammarExprView::RuleRef(name) => {
                lemma_step_rule(rules, text, name, c, t, d);
            },
            GrammarExprView::Sequence(items) => {
                lemma_step_items(
                    rules,
                    text,
                    items,
                    rule,
                    NodeView::leaf(rule, Seq::empty()),
                    c,
                    c,
                    t,
                    d,
                );
            },
            GrammarExprView::Choice(alternatives) => {
                lemma_step_choice(rules, text, alternatives, rule, c, t, d);
            },
            GrammarExprView::ZeroOrMore(inner) => {
                lemma_step_repeat(
                    rules,
                    text,
                    *inner,
                    rule,
                    NodeView::leaf("_repeat"@, Seq::empty()),
                    c,
                    t,
                    d,
                );
            },
            GrammarExprView::OneOrMore(inner) => {
                lemma_step(rules, text, *inner, rule, c, t, d);
                let o = step(rules, text, *inner, rule, c, t, d);
                match o.result {
                    Ok(Some(child)) => {
                        lemma_absorb_well_formed(NodeView::leaf("_repeat"@, Seq::empty()), child);
                        if c.pos < o.cursor.pos <= text.len() {
                            lemma_step_repeat(
                                rules,
                                text,
                                *inner,
                                rule,
                                absorb(
                                    NodeView::leaf("_repeat"@, Seq::empty()),
                                    child,
                                ),
                                o.cursor,
                                o.tracker,
                                d,
                            );
                        }
                    },
                    _ => {},
                }
            },
            GrammarExprView::Optional(inner) => {
                lemma_step(rules, text, *inner, rule, c, t, d);
            },
            GrammarExprView::Group(inner) => {
                lemma_step(rules, text, *inner, rule, c, t, d);
                let o = step(rules, text, *inner, rule, c, t, d);
                match o.result {
                    Ok(Some(child)) => {
                        lemma_take_children_well_formed(
                            NodeView::leaf("_group"@, Seq::empty()),
                            child,
                        );
                    },
                    _ => {},
                }
            },
            _ => {},
        }
    }
}

/// The law of steps, for one rule.
pub proof fn lemma_step_rule(
    rules: Seq<InputRuleView>,
    text: Seq<char>,
    name: Seq<char>,
    c: Cursor,
    t: Tracker,
    depth: nat,
)
    requires
        c.well_formed(text),
        t.well_formed(text),
    ensures
        step_law(
            text,
            c,
            t,
            step_rule(rules, text, name, c, t, depth),
            grammar_closed(rules) && find_input_rule(rules, name) is Some,
        ),
    decreases depth, 0nat,
{
    if depth > 0 {
        match find_input_rule(rules, name) {
            None => {},
            Some(body) => {
                if grammar_closed(rules) {
                    lemma_found_rule_closed(rules, name);
                }
                lemma_step(rules, text, body, name, c, t, (depth - 1) as nat);
            },
        }
    }
}

/// The law of steps, for the items of a sequence: a sequence that fails
/// leaves the cursor where the sequence began.
pub proof fn lemma_step_items(
    rules: Seq<InputRuleView>,
    text: Seq<char>,
    items: Seq<GrammarExprView>,
    rule: Seq<char>,
    node: NodeView,
    start: Cursor,
    c: Cursor,
    t: Tracker,
    depth: nat,
)
    requires
        start.well_formed(text),
        c.well_formed(text),
        t.well_formed(text),
        start.pos <= c.pos,
        node.well_formed(),
    ensures
        ({
            let o = step_items(rules, text, items, rule, node, start, c, t, depth);
            &&& t.pos <= o.tracker.pos <= text.len()
            &&& o.result is Ok ==> o.cursor.well_formed(text)
            &&& o.result matches Ok(Some(found)) ==> o.cursor.pos >= c.pos && found.well_formed()
            &&& o.result matches Ok(None) ==> o.cursor == start && (grammar_closed(rules)
                && all_closed(rules, items) ==> o.tracker.pos >= c.pos)
        }),
    decreases depth, items.len(),
{
    if items.len() > 0 {
        lemma_step(rules, text, items[0], rule, c, t, depth);
        let o = step(rules, text, items[0], rule, c, t, depth);
        match o.result {
            Ok(Some(child)) => {
                let rest = items.drop_first();
                lemma_absorb_well_formed(node, child);
                lemma_step_items(
                    rules,
                    text,
                    rest,
                    rule,
                    absorb(node, child),
                    start,
                    o.cursor,
                    o.tracker,
                    depth,
                );
                if all_closed(rules, items) {
                    assert forall|i: int| 0 <= i < rest.len() implies expr_closed(
                        rules,
                        #[trigger] rest[i],
                    ) by {
                        assert(rest[i] == items[i + 1]);
                    }
                }
            },
            _ => {},
        }
    }
}

/// The law of steps, for the alternatives of a choice: each is tried from
/// the cursor from which the choice was tried.
pub proof fn lemma_step_choice(
    rules: Seq<InputRuleView>,
    text: Seq<char>,
    alternatives: Seq<GrammarExprView>,
    rule: Seq<char>,
    c: Cursor,
    t: Tracker,
    depth: nat,
)
    requires
        c.well_formed(text),
        t.well_formed(text),
    ensures
        ({
            let o = step_choice(rules, text, alternatives, rule, c, t, depth);
            &&& t.pos <= o.tracker.pos <= text.len()
            &&& o.result is Ok ==> o.cursor.well_formed(text)
            &&& o.result matches Ok(Some(found)) ==> o.cursor.pos >= c.pos && found.well_formed()
            &&& o.result matches Ok(None) ==> o.cursor == c && (grammar_closed(rules)
                && all_closed(rules, alternatives) && (alternatives.len() > 0 || t.pos >= c.pos)
                ==> o.tracker.pos >= c.pos)
        }),
    decreases depth, alternatives.len(),
{
    if alternatives.len() > 0 {
        lemma_step(rules, text, alternatives[0], rule, c, t, depth);
        let o = step(rules, text, alternatives[0], rule, c, t, depth);
        match o.result {
            Ok(Some(child)) => {
                lemma_absorb_well_formed(NodeView::leaf(rule, Seq::empty()), child);
            },
            Ok(None) => {
                let rest = alternatives.drop_first();
                lemma_step_choice(rules, text, rest, rule, c, o.tracker, depth);
                if all_closed(rules, alternatives) {
                    assert forall|i: int| 0 <= i < rest.len() implies expr_closed(
                        rules,
                        #[trigger] rest[i],
                    ) by {
                        assert(rest[i] == alternatives[i + 1]);
                    }
                }
            },
            _ => {},
        }
    }
}

/// The law of steps, for a repetition, which never fails.
pub proof fn lemma_step_repeat(
    rules: Seq<InputRuleView>,
    text: Seq<char>,
    inner: GrammarExprView,
    rule: Seq<char>,
    node: NodeView,
    c: Cursor,
    t: Tracker,
    depth: nat,
)
    requires
        c.well_formed(text),
        t.well_formed(text),
        node.well_formed(),
    ensures
        ({
            let o = step_repeat(rules, text, inner, rule, node, c, t, depth);
            &&& t.pos <= o.tracker.pos <= text.len()
            &&& o.result is Ok ==> o.cursor.well_formed(text)
            &&& o.result matches Ok(Some(found)) ==> o.cursor.pos >= c.pos && found.well_formed()
            &&& !(o.result matches Ok(None))
        }),
    decreases depth, text.len() - c.pos + 1,
{
    lemma_step(rules, text, inner, rule, c, t, depth);
    let o = step(rules, text, inner, rule, c, t, depth);
    match o.result {
        Ok(Some(child)) => {
            lemma_absorb_well_formed(node, child);
            if c.pos < o.cursor.pos <= text.len() {
                lemma_step_repeat(
                    rules,
                    text,
                    inner,
                    rule,
                    absorb(node, child),
                    o.cursor,
                    o.tracker,
                    depth,
                );
            }
        },
        _ => {},
    }
}

/// What `child` adds to the children named `name` of a node that takes it
/// up: itself, if it is a node of the rule `name`; its own children of that
/// name, if it is an internal node.
pub open spec fn contribution(child: NodeView, name: Seq<char>) -> Seq<NodeView> {
    if child.is_internal() {
        named(all_nodes(child.children), name)
    } else if child.name == name {
        seq![child]
    } else {
        Seq::empty()
    }
}

/// Children of one name stay in the order in which the parser met them: a
/// node that takes up the outcome of a later step adds what that step found
/// behind what the earlier steps found, and changes nothing of it. So the
/// rounds of a repetition, and the items of a sequence, leave their children
/// in the order of the source.
pub proof fn lemma_absorb_keeps_order(node: NodeView, child: NodeView, name: Seq<char>)
    ensures
        absorb(node, child).children_named(name) == node.children_named(name) + contribution(
            child,
            name,
        ),
        absorb(node, child).name == node.name,
        absorb(node, child).value == node.value,
{
    if child.is_internal() {
        lemma_take_children_keeps_order(node, child, name);
    } else {
        lemma_add_child_keeps_order(node, child, name);
        if child.name == name {
            assert(node.children_named(name).push(child) =~= node.children_named(name)
                + seq![child]);
        } else {
            assert(node.children_named(name) + Seq::<NodeView>::empty() =~= node.children_named(
                name,
            ));
        }
    }
}

/// The tree that a parse gives is well formed: at every node no two groups
/// of children share a name, no group is empty, and every child stands in
/// the group of its own name.
pub proof fn lemma_tree_well_formed(
    rules: Seq<InputRuleView>,
    start_rule: Seq<char>,
    text: Seq<char>,
    c: Cursor,
    t: Tracker,
    depth: nat,
)
    requires
        c.well_formed(text),
        t.well_formed(text),
    ensures
        parse_from(rules, start_rule, text, c, t, depth) matches Ok(tree) ==> tree.well_formed(),
{
    lemma_line_indent_bound(text, c.pos, 0);
    lemma_step_rule(rules, text, start_rule, c.with_line_indent(text), t, depth);
}

/// The position that a failed parse reports is never behind the furthest
/// failure known before, and lies within the text. If the start rule matched
/// but text was left over, it is at or beyond the position at which that
/// match ended; if the start rule failed under a closed grammar, it is at or
/// beyond the position at which the parse began.
pub proof fn lemma_error_position(
    rules: Seq<InputRuleView>,
    start_rule: Seq<char>,
    text: Seq<char>,
    c: Cursor,
    t: Tracker,
    depth: nat,
)
    requires
        c.well_formed(text),
        t.well_formed(text),
    ensures
        match parse_from(rules, start_rule, text, c, t, depth) {
            Err(FailureView::Syntax(e)) => ({
                let o = step_rule(rules, text, start_rule, c.with_line_indent(text), t, depth);
                &&& t.pos <= e.position <= text.len()
                &&& (o.result matches Ok(Some(_)) ==> e.position >= o.cursor.pos && o.cursor.pos
                    >= c.pos)
                &&& (o.result matches Ok(None) && grammar_closed(rules) && find_input_rule(
                    rules,
                    start_rule,
                ) is Some ==> e.position >= c.pos)
            }),
            _ => true,
        },
{
    let begun = c.with_line_indent(text);
    lemma_line_indent_bound(text, c.pos, 0);
    lemma_step_rule(rules, text, start_rule, begun, t, depth);
    let o = step_rule(rules, text, start_rule, begun, t, depth);
    if o.result matches Ok(Some(_)) {
        lemma_inline_end(text, o.cursor.pos);
    }
}

/// After a parse that did not halt, the layout state is well formed: the
/// stack of blocks starts with the outermost block at column 0, each block is
/// indented deeper than the one around it, and the blocks still to be closed
/// are among those that were opened. Once every opened block has been closed
/// the stack is `[0]` and no block is waiting to be closed.
pub proof fn lemma_layout_after_parse(
    rules: Seq<InputRuleView>,
    start_rule: Seq<char>,
    text: Seq<char>,
    depth: nat,
)
    ensures
        ({
            let o = step_rule(
                rules,
                text,
                start_rule,
                Cursor::initial().with_line_indent(text),
                Tracker::initial(),
                depth,
            );
            o.result is Ok ==> o.cursor.well_formed(text) && (o.cursor.indent_stack.len() == 1
                ==> o.cursor.indent_stack == seq![0int] && o.cursor.pending_dedents == 0)
        }),
{
    let begun = Cursor::initial().with_line_indent(text);
    lemma_line_indent_bound(text, 0, 0);
    lemma_step_rule(rules, text, start_rule, begun, Tracker::initial(), depth);
    let o = step_rule(rules, text, start_rule, begun, Tracker::initial(), depth);
    if o.result is Ok && o.cursor.indent_stack.len() == 1 {
        assert(o.cursor.indent_stack =~= seq![0int]);
    }
}

/// The step did not run out of budget.
pub open spec fn within_budget(o: Outcome) -> bool {
    !(o.result matches Err(Halt::TooDeep))
}

/// The budget decides only whether a step has an outcome, never which: the
/// outcome of a step that stayed within its budget is its outcome within
/// every greater budget.
pub proof fn lemma_step_budget(
    rules: Seq<InputRuleView>,
    text: Seq<char>,
    expr: GrammarExprView,
    rule: Seq<char>,
    c: Cursor,
    t: Tracker,
    depth: nat,
    more: nat,
)
    requires
        depth <= more,
        within_budget(step(rules, text, expr, rule, c, t, depth)),
    ensures
        step(rules, text, expr, rule, c, t, more) == step(rules, text, expr, rule, c, t, depth),
    decreases depth, 0nat,
{
    let d = (depth - 1) as nat;
    let m = (more - 1) as nat;
    match expr {
        GrammarExprView::RuleRef(name) => {
            lemma_step_rule_budget(rules, text, name, c, t, d, m);
        },
        GrammarExprView::Sequence(items) => {
            lemma_step_items_budget(
                rules,
                text,
                items,
                rule,
                NodeView::leaf(rule, Seq::empty()),
                c,
                c,
                t,
                d,
                m,
            );
        },
        GrammarExprView::Choice(alternatives) => {
            lemma_step_choice_budget(rules, text, alternatives, rule, c, t, d, m);
        },
        GrammarExprView::ZeroOrMore(inner) => {
            lemma_step_repeat_budget(
                rules,
                text,
                *inner,
                rule,
                NodeView::leaf("_repeat"@, Seq::empty()),
                c,
                t,
                d,
                m,
            );
        },
        GrammarExprView::OneOrMore(inner) => {
            lemma_step_budget(rules, text, *inner, rule, c, t, d, m);
            let o = step(rules, text, *inner, rule, c, t, d);
            match o.result {
                Ok(Some(child)) => {
                    if c.pos < o.cursor.pos <= text.len() {
                        lemma_step_repeat_budget(
                            rules,
                            text,
                            *inner,
                            rule,
                            absorb(NodeView::leaf("_repeat"@, Seq::empty()), child),
                            o.cursor,
                            o.tracker,
                            d,
                            m,
                        );
                    }
                },
                _ => {},
            }
        },
        GrammarExprView::Optional(inner) => {
            lemma_step_budget(rules, text, *inner, rule, c, t, d, m);
        },
        GrammarExprView::Group(inner) => {
            lemma_step_budget(rules, text, *inner, rule, c, t, d, m);
        },
        _ => {},
    }
}

/// A rule that stayed within its budget has the same outcome within every
/// greater budget.
pub proof fn lemma_step_rule_budget(
    rules: Seq<InputRuleView>,
    text: Seq<char>,
    name: Seq<char>,
    c: Cursor,
    t: Tracker,
    depth: nat,
    more: nat,
)
    requires
        depth <= more,
        within_budget(step_rule(rules, text, name, c, t, depth)),
    ensures
        step_rule(rules, text, name, c, t, more) == step_rule(rules, text, name, c, t, depth),
    decreases depth, 0nat,
{
    match find_input_rule(rules, name) {
        None => {},
        Some(body) => {
            lemma_step_budget(
                rules,
                text,
                body,
                name,
                c,
                t,
                (depth - 1) as nat,
                (more - 1) as nat,
            );
        },
    }
}

/// The items of a sequence that stayed within their budget have the same
/// outcome within every greater budget.
pub proof fn lemma_step_items_budget(
    rules: Seq<InputRuleView>,
    text: Seq<char>,
    items: Seq<GrammarExprView>,
    rule: Seq<char>,
    node: NodeView,
    start: Cursor,
    c: Cursor,
    t: Tracker,
    depth: nat,
    more: nat,
)
    requires
        depth <= more,
        within_budget(step_items(rules, text, items, rule, node, start, c, t, depth)),
    ensures
        step_items(rules, text, items, rule, node, start, c, t, more) == step_items(
            rules,
            text,
            items,
            rule,
            node,
            start,
            c,
            t,
            depth,
        ),
    decreases depth, items.len(),
{
    if items.len() > 0 {
        lemma_step_budget(rules, text, items[0], rule, c, t, depth, more);
        let o = step(rules, text, items[0], rule, c, t, depth);
        match o.result {
            Ok(Some(child)) => {
                lemma_step_items_budget(
                    rules,
                    text,
                    items.drop_first(),
                    rule,
                    absorb(node, child),
                    start,
                    o.cursor,
                    o.tracker,
                    depth,
                    more,
                );
            },
            _ => {},
        }
    }
}

/// The alternatives of a choice that stayed within their budget have the
/// same outcome within every greater budget.
pub proof fn lemma_step_choice_budget(
    rules: Seq<InputRuleView>,
    text: Seq<char>,
    alternatives: Seq<GrammarExprView>,
    rule: Seq<char>,
    c: Cursor,
    t: Tracker,
    depth: nat,
    more: nat,
)
    requires
        depth <= more,
        within_budget(step_choice(rules, text, alternatives, rule, c, t, depth)),
    ensures
        step_choice(rules, text, alternatives, rule, c, t, more) == step_choice(
            rules,
            text,
            alternatives,
            rule,
            c,
            t,
            depth,
        ),
    decreases depth, alternatives.len(),
{
    if alternatives.len() > 0 {
        lemma_step_budget(rules, text, alternatives[0], rule, c, t, depth, more);
        let o = step(rules, text, alternatives[0], rule, c, t, depth);
        match o.result {
            Ok(None) => {
                lemma_step_choice_budget(
                    rules,
                    text,
                    alternatives.drop_first(),
                    rule,
                    c,
                    o.tracker,
                    depth,
                    more,
                );
            },
            _ => {},
        }
    }
}

/// A repetition that stayed within its budget has the same outcome within
/// every greater budget.
pub proof fn lemma_step_repeat_budget(
    rules: Seq<InputRuleView>,
    text: Seq<char>,
    inner: GrammarExprView,
    rule: Seq<char>,
    node: NodeView,
    c: Cursor,
    t: Tracker,
    depth: nat,
    more: nat,
)
    requires
        depth <= more,
        within_budget(step_repeat(rules, text, inner, rule, node, c, t, depth)),
    ensures
        step_repeat(rules, text, inner, rule, node, c, t, more) == step_repeat(
            rules,
            text,
            inner,
            rule,
            node,
            c,
            t,
            depth,
        ),
    decreases depth, text.len() - c.pos + 1,
{
    if 0 <= c.pos <= text.len() {
        lemma_step_budget(rules, text, inner, rule, c, t, depth, more);
        let o = step(rules, text, inner, rule, c, t, depth);
        match o.result {
            Ok(Some(child)) => {
                if c.pos < o.cursor.pos <= text.len() {
                    lemma_step_repeat_budget(
                        rules,
                        text,
                        inner,
                        rule,
                        absorb(node, child),
                        o.cursor,
                        o.tracker,
                        depth,
                        more,
                    );
                }
            },
            _ => {},
        }
    }
}

} // verus!
