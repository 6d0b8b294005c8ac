//! Rendering a syntax tree as text under an output grammar.
//!
//! Rendering is defined by the functions `emit_*` below. Rules may refer to
//! each other without end, so every rendering carries a budget of nested
//! steps: a rendering that would nest deeper than the budget has no result.

use crate::ast::{all_nodes, lemma_group_view, lemma_node_view, ASTNode, NodeView};
use crate::meta_parser::{
    cases_view, find_output_rule, lemma_output_sequence_view, output_exprs_view, OutputExpr,
    OutputExprView, OutputGrammar, OutputRuleView,
};
use crate::text::{
    appended, blank, expand, expand_escapes, is_blank, join_with, lemma_join_len, lemma_join_push,
    to_chars, total_len,
};
use vstd::prelude::*;

verus! {

/// How deep [`Generator::generate`] lets rules and expressions nest.
pub const MAX_DEPTH: usize = 4096;

/// What a `match` emits for a node whose text is `value`: the replacement of
/// the first case whose pattern is `value`; without such a case the default,
/// where the default `@value` stands for `value` itself.
pub open spec fn match_value(
    cases: Seq<(Seq<char>, Seq<char>)>,
    default: Seq<char>,
    value: Seq<char>,
) -> Seq<char>
    decreases cases.len(),
{
    if cases.len() == 0 {
        if default == "@value"@ {
            value
        } else {
            default
        }
    } else if cases[0].0 == value {
        cases[0].1
    } else {
        match_value(cases.drop_first(), default, value)
    }
}

/// Whether some case of a `match` has the pattern `value`.
pub open spec fn some_case_matches(cases: Seq<(Seq<char>, Seq<char>)>, value: Seq<char>) -> bool {
    exists|i: int| 0 <= i < cases.len() && (#[trigger] cases[i]).0 == value
}

/// The node that a reference to `name` is rendered from, seen from `node`:
/// the oldest child of that name; else `node` itself if it bears the name or
/// is a leaf with text; else none.
pub open spec fn reference_target(node: NodeView, name: Seq<char>) -> Option<NodeView> {
    match node.first_child(name) {
        Some(child) => Some(child),
        None => if node.name == name || (node.value.len() > 0 && node.children.len() == 0) {
            Some(node)
        } else {
            None
        },
    }
}

/// The rule under which a node of a list is rendered: `rule` if given, else
/// the node's own name.
pub open spec fn rule_for(rule: Option<Seq<char>>, node: NodeView) -> Seq<char> {
    match rule {
        Some(name) => name,
        None => node.name,
    }
}

/// The rendering of `node` under the rule `name`, asked for by the rule
/// `context`. Without such a rule the node's text is echoed, or, if it has
/// none, its children are rendered under their own names.
pub open spec fn emit_rule(
    rules: Seq<OutputRuleView>,
    name: Seq<char>,
    node: NodeView,
    context: Seq<char>,
    depth: nat,
) -> Option<Seq<char>>
    decreases depth, 0nat,
{
    if depth == 0 {
        None
    } else {
        match find_output_rule(rules, name) {
            Some(expr) => emit_expr(rules, expr, node, name, context, (depth - 1) as nat),
            None => if node.value.len() > 0 {
                Some(node.value)
            } else {
                match emit_parts(
                    rules,
                    all_nodes(node.children),
                    None,
                    name,
                    (depth - 1) as nat,
                ) {
                    Some(parts) => Some(join_with(parts, Seq::empty())),
                    None => None,
                }
            },
        }
    }
}

/// The renderings of `nodes`, each under `rule_for(rule, node)`.
pub open spec fn emit_parts(
    rules: Seq<OutputRuleView>,
    nodes: Seq<NodeView>,
    rule: Option<Seq<char>>,
    context: Seq<char>,
    depth: nat,
) -> Option<Seq<Seq<char>>>
    decreases depth, nodes.len(),
{
    if nodes.len() == 0 {
        Some(Seq::empty())
    } else {
        match emit_parts(rules, nodes.drop_last(), rule, context, depth) {
            None => None,
            Some(parts) => match emit_rule(
                rules,
                rule_for(rule, nodes.last()),
                nodes.last(),
                context,
                depth,
            ) {
                None => None,
                Some(part) => Some(parts.push(part)),
            },
        }
    }
}

/// The rendering of `node` under `expr`, an expression of the rule
/// `current`, which was asked for by the rule `context`.
pub open spec fn emit_expr(
    rules: Seq<OutputRuleView>,
    expr: OutputExprView,
    node: NodeView,
    current: Seq<char>,
    context: Seq<char>,
    depth: nat,
) -> Option<Seq<char>>
    decreases depth, 0nat,
{
    if depth == 0 {
        None
    } else {
        let inner = (depth - 1) as nat;
        match expr {
            OutputExprView::Literal(s) => Some(expand_escapes(s)),
            OutputExprView::RuleRef(name) => match reference_target(node, name) {
                Some(target) => emit_rule(rules, name, target, current, inner),
                None => Some(Seq::empty()),
            },
            OutputExprView::Sequence(items) => emit_concat(
                rules,
                items,
                node,
                current,
                context,
                inner,
            ),
            OutputExprView::Optional(e) => match emit_expr(
                rules,
                *e,
                node,
                current,
                context,
                inner,
            ) {
                Some(s) => Some(
                    if is_blank(s) {
                        Seq::empty()
                    } else {
                        s
                    },
                ),
                None => None,
            },
            OutputExprView::Join { rule, separator } => match emit_parts(
                rules,
                node.children_named(rule),
                Some(rule),
                current,
                inner,
            ) {
                Some(parts) => Some(join_with(parts, expand_escapes(separator))),
                None => None,
            },
            OutputExprView::Match { cases, default } => Some(
                match_value(cases, default, node.value),
            ),
            OutputExprView::ContextIf { context_value, then_expr, else_expr } => emit_expr(
                rules,
                if context == context_value {
                    *then_expr
                } else {
                    *else_expr
                },
                node,
                current,
                context,
                inner,
            ),
            OutputExprView::Choice(alternatives) => emit_first(
                rules,
                alternatives,
                node,
                current,
                context,
                inner,
            ),
        }
    }
}

/// The renderings of `items`, one after the other.
pub open spec fn emit_concat(
    rules: Seq<OutputRuleView>,
    items: Seq<OutputExprView>,
    node: NodeView,
    current: Seq<char>,
    context: Seq<char>,
    depth: nat,
) -> Option<Seq<char>>
    decreases depth, items.len(),
{
    if items.len() == 0 {
        Some(Seq::empty())
    } else {
        match emit_concat(rules, items.drop_last(), node, current, context, depth) {
            None => None,
            Some(front) => match emit_expr(rules, items.last(), node, current, context, depth) {
                None => None,
                Some(back) => Some(front + back),
            },
        }
    }
}

/// The first rendering among `alternatives` that is not empty, or the empty
/// text.
pub open spec fn emit_first(
    rules: Seq<OutputRuleView>,
    alternatives: Seq<OutputExprView>,
    node: NodeView,
    current: Seq<char>,
    context: Seq<char>,
    depth: nat,
) -> Option<Seq<char>>
    decreases depth, alternatives.len(),
{
    if alternatives.len() == 0 {
        Some(Seq::empty())
    } else {
        match emit_expr(rules, alternatives[0], node, current, context, depth) {
            None => None,
            Some(s) => if s.len() > 0 {
                Some(s)
            } else {
                emit_first(rules, alternatives.drop_first(), node, current, context, depth)
            },
        }
    }
}

/// `out` is the text `expected`, or neither exists.
pub open spec fn renders(out: Option<String>, expected: Option<Seq<char>>) -> bool {
    match out {
        Some(s) => expected == Some(s@),
        None => expected is None,
    }
}

/// A sequence has no rendering if a part of it from the start has none.
proof fn lemma_emit_concat_prefix(
    rules: Seq<OutputRuleView>,
    items: Seq<OutputExprView>,
    node: NodeView,
    current: Seq<char>,
    context: Seq<char>,
    depth: nat,
    k: int,
)
    requires
        0 <= k <= items.len(),
        emit_concat(rules, items.take(k), node, current, context, depth) is None,
    ensures
        emit_concat(rules, items, node, current, context, depth) is None,
    decreases items.len() - k,
{
    if k == items.len() {
        assert(items.take(k) == items);
    } else {
        assert(items.take(k + 1).drop_last() == items.take(k));
        lemma_emit_concat_prefix(rules, items, node, current, context, depth, k + 1);
    }
}

/// A list has no renderings if a part of it from the start has none.
proof fn lemma_emit_parts_prefix(
    rules: Seq<OutputRuleView>,
    nodes: Seq<NodeView>,
    rule: Option<Seq<char>>,
    context: Seq<char>,
    depth: nat,
    k: int,
)
    requires
        0 <= k <= nodes.len(),
        emit_parts(rules, nodes.take(k), rule, context, depth) is None,
    ensures
        emit_parts(rules, nodes, rule, context, depth) is None,
    decreases nodes.len() - k,
{
    if k == nodes.len() {
        assert(nodes.take(k) == nodes);
    } else {
        assert(nodes.take(k + 1).drop_last() == nodes.take(k));
        lemma_emit_parts_prefix(rules, nodes, rule, context, depth, k + 1);
    }
}

/// The renderings of one node more: those so far, and the rendering of the
/// node.
proof fn lemma_emit_parts_step(
    rules: Seq<OutputRuleView>,
    nodes: Seq<NodeView>,
    rule: Option<Seq<char>>,
    context: Seq<char>,
    depth: nat,
    k: int,
    parts: Seq<Seq<char>>,
)
    requires
        0 <= k < nodes.len(),
        emit_parts(rules, nodes.take(k), rule, context, depth) == Some(parts),
    ensures
        emit_parts(rules, nodes.take(k + 1), rule, context, depth) == match emit_rule(
            rules,
            rule_for(rule, nodes[k]),
            nodes[k],
            context,
            depth,
        ) {
            Some(part) => Some(parts.push(part)),
            None => None,
        },
{
    assert(nodes.take(k + 1).drop_last() == nodes.take(k));
    assert(nodes.take(k + 1).last() == nodes[k]);
}

/// All nodes of one group more: those so far, and the nodes of the group.
proof fn lemma_all_nodes_push(groups: Seq<crate::ast::GroupView>, k: int)
    requires
        0 <= k < groups.len(),
    ensures
        all_nodes(groups.take(k + 1)) == all_nodes(groups.take(k)) + groups[k].nodes,
{
    assert(groups.take(k + 1).drop_last() == groups.take(k));
}

/// A list of nodes renders to as many parts as it has nodes.
pub proof fn lemma_emit_parts_len(
    rules: Seq<OutputRuleView>,
    nodes: Seq<NodeView>,
    rule: Option<Seq<char>>,
    context: Seq<char>,
    depth: nat,
)
    requires
        emit_parts(rules, nodes, rule, context, depth) is Some,
    ensures
        emit_parts(rules, nodes, rule, context, depth)->Some_0.len() == nodes.len(),
        forall|i: int|
            0 <= i < nodes.len() ==> emit_rule(
                rules,
                rule_for(rule, #[trigger] nodes[i]),
                nodes[i],
                context,
                depth,
            ) == Some(emit_parts(rules, nodes, rule, context, depth)->Some_0[i]),
    decreases nodes.len(),
{
    if nodes.len() > 0 {
        let front = nodes.drop_last();
        lemma_emit_parts_len(rules, front, rule, context, depth);
        let parts = emit_parts(rules, nodes, rule, context, depth)->Some_0;
        assert forall|i: int| 0 <= i < nodes.len() implies emit_rule(
            rules,
            rule_for(rule, #[trigger] nodes[i]),
            nodes[i],
            context,
            depth,
        ) == Some(parts[i]) by {
            if i < nodes.len() - 1 {
                assert(nodes[i] == front[i]);
            }
        }
    }
}

/// A join over the `k` children of a name emits the rendering of each of
/// them, in their order, with exactly `k - 1` separators between them, and
/// nothing for `k == 0`.
pub proof fn lemma_join_count(
    rules: Seq<OutputRuleView>,
    rule: Seq<char>,
    separator: Seq<char>,
    node: NodeView,
    current: Seq<char>,
    context: Seq<char>,
    depth: nat,
)
    requires
        emit_expr(
            rules,
            OutputExprView::Join { rule, separator },
            node,
            current,
            context,
            depth,
        ) is Some,
    ensures
        ({
            let out = emit_expr(
                rules,
                OutputExprView::Join { rule, separator },
                node,
                current,
                context,
                depth,
            )->Some_0;
            let children = node.children_named(rule);
            let sep = expand_escapes(separator);
            exists|parts: Seq<Seq<char>>|
                {
                    &&& parts.len() == children.len()
                    &&& forall|i: int|
                        0 <= i < children.len() ==> emit_rule(
                            rules,
                            rule,
                            #[trigger] children[i],
                            current,
                            (depth - 1) as nat,
                        ) == Some(parts[i])
                    &&& out == join_with(parts, sep)
                    &&& out.len() == total_len(parts) + if children.len() == 0 {
                        0
                    } else {
                        (children.len() - 1) * sep.len()
                    }
                }
        }),
{
    let children = node.children_named(rule);
    let inner = (depth - 1) as nat;
    let parts = emit_parts(rules, children, Some(rule), current, inner)->Some_0;
    lemma_emit_parts_len(rules, children, Some(rule), current, inner);
    lemma_join_len(parts, expand_escapes(separator));
    assert forall|i: int| 0 <= i < children.len() implies emit_rule(
        rules,
        rule,
        #[trigger] children[i],
        current,
        inner,
    ) == Some(parts[i]) by {
        assert(rule_for(Some(rule), children[i]) == rule);
    }
}

/// A `match` always emits something definite: the replacement of the first
/// case whose pattern is the node's text, or, where no case has that pattern,
/// its default (the text itself for the default `@value`).
pub proof fn lemma_match_exhaustive(
    cases: Seq<(Seq<char>, Seq<char>)>,
    default: Seq<char>,
    value: Seq<char>,
)
    ensures
        some_case_matches(cases, value) ==> exists|i: int|
            0 <= i < cases.len() && (#[trigger] cases[i]).0 == value && match_value(
                cases,
                default,
                value,
            ) == cases[i].1 && forall|j: int| 0 <= j < i ==> (#[trigger] cases[j]).0 != value,
        !some_case_matches(cases, value) ==> match_value(cases, default, value) == if default
            == "@value"@ {
            value
        } else {
            default
        },
    decreases cases.len(),
{
    if cases.len() == 0 {
    } else if cases[0].0 == value {
        assert(some_case_matches(cases, value));
        assert(0 <= 0 < cases.len() && cases[0].0 == value && match_value(cases, default, value)
            == cases[0].1);
    } else {
        let rest = cases.drop_first();
        lemma_match_exhaustive(rest, default, value);
        if some_case_matches(cases, value) {
            let w = choose|i: int| 0 <= i < cases.len() && (#[trigger] cases[i]).0 == value;
            assert(rest[w - 1] == cases[w]);
            assert(some_case_matches(rest, value));
            let k = choose|i: int|
                0 <= i < rest.len() && (#[trigger] rest[i]).0 == value && match_value(
                    rest,
                    default,
                    value,
                ) == rest[i].1 && forall|j: int| 0 <= j < i ==> (#[trigger] rest[j]).0 != value;
            assert(cases[k + 1] == rest[k]);
            assert forall|j: int| 0 <= j < k + 1 implies (#[trigger] cases[j]).0 != value by {
                if j > 0 {
                    assert(cases[j] == rest[j - 1]);
                }
            }
        } else {
            assert forall|i: int| 0 <= i < rest.len() implies (#[trigger] rest[i]).0 != value by {
                assert(rest[i] == cases[i + 1]);
            }
        }
    }
}

/// For a node with text, a `match` whose default and replacements are all
/// non-empty never emits the empty text.
pub proof fn lemma_match_never_empty(
    cases: Seq<(Seq<char>, Seq<char>)>,
    default: Seq<char>,
    value: Seq<char>,
)
    requires
        value.len() > 0,
        default.len() > 0,
        forall|i: int| 0 <= i < cases.len() ==> (#[trigger] cases[i]).1.len() > 0,
    ensures
        match_value(cases, default, value).len() > 0,
    decreases cases.len(),
{
    if cases.len() > 0 && cases[0].0 != value {
        let rest = cases.drop_first();
        assert forall|i: int| 0 <= i < rest.len() implies (#[trigger] rest[i]).1.len() > 0 by {
            assert(rest[i] == cases[i + 1]);
        }
        lemma_match_never_empty(rest, default, value);
    }
}

/// The budget decides only whether there is a rendering, never what it is:
/// a rendering found within a budget is the rendering within every greater
/// budget.
pub proof fn lemma_emit_rule_budget(
    rules: Seq<OutputRuleView>,
    name: Seq<char>,
    node: NodeView,
    context: Seq<char>,
    depth: nat,
    more: nat,
)
    requires
        depth <= more,
        emit_rule(rules, name, node, context, depth) is Some,
    ensures
        emit_rule(rules, name, node, context, more) == emit_rule(rules, name, node, context, depth),
    decreases depth, 0nat,
{
    let d = (depth - 1) as nat;
    let m = (more - 1) as nat;
    match find_output_rule(rules, name) {
        Some(expr) => {
            lemma_emit_expr_budget(rules, expr, node, name, context, d, m);
        },
        None => {
            if node.value.len() == 0 {
                lemma_emit_parts_budget(rules, all_nodes(node.children), None, name, d, m);
            }
        },
    }
}

/// A list rendered within a budget is rendered alike within every greater
/// budget.
pub proof fn lemma_emit_parts_budget(
    rules: Seq<OutputRuleView>,
    nodes: Seq<NodeView>,
    rule: Option<Seq<char>>,
    context: Seq<char>,
    depth: nat,
    more: nat,
)
    requires
        depth <= more,
        emit_parts(rules, nodes, rule, context, depth) is Some,
    ensures
        emit_parts(rules, nodes, rule, context, more) == emit_parts(
            rules,
            nodes,
            rule,
            context,
            depth,
        ),
    decreases depth, nodes.len(),
{
    if nodes.len() > 0 {
        lemma_emit_parts_budget(rules, nodes.drop_last(), rule, context, depth, more);
        lemma_emit_rule_budget(
            rules,
            rule_for(rule, nodes.last()),
            nodes.last(),
            context,
            depth,
            more,
        );
    }
}

/// An expression rendered within a budget is rendered alike within every
/// greater budget.
pub proof fn lemma_emit_expr_budget(
    rules: Seq<OutputRuleView>,
    expr: OutputExprView,
    node: NodeView,
    current: Seq<char>,
    context: Seq<char>,
    depth: nat,
    more: nat,
)
    requires
        depth <= more,
        emit_expr(rules, expr, node, current, context, depth) is Some,
    ensures
        emit_expr(rules, expr, node, current, context, more) == emit_expr(
            rules,
            expr,
            node,
            current,
            context,
            depth,
        ),
    decreases depth, 0nat,
{
    let d = (depth - 1) as nat;
    let m = (more - 1) as nat;
    match expr {
        OutputExprView::RuleRef(name) => match reference_target(node, name) {
            Some(target) => {
                lemma_emit_rule_budget(rules, name, target, current, d, m);
            },
            None => {},
        },
        OutputExprView::Sequence(items) => {
            lemma_emit_concat_budget(rules, items, node, current, context, d, m);
        },
        OutputExprView::Optional(e) => {
            lemma_emit_expr_budget(rules, *e, node, current, context, d, m);
        },
        OutputExprView::Join { rule, separator } => {
            lemma_emit_parts_budget(rules, node.children_named(rule), Some(rule), current, d, m);
        },
        OutputExprView::ContextIf { context_value, then_expr, else_expr } => {
            lemma_emit_expr_budget(
                rules,
                if context == context_value {
                    *then_expr
                } else {
                    *else_expr
                },
                node,
                current,
                context,
                d,
                m,
            );
        },
        OutputExprView::Choice(alternatives) => {
            lemma_emit_first_budget(rules, alternatives, node, current, context, d, m);
        },
        _ => {},
    }
}

/// A sequence rendered within a budget is rendered alike within every
/// greater budget.
pub proof fn lemma_emit_concat_budget(
    rules: Seq<OutputRuleView>,
    items: Seq<OutputExprView>,
    node: NodeView,
    current: Seq<char>,
    context: Seq<char>,
    depth: nat,
    more: nat,
)
    requires
        depth <= more,
        emit_concat(rules, items, node, current, context, depth) is Some,
    ensures
        emit_concat(rules, items, node, current, context, more) == emit_concat(
            rules,
            items,
            node,
            current,
            context,
            depth,
        ),
    decreases depth, items.len(),
{
    if items.len() > 0 {
        lemma_emit_concat_budget(rules, items.drop_last(), node, current, context, depth, more);
        lemma_emit_expr_budget(rules, items.last(), node, current, context, depth, more);
    }
}

/// A choice rendered within a budget is rendered alike within every greater
/// budget.
pub proof fn lemma_emit_first_budget(
    rules: Seq<OutputRuleView>,
    alternatives: Seq<OutputExprView>,
    node: NodeView,
    current: Seq<char>,
    context: Seq<char>,
    depth: nat,
    more: nat,
)
    requires
        depth <= more,
        emit_first(rules, alternatives, node, current, context, depth) is Some,
    ensures
        emit_first(rules, alternatives, node, current, context, more) == emit_first(
            rules,
            alternatives,
            node,
            current,
            context,
            depth,
        ),
    decreases depth, alternatives.len(),
{
    if alternatives.len() > 0 {
        lemma_emit_expr_budget(rules, alternatives[0], node, current, context, depth, more);
        match emit_expr(rules, alternatives[0], node, current, context, depth) {
            Some(s) => {
                if s.len() == 0 {
                    lemma_emit_first_budget(
                        rules,
                        alternatives.drop_first(),
                        node,
                        current,
                        context,
                        depth,
                        more,
                    );
                }
            },
            None => {},
        }
    }
}

/// The mathematical value of a list of borrowed nodes.
pub open spec fn refs_view(nodes: &Vec<&ASTNode>) -> Seq<NodeView> {
    Seq::new(nodes.len() as nat, |i: int| nodes[i]@)
}

/// All children of `ast`, group after group.
fn all_children(ast: &ASTNode) -> (nodes: Vec<&ASTNode>)
    ensures
        refs_view(&nodes) == all_nodes(ast@.children),
{
    let mut nodes: Vec<&ASTNode> = Vec::new();
    let mut g: usize = 0;
    proof {
        lemma_node_view(ast);
        assert(refs_view(&nodes) =~= all_nodes(ast@.children.take(0)));
    }
    while g < ast.children.len()
        invariant
            g <= ast.children.len(),
            ast@.children.len() == ast.children.len(),
            forall|i: int| 0 <= i < ast.children.len() ==> ast@.children[i] == ast.children[i]@,
            refs_view(&nodes) == all_nodes(ast@.children.take(g as int)),
        decreases ast.children.len() - g,
    {
        let group = &ast.children[g];
        let ghost before = refs_view(&nodes);
        proof {
            lemma_group_view(group);
        }
        let mut j: usize = 0;
        while j < group.nodes.len()
            invariant
                j <= group.nodes.len(),
                group@.nodes.len() == group.nodes.len(),
                forall|i: int| 0 <= i < group.nodes.len() ==> group@.nodes[i] == group.nodes[i]@,
                refs_view(&nodes) == before + group@.nodes.take(j as int),
            decreases group.nodes.len() - j,
        {
            let ghost sofar = refs_view(&nodes);
            nodes.push(&group.nodes[j]);
            proof {
                assert(refs_view(&nodes) =~= sofar.push(group.nodes[j as int]@));
                assert(group@.nodes.take(j + 1) =~= group@.nodes.take(j as int).push(
                    group@.nodes[j as int],
                ));
                assert(refs_view(&nodes) =~= before + group@.nodes.take(j + 1));
            }
            j += 1;
        }
        proof {
            assert(group@.nodes.take(group.nodes.len() as int) == group@.nodes);
            lemma_all_nodes_push(ast@.children, g as int);
        }
        g += 1;
    }
    proof {
        assert(ast@.children.take(ast.children.len() as int) == ast@.children);
    }
    nodes
}

/// The children of `ast` named `name`, oldest first.
fn children_named<'t>(ast: &'t ASTNode, name: &String) -> (nodes: Vec<&'t ASTNode>)
    ensures
        refs_view(&nodes) == ast@.children_named(name@),
{
    let found = ast.get_children(name.as_str());
    let mut nodes: Vec<&ASTNode> = Vec::new();
    let mut i: usize = 0;
    while i < found.len()
        invariant
            i <= found.len(),
            found@.len() == ast@.children_named(name@).len(),
            forall|j: int|
                0 <= j < found@.len() ==> (#[trigger] found@[j])@ == ast@.children_named(name@)[j],
            refs_view(&nodes) == ast@.children_named(name@).take(i as int),
        decreases found.len() - i,
    {
        let ghost sofar = refs_view(&nodes);
        nodes.push(&found[i]);
        proof {
            assert(refs_view(&nodes) =~= sofar.push(found@[i as int]@));
            assert(refs_view(&nodes) =~= ast@.children_named(name@).take(i + 1));
        }
        i += 1;
    }
    proof {
        assert(ast@.children_named(name@).take(found.len() as int) == ast@.children_named(name@));
    }
    nodes
}

/// Renders trees under one output grammar.
pub struct Generator<'a> {
    grammar: &'a OutputGrammar,
}

impl<'a> Generator<'a> {
    /// The rules of the grammar that the generator renders under.
    pub closed spec fn rules(&self) -> Seq<OutputRuleView> {
        self.grammar@
    }

    /// A generator for `grammar`.
    pub fn new(grammar: &'a OutputGrammar) -> (generator: Self)
        ensures
            generator.rules() == grammar@,
    {
        Generator { grammar }
    }

    /// The rendering of `ast` under the rule that bears its name, asked for
    /// by no rule; `None` if rendering nests deeper than [`MAX_DEPTH`].
    pub fn generate(&self, ast: &ASTNode) -> (out: Option<String>)
        ensures
            renders(
                out,
                emit_rule(self.rules(), ast@.name, ast@, Seq::empty(), MAX_DEPTH as nat),
            ),
    {
        let context = String::new();
        proof {
            lemma_node_view(ast);
        }
        self.generate_rule(&ast.name, ast, &context, MAX_DEPTH)
    }

    /// The rendering of `ast` under the rule `rule_name`, asked for by the
    /// rule `context`, nesting at most `depth` deep.
    pub fn generate_rule(
        &self,
        rule_name: &String,
        ast: &ASTNode,
        context: &String,
        depth: usize,
    ) -> (out: Option<String>)
        ensures
            renders(out, emit_rule(self.rules(), rule_name@, ast@, context@, depth as nat)),
        decreases depth, 0nat,
    {
        if depth == 0 {
            return None;
        }
        proof {
            lemma_node_view(ast);
        }
        match self.grammar.get(rule_name) {
            Some(rule) => self.generate_expr(&rule.expr, ast, rule_name, context, depth - 1),
            None => {
                if !ast.value.as_str().is_empty() {
                    Some(ast.value.clone())
                } else {
                    let nodes = all_children(ast);
                    let separator = String::new();
                    self.generate_joined(&nodes, None, rule_name, &separator, depth - 1)
                }
            },
        }
    }

    /// The renderings of `nodes`, each under `rule` or, without one, under
    /// its own name, with `separator` between them.
    fn generate_joined(
        &self,
        nodes: &Vec<&ASTNode>,
        rule: Option<&String>,
        context: &String,
        separator: &String,
        depth: usize,
    ) -> (out: Option<String>)
        ensures
            renders(
                out,
                match emit_parts(
                    self.rules(),
                    refs_view(nodes),
                    match rule {
                        Some(name) => Some(name@),
                        None => None,
                    },
                    context@,
                    depth as nat,
                ) {
                    Some(parts) => Some(join_with(parts, separator@)),
                    None => None,
                },
            ),
        decreases depth, 1nat,
    {
        let ghost rule_view: Option<Seq<char>> = match rule {
            Some(name) => Some(name@),
            None => None,
        };
        let ghost all = refs_view(nodes);
        let mut result = String::new();
        let ghost mut parts: Seq<Seq<char>> = Seq::empty();
        let mut i: usize = 0;
        proof {
            assert(all.take(0) =~= Seq::empty());
        }
        while i < nodes.len()
            invariant
                i <= nodes.len(),
                all == refs_view(nodes),
                rule_view == match rule {
                    Some(name) => Some(name@),
                    None => None,
                },
                emit_parts(self.rules(), all.take(i as int), rule_view, context@, depth as nat)
                    == Some(parts),
                parts.len() == i,
                result@ == join_with(parts, separator@),
            decreases nodes.len() - i,
        {
            let node: &ASTNode = nodes[i];
            proof {
                lemma_node_view(node);
                assert(all[i as int] == node@);
                lemma_emit_parts_step(
                    self.rules(),
                    all,
                    rule_view,
                    context@,
                    depth as nat,
                    i as int,
                    parts,
                );
            }
            let rendered = match rule {
                Some(name) => self.generate_rule(name, node, context, depth),
                None => self.generate_rule(&node.name, node, context, depth),
            };
            match rendered {
                Some(part) => {
                    proof {
                        lemma_join_push(parts, separator@, part@);
                    }
                    if i > 0 {
                        result = appended(result, separator);
                    } else {
                        assert(result@ + part@ == part@);
                    }
                    result = appended(result, &part);
                    proof {
                        parts = parts.push(part@);
                    }
                },
                None => {
                    proof {
                        lemma_emit_parts_prefix(
                            self.rules(),
                            all,
                            rule_view,
                            context@,
                            depth as nat,
                            i + 1,
                        );
                    }
                    return None;
                },
            }
            i += 1;
        }
        proof {
            assert(all.take(nodes.len() as int) == all);
        }
        Some(result)
    }

    /// The rendering of `ast` under `expr`, an expression of the rule
    /// `current_rule`, which was asked for by the rule `context`, nesting at
    /// most `depth` deep.
    pub fn generate_expr(
        &self,
        expr: &OutputExpr,
        ast: &ASTNode,
        current_rule: &String,
        context: &String,
        depth: usize,
    ) -> (out: Option<String>)
        ensures
            renders(
                out,
                emit_expr(self.rules(), expr@, ast@, current_rule@, context@, depth as nat),
            ),
        decreases depth, 0nat,
    {
        if depth == 0 {
            return None;
        }
        proof {
            lemma_node_view(ast);
        }
        match expr {
            OutputExpr::Literal(lit) => Some(expand(lit.as_str())),
            OutputExpr::RuleRef(name) => {
                if let Some(child) = ast.get_child(name.as_str()) {
                    self.generate_rule(name, child, current_rule, depth - 1)
                } else if ast.name == *name {
                    self.generate_rule(name, ast, current_rule, depth - 1)
                } else if !ast.value.as_str().is_empty() && ast.children.len() == 0 {
                    self.generate_rule(name, ast, current_rule, depth - 1)
                } else {
                    Some(String::new())
                }
            },
            OutputExpr::Sequence(items) => {
                proof {
                    lemma_output_sequence_view(items);
                }
                let ghost all = output_exprs_view(items);
                let mut result = String::new();
                let mut i: usize = 0;
                proof {
                    assert(all.take(0) =~= Seq::empty());
                }
                while i < items.len()
                    invariant
                        i <= items.len(),
                        depth > 0,
                        all == output_exprs_view(items),
                        expr@ == OutputExprView::Sequence(all),
                        emit_concat(
                            self.rules(),
                            all.take(i as int),
                            ast@,
                            current_rule@,
                            context@,
                            (depth - 1) as nat,
                        ) == Some(result@),
                    decreases items.len() - i,
                {
                    proof {
                        assert(all.take(i + 1).drop_last() == all.take(i as int));
                        assert(all.take(i + 1).last() == items[i as int]@);
                    }
                    match self.generate_expr(&items[i], ast, current_rule, context, depth - 1) {
                        Some(part) => {
                            result = appended(result, &part);
                        },
                        None => {
                            proof {
                                lemma_emit_concat_prefix(
                                    self.rules(),
                                    all,
                                    ast@,
                                    current_rule@,
                                    context@,
                                    (depth - 1) as nat,
                                    i + 1,
                                );
                            }
                            return None;
                        },
                    }
                    i += 1;
                }
                proof {
                    assert(all.take(items.len() as int) == all);
                }
                Some(result)
            },
            OutputExpr::Optional(inner) => {
                match self.generate_expr(inner, ast, current_rule, context, depth - 1) {
                    Some(rendered) => {
                        if blank(&to_chars(rendered.as_str())) {
                            Some(String::new())
                        } else {
                            Some(rendered)
                        }
                    },
                    None => None,
                }
            },
            OutputExpr::Join { rule, separator } => {
                let nodes = children_named(ast, rule);
                let expanded = expand(separator.as_str());
                self.generate_joined(&nodes, Some(rule), current_rule, &expanded, depth - 1)
            },
            OutputExpr::Match { cases, default } => {
                let ghost all = cases_view(cases);
                let mut i: usize = 0;
                proof {
                    assert(all.skip(0) =~= all);
                }
                while i < cases.len()
                    invariant
                        i <= cases.len(),
                        depth > 0,
                        all == cases_view(cases),
                        ast@.value == ast.value@,
                        expr@ == (OutputExprView::Match { cases: all, default: default@ }),
                        match_value(all, default@, ast@.value) == match_value(
                            all.skip(i as int),
                            default@,
                            ast@.value,
                        ),
                    decreases cases.len() - i,
                {
                    proof {
                        assert(all.skip(i as int)[0] == all[i as int]);
                        assert(all.skip(i as int).drop_first() == all.skip(i + 1));
                    }
                    if ast.value == cases[i].0 {
                        return Some(cases[i].1.clone());
                    }
                    i += 1;
                }
                if same_as_value_keyword(default) {
                    Some(ast.value.clone())
                } else {
                    Some(default.clone())
                }
            },
            OutputExpr::ContextIf { context_value, then_expr, else_expr } => {
                if *context == *context_value {
                    self.generate_expr(then_expr, ast, current_rule, context, depth - 1)
                } else {
                    self.generate_expr(else_expr, ast, current_rule, context, depth - 1)
                }
            },
            OutputExpr::Choice(alternatives) => {
                proof {
                    lemma_output_sequence_view(alternatives);
                }
                let ghost all = output_exprs_view(alternatives);
                let mut i: usize = 0;
                proof {
                    assert(all.skip(0) =~= all);
                }
                while i < alternatives.len()
                    invariant
                        i <= alternatives.len(),
                        depth > 0,
                        all == output_exprs_view(alternatives),
                        expr@ == OutputExprView::Choice(all),
                        emit_first(
                            self.rules(),
                            all,
                            ast@,
                            current_rule@,
                            context@,
                            (depth - 1) as nat,
                        ) == emit_first(
                            self.rules(),
                            all.skip(i as int),
                            ast@,
                            current_rule@,
                            context@,
                            (depth - 1) as nat,
                        ),
                    decreases alternatives.len() - i,
                {
                    proof {
                        assert(all.skip(i as int)[0] == alternatives[i as int]@);
                        assert(all.skip(i as int).drop_first() == all.skip(i + 1));
                    }
                    match self.generate_expr(
                        &alternatives[i],
                        ast,
                        current_rule,
                        context,
                        depth - 1,
                    ) {
                        Some(rendered) => {
                            if !rendered.as_str().is_empty() {
                                return Some(rendered);
                            }
                        },
                        None => {
                            return None;
                        },
                    }
                    i += 1;
                }
                Some(String::new())
            },
        }
    }
}

/// Whether the default of a `match` is the keyword that stands for the
/// node's own text.
fn same_as_value_keyword(default: &String) -> (r: bool)
    ensures
        r == (default@ == "@value"@),
{
    let keyword = "@value".to_owned();
    *default == keyword
}

} // verus!
