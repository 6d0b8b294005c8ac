use bnf_transpiler::ast::ASTNode;
use bnf_transpiler::generator::{Generator, MAX_DEPTH};
use bnf_transpiler::meta_parser::{MetaParser, OutputExpr, OutputGrammar, OutputRule};

fn grammar(text: &str) -> OutputGrammar {
    MetaParser::new(text).parse_output_grammar().unwrap()
}

fn render(text: &str, tree: &ASTNode) -> String {
    let g = grammar(text);
    Generator::new(&g).generate(tree).unwrap()
}

fn node(name: &str, children: Vec<ASTNode>) -> ASTNode {
    let mut n = ASTNode::new(name);
    for c in children {
        n.add_child(c);
    }
    n
}

fn leaf(name: &str, value: &str) -> ASTNode {
    ASTNode::with_value(name, value)
}

#[test]
fn literal_expands_escapes() {
    assert_eq!(render("s := \"a\\nb\\tc\\rd\";", &leaf("s", "")), "a\nb\tc\rd");
}

#[test]
fn literal_keeps_other_backslashes() {
    assert_eq!(render("s := \"a\\\\nb\\x\";", &leaf("s", "")), "a\\\nb\\x");
}

#[test]
fn sequence_concatenates() {
    let t = node("s", vec![leaf("a", "1"), leaf("b", "2")]);
    assert_eq!(render("s := a \"-\" b \"-\" a;", &t), "1-2-1");
}

#[test]
fn rule_reference_takes_the_first_child() {
    let t = node("s", vec![leaf("a", "1"), leaf("a", "2")]);
    assert_eq!(render("s := a;", &t), "1");
}

#[test]
fn rule_reference_to_own_name_renders_the_node_itself() {
    let g = grammar("wrap := \"[\" item \"]\"; item := v \"!\";");
    let item = node("item", vec![leaf("v", "val")]);
    let wrap = String::from("wrap");
    let out = Generator::new(&g).generate_rule(&wrap, &item, &String::new(), MAX_DEPTH);
    assert_eq!(out, Some(String::from("[val!]")));
}

#[test]
fn rule_reference_on_a_leaf_renders_the_leaf() {
    assert_eq!(render("s := other; other := \"<\" inner \">\";", &leaf("s", "v")), "<v>");
}

#[test]
fn rule_reference_without_target_is_empty() {
    let t = node("s", vec![leaf("a", "1")]);
    assert_eq!(render("s := \"[\" b \"]\";", &t), "[]");
}

#[test]
fn missing_rule_echoes_the_value() {
    assert_eq!(render("other := \"x\";", &leaf("s", "text")), "text");
}

#[test]
fn missing_rule_renders_children_under_their_names() {
    let t = node("s", vec![leaf("a", "1"), leaf("b", "2"), leaf("a", "3")]);
    assert_eq!(render("b := \"[\" x \"]\";", &t), "13[2]");
}

#[test]
fn optional_drops_blank_output() {
    let t = node("s", vec![leaf("a", " \t")]);
    assert_eq!(render("s := \"[\" a? \"]\";", &t), "[]");
    let t = node("s", vec![leaf("a", " x ")]);
    assert_eq!(render("s := \"[\" a? \"]\";", &t), "[ x ]");
}

#[test]
fn join_puts_the_separator_between_children() {
    let t = node("s", vec![leaf("a", "1"), leaf("a", "2"), leaf("a", "3")]);
    assert_eq!(render("s := a join \", \";", &t), "1, 2, 3");
    let t = node("s", vec![leaf("a", "1")]);
    assert_eq!(render("s := a join \", \";", &t), "1");
    assert_eq!(render("s := a join \", \";", &node("s", vec![])), "");
}

#[test]
fn join_counts_one_separator_less_than_children() {
    for k in 1..6usize {
        let children: Vec<ASTNode> = (0..k).map(|_| leaf("a", "x")).collect();
        let out = render("s := a join \"|\";", &node("s", children));
        assert_eq!(out.matches('|').count(), k - 1);
        assert_eq!(out.len(), k + (k - 1));
    }
}

#[test]
fn join_expands_escapes_in_the_separator() {
    let t = node("s", vec![leaf("a", "1"), leaf("a", "2")]);
    assert_eq!(render("s := a join \"\\n\";", &t), "1\n2");
}

#[test]
fn match_takes_the_first_matching_case() {
    let g = "s := match @value { \"a\" => \"1\", \"a\" => \"2\", \"b\" => \"3\", _ => \"?\" };";
    assert_eq!(render(g, &leaf("s", "a")), "1");
    assert_eq!(render(g, &leaf("s", "b")), "3");
    assert_eq!(render(g, &leaf("s", "c")), "?");
}

#[test]
fn match_default_may_echo_the_value() {
    let g = "s := match @value { \"a\" => \"1\", _ => @value };";
    assert_eq!(render(g, &leaf("s", "zz")), "zz");
}

#[test]
fn match_without_default_is_empty() {
    let g = "s := match @value { \"a\" => \"1\" };";
    assert_eq!(render(g, &leaf("s", "b")), "");
}

#[test]
fn match_with_empty_replacement_is_empty() {
    let g = "s := match @value { \"a\" => \"\", _ => \"d\" };";
    assert_eq!(render(g, &leaf("s", "a")), "");
}

#[test]
fn context_is_empty_at_the_root() {
    let g = "s := if @context == \"\" then \"root\" else \"inner\";";
    assert_eq!(render(g, &leaf("s", "v")), "root");
}

#[test]
fn context_is_the_asking_rule() {
    let g = "s := a b; a := x; b := x; x := if @context == \"a\" then \"A\" else \"B\";";
    let t = node(
        "s",
        vec![node("a", vec![leaf("x", "1")]), node("b", vec![leaf("x", "2")])],
    );
    assert_eq!(render(g, &t), "AB");
}

#[test]
fn choice_takes_the_first_output_that_is_not_empty() {
    let mut g = OutputGrammar::new();
    g.insert(OutputRule {
        name: String::from("s"),
        expr: OutputExpr::Choice(vec![
            OutputExpr::RuleRef(String::from("a")),
            OutputExpr::Literal(String::from("")),
            OutputExpr::RuleRef(String::from("b")),
            OutputExpr::Literal(String::from("last")),
        ]),
    });
    let gen = Generator::new(&g);
    assert_eq!(gen.generate(&node("s", vec![leaf("b", "B")])).unwrap(), "B");
    assert_eq!(gen.generate(&node("s", vec![leaf("c", "C")])).unwrap(), "last");
    let mut g = OutputGrammar::new();
    g.insert(OutputRule { name: String::from("s"), expr: OutputExpr::Choice(vec![]) });
    assert_eq!(Generator::new(&g).generate(&node("s", vec![])).unwrap(), "");
}

#[test]
fn endless_rule_reference_gives_no_output() {
    let g = grammar("s := s;");
    assert_eq!(Generator::new(&g).generate(&leaf("s", "v")), None);
}

#[test]
fn depth_budget_counts_nested_steps() {
    let g = grammar("s := a; a := \"x\";");
    let gen = Generator::new(&g);
    let t = node("s", vec![leaf("a", "")]);
    let s = String::from("s");
    let none = String::new();
    assert_eq!(gen.generate_rule(&s, &t, &none, 0), None);
    assert_eq!(gen.generate_rule(&s, &t, &none, 3), None);
    assert_eq!(gen.generate_rule(&s, &t, &none, 4), Some(String::from("x")));
    assert_eq!(gen.generate_rule(&s, &t, &none, MAX_DEPTH), Some(String::from("x")));
}
