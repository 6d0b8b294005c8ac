use bnf_transpiler::meta_parser::{
    GrammarError, GrammarErrorKind, GrammarExpr, InputGrammar, MetaParser, OutputExpr,
    OutputGrammar,
};

fn input_grammar(text: &str) -> Result<InputGrammar, GrammarError> {
    MetaParser::new(text).parse_input_grammar()
}

fn output_grammar(text: &str) -> Result<OutputGrammar, GrammarError> {
    MetaParser::new(text).parse_output_grammar()
}

fn input_error(text: &str) -> GrammarError {
    input_grammar(text).err().expect("the grammar should be refused")
}

fn output_error(text: &str) -> GrammarError {
    output_grammar(text).err().expect("the grammar should be refused")
}

#[test]
fn test_parse_input_grammar() {
    let input = r#"
            func_decl := ret_type name "(" args? ")" ";";
            args      := arg ("," arg)*;
            arg       := type name;
            ret_type  := "void" | "int";
            type      := "int" | "float";
            name      := "[a-zA-Z_]+";
        "#;

    let mut parser = MetaParser::new(input);
    let grammar = parser.parse_input_grammar().unwrap();

    assert!(grammar.contains_key("func_decl"));
    assert!(grammar.contains_key("args"));
    assert!(grammar.contains_key("arg"));
}

#[test]
fn start_rule_is_the_first_rule() {
    let grammar = input_grammar("b := \"x\";\na := b;\n").unwrap();
    assert_eq!(grammar.start_rule, "b");
    assert_eq!(grammar.rules.len(), 2);
    assert!(!grammar.contains_key("c"));
}

#[test]
fn rule_is_found_under_its_own_name() {
    let grammar = input_grammar("a := \"x\"; b := a;").unwrap();
    assert_eq!(grammar.get("a").unwrap().name, "a");
    assert_eq!(grammar.get("b").unwrap().name, "b");
    assert!(grammar.get("c").is_none());
}

#[test]
fn later_rule_replaces_earlier_of_same_name() {
    let grammar = input_grammar("a := \"x\"; a := \"y\";").unwrap();
    assert_eq!(grammar.rules.len(), 1);
    match &grammar.get("a").unwrap().expr {
        GrammarExpr::Literal(s) => assert_eq!(s, "y"),
        other => panic!("unexpected {:?}", other),
    }
}

#[test]
fn empty_text_is_an_empty_grammar() {
    let grammar = input_grammar("  // nothing here\n").unwrap();
    assert_eq!(grammar.rules.len(), 0);
    assert_eq!(grammar.start_rule, "");
}

#[test]
fn comments_and_blanks_are_skipped() {
    let grammar = input_grammar("// head\n a // tail\n := // more\n \"x\" ; // end").unwrap();
    assert!(grammar.contains_key("a"));
}

#[test]
fn quoted_string_is_a_literal() {
    let grammar = input_grammar("a := \"abc\";").unwrap();
    match &grammar.get("a").unwrap().expr {
        GrammarExpr::Literal(s) => assert_eq!(s, "abc"),
        other => panic!("unexpected {:?}", other),
    }
}

#[test]
fn quoted_string_keeps_backslashes_unprocessed() {
    let grammar = output_grammar("a := \"x\\ny\";").unwrap();
    let key = String::from("a");
    match &grammar.get(&key).unwrap().expr {
        OutputExpr::Literal(s) => assert_eq!(s, "x\\ny"),
        other => panic!("unexpected {:?}", other),
    }
}

#[test]
fn quoted_string_with_regex_marks_is_a_pattern() {
    for (text, pattern) in [
        ("a := \"[a-z]\";", "[a-z]"),
        ("a := \"x+\";", "x+"),
        ("a := \"x*\";", "x*"),
        ("a := \"\\d\";", "\\d"),
    ] {
        let grammar = input_grammar(text).unwrap();
        match &grammar.get("a").unwrap().expr {
            GrammarExpr::Pattern(s) => assert_eq!(s, pattern),
            other => panic!("unexpected {:?}", other),
        }
    }
}

#[test]
fn bracketed_pattern_tracks_nested_brackets() {
    let grammar = input_grammar("a := [[a-z]+[0-9]];").unwrap();
    match &grammar.get("a").unwrap().expr {
        GrammarExpr::Pattern(s) => assert_eq!(s, "[a-z]+[0-9]"),
        other => panic!("unexpected {:?}", other),
    }
}

#[test]
fn layout_identifiers_are_terminals() {
    let grammar = input_grammar("a := INDENT DEDENT NEWLINE SAME_INDENT other;").unwrap();
    match &grammar.get("a").unwrap().expr {
        GrammarExpr::Sequence(items) => {
            assert_eq!(items.len(), 5);
            assert!(matches!(items[0], GrammarExpr::Indent));
            assert!(matches!(items[1], GrammarExpr::Dedent));
            assert!(matches!(items[2], GrammarExpr::Newline));
            assert!(matches!(items[3], GrammarExpr::SameIndent));
            match &items[4] {
                GrammarExpr::RuleRef(s) => assert_eq!(s, "other"),
                other => panic!("unexpected {:?}", other),
            }
        }
        other => panic!("unexpected {:?}", other),
    }
}

#[test]
fn postfix_marks_wrap_the_atom() {
    let grammar = input_grammar("a := x* y+ z? (w)*;").unwrap();
    match &grammar.get("a").unwrap().expr {
        GrammarExpr::Sequence(items) => {
            assert!(matches!(items[0], GrammarExpr::ZeroOrMore(_)));
            assert!(matches!(items[1], GrammarExpr::OneOrMore(_)));
            assert!(matches!(items[2], GrammarExpr::Optional(_)));
            match &items[3] {
                GrammarExpr::ZeroOrMore(inner) => assert!(matches!(**inner, GrammarExpr::Group(_))),
                other => panic!("unexpected {:?}", other),
            }
        }
        other => panic!("unexpected {:?}", other),
    }
}

#[test]
fn choice_collects_all_alternatives() {
    let grammar = input_grammar("a := \"x\" | y z | \"w\";").unwrap();
    match &grammar.get("a").unwrap().expr {
        GrammarExpr::Choice(alternatives) => {
            assert_eq!(alternatives.len(), 3);
            assert!(matches!(alternatives[0], GrammarExpr::Literal(_)));
            assert!(matches!(alternatives[1], GrammarExpr::Sequence(_)));
            assert!(matches!(alternatives[2], GrammarExpr::Literal(_)));
        }
        other => panic!("unexpected {:?}", other),
    }
}

#[test]
fn missing_assign_is_refused() {
    let e = input_error("a = \"x\";");
    assert_eq!(e.kind, GrammarErrorKind::ExpectedAssign);
    assert_eq!(e.position, 2);
}

#[test]
fn missing_semicolon_is_refused() {
    let e = input_error("a := \"x\"");
    assert_eq!(e.kind, GrammarErrorKind::UnexpectedEnd);
    assert_eq!(e.position, 8);
}

#[test]
fn unexpected_character_is_named() {
    let e = input_error("a := \"x\" % ;");
    assert_eq!(e.kind, GrammarErrorKind::ExpectedChar { expected: ';', found: '%' });
    assert_eq!(e.position, 9);
}

#[test]
fn unclosed_group_is_refused() {
    let e = input_error("a := (\"x\" ;");
    assert_eq!(e.kind, GrammarErrorKind::ExpectedChar { expected: ')', found: ';' });
}

#[test]
fn unclosed_string_is_refused() {
    let e = input_error("a := \"x ;");
    assert_eq!(e.kind, GrammarErrorKind::UnexpectedEnd);
    assert_eq!(e.position, 9);
}

#[test]
fn unclosed_pattern_is_refused() {
    let e = input_error("a := [[a-z] ;");
    assert_eq!(e.kind, GrammarErrorKind::UnclosedPattern);
}

#[test]
fn rule_must_start_with_its_name() {
    let e = input_error("a := \"x\"; 1b := \"y\";");
    assert_eq!(e.kind, GrammarErrorKind::ExpectedRuleName);
    assert_eq!(e.position, 10);
}

#[test]
fn empty_sequence_is_refused() {
    let e = input_error("a := ;");
    assert_eq!(e.kind, GrammarErrorKind::ExpectedExpression);
    let e = input_error("a := \"x\" | ;");
    assert_eq!(e.kind, GrammarErrorKind::ExpectedExpression);
    let e = output_error("a := ;");
    assert_eq!(e.kind, GrammarErrorKind::ExpectedExpression);
}

#[test]
fn output_atoms_and_optional() {
    let grammar = output_grammar("a := \"x\" b c? (d e)?;").unwrap();
    let key = String::from("a");
    match &grammar.get(&key).unwrap().expr {
        OutputExpr::Sequence(items) => {
            assert_eq!(items.len(), 4);
            assert!(matches!(items[0], OutputExpr::Literal(_)));
            assert!(matches!(items[1], OutputExpr::RuleRef(_)));
            match &items[2] {
                OutputExpr::Optional(inner) => assert!(matches!(**inner, OutputExpr::RuleRef(_))),
                other => panic!("unexpected {:?}", other),
            }
            match &items[3] {
                OutputExpr::Optional(inner) => assert!(matches!(**inner, OutputExpr::Sequence(_))),
                other => panic!("unexpected {:?}", other),
            }
        }
        other => panic!("unexpected {:?}", other),
    }
}

#[test]
fn join_takes_rule_and_separator() {
    let grammar = output_grammar("a := b join \", \";").unwrap();
    let key = String::from("a");
    match &grammar.get(&key).unwrap().expr {
        OutputExpr::Join { rule, separator } => {
            assert_eq!(rule, "b");
            assert_eq!(separator, ", ");
        }
        other => panic!("unexpected {:?}", other),
    }
}

#[test]
fn join_needs_a_rule_before_it() {
    let e = output_error("a := \"x\" join \",\";");
    assert_eq!(e.kind, GrammarErrorKind::JoinWithoutRule);
    assert_eq!(e.position, 9);
}

#[test]
fn keyword_needs_a_boundary() {
    let grammar = output_grammar("a := joiner matcher iffy;").unwrap();
    let key = String::from("a");
    match &grammar.get(&key).unwrap().expr {
        OutputExpr::Sequence(items) => {
            assert_eq!(items.len(), 3);
            for (item, name) in items.iter().zip(["joiner", "matcher", "iffy"]) {
                match item {
                    OutputExpr::RuleRef(s) => assert_eq!(s, name),
                    other => panic!("unexpected {:?}", other),
                }
            }
        }
        other => panic!("unexpected {:?}", other),
    }
}

#[test]
fn match_collects_cases_and_default() {
    let grammar = output_grammar(
        "t := match @value {\n \"int\" => \"i32\",\n \"float\" => \"f64\"\n _ => @value\n};",
    )
    .unwrap();
    let key = String::from("t");
    match &grammar.get(&key).unwrap().expr {
        OutputExpr::Match { cases, default } => {
            assert_eq!(
                cases,
                &vec![
                    (String::from("int"), String::from("i32")),
                    (String::from("float"), String::from("f64")),
                ]
            );
            assert_eq!(default, "@value");
        }
        other => panic!("unexpected {:?}", other),
    }
}

#[test]
fn match_default_may_be_a_string() {
    let grammar = output_grammar("t := match @value { _ => \"?\" };").unwrap();
    let key = String::from("t");
    match &grammar.get(&key).unwrap().expr {
        OutputExpr::Match { cases, default } => {
            assert!(cases.is_empty());
            assert_eq!(default, "?");
        }
        other => panic!("unexpected {:?}", other),
    }
}

#[test]
fn match_errors_are_named() {
    assert_eq!(output_error("t := match x { };").kind, GrammarErrorKind::ExpectedValue);
    assert_eq!(
        output_error("t := match @value \"a\" => \"b\" };").kind,
        GrammarErrorKind::ExpectedChar { expected: '{', found: '"' }
    );
    assert_eq!(
        output_error("t := match @value { \"a\" -> \"b\" };").kind,
        GrammarErrorKind::ExpectedArrow
    );
    assert_eq!(
        output_error("t := match @value { \"a\" => \"b\" ; ").kind,
        GrammarErrorKind::ExpectedChar { expected: '}', found: ';' }
    );
    assert_eq!(
        output_error("t := match @value { \"a\" => \"b\"").kind,
        GrammarErrorKind::UnexpectedEnd
    );
}

#[test]
fn context_if_takes_both_branches() {
    let grammar =
        output_grammar("x := if @context == \"decl\" then \"D\" else (a \"E\");").unwrap();
    let key = String::from("x");
    match &grammar.get(&key).unwrap().expr {
        OutputExpr::ContextIf { context_value, then_expr, else_expr } => {
            assert_eq!(context_value, "decl");
            assert!(matches!(**then_expr, OutputExpr::Literal(_)));
            assert!(matches!(**else_expr, OutputExpr::Sequence(_)));
        }
        other => panic!("unexpected {:?}", other),
    }
}

#[test]
fn context_if_errors_are_named() {
    assert_eq!(output_error("x := if y then a else b;").kind, GrammarErrorKind::ExpectedContext);
    assert_eq!(
        output_error("x := if @context = \"d\" then a else b;").kind,
        GrammarErrorKind::ExpectedEquals
    );
    assert_eq!(
        output_error("x := if @context == \"d\" a else b;").kind,
        GrammarErrorKind::ExpectedThen
    );
    assert_eq!(
        output_error("x := if @context == \"d\" then a b;").kind,
        GrammarErrorKind::ExpectedElse
    );
    assert_eq!(
        output_error("x := if @context == \"d\" then ; else b;").kind,
        GrammarErrorKind::ExpectedExpression
    );
    assert_eq!(
        output_error("x := if @context == \"d\" then a else ;").kind,
        GrammarErrorKind::ExpectedExpression
    );
}

#[test]
fn output_grammar_finds_its_rules() {
    let grammar = output_grammar("a := \"x\";\n// note\nb := a;").unwrap();
    assert!(grammar.contains_key("a"));
    assert!(grammar.contains_key("b"));
    assert!(!grammar.contains_key("c"));
}

#[test]
fn grammar_copies_are_equal() {
    let input = input_grammar("a := \"x\" | (b c)* d+ e? [f] INDENT;").unwrap();
    let rule = input.get("a").unwrap();
    let copy = rule.clone();
    assert_eq!(format!("{:?}", copy), format!("{:?}", rule));
    let output = output_grammar(
        "a := \"x\" b? c join \",\"; m := match @value { \"p\" => \"q\", _ => @value }; \
         i := if @context == \"a\" then m else (a m);",
    )
    .unwrap();
    for rule in &output.rules {
        let copy = rule.clone();
        assert_eq!(format!("{:?}", copy), format!("{:?}", rule));
    }
    let e = input_error("a := ;");
    let copy = e;
    assert_eq!(copy, e);
}

#[test]
fn quoted_string_may_be_optional() {
    let grammar = output_grammar("a := \"x\"? b;").unwrap();
    let key = String::from("a");
    match &grammar.get(&key).unwrap().expr {
        OutputExpr::Sequence(items) => {
            assert_eq!(items.len(), 2);
            match &items[0] {
                OutputExpr::Optional(inner) => assert!(matches!(**inner, OutputExpr::Literal(_))),
                other => panic!("unexpected {:?}", other),
            }
        }
        other => panic!("unexpected {:?}", other),
    }
}

#[test]
fn case_may_echo_the_value() {
    let grammar =
        output_grammar("t := match @value { \"int\" => @value, \"x\" => \"y\" _ => \"?\" };")
            .unwrap();
    let key = String::from("t");
    match &grammar.get(&key).unwrap().expr {
        OutputExpr::Match { cases, default } => {
            assert_eq!(
                cases,
                &vec![
                    (String::from("int"), String::from("int")),
                    (String::from("x"), String::from("y")),
                ]
            );
            assert_eq!(default, "?");
        }
        other => panic!("unexpected {:?}", other),
    }
}

#[test]
fn later_default_replaces_earlier() {
    let grammar = output_grammar("t := match @value { _ => \"a\", _ => @value, };").unwrap();
    let key = String::from("t");
    match &grammar.get(&key).unwrap().expr {
        OutputExpr::Match { cases, default } => {
            assert!(cases.is_empty());
            assert_eq!(default, "@value");
        }
        other => panic!("unexpected {:?}", other),
    }
}
