use bnf_transpiler::ast::ASTNode;
use bnf_transpiler::generator::Generator;
use bnf_transpiler::meta_parser::{GrammarError, GrammarErrorKind, MetaParser};
use bnf_transpiler::parser::{ParseFailure, Parser};
use bnf_transpiler::report::ParseError;

const INPUT_GRAMMAR: &str = r#"func_decl := ret_type name "(" args? ")" ";";
args      := arg ("," arg)*;
arg       := type name;
ret_type  := "void" | "int";
type      := "int" | "float";
name      := "[a-zA-Z_]+";
"#;

const OUTPUT_GRAMMAR: &str = r#"// the name and the return type change places
func_decl := "fn " name "(" args? ")" " -> " ret_type ";";

// lists are joined with commas
args      := arg join ", ";

// type and name change places
arg       := name ": " type;

// type names are replaced
ret_type  := match @value {
    "void" => "()",
    "int"  => "i32",
    _ => @value
};
type      := match @value {
    "int" => "i32",
    "float" => "f64",
    _ => @value
};
"#;

fn parse(input_grammar: &str, source: &str) -> Result<ASTNode, ParseFailure> {
    let grammar = MetaParser::new(input_grammar).parse_input_grammar().unwrap();
    let mut parser = Parser::new(&grammar, source);
    parser.parse()
}

fn transpile(input_grammar: &str, output_grammar: &str, source: &str) -> String {
    let tree = parse(input_grammar, source).unwrap();
    let output = MetaParser::new(output_grammar).parse_output_grammar().unwrap();
    Generator::new(&output).generate(&tree).unwrap()
}

fn syntax_error(input_grammar: &str, source: &str) -> ParseError {
    match parse(input_grammar, source) {
        Err(ParseFailure::Syntax(e)) => e,
        other => panic!("expected a syntax error, got {:?}", other),
    }
}

#[test]
fn function_signature_is_transpiled() {
    assert_eq!(
        transpile(INPUT_GRAMMAR, OUTPUT_GRAMMAR, "int my_func(int a, float b);"),
        "fn my_func(a: i32, b: f64) -> i32;"
    );
}

#[test]
fn empty_argument_list_is_transpiled() {
    assert_eq!(transpile(INPUT_GRAMMAR, OUTPUT_GRAMMAR, "void f();"), "fn f() -> ();");
}

#[test]
fn parse_error_names_the_furthest_failure() {
    let e = syntax_error(INPUT_GRAMMAR, "int 123bad();");
    assert_eq!(e.position, 4);
    assert_eq!(e.line, 1);
    assert_eq!(e.column, 5);
    assert!(e.expected.contains(&String::from("pattern /[a-zA-Z_]+/")));
    assert!(e.found.starts_with("123bad("));
    assert_eq!(e.found, "123bad();");
    assert_eq!(e.context_rule, "name");
    assert_eq!(e.source_line, "int 123bad();");
}

#[test]
fn parse_error_is_rendered_exactly() {
    let e = syntax_error(INPUT_GRAMMAR, "int 123bad();");
    assert_eq!(
        e.to_string(),
        "Parse error at line 1, column 5:\n\n 1 | int 123bad();\n        ^\n\nExpected: pattern /[a-zA-Z_]+/\nFound: '123bad();'\nWhile parsing: name\n"
    );
}

#[test]
fn join_of_no_children_is_empty() {
    assert_eq!(
        transpile("list := (item (\",\" item)*)?;", "list := item join \", \";", ""),
        ""
    );
}

#[test]
fn indented_block_lists_statements_in_order() {
    let input = "block := \"begin\" NEWLINE INDENT stmt+ DEDENT;\nstmt := name NEWLINE;\nname := \"[a-z]+\";";
    let output = "block := stmt join \"\\n\";\nstmt := name;";
    assert_eq!(transpile(input, output, "begin\n  a\n  b\n"), "a\nb");
}

#[test]
fn context_if_depends_on_the_asking_rule() {
    let input = "prog := decl use;\ndecl := \"d\" x;\nuse := \"u\" x;\nx := \"[a-z]\";";
    let output = "prog := decl use;\ndecl := x;\nuse := x;\nx := if @context == \"decl\" then \"D\" else \"E\";";
    assert_eq!(transpile(input, output, "d a u b"), "DE");
}

#[test]
fn identity_grammar_gives_the_text_back() {
    let output = r#"func_decl := ret_type " " name "(" args? ")" ";";
args      := arg join ", ";
arg       := type " " name;
"#;
    for source in ["int my_func(int a, float b);", "void f();", "  int   g ( float x ) ;"] {
        let normal: String = source.split_whitespace().collect();
        let result: String =
            transpile(INPUT_GRAMMAR, output, source).split_whitespace().collect();
        assert_eq!(result, normal);
    }
}

#[test]
fn failures_are_worded() {
    let e = GrammarError { kind: GrammarErrorKind::ExpectedAssign, position: 12 };
    assert_eq!(e.to_string(), "Expected ':=' after rule name at position 12");
    let e = GrammarError {
        kind: GrammarErrorKind::ExpectedChar { expected: ';', found: '%' },
        position: 0,
    };
    assert_eq!(e.to_string(), "Expected ';', got '%' at position 0");
    let all = [
        (GrammarErrorKind::UnexpectedEnd, "Unexpected end of input"),
        (GrammarErrorKind::UnclosedPattern, "Unclosed pattern"),
        (GrammarErrorKind::ExpectedRuleName, "Expected a rule name"),
        (GrammarErrorKind::ExpectedExpression, "Expected an expression"),
        (GrammarErrorKind::JoinWithoutRule, "join must follow a rule reference"),
        (GrammarErrorKind::ExpectedValue, "Expected @value after match"),
        (GrammarErrorKind::ExpectedArrow, "Expected '=>' in match"),
        (GrammarErrorKind::ExpectedContext, "Expected @context after if"),
        (GrammarErrorKind::ExpectedEquals, "Expected '==' after @context"),
        (GrammarErrorKind::ExpectedThen, "Expected 'then' after context value"),
        (GrammarErrorKind::ExpectedElse, "Expected 'else' after then expression"),
    ];
    for (kind, message) in all {
        assert_eq!(kind.message(), message);
    }
    assert_eq!(
        ParseFailure::BadPattern(String::from("[a")).to_string(),
        "Invalid regex pattern: [a"
    );
    assert_eq!(ParseFailure::TooDeep.to_string(), "The grammar nests too deep on this text");
    let e = syntax_error(INPUT_GRAMMAR, "int 123bad();");
    let rendered = e.to_string();
    assert_eq!(ParseFailure::Syntax(e).to_string(), rendered);
}
