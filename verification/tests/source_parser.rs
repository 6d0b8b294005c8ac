use bnf_transpiler::ast::ASTNode;
use bnf_transpiler::meta_parser::{GrammarExpr, InputGrammar, InputRule, MetaParser};
use bnf_transpiler::parser::{ParseAbort, ParseFailure, Parser};
use bnf_transpiler::pattern::{anchored, Probe};
use bnf_transpiler::report::ParseError;

fn grammar(text: &str) -> InputGrammar {
    MetaParser::new(text).parse_input_grammar().unwrap()
}

fn parse_with(text: &str, source: &str) -> Result<ASTNode, ParseFailure> {
    let g = grammar(text);
    let mut parser = Parser::new(&g, source);
    parser.parse()
}

fn tree(text: &str, source: &str) -> ASTNode {
    parse_with(text, source).unwrap()
}

fn error(text: &str, source: &str) -> ParseError {
    match parse_with(text, source) {
        Err(ParseFailure::Syntax(e)) => e,
        other => panic!("expected a syntax error, got {:?}", other),
    }
}

fn values(node: &ASTNode, name: &str) -> Vec<String> {
    node.get_children(name).iter().map(|c| c.value.clone()).collect()
}

#[test]
fn rule_node_bears_the_rule_name() {
    let t = tree("a := b c; b := \"x\"; c := \"y\";", "x y");
    assert_eq!(t.name, "a");
    assert_eq!(t.get_child("b").unwrap().name, "b");
    assert_eq!(t.get_child("c").unwrap().name, "c");
}

#[test]
fn rule_with_a_single_reference_renames_the_node() {
    let t = tree("a := b; b := \"x\";", "x");
    assert_eq!(t.name, "a");
    assert_eq!(t.value, "x");
    assert!(t.children.is_empty());
}

#[test]
fn leaf_rule_captures_its_text() {
    let t = tree("a := \"x\" \"y\";", "x   y");
    assert_eq!(t.value, "x   y");
    assert!(t.children.is_empty());
}

#[test]
fn capture_leaves_out_leading_blanks() {
    let t = tree("a := b b; b := \"x\" | \"y\";", "  x \t y");
    assert_eq!(values(&t, "b"), vec!["x", "y"]);
}

#[test]
fn pattern_rule_takes_the_matched_text() {
    let t = tree("a := n \";\"; n := \"[0-9]+\";", "  123;");
    assert_eq!(t.get_child("n").unwrap().value, "123");
}

#[test]
fn pattern_matches_only_part_of_the_text() {
    let t = tree("a := w d; w := \"[a-z]+\"; d := \"[0-9]+\";", "abc123");
    assert_eq!(t.get_child("w").unwrap().value, "abc");
    assert_eq!(t.get_child("d").unwrap().value, "123");
}

#[test]
fn pattern_is_anchored_at_the_cursor() {
    let e = error("a := n; n := \"[0-9]+\";", "x 12");
    assert_eq!(e.position, 0);
    assert_eq!(e.expected, vec!["pattern /[0-9]+/"]);
}

#[test]
fn unanchored_alternative_of_a_pattern_is_no_match() {
    // `^a|b` would find the `b` further on; at the cursor there is none.
    let e = error("s := p; p := [a|b];", "xxb");
    assert_eq!(e.position, 0);
    assert_eq!(e.expected, vec!["pattern /a|b/"]);
}

#[test]
fn pattern_may_cross_non_ascii_text() {
    let t = tree("a := w \"!\"; w := \"[^!]+\";", "héllo wörld!");
    assert_eq!(t.get_child("w").unwrap().value, "héllo wörld");
}

#[test]
fn invalid_pattern_stops_the_parse() {
    match parse_with("a := p; p := \"[a-z\";", "abc") {
        Err(ParseFailure::BadPattern(p)) => assert_eq!(p, "[a-z"),
        other => panic!("unexpected {:?}", other),
    }
}

#[test]
fn invalid_pattern_that_is_never_tried_does_no_harm() {
    let t = tree("a := \"x\" | p; p := \"[a-z\";", "x");
    assert_eq!(t.value, "x");
}

#[test]
fn left_recursion_is_stopped_by_the_depth_limit() {
    match parse_with("a := a \"x\" | \"x\";", "x") {
        Err(ParseFailure::TooDeep) => {}
        other => panic!("unexpected {:?}", other),
    }
}

#[test]
fn undefined_rule_fails_without_a_record() {
    let e = error("a := \"x\" missing;", "x");
    assert_eq!(e.position, 0);
    assert!(e.expected.is_empty());
    assert_eq!(e.context_rule, "");
}

#[test]
fn empty_grammar_fails_at_the_start() {
    let e = error("", "x");
    assert_eq!(e.position, 0);
    assert_eq!(e.line, 1);
    assert_eq!(e.column, 1);
    assert!(e.expected.is_empty());
    assert_eq!(e.found, "x");
}

#[test]
fn leftover_text_expects_end_of_input() {
    let e = error("a := \"x\";", "x  y");
    assert_eq!(e.position, 3);
    assert_eq!(e.column, 4);
    assert_eq!(e.expected, vec!["end of input"]);
    assert_eq!(e.found, "y");
    assert_eq!(e.context_rule, "a");
}

#[test]
fn trailing_inline_blanks_are_accepted() {
    assert!(parse_with("a := \"x\";", "x \t\r ").is_ok());
}

#[test]
fn trailing_newline_is_not_accepted_without_a_rule_for_it() {
    let e = error("a := \"x\";", "x\n");
    assert_eq!(e.position, 1);
    assert_eq!(e.expected, vec!["end of input"]);
}

#[test]
fn expected_set_collects_alternatives_without_duplicates() {
    let e = error("a := \"x\" | \"y\" | \"x\";", "z");
    assert_eq!(e.position, 0);
    assert_eq!(e.expected, vec!["\"x\"", "\"y\""]);
    // first reached with the initial tracker, whose rule is empty
    assert_eq!(e.context_rule, "");
}

#[test]
fn further_failure_replaces_the_expected_set() {
    let e = error("a := \"x\" \"y\" | \"x\" \"z\" | \"w\";", "x q");
    assert_eq!(e.position, 2);
    assert_eq!(e.expected, vec!["\"y\"", "\"z\""]);
    assert_eq!(e.context_rule, "a");
}

#[test]
fn error_position_is_not_behind_a_successful_alternative() {
    // "ab" matches up to 2, then "c" fails there; the second alternative
    // fails at 0; the report stays at 2.
    let e = error("s := \"a\" \"b\" \"c\" | \"z\";", "abx");
    assert_eq!(e.position, 2);
    assert_eq!(e.expected, vec!["\"c\""]);
}

#[test]
fn line_and_column_count_from_one() {
    let e = error("s := l l l; l := \"[a-z]+\" NEWLINE;", "ab\ncd\n  9\n");
    assert_eq!(e.position, 8);
    assert_eq!(e.line, 3);
    assert_eq!(e.column, 3);
    assert_eq!(e.source_line, "  9");
    assert_eq!(e.found, "9\n");
}

#[test]
fn source_line_drops_carriage_return_before_line_feed() {
    let e = error("s := \"a\" NEWLINE \"b\";", "a\r\nc d\r\nrest");
    assert_eq!(e.line, 2);
    assert_eq!(e.source_line, "c d");
}

#[test]
fn found_text_is_cut_after_twenty_characters() {
    let e = error("s := \"a\";", "0123456789012345678901234");
    assert_eq!(e.found, "01234567890123456789\u{2026}");
    let e = error("s := \"a\";", "01234567890123456789");
    assert_eq!(e.found, "01234567890123456789");
}

#[test]
fn found_text_at_the_end_is_end_of_input() {
    let e = error("s := \"a\" \"b\";", "a");
    assert_eq!(e.position, 1);
    assert_eq!(e.found, "end of input");
}

#[test]
fn rendering_without_expectations_has_no_expected_line() {
    let e = error("", "x");
    assert_eq!(
        e.to_string(),
        "Parse error at line 1, column 1:\n\n 1 | x\n    ^\n\nFound: 'x'\nWhile parsing: \n"
    );
}

#[test]
fn rendering_joins_expectations_with_or() {
    let e = error("a := \"x\" \"y\" | \"x\" \"z\" | \"w\";", "x q");
    assert_eq!(
        e.to_string(),
        "Parse error at line 1, column 3:\n\n 1 | x q\n      ^\n\nExpected: \"y\" or \"z\"\nFound: 'q'\nWhile parsing: a\n"
    );
}

#[test]
fn rendering_widens_the_gutter_with_the_line_number() {
    let e = ParseError {
        position: 0,
        line: 120,
        column: 2,
        expected: vec![String::from("X")],
        found: String::from("f"),
        context_rule: String::from("r"),
        source_line: String::from("abc"),
    };
    assert_eq!(
        e.to_string(),
        "Parse error at line 120, column 2:\n\n 120 | abc\n       ^\n\nExpected: X\nFound: 'f'\nWhile parsing: r\n"
    );
}

#[test]
fn choice_takes_the_first_alternative_that_matches() {
    let t = tree("s := a | b; a := \"x\"; b := \"x\" \"y\";", "x");
    assert!(t.get_child("a").is_some());
    assert!(t.get_child("b").is_none());
    // ordered choice: `a` matched, so `b` is never tried and "y" is left over
    let e = error("s := a | b; a := \"x\"; b := \"x\" \"y\";", "x y");
    assert_eq!(e.expected, vec!["end of input"]);
}

#[test]
fn failed_alternative_leaves_layout_untouched() {
    // The first alternative opens a block and reads a name before it fails;
    // the second must still find the line start and the indentation.
    let g = "s := \"h\" NEWLINE body;\nbody := INDENT n \"!\" | INDENT n \"?\";\nn := \"[a-z]+\";";
    let t = tree(g, "h\n   abc ?");
    assert_eq!(t.get_child("body").unwrap().get_child("n").unwrap().value, "abc");
}

#[test]
fn failed_sequence_gives_back_pending_dedents() {
    let g = "s := \"a\" NEWLINE INDENT \"b\" NEWLINE INDENT \"c\" NEWLINE tail;\n\
             tail := DEDENT DEDENT \"x\" | DEDENT DEDENT \"d\";";
    assert!(parse_with(g, "a\n  b\n    c\nd").is_ok());
}

#[test]
fn repetition_keeps_children_in_source_order() {
    let t = tree("s := n*; n := \"[0-9]\";", "3 1 4 1 5");
    assert_eq!(values(&t, "n"), vec!["3", "1", "4", "1", "5"]);
}

#[test]
fn group_children_join_those_of_the_sequence() {
    let t = tree("s := n (\",\" n)* \";\"; n := \"[a-z]+\";", "a, b,c ;");
    assert_eq!(values(&t, "n"), vec!["a", "b", "c"]);
    assert_eq!(t.children.len(), 1);
}

#[test]
fn groups_of_different_names_keep_first_appearance_order() {
    let t = tree("s := (a | b)*; a := \"[0-9]\"; b := \"[a-z]\";", "x 1 y 2");
    assert_eq!(t.children.len(), 2);
    assert_eq!(t.children[0].name, "b");
    assert_eq!(t.children[1].name, "a");
    assert_eq!(values(&t, "b"), vec!["x", "y"]);
    assert_eq!(values(&t, "a"), vec!["1", "2"]);
}

#[test]
fn zero_or_more_may_match_nothing() {
    let t = tree("s := \"x\" n*; n := \"[0-9]\";", "x");
    assert!(t.children.is_empty());
}

#[test]
fn one_or_more_needs_one() {
    let e = error("s := n+; n := \"[0-9]\";", "x");
    assert_eq!(e.expected, vec!["pattern /[0-9]/"]);
    let t = tree("s := n+; n := \"[0-9]\";", "7");
    assert_eq!(values(&t, "n"), vec!["7"]);
}

#[test]
fn repetition_of_an_empty_match_ends() {
    let t = tree("s := (n? \";\"?)* \"x\"; n := \"[0-9]\";", "1 ; 2 x");
    assert_eq!(values(&t, "n"), vec!["1", "2"]);
    let t = tree("s := (n? \";\"?)+ \"x\"; n := \"[0-9]\";", "x");
    assert!(t.get_child("n").is_none());
}

#[test]
fn group_of_a_single_reference_keeps_only_its_children() {
    let t = tree("s := (p) \"x\"; p := n n; n := \"[0-9]\";", "1 2 x");
    assert!(t.get_child("p").is_none());
    assert_eq!(values(&t, "n"), vec!["1", "2"]);
}

#[test]
fn optional_that_fails_matches_nothing() {
    let t = tree("s := a? \"x\"; a := \"a\";", "x");
    assert!(t.get_child("a").is_none());
    let t = tree("s := a? \"x\"; a := \"a\";", "a x");
    assert_eq!(t.get_child("a").unwrap().value, "a");
}

#[test]
fn literal_does_not_cross_a_newline() {
    let e = error("s := \"a\" \"b\";", "a\nb");
    assert_eq!(e.position, 1);
    assert_eq!(e.expected, vec!["\"b\""]);
}

#[test]
fn newline_skips_blank_lines() {
    let t = tree("s := l+; l := n NEWLINE; n := \"[a-z]+\";", "a\n\n  \t\n\nb\n");
    assert_eq!(t.get_children("l").len(), 2);
}

#[test]
fn newline_accepts_carriage_return_line_feed() {
    let t = tree("s := l+; l := n NEWLINE; n := \"[a-z]+\";", "a\r\nb\r\n");
    assert_eq!(t.get_children("l").len(), 2);
}

#[test]
fn indent_needs_a_deeper_line() {
    let g = "s := \"a\" NEWLINE INDENT \"b\";";
    assert!(parse_with(g, "a\n  b").is_ok());
    let e = error(g, "a\nb");
    assert_eq!(e.expected, vec!["INDENT"]);
    assert_eq!(e.position, 2);
}

#[test]
fn tab_indents_to_the_next_multiple_of_eight() {
    // one block at column 8 (a tab), a nested one at column 9
    let g = "s := \"a\" NEWLINE INDENT \"b\" NEWLINE INDENT \"c\" NEWLINE DEDENT \"d\";";
    assert!(parse_with(g, "a\n\tb\n\t c\n   \td").is_ok());
    // three spaces and a tab are column 8 again: no dedent there
    let e = error("s := \"a\" NEWLINE INDENT \"b\" NEWLINE DEDENT \"d\";", "a\n\tb\n   \td");
    assert_eq!(e.expected, vec!["DEDENT"]);
}

#[test]
fn dedent_closes_several_blocks_one_by_one() {
    let g = "s := \"a\" NEWLINE INDENT \"b\" NEWLINE INDENT \"c\" NEWLINE DEDENT DEDENT \"d\";";
    assert!(parse_with(g, "a\n  b\n    c\nd").is_ok());
    // only one block is closed by the line of `d`
    let e = error(g, "a\n  b\n    c\n  d");
    assert_eq!(e.expected, vec!["DEDENT"]);
}

#[test]
fn indent_fails_while_a_block_waits_to_be_closed() {
    let g = "s := \"a\" NEWLINE INDENT \"b\" NEWLINE INDENT \"c\" NEWLINE DEDENT INDENT \"d\";";
    let e = error(g, "a\n  b\n    c\nd");
    assert_eq!(e.expected, vec!["INDENT"]);
}

#[test]
fn same_indent_needs_the_indentation_of_the_block() {
    let g = "s := \"a\" NEWLINE INDENT \"b\" NEWLINE SAME_INDENT \"c\";";
    assert!(parse_with(g, "a\n  b\n  c").is_ok());
    let e = error(g, "a\n  b\n   c");
    assert_eq!(e.expected, vec!["SAME_INDENT"]);
}

#[test]
fn parser_runs_a_grammar_built_by_hand() {
    let mut g = InputGrammar::new();
    g.start_rule = String::from("s");
    g.insert(InputRule {
        name: String::from("s"),
        expr: GrammarExpr::Sequence(vec![
            GrammarExpr::Literal(String::from("a")),
            GrammarExpr::OneOrMore(Box::new(GrammarExpr::RuleRef(String::from("b")))),
        ]),
    });
    g.insert(InputRule {
        name: String::from("b"),
        expr: GrammarExpr::Pattern(String::from("b+")),
    });
    let mut parser = Parser::new(&g, "a bb b");
    let t = parser.parse().unwrap();
    assert_eq!(values(&t, "b"), vec!["bb", "b"]);
}

#[test]
fn empty_choice_fails_and_empty_sequence_matches() {
    let mut g = InputGrammar::new();
    g.start_rule = String::from("s");
    g.insert(InputRule { name: String::from("s"), expr: GrammarExpr::Choice(vec![]) });
    assert!(Parser::new(&g, "").parse().is_err());
    let mut g = InputGrammar::new();
    g.start_rule = String::from("s");
    g.insert(InputRule { name: String::from("s"), expr: GrammarExpr::Sequence(vec![]) });
    let t = Parser::new(&g, "").parse().unwrap();
    assert_eq!(t.name, "s");
    assert_eq!(t.value, "");
}

#[test]
fn step_with_no_depth_left_halts() {
    let g = grammar("s := \"a\";");
    let mut parser = Parser::new(&g, "a");
    let name = String::from("s");
    assert!(matches!(parser.parse_rule(&name, 0), Err(ParseAbort::TooDeep)));
    assert!(matches!(parser.parse_rule(&name, 1), Err(ParseAbort::TooDeep)));
    assert!(matches!(parser.parse_rule(&name, 2), Ok(Some(_))));
}

#[test]
fn probe_counts_only_at_the_cursor() {
    let found = Probe::Found { start: 0, matched: String::from("ab") };
    assert_eq!(anchored(found), Some(String::from("ab")));
    let later = Probe::Found { start: 2, matched: String::from("ab") };
    assert_eq!(anchored(later), None);
    assert_eq!(anchored(Probe::Absent), None);
    assert_eq!(anchored(Probe::Invalid), None);
}

#[test]
fn applied_probe_must_agree_with_the_text() {
    let g = grammar("s := \"a\";");
    let pattern = String::from("[a-z]+");
    let rule = String::from("s");
    let mut parser = Parser::new(&g, "  abc");
    let found = Probe::Found { start: 0, matched: String::from("abc") };
    let node = parser.apply_probe(&pattern, &rule, 2, found).unwrap().unwrap();
    assert_eq!(node.name, "_pattern");
    assert_eq!(node.value, "abc");
    let mut parser = Parser::new(&g, "  abc");
    let wrong = Probe::Found { start: 0, matched: String::from("xyz") };
    assert!(parser.apply_probe(&pattern, &rule, 2, wrong).unwrap().is_none());
    let mut parser = Parser::new(&g, "  abc");
    assert!(matches!(
        parser.apply_probe(&pattern, &rule, 2, Probe::Invalid),
        Err(ParseAbort::BadPattern(_))
    ));
}

#[test]
fn report_copies_are_equal() {
    let e = error("a := \"x\" | \"y\";", "z");
    let copy = e.clone();
    assert_eq!(format!("{:?}", copy), format!("{:?}", e));
}

#[test]
fn ascii_and_other_sources_are_searched_alike() {
    let g = "s := w+; w := \"[^ ]+\";";
    assert_eq!(values(&tree(g, "ab cd  ef"), "w"), vec!["ab", "cd", "ef"]);
    assert_eq!(values(&tree(g, "äb çd  éf"), "w"), vec!["äb", "çd", "éf"]);
    let e = error("s := w \"!\"; w := \"[a-zé]+\";", "é?");
    assert_eq!(e.position, 1);
    assert_eq!(e.column, 2);
    assert_eq!(e.found, "?");
}

#[test]
fn closed_blocks_leave_the_layout_as_it_began() {
    let g = grammar(
        "block := \"begin\" NEWLINE INDENT stmt+ DEDENT;\nstmt := name NEWLINE;\nname := \"[a-z]+\";",
    );
    let mut parser = Parser::new(&g, "begin\n  a\n  b\n");
    assert_eq!(parser.indent_stack(), vec![0]);
    assert!(parser.parse().is_ok());
    assert_eq!(parser.indent_stack(), vec![0]);
    assert_eq!(parser.pending_dedents(), 0);
    assert_eq!(parser.position(), 14);
}

#[test]
fn open_blocks_stay_on_the_stack() {
    let g = grammar("block := \"begin\" NEWLINE INDENT stmt+;\nstmt := name NEWLINE;\nname := \"[a-z]+\";");
    let mut parser = Parser::new(&g, "begin\n  a\n");
    assert!(parser.parse().is_ok());
    assert_eq!(parser.indent_stack(), vec![0, 2]);
    assert_eq!(parser.pending_dedents(), 0);
}

#[test]
fn waiting_blocks_are_counted() {
    let g = grammar("s := \"a\" NEWLINE INDENT \"b\" NEWLINE INDENT \"c\" NEWLINE DEDENT;");
    let mut parser = Parser::new(&g, "a\n  b\n    c\n");
    assert!(parser.parse().is_ok());
    assert_eq!(parser.indent_stack(), vec![0, 2]);
    assert_eq!(parser.pending_dedents(), 1);
}

#[test]
fn failed_step_leaves_the_cursor_untouched() {
    let g = grammar("s := \"a\" NEWLINE INDENT \"b\" \"c\" NEWLINE DEDENT \"x\";");
    let rule = String::from("s");
    let head = GrammarExpr::Sequence(vec![
        GrammarExpr::Literal(String::from("a")),
        GrammarExpr::Newline,
    ]);
    // each of these goes some way into the text and into the layout, then fails
    let attempts = vec![
        GrammarExpr::Sequence(vec![
            GrammarExpr::Indent,
            GrammarExpr::Literal(String::from("b")),
            GrammarExpr::Literal(String::from("x")),
        ]),
        GrammarExpr::Sequence(vec![
            GrammarExpr::Indent,
            GrammarExpr::Literal(String::from("b")),
            GrammarExpr::Literal(String::from("c")),
            GrammarExpr::Newline,
            GrammarExpr::Dedent,
            GrammarExpr::Literal(String::from("y")),
        ]),
        GrammarExpr::Choice(vec![
            GrammarExpr::Literal(String::from("q")),
            GrammarExpr::Group(Box::new(GrammarExpr::Sequence(vec![
                GrammarExpr::Indent,
                GrammarExpr::Pattern(String::from("[a-z]")),
                GrammarExpr::Dedent,
            ]))),
        ]),
        GrammarExpr::OneOrMore(Box::new(GrammarExpr::SameIndent)),
        GrammarExpr::Dedent,
    ];
    let succeeding = GrammarExpr::Sequence(vec![
        GrammarExpr::Indent,
        GrammarExpr::Literal(String::from("b")),
    ]);
    let mut parser = Parser::new(&g, "a\n   b c\nx");
    assert!(parser.parse_expr(&head, &rule, 100).unwrap().is_some());
    let (pos, stack, pending) =
        (parser.position(), parser.indent_stack(), parser.pending_dedents());
    assert_eq!((pos, stack.clone(), pending), (2, vec![0], 0));
    let mut furthest = parser.furthest_position();
    for (i, attempt) in attempts.iter().enumerate() {
        // interleave the failing attempts with one that succeeds on a copy
        if i % 2 == 1 {
            let mut other = Parser::new(&g, "a\n   b c\nx");
            assert!(other.parse_expr(&head, &rule, 100).unwrap().is_some());
            assert!(other.parse_expr(&succeeding, &rule, 100).unwrap().is_some());
            assert_eq!(other.indent_stack(), vec![0, 3]);
        }
        assert!(parser.parse_expr(attempt, &rule, 100).unwrap().is_none(), "attempt {}", i);
        assert_eq!(parser.position(), pos, "attempt {}", i);
        assert_eq!(parser.indent_stack(), stack, "attempt {}", i);
        assert_eq!(parser.pending_dedents(), pending, "attempt {}", i);
        assert!(parser.furthest_position() >= furthest);
        assert!(parser.furthest_position() >= pos);
        furthest = parser.furthest_position();
    }
    // and the step that succeeds still starts from the line start
    assert!(parser.parse_expr(&succeeding, &rule, 100).unwrap().is_some());
    assert_eq!(parser.indent_stack(), vec![0, 3]);
    assert_eq!(parser.position(), 6);
}

#[test]
fn pattern_is_compiled_once_and_used_again() {
    // the same pattern is tried at many positions and under two rules
    let g = "s := (a \",\" | b \";\")*; a := \"[0-9]+\"; b := \"[0-9]+\";";
    let t = tree(g, "1, 22; 333, 4444;");
    assert_eq!(values(&t, "a"), vec!["1", "333"]);
    assert_eq!(values(&t, "b"), vec!["22", "4444"]);
}

/// A small generator of numbers for the test below.
struct Dice(u64);

impl Dice {
    fn roll(&mut self, sides: u64) -> u64 {
        self.0 = self.0.wrapping_mul(6364136223846793005).wrapping_add(1442695040888963407);
        (self.0 >> 33) % sides
    }
}

fn random_expr(dice: &mut Dice, depth: u32) -> GrammarExpr {
    let lit = |s: &str| GrammarExpr::Literal(String::from(s));
    let pick = if depth == 0 { dice.roll(9) } else { dice.roll(15) };
    match pick {
        0 => lit("a"),
        1 => lit("b"),
        2 => lit("zz"),
        3 => GrammarExpr::Pattern(String::from("[a-c]+")),
        4 => GrammarExpr::Pattern(String::from("[0-9]")),
        5 => GrammarExpr::Newline,
        6 => GrammarExpr::Indent,
        7 => GrammarExpr::Dedent,
        8 => GrammarExpr::SameIndent,
        9 | 10 => {
            let n = 1 + dice.roll(4);
            GrammarExpr::Sequence((0..n).map(|_| random_expr(dice, depth - 1)).collect())
        }
        11 => {
            let n = 1 + dice.roll(3);
            GrammarExpr::Choice((0..n).map(|_| random_expr(dice, depth - 1)).collect())
        }
        12 => GrammarExpr::OneOrMore(Box::new(random_expr(dice, depth - 1))),
        13 => GrammarExpr::Optional(Box::new(random_expr(dice, depth - 1))),
        _ => GrammarExpr::Group(Box::new(GrammarExpr::Sequence(vec![
            random_expr(dice, depth - 1),
            GrammarExpr::ZeroOrMore(Box::new(random_expr(dice, depth - 1))),
        ]))),
    }
}

#[test]
fn random_steps_roll_back_when_they_fail() {
    let g = grammar("s := \"a\";");
    let rule = String::from("s");
    let sources = ["a\n  b\n    c a\n  a b\nzz\n", "  ab c\n\n\t a\n b 1\n", "a b zz 7\n   a\n"];
    let mut dice = Dice(20240229);
    let (mut failed, mut matched) = (0, 0);
    for round in 0..400 {
        let mut parser = Parser::new(&g, sources[round % sources.len()]);
        // walk some way into the text first, alternative after alternative
        for _ in 0..12 {
            let expr = random_expr(&mut dice, 3);
            let before =
                (parser.position(), parser.indent_stack(), parser.pending_dedents());
            let furthest = parser.furthest_position();
            match parser.parse_expr(&expr, &rule, 64).unwrap() {
                None => {
                    failed += 1;
                    let after =
                        (parser.position(), parser.indent_stack(), parser.pending_dedents());
                    assert_eq!(after, before, "{:?}", expr);
                }
                Some(_) => {
                    matched += 1;
                    assert!(parser.position() >= before.0);
                }
            }
            assert!(parser.furthest_position() >= furthest);
            let stack = parser.indent_stack();
            assert_eq!(stack[0], 0);
            assert!(stack.windows(2).all(|w| w[0] < w[1]));
            assert!(parser.pending_dedents() < stack.len());
        }
    }
    assert!(failed > 100 && matched > 100, "{} failed, {} matched", failed, matched);
}
