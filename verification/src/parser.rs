//! The source parser: a backtracking interpreter of a source grammar.
//!
//! Every method that tries an expression computes the step that
//! [`crate::parse_model`] defines: the node, the cursor and the tracker are
//! those of the model, and a step that fails leaves the cursor untouched.

use crate::ast::{lemma_node_view, ASTNode, NodeView};
use crate::layout::{
    count_extra_dedents, measure_indent, skip_blank_lines, skip_inline, stack_view, CursorState,
};
use crate::meta_parser::{
    input_exprs_view, lemma_input_sequence_view, GrammarExpr, GrammarExprView, InputGrammar,
    InputRuleView,
};
use crate::parse_model::{
    absorb, anchored_pattern, captured_text, expected_literal, expected_pattern, finish_rule,
    inline_end, lemma_extra_dedents, lemma_inline_end, pattern_outcome, record, step, step_choice,
    step_dedent, step_indent, step_items, step_literal, step_newline, step_pattern, step_repeat,
    step_rule, step_same_indent, Cursor, Halt, Outcome, Tracker,
};
use crate::pattern::{anchored, compile, pattern_is_valid, probe, probe_of, Compiled, Probe};
use crate::report::{
    copy_strings, get_found_text, get_source_line, pos_to_line_col, report, strings_view,
    ParseError, ParseErrorView,
};
use crate::text::{starts_with_at, substring, to_chars};
use vstd::prelude::*;
use vstd::string::{StringExecFns, StrSliceExecFns};

verus! {

/// How deep [`Parser::parse`] lets rules and expressions nest.
pub const MAX_DEPTH: usize = 4096;

/// Why a parse stopped without an answer.
#[derive(Debug)]
pub enum ParseAbort {
    /// A pattern of the grammar is no regular expression.
    BadPattern(String),
    /// The grammar nests deeper on this text than the budget allows.
    TooDeep,
}

/// Why a source text gave no tree.
#[derive(Debug)]
pub enum ParseFailure {
    /// The text does not match the grammar.
    Syntax(ParseError),
    /// A pattern of the grammar is no regular expression.
    BadPattern(String),
    /// The grammar nests deeper on this text than [`MAX_DEPTH`].
    TooDeep,
}

/// The mathematical value of a [`ParseFailure`].
pub enum FailureView {
    Syntax(ParseErrorView),
    BadPattern(Seq<char>),
    TooDeep,
}

impl View for ParseAbort {
    type V = Halt;

    open spec fn view(&self) -> Halt {
        match self {
            ParseAbort::BadPattern(pattern) => Halt::BadPattern(pattern@),
            ParseAbort::TooDeep => Halt::TooDeep,
        }
    }
}

impl View for ParseFailure {
    type V = FailureView;

    open spec fn view(&self) -> FailureView {
        match self {
            ParseFailure::Syntax(e) => FailureView::Syntax(e@),
            ParseFailure::BadPattern(pattern) => FailureView::BadPattern(pattern@),
            ParseFailure::TooDeep => FailureView::TooDeep,
        }
    }
}

/// The mathematical value of what a step returns.
pub open spec fn step_view(r: Result<Option<ASTNode>, ParseAbort>) -> Result<
    Option<NodeView>,
    Halt,
> {
    match r {
        Ok(Some(node)) => Ok(Some(node@)),
        Ok(None) => Ok(None),
        Err(abort) => Err(abort@),
    }
}

/// The mathematical value of what a parse returns.
pub open spec fn parse_view(r: Result<ASTNode, ParseFailure>) -> Result<NodeView, FailureView> {
    match r {
        Ok(node) => Ok(node@),
        Err(failure) => Err(failure@),
    }
}

/// What parsing `text` gives when it goes on from the cursor `c` with the
/// tracker `t`: the tree of the start rule, tried at `c`, if the rule matches
/// and only inline blanks follow; else the report of the furthest failure,
/// to which the text that is left over adds `end of input`.
pub open spec fn parse_from(
    rules: Seq<InputRuleView>,
    start_rule: Seq<char>,
    text: Seq<char>,
    c: Cursor,
    t: Tracker,
    depth: nat,
) -> Result<NodeView, FailureView> {
    let o = step_rule(rules, text, start_rule, c.with_line_indent(text), t, depth);
    match o.result {
        Err(Halt::BadPattern(pattern)) => Err(FailureView::BadPattern(pattern)),
        Err(Halt::TooDeep) => Err(FailureView::TooDeep),
        Ok(None) => Err(FailureView::Syntax(report(text, o.tracker))),
        Ok(Some(tree)) => {
            let end = inline_end(text, o.cursor.pos);
            if end < text.len() {
                Err(
                    FailureView::Syntax(
                        report(text, record(o.tracker, end, "end of input"@, start_rule)),
                    ),
                )
            } else {
                Ok(tree)
            }
        },
    }
}

/// Whether `list` holds `item`.
fn contains_string(list: &Vec<String>, item: &String) -> (r: bool)
    ensures
        r == strings_view(list).contains(item@),
{
    let mut i: usize = 0;
    while i < list.len()
        invariant
            i <= list.len(),
            forall|j: int| 0 <= j < i ==> strings_view(list)[j] != item@,
        decreases list.len() - i,
    {
        if list[i] == *item {
            assert(strings_view(list)[i as int] == item@);
            return true;
        }
        i += 1;
    }
    false
}

/// Lets `node` take up `child`.
fn take_up(node: &mut ASTNode, child: ASTNode)
    ensures
        final(node)@ == absorb(old(node)@, child@),
{
    if child.is_internal() {
        node.take_children_of(child);
    } else {
        node.add_child(child);
    }
}

/// A parser of one source text under one source grammar.
pub struct Parser<'a> {
    grammar: &'a InputGrammar,
    /// The source text as it was given, for searching without copying.
    source: String,
    /// Whether the source text is known to hold ASCII characters only.
    ascii: bool,
    /// The regular expressions compiled so far, each kept for its next use.
    regex_cache: Vec<Compiled>,
    /// The characters of the source text.
    input: Vec<char>,
    state: CursorState,
    furthest_pos: usize,
    furthest_expected: Vec<String>,
    furthest_rule: String,
}

impl<'a> Parser<'a> {
    /// The rules of the grammar.
    pub closed spec fn rules(&self) -> Seq<InputRuleView> {
        self.grammar@.rules
    }

    /// The name of the rule that the whole text must match.
    pub closed spec fn start_rule(&self) -> Seq<char> {
        self.grammar@.start_rule
    }

    /// The source text.
    pub closed spec fn text(&self) -> Seq<char> {
        self.input@
    }

    /// Where the parser stands.
    pub closed spec fn cursor(&self) -> Cursor {
        self.state@
    }

    /// The furthest failure so far.
    pub closed spec fn tracker(&self) -> Tracker {
        Tracker {
            pos: self.furthest_pos as int,
            expected: strings_view(&self.furthest_expected),
            rule: self.furthest_rule@,
        }
    }

    /// The parser holds its text in both forms, and every regular expression
    /// that it keeps compiles.
    pub closed spec fn consistent(&self) -> bool {
        &&& self.source@ == self.input@
        &&& self.ascii ==> vstd::string::string_is_ascii(&self.source)
        &&& forall|i: int|
            0 <= i < self.regex_cache.len() ==> pattern_is_valid(
                (#[trigger] self.regex_cache[i])@,
            )
    }

    /// The cursor and the tracker are well formed, and every column of the
    /// text can be counted.
    pub open spec fn well_formed(&self) -> bool {
        &&& self.consistent()
        &&& self.cursor().well_formed(self.text())
        &&& self.tracker().well_formed(self.text())
        &&& 8 * self.text().len() <= usize::MAX
    }

    /// The parser has the same grammar and text as `other`.
    pub open spec fn same_task(&self, other: &Self) -> bool {
        &&& self.rules() == other.rules()
        &&& self.start_rule() == other.start_rule()
        &&& self.text() == other.text()
    }

    /// The parser has returned `r` from a step whose outcome is `o`.
    pub open spec fn reached(&self, r: Result<Option<ASTNode>, ParseAbort>, o: Outcome) -> bool {
        &&& step_view(r) == o.result
        &&& r is Ok ==> self.cursor() == o.cursor && self.tracker() == o.tracker
    }

    /// A parser for `input` under `grammar`, at the start of the text.
    pub fn new(grammar: &'a InputGrammar, input: &str) -> (parser: Self)
        requires
            8 * input@.len() <= usize::MAX,
        ensures
            parser.well_formed(),
            parser.rules() == grammar@.rules,
            parser.start_rule() == grammar@.start_rule,
            parser.text() == input@,
            parser.cursor() == Cursor::initial(),
            parser.tracker() == Tracker::initial(),
    {
        let parser = Parser {
            grammar,
            source: input.to_owned(),
            ascii: input.is_ascii(),
            regex_cache: Vec::new(),
            input: to_chars(input),
            state: CursorState::new(),
            furthest_pos: 0,
            furthest_expected: Vec::new(),
            furthest_rule: String::new(),
        };
        assert(parser.tracker().expected =~= Seq::empty());
        parser
    }

    /// The index of the next character.
    pub fn position(&self) -> (pos: usize)
        ensures
            pos == self.cursor().pos,
    {
        self.state.pos
    }

    /// The indentation of the enclosing blocks, outermost first.
    pub fn indent_stack(&self) -> (stack: Vec<usize>)
        ensures
            stack_view(&stack) == self.cursor().indent_stack,
    {
        self.state.snapshot().indent_stack
    }

    /// How many more blocks the current line closes.
    pub fn pending_dedents(&self) -> (pending: usize)
        ensures
            pending == self.cursor().pending_dedents,
    {
        self.state.pending_dedents
    }

    /// The furthest position at which a terminal has failed so far.
    pub fn furthest_position(&self) -> (pos: usize)
        ensures
            pos == self.tracker().pos,
    {
        self.furthest_pos
    }

    /// Parses the text from the cursor on.
    pub fn parse(&mut self) -> (r: Result<ASTNode, ParseFailure>)
        requires
            old(self).well_formed(),
        ensures
            final(self).well_formed(),
            final(self).same_task(old(self)),
            parse_view(r) == parse_from(
                old(self).rules(),
                old(self).start_rule(),
                old(self).text(),
                old(self).cursor(),
                old(self).tracker(),
                MAX_DEPTH as nat,
            ),
            r matches Ok(tree) ==> tree@.well_formed() && tree@.name == old(self).start_rule(),
    {
        proof {
            crate::parse_laws::lemma_tree_well_formed(
                self.rules(),
                self.start_rule(),
                self.text(),
                self.cursor(),
                self.tracker(),
                MAX_DEPTH as nat,
            );
        }
        self.update_line_indent();
        let grammar: &'a InputGrammar = self.grammar;
        let result = self.parse_rule(&grammar.start_rule, MAX_DEPTH);
        match result {
            Ok(Some(tree)) => {
                let end = skip_inline(&self.input, self.state.pos);
                if end < self.input.len() {
                    self.record_error(end, "end of input".to_owned(), &grammar.start_rule);
                    Err(ParseFailure::Syntax(self.build_error()))
                } else {
                    Ok(tree)
                }
            },
            Ok(None) => Err(ParseFailure::Syntax(self.build_error())),
            Err(ParseAbort::BadPattern(pattern)) => Err(ParseFailure::BadPattern(pattern)),
            Err(ParseAbort::TooDeep) => Err(ParseFailure::TooDeep),
        }
    }

    /// Measures the indentation of the line at the cursor, if the cursor is
    /// at the start of a line.
    fn update_line_indent(&mut self)
        requires
            old(self).well_formed(),
        ensures
            final(self).well_formed(),
            final(self).same_task(old(self)),
            final(self).cursor() == old(self).cursor().with_line_indent(old(self).text()),
            final(self).tracker() == old(self).tracker(),
    {
        if self.state.at_line_start {
            self.state.current_line_indent = measure_indent(&self.input, self.state.pos);
        }
    }

    /// Notes that a terminal failed at `pos`, where `expected` would have
    /// been accepted, while `rule` was being parsed.
    fn record_error(&mut self, pos: usize, expected: String, rule: &String)
        requires
            old(self).well_formed(),
            pos <= old(self).text().len(),
        ensures
            final(self).well_formed(),
            final(self).same_task(old(self)),
            final(self).cursor() == old(self).cursor(),
            final(self).tracker() == record(old(self).tracker(), pos as int, expected@, rule@),
    {
        if pos > self.furthest_pos {
            self.furthest_pos = pos;
            let mut list: Vec<String> = Vec::new();
            list.push(expected);
            self.furthest_expected = list;
            self.furthest_rule = rule.clone();
            assert(self.tracker().expected =~= seq![expected@]);
        } else if pos == self.furthest_pos {
            if !contains_string(&self.furthest_expected, &expected) {
                let ghost before = strings_view(&self.furthest_expected);
                self.furthest_expected.push(expected);
                assert(self.tracker().expected =~= before.push(expected@));
            }
        }
    }

    /// The report of the furthest failure.
    fn build_error(&self) -> (e: ParseError)
        requires
            self.well_formed(),
        ensures
            e@ == report(self.text(), self.tracker()),
    {
        let (line, column) = pos_to_line_col(&self.input, self.furthest_pos);
        ParseError {
            position: self.furthest_pos,
            line,
            column,
            expected: copy_strings(&self.furthest_expected),
            found: get_found_text(&self.input, self.furthest_pos),
            context_rule: self.furthest_rule.clone(),
            source_line: get_source_line(&self.input, self.furthest_pos),
        }
    }

    /// Tries the rule `name` at the cursor.
    pub fn parse_rule(&mut self, name: &String, depth: usize) -> (r: Result<
        Option<ASTNode>,
        ParseAbort,
    >)
        requires
            old(self).well_formed(),
        ensures
            final(self).well_formed(),
            final(self).same_task(old(self)),
            final(self).reached(
                r,
                step_rule(
                    old(self).rules(),
                    old(self).text(),
                    name@,
                    old(self).cursor(),
                    old(self).tracker(),
                    depth as nat,
                ),
            ),
            r matches Ok(Some(node)) ==> node@.name == name@,
            r matches Ok(None) ==> final(self).cursor() == old(self).cursor(),
            r matches Ok(Some(_)) ==> final(self).cursor().pos >= old(self).cursor().pos,
        decreases depth, 0nat,
    {
        if depth == 0 {
            return Err(ParseAbort::TooDeep);
        }
        let grammar: &'a InputGrammar = self.grammar;
        let rule = match grammar.get(name.as_str()) {
            Some(rule) => rule,
            None => {
                return Ok(None);
            },
        };
        let start = self.state.pos;
        let mut node = match self.parse_expr(&rule.expr, name, depth - 1) {
            Ok(Some(node)) => node,
            Ok(None) => {
                return Ok(None);
            },
            Err(abort) => {
                return Err(abort);
            },
        };
        proof {
            lemma_node_view(&node);
        }
        let ghost body = node@;
        if node.children.len() == 0 && node.value.as_str().is_empty() {
            let from = skip_inline(&self.input, start);
            if from <= self.state.pos {
                node.value = substring(&self.input, from, self.state.pos);
            }
        }
        node.name = name.clone();
        proof {
            lemma_node_view(&node);
            lemma_inline_end(self.text(), start as int);
            assert(node@.name == name@);
            assert(node@.children == body.children);
            assert(node@.value == finish_rule(
                body,
                name@,
                captured_text(self.text(), start as int, self.cursor().pos),
            ).value);
            assert(node@ == finish_rule(
                body,
                name@,
                captured_text(self.text(), start as int, self.cursor().pos),
            ));
        }
        Ok(Some(node))
    }

    /// Tries `expr`, an expression of the rule `rule`, at the cursor.
    pub fn parse_expr(&mut self, expr: &GrammarExpr, rule: &String, depth: usize) -> (r: Result<
        Option<ASTNode>,
        ParseAbort,
    >)
        requires
            old(self).well_formed(),
        ensures
            final(self).well_formed(),
            final(self).same_task(old(self)),
            final(self).reached(
                r,
                step(
                    old(self).rules(),
                    old(self).text(),
                    expr@,
                    rule@,
                    old(self).cursor(),
                    old(self).tracker(),
                    depth as nat,
                ),
            ),
            r matches Ok(None) ==> final(self).cursor() == old(self).cursor(),
            r matches Ok(Some(_)) ==> final(self).cursor().pos >= old(self).cursor().pos,
        decreases depth, 0nat,
    {
        if depth == 0 {
            return Err(ParseAbort::TooDeep);
        }
        match expr {
            GrammarExpr::Literal(lit) => self.parse_literal(lit, rule),
            GrammarExpr::Pattern(pattern) => self.parse_pattern(pattern, rule),
            GrammarExpr::RuleRef(name) => self.parse_rule(name, depth - 1),
            GrammarExpr::Sequence(items) => {
                proof {
                    lemma_input_sequence_view(items);
                }
                self.parse_sequence(items, rule, depth - 1)
            },
            GrammarExpr::Choice(choices) => {
                proof {
                    lemma_input_sequence_view(choices);
                }
                self.parse_choice(choices, rule, depth - 1)
            },
            GrammarExpr::ZeroOrMore(inner) => self.parse_zero_or_more(inner, rule, depth - 1),
            GrammarExpr::OneOrMore(inner) => self.parse_one_or_more(inner, rule, depth - 1),
            GrammarExpr::Optional(inner) => self.parse_optional(inner, rule, depth - 1),
            GrammarExpr::Group(inner) => {
                match self.parse_expr(inner, rule, depth - 1) {
                    Ok(Some(result)) => {
                        let mut group = ASTNode::new("_group");
                        group.take_children_of(result);
                        Ok(Some(group))
                    },
                    Ok(None) => Ok(None),
                    Err(abort) => Err(abort),
                }
            },
            GrammarExpr::Indent => self.parse_indent(rule),
            GrammarExpr::Dedent => self.parse_dedent(rule),
            GrammarExpr::Newline => self.parse_newline(rule),
            GrammarExpr::SameIndent => self.parse_same_indent(rule),
        }
    }

    /// Tries the start of a block at the cursor.
    fn parse_indent(&mut self, rule: &String) -> (r: Result<Option<ASTNode>, ParseAbort>)
        requires
            old(self).well_formed(),
        ensures
            final(self).well_formed(),
            final(self).same_task(old(self)),
            final(self).reached(
                r,
                step_indent(old(self).text(), rule@, old(self).cursor(), old(self).tracker()),
            ),
            r matches Ok(None) ==> final(self).cursor() == old(self).cursor(),
            r matches Ok(Some(_)) ==> final(self).cursor().pos >= old(self).cursor().pos,
    {
        let top = self.top_indent();
        if self.state.pending_dedents == 0 && self.state.current_line_indent > top {
            let ghost before = stack_view(&self.state.indent_stack);
            self.state.indent_stack.push(self.state.current_line_indent);
            self.state.pos = skip_inline(&self.input, self.state.pos);
            self.state.at_line_start = false;
            proof {
                assert(stack_view(&self.state.indent_stack) =~= before.push(
                    self.state.current_line_indent as int,
                ));
            }
            proof {
                reveal_strlit("");
                assert(""@ =~= Seq::<char>::empty());
            }
            Ok(Some(ASTNode::with_value("_indent", "")))
        } else {
            self.record_error(self.state.pos, "INDENT".to_owned(), rule);
            Ok(None)
        }
    }

    /// The indentation of the innermost block.
    fn top_indent(&self) -> (top: usize)
        requires
            self.well_formed(),
        ensures
            top == crate::parse_model::top_indent(self.cursor().indent_stack),
    {
        let n = self.state.indent_stack.len();
        if n > 0 {
            self.state.indent_stack[n - 1]
        } else {
            0
        }
    }

    /// Tries the end of a block at the cursor.
    fn parse_dedent(&mut self, rule: &String) -> (r: Result<Option<ASTNode>, ParseAbort>)
        requires
            old(self).well_formed(),
        ensures
            final(self).well_formed(),
            final(self).same_task(old(self)),
            final(self).reached(
                r,
                step_dedent(rule@, old(self).cursor(), old(self).tracker()),
            ),
            r matches Ok(None) ==> final(self).cursor() == old(self).cursor(),
            r matches Ok(Some(_)) ==> final(self).cursor().pos >= old(self).cursor().pos,
    {
        let ghost before = stack_view(&self.state.indent_stack);
        if self.state.pending_dedents > 0 {
            self.state.pending_dedents -= 1;
            self.state.indent_stack.pop();
            proof {
                assert(stack_view(&self.state.indent_stack) =~= before.drop_last());
            }
            proof {
                reveal_strlit("");
                assert(""@ =~= Seq::<char>::empty());
            }
            return Ok(Some(ASTNode::with_value("_dedent", "")));
        }
        let top = self.top_indent();
        if self.state.current_line_indent < top {
            self.state.indent_stack.pop();
            proof {
                assert(stack_view(&self.state.indent_stack) =~= before.drop_last());
                lemma_extra_dedents(before.drop_last(), self.state.current_line_indent as int);
            }
            self.state.pending_dedents = count_extra_dedents(
                &self.state.indent_stack,
                self.state.current_line_indent,
            );
            proof {
                reveal_strlit("");
                assert(""@ =~= Seq::<char>::empty());
            }
            Ok(Some(ASTNode::with_value("_dedent", "")))
        } else {
            self.record_error(self.state.pos, "DEDENT".to_owned(), rule);
            Ok(None)
        }
    }

    /// Tries the end of a line at the cursor.
    fn parse_newline(&mut self, rule: &String) -> (r: Result<Option<ASTNode>, ParseAbort>)
        requires
            old(self).well_formed(),
        ensures
            final(self).well_formed(),
            final(self).same_task(old(self)),
            final(self).reached(
                r,
                step_newline(old(self).text(), rule@, old(self).cursor(), old(self).tracker()),
            ),
            r matches Ok(None) ==> final(self).cursor() == old(self).cursor(),
            r matches Ok(Some(_)) ==> final(self).cursor().pos >= old(self).cursor().pos,
    {
        let p = skip_inline(&self.input, self.state.pos);
        if p < self.input.len() && self.input[p] == '\n' {
            let start = skip_blank_lines(&self.input, p + 1);
            self.state.pos = start;
            self.state.at_line_start = true;
            self.state.current_line_indent = measure_indent(&self.input, start);
            proof {
                reveal_strlit("\n");
                assert("\n"@ =~= seq!['\n']);
            }
            Ok(Some(ASTNode::with_value("_newline", "\n")))
        } else {
            self.record_error(p, "NEWLINE".to_owned(), rule);
            Ok(None)
        }
    }

    /// Tries a line of the enclosing block at the cursor.
    fn parse_same_indent(&mut self, rule: &String) -> (r: Result<Option<ASTNode>, ParseAbort>)
        requires
            old(self).well_formed(),
        ensures
            final(self).well_formed(),
            final(self).same_task(old(self)),
            final(self).reached(
                r,
                step_same_indent(
                    old(self).text(),
                    rule@,
                    old(self).cursor(),
                    old(self).tracker(),
                ),
            ),
            r matches Ok(None) ==> final(self).cursor() == old(self).cursor(),
            r matches Ok(Some(_)) ==> final(self).cursor().pos >= old(self).cursor().pos,
    {
        let top = self.top_indent();
        if self.state.current_line_indent == top {
            self.state.pos = skip_inline(&self.input, self.state.pos);
            self.state.at_line_start = false;
            proof {
                reveal_strlit("");
                assert(""@ =~= Seq::<char>::empty());
            }
            Ok(Some(ASTNode::with_value("_same_indent", "")))
        } else {
            self.record_error(self.state.pos, "SAME_INDENT".to_owned(), rule);
            Ok(None)
        }
    }

    /// Tries the literal `lit` at the cursor.
    fn parse_literal(&mut self, lit: &String, rule: &String) -> (r: Result<
        Option<ASTNode>,
        ParseAbort,
    >)
        requires
            old(self).well_formed(),
        ensures
            final(self).well_formed(),
            final(self).same_task(old(self)),
            final(self).reached(
                r,
                step_literal(
                    old(self).text(),
                    lit@,
                    rule@,
                    old(self).cursor(),
                    old(self).tracker(),
                ),
            ),
            r matches Ok(None) ==> final(self).cursor() == old(self).cursor(),
            r matches Ok(Some(_)) ==> final(self).cursor().pos >= old(self).cursor().pos,
    {
        let p = skip_inline(&self.input, self.state.pos);
        let word = to_chars(lit.as_str());
        if starts_with_at(&self.input, p, &word) {
            self.state.pos = p + word.len();
            self.state.at_line_start = false;
            Ok(Some(ASTNode::with_value("_literal", lit.as_str())))
        } else {
            let mut expected = String::new();
            expected.push('"');
            expected.append(lit.as_str());
            expected.push('"');
            assert(expected@ =~= expected_literal(lit@));
            self.record_error(p, expected, rule);
            Ok(None)
        }
    }

    /// Tries the pattern `pattern` at the cursor.
    fn parse_pattern(&mut self, pattern: &String, rule: &String) -> (r: Result<
        Option<ASTNode>,
        ParseAbort,
    >)
        requires
            old(self).well_formed(),
        ensures
            final(self).well_formed(),
            final(self).same_task(old(self)),
            final(self).reached(
                r,
                step_pattern(
                    old(self).text(),
                    pattern@,
                    rule@,
                    old(self).cursor(),
                    old(self).tracker(),
                ),
            ),
            r matches Ok(None) ==> final(self).cursor() == old(self).cursor(),
            r matches Ok(Some(_)) ==> final(self).cursor().pos >= old(self).cursor().pos,
    {
        let p = skip_inline(&self.input, self.state.pos);
        let mut regex = String::new();
        regex.push('^');
        regex.append(pattern.as_str());
        assert(regex@ =~= anchored_pattern(pattern@));
        let found = self.try_pattern(&regex, p);
        self.apply_probe(pattern, rule, p, found)
    }

    /// The place in the cache of the compiled form of `regex`, which is
    /// compiled and kept if it is not there yet; nothing if it does not
    /// compile.
    fn cached(&mut self, regex: &String) -> (place: Option<usize>)
        requires
            old(self).well_formed(),
        ensures
            final(self).well_formed(),
            final(self).same_task(old(self)),
            final(self).cursor() == old(self).cursor(),
            final(self).tracker() == old(self).tracker(),
            match place {
                Some(i) => i < final(self).regex_cache.len() && final(self).regex_cache[i as int]@
                    == regex@ && pattern_is_valid(regex@),
                None => !pattern_is_valid(regex@),
            },
    {
        let mut i: usize = 0;
        while i < self.regex_cache.len()
            invariant
                i <= self.regex_cache.len(),
                self.well_formed(),
                self.same_task(old(self)),
                self.cursor() == old(self).cursor(),
                self.tracker() == old(self).tracker(),
            decreases self.regex_cache.len() - i,
        {
            if self.regex_cache[i].is_for(regex) {
                return Some(i);
            }
            i += 1;
        }
        match compile(regex.as_str()) {
            Ok(compiled) => {
                self.regex_cache.push(compiled);
                Some(self.regex_cache.len() - 1)
            },
            Err(_) => None,
        }
    }

    /// Tries the regular expression `regex` on the text from `p` on.
    fn try_pattern(&mut self, regex: &String, p: usize) -> (found: Probe)
        requires
            old(self).well_formed(),
            p <= old(self).text().len(),
        ensures
            final(self).well_formed(),
            final(self).same_task(old(self)),
            final(self).cursor() == old(self).cursor(),
            final(self).tracker() == old(self).tracker(),
            found@ == probe_of(regex@, old(self).text().skip(p as int)),
    {
        let place = match self.cached(regex) {
            Some(place) => place,
            None => {
                return Probe::Invalid;
            },
        };
        if self.ascii {
            let rest = self.source.as_str().substring_ascii(p, self.input.len());
            assert(rest@ =~= self.text().skip(p as int));
            probe(&self.regex_cache[place], rest)
        } else {
            let rest = substring(&self.input, p, self.input.len());
            assert(rest@ =~= self.text().skip(p as int));
            probe(&self.regex_cache[place], rest.as_str())
        }
    }

    /// Finishes a pattern step for which the regular expression has been
    /// tried on the text from `p` on and has given `found`.
    pub fn apply_probe(&mut self, pattern: &String, rule: &String, p: usize, found: Probe) -> (r:
        Result<Option<ASTNode>, ParseAbort>)
        requires
            old(self).well_formed(),
            old(self).cursor().pos <= p <= old(self).text().len(),
        ensures
            final(self).well_formed(),
            final(self).same_task(old(self)),
            final(self).reached(
                r,
                pattern_outcome(
                    old(self).text(),
                    pattern@,
                    rule@,
                    old(self).cursor(),
                    old(self).tracker(),
                    p as int,
                    found@,
                ),
            ),
            r matches Ok(None) ==> final(self).cursor() == old(self).cursor(),
            r matches Ok(Some(_)) ==> final(self).cursor().pos >= old(self).cursor().pos,
    {
        if let Probe::Invalid = found {
            return Err(ParseAbort::BadPattern(pattern.clone()));
        }
        if let Some(matched) = anchored(found) {
            let word = to_chars(matched.as_str());
            if starts_with_at(&self.input, p, &word) {
                self.state.pos = p + word.len();
                self.state.at_line_start = false;
                return Ok(Some(ASTNode::with_value("_pattern", matched.as_str())));
            }
        }
        let mut expected = "pattern /".to_owned();
        expected.append(pattern.as_str());
        expected.push('/');
        assert(expected@ =~= expected_pattern(pattern@));
        self.record_error(p, expected, rule);
        Ok(None)
    }

    /// Tries the items of a sequence one after the other.
    fn parse_sequence(&mut self, items: &Vec<GrammarExpr>, rule: &String, depth: usize) -> (r:
        Result<Option<ASTNode>, ParseAbort>)
        requires
            old(self).well_formed(),
        ensures
            final(self).well_formed(),
            final(self).same_task(old(self)),
            final(self).reached(
                r,
                step_items(
                    old(self).rules(),
                    old(self).text(),
                    input_exprs_view(items),
                    rule@,
                    NodeView::leaf(rule@, Seq::empty()),
                    old(self).cursor(),
                    old(self).cursor(),
                    old(self).tracker(),
                    depth as nat,
                ),
            ),
            r matches Ok(None) ==> final(self).cursor() == old(self).cursor(),
            r matches Ok(Some(_)) ==> final(self).cursor().pos >= old(self).cursor().pos,
        decreases depth, 1nat,
    {
        let saved = self.state.snapshot();
        let mut node = ASTNode::new(rule.as_str());
        let ghost all = input_exprs_view(items);
        let ghost rules = self.rules();
        let ghost text = self.text();
        let ghost start = self.cursor();
        let ghost first = self.tracker();
        let mut i: usize = 0;
        proof {
            assert(all.skip(0) =~= all);
        }
        while i < items.len()
            invariant
                i <= items.len(),
                self.well_formed(),
                self.same_task(old(self)),
                rules == old(self).rules(),
                text == old(self).text(),
                start == old(self).cursor(),
                first == old(self).tracker(),
                start.well_formed(text),
                saved@ == start,
                all == input_exprs_view(items),
                self.cursor().pos >= start.pos,
                step_items(
                    rules,
                    text,
                    all,
                    rule@,
                    NodeView::leaf(rule@, Seq::empty()),
                    start,
                    start,
                    first,
                    depth as nat,
                ) == step_items(
                    rules,
                    text,
                    all.skip(i as int),
                    rule@,
                    node@,
                    start,
                    self.cursor(),
                    self.tracker(),
                    depth as nat,
                ),
            decreases items.len() - i,
        {
            proof {
                assert(all.skip(i as int)[0] == items[i as int]@);
                assert(all.skip(i as int).drop_first() =~= all.skip(i + 1));
            }
            match self.parse_expr(&items[i], rule, depth) {
                Ok(Some(child)) => {
                    take_up(&mut node, child);
                },
                Ok(None) => {
                    self.state = saved;
                    return Ok(None);
                },
                Err(abort) => {
                    return Err(abort);
                },
            }
            i += 1;
        }
        Ok(Some(node))
    }

    /// Tries the alternatives of a choice in their order.
    fn parse_choice(&mut self, choices: &Vec<GrammarExpr>, rule: &String, depth: usize) -> (r:
        Result<Option<ASTNode>, ParseAbort>)
        requires
            old(self).well_formed(),
        ensures
            final(self).well_formed(),
            final(self).same_task(old(self)),
            final(self).reached(
                r,
                step_choice(
                    old(self).rules(),
                    old(self).text(),
                    input_exprs_view(choices),
                    rule@,
                    old(self).cursor(),
                    old(self).tracker(),
                    depth as nat,
                ),
            ),
            r matches Ok(None) ==> final(self).cursor() == old(self).cursor(),
            r matches Ok(Some(_)) ==> final(self).cursor().pos >= old(self).cursor().pos,
        decreases depth, 1nat,
    {
        let ghost all = input_exprs_view(choices);
        let ghost rules = self.rules();
        let ghost text = self.text();
        let ghost start = self.cursor();
        let ghost first = self.tracker();
        let mut i: usize = 0;
        proof {
            assert(all.skip(0) =~= all);
        }
        while i < choices.len()
            invariant
                i <= choices.len(),
                self.well_formed(),
                self.same_task(old(self)),
                rules == old(self).rules(),
                text == old(self).text(),
                start == old(self).cursor(),
                first == old(self).tracker(),
                self.cursor() == start,
                all == input_exprs_view(choices),
                step_choice(rules, text, all, rule@, start, first, depth as nat) == step_choice(
                    rules,
                    text,
                    all.skip(i as int),
                    rule@,
                    start,
                    self.tracker(),
                    depth as nat,
                ),
            decreases choices.len() - i,
        {
            proof {
                assert(all.skip(i as int)[0] == choices[i as int]@);
                assert(all.skip(i as int).drop_first() =~= all.skip(i + 1));
            }
            match self.parse_expr(&choices[i], rule, depth) {
                Ok(Some(child)) => {
                    proof {
                        lemma_node_view(&child);
                    }
                    if child.name == *rule {
                        return Ok(Some(child));
                    }
                    let mut node = ASTNode::new(rule.as_str());
                    take_up(&mut node, child);
                    return Ok(Some(node));
                },
                Ok(None) => {},
                Err(abort) => {
                    return Err(abort);
                },
            }
            i += 1;
        }
        Ok(None)
    }

    /// Repeats `inner` from the cursor on; `seed` holds what earlier rounds
    /// gave.
    fn repeat_from(&mut self, inner: &GrammarExpr, rule: &String, seed: ASTNode, depth: usize)
        -> (r: Result<Option<ASTNode>, ParseAbort>)
        requires
            old(self).well_formed(),
        ensures
            final(self).well_formed(),
            final(self).same_task(old(self)),
            final(self).reached(
                r,
                step_repeat(
                    old(self).rules(),
                    old(self).text(),
                    inner@,
                    rule@,
                    seed@,
                    old(self).cursor(),
                    old(self).tracker(),
                    depth as nat,
                ),
            ),
            !(r matches Ok(None)),
            r matches Ok(Some(_)) ==> final(self).cursor().pos >= old(self).cursor().pos,
        decreases depth, 1nat,
    {
        let mut node = seed;
        let ghost rules = self.rules();
        let ghost text = self.text();
        let ghost start = self.cursor();
        let ghost first = self.tracker();
        let ghost origin = node@;
        loop
            invariant
                self.well_formed(),
                self.same_task(old(self)),
                rules == old(self).rules(),
                text == old(self).text(),
                start == old(self).cursor(),
                first == old(self).tracker(),
                origin == seed@,
                self.cursor().pos >= start.pos,
                step_repeat(rules, text, inner@, rule@, origin, start, first, depth as nat)
                    == step_repeat(
                    rules,
                    text,
                    inner@,
                    rule@,
                    node@,
                    self.cursor(),
                    self.tracker(),
                    depth as nat,
                ),
            decreases text.len() - self.cursor().pos,
        {
            let before = self.state.pos;
            match self.parse_expr(inner, rule, depth) {
                Ok(Some(child)) => {
                    take_up(&mut node, child);
                    if self.state.pos <= before {
                        return Ok(Some(node));
                    }
                },
                Ok(None) => {
                    return Ok(Some(node));
                },
                Err(abort) => {
                    return Err(abort);
                },
            }
        }
    }

    /// Repeats `inner` as often as it matches.
    fn parse_zero_or_more(&mut self, inner: &GrammarExpr, rule: &String, depth: usize) -> (r:
        Result<Option<ASTNode>, ParseAbort>)
        requires
            old(self).well_formed(),
        ensures
            final(self).well_formed(),
            final(self).same_task(old(self)),
            final(self).reached(
                r,
                step_repeat(
                    old(self).rules(),
                    old(self).text(),
                    inner@,
                    rule@,
                    NodeView::leaf("_repeat"@, Seq::empty()),
                    old(self).cursor(),
                    old(self).tracker(),
                    depth as nat,
                ),
            ),
            r matches Ok(None) ==> final(self).cursor() == old(self).cursor(),
            r matches Ok(Some(_)) ==> final(self).cursor().pos >= old(self).cursor().pos,
        decreases depth, 2nat,
    {
        let node = ASTNode::new("_repeat");
        self.repeat_from(inner, rule, node, depth)
    }

    /// Repeats `inner` as often as it matches, which must be once at least.
    fn parse_one_or_more(&mut self, inner: &GrammarExpr, rule: &String, depth: usize) -> (r:
        Result<Option<ASTNode>, ParseAbort>)
        requires
            old(self).well_formed(),
        ensures
            final(self).well_formed(),
            final(self).same_task(old(self)),
            final(self).reached(
                r,
                step(
                    old(self).rules(),
                    old(self).text(),
                    GrammarExprView::OneOrMore(Box::new(inner@)),
                    rule@,
                    old(self).cursor(),
                    old(self).tracker(),
                    (depth + 1) as nat,
                ),
            ),
            r matches Ok(None) ==> final(self).cursor() == old(self).cursor(),
            r matches Ok(Some(_)) ==> final(self).cursor().pos >= old(self).cursor().pos,
        decreases depth, 2nat,
    {
        let before = self.state.pos;
        let first = match self.parse_expr(inner, rule, depth) {
            Ok(Some(first)) => first,
            Ok(None) => {
                return Ok(None);
            },
            Err(abort) => {
                return Err(abort);
            },
        };
        let mut node = ASTNode::new("_repeat");
        take_up(&mut node, first);
        if self.state.pos > before {
            self.repeat_from(inner, rule, node, depth)
        } else {
            Ok(Some(node))
        }
    }

    /// Tries `inner`; if it fails, matches nothing.
    fn parse_optional(&mut self, inner: &GrammarExpr, rule: &String, depth: usize) -> (r: Result<
        Option<ASTNode>,
        ParseAbort,
    >)
        requires
            old(self).well_formed(),
        ensures
            final(self).well_formed(),
            final(self).same_task(old(self)),
            final(self).reached(
                r,
                step(
                    old(self).rules(),
                    old(self).text(),
                    GrammarExprView::Optional(Box::new(inner@)),
                    rule@,
                    old(self).cursor(),
                    old(self).tracker(),
                    (depth + 1) as nat,
                ),
            ),
            r matches Ok(None) ==> final(self).cursor() == old(self).cursor(),
            r matches Ok(Some(_)) ==> final(self).cursor().pos >= old(self).cursor().pos,
        decreases depth, 1nat,
    {
        match self.parse_expr(inner, rule, depth) {
            Ok(Some(child)) => Ok(Some(child)),
            Ok(None) => Ok(Some(ASTNode::new("_optional_empty"))),
            Err(abort) => Err(abort),
        }
    }
}

} // verus!
