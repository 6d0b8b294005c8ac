//! The two grammar notations and their compiled form.
//!
//! A source grammar says how text is parsed into a tree; an output grammar
//! says how a tree is rendered as text. Both are lists of rules, looked up by
//! name.

use vstd::prelude::*;

verus! {

/// An expression of a source grammar.
#[derive(Debug)]
pub enum GrammarExpr {
    /// An exact string.
    Literal(String),
    /// A regular expression, matched at the cursor.
    Pattern(String),
    /// Another rule, by name.
    RuleRef(String),
    /// All of the items, one after the other.
    Sequence(Vec<GrammarExpr>),
    /// The first alternative that matches.
    Choice(Vec<GrammarExpr>),
    /// As many repetitions as match, possibly none.
    ZeroOrMore(Box<GrammarExpr>),
    /// As many repetitions as match, at least one.
    OneOrMore(Box<GrammarExpr>),
    /// The expression, or nothing.
    Optional(Box<GrammarExpr>),
    /// A parenthesised expression; its children join those of its parent.
    Group(Box<GrammarExpr>),
    /// The line is indented deeper than the enclosing block.
    Indent,
    /// The line is indented less than the enclosing block.
    Dedent,
    /// The end of a line, with any blank lines after it.
    Newline,
    /// The line is indented exactly as the enclosing block.
    SameIndent,
}

/// An expression of an output grammar.
#[derive(Debug)]
pub enum OutputExpr {
    /// Text to emit, with `\n`, `\t`, `\r` escapes.
    Literal(String),
    /// The rendering of a child under the rule of that name.
    RuleRef(String),
    /// The renderings of the items, one after the other.
    Sequence(Vec<OutputExpr>),
    /// The rendering of the expression, unless it is blank.
    Optional(Box<OutputExpr>),
    /// The renderings of all children named `rule`, with `separator` between.
    Join { rule: String, separator: String },
    /// The replacement of the first case whose pattern is the node's text.
    Match { cases: Vec<(String, String)>, default: String },
    /// One of two renderings, by the rule that asked for this one.
    ContextIf { context_value: String, then_expr: Box<OutputExpr>, else_expr: Box<OutputExpr> },
    /// The first rendering that is not empty.
    Choice(Vec<OutputExpr>),
}

/// A rule of a source grammar.
#[derive(Debug)]
pub struct InputRule {
    pub name: String,
    pub expr: GrammarExpr,
}

/// A rule of an output grammar.
#[derive(Debug)]
pub struct OutputRule {
    pub name: String,
    pub expr: OutputExpr,
}

/// A compiled source grammar. The rule that a name stands for is the first
/// one of that name in `rules`.
#[derive(Debug)]
pub struct InputGrammar {
    pub rules: Vec<InputRule>,
    /// The name of the first rule of the grammar text.
    pub start_rule: String,
}

/// A compiled output grammar. The rule that a name stands for is the first
/// one of that name in `rules`.
#[derive(Debug)]
pub struct OutputGrammar {
    pub rules: Vec<OutputRule>,
}

/// What was wrong at the place where compiling a grammar stopped.
#[derive(Debug, Clone, Copy, PartialEq, Eq)]
pub enum GrammarErrorKind {
    /// The text ended where more was needed.
    UnexpectedEnd,
    /// Another character stood where `expected` was needed.
    ExpectedChar { expected: char, found: char },
    /// A bracketed pattern was not closed.
    UnclosedPattern,
    /// A rule did not begin with its name.
    ExpectedRuleName,
    /// `:=` was needed after a rule's name.
    ExpectedAssign,
    /// An expression was needed.
    ExpectedExpression,
    /// `join` followed something other than a rule's name.
    JoinWithoutRule,
    /// `@value` was needed after `match`.
    ExpectedValue,
    /// `=>` was needed in a case of a `match`.
    ExpectedArrow,
    /// `@context` was needed after `if`.
    ExpectedContext,
    /// `==` was needed after `@context`.
    ExpectedEquals,
    /// `then` was needed after the context's name.
    ExpectedThen,
    /// `else` was needed after the first branch.
    ExpectedElse,
}

/// Why a grammar text could not be compiled, and where.
#[derive(Debug, Clone, Copy, PartialEq, Eq)]
pub struct GrammarError {
    pub kind: GrammarErrorKind,
    /// The index of the offending character in the grammar text.
    pub position: usize,
}

/// A compiler for grammar texts: a cursor over the characters of one text.
pub struct MetaParser {
    pub(crate) input: Vec<char>,
    pub(crate) pos: usize,
}

/// The mathematical value of a [`GrammarExpr`].
pub enum GrammarExprView {
    Literal(Seq<char>),
    Pattern(Seq<char>),
    RuleRef(Seq<char>),
    Sequence(Seq<GrammarExprView>),
    Choice(Seq<GrammarExprView>),
    ZeroOrMore(Box<GrammarExprView>),
    OneOrMore(Box<GrammarExprView>),
    Optional(Box<GrammarExprView>),
    Group(Box<GrammarExprView>),
    Indent,
    Dedent,
    Newline,
    SameIndent,
}

/// The mathematical value of an [`OutputExpr`].
pub enum OutputExprView {
    Literal(Seq<char>),
    RuleRef(Seq<char>),
    Sequence(Seq<OutputExprView>),
    Optional(Box<OutputExprView>),
    Join { rule: Seq<char>, separator: Seq<char> },
    Match { cases: Seq<(Seq<char>, Seq<char>)>, default: Seq<char> },
    ContextIf {
        context_value: Seq<char>,
        then_expr: Box<OutputExprView>,
        else_expr: Box<OutputExprView>,
    },
    Choice(Seq<OutputExprView>),
}

/// The mathematical value of an [`InputRule`].
pub struct InputRuleView {
    pub name: Seq<char>,
    pub expr: GrammarExprView,
}

/// The mathematical value of an [`OutputRule`].
pub struct OutputRuleView {
    pub name: Seq<char>,
    pub expr: OutputExprView,
}

/// The mathematical value of an [`InputGrammar`].
pub struct InputGrammarView {
    pub rules: Seq<InputRuleView>,
    pub start_rule: Seq<char>,
}

/// The mathematical value of a list of source expressions.
pub open spec fn input_exprs_view(items: &Vec<GrammarExpr>) -> Seq<GrammarExprView> {
    Seq::new(items.len() as nat, |i: int| items[i]@)
}

/// The mathematical value of a list of output expressions.
pub open spec fn output_exprs_view(items: &Vec<OutputExpr>) -> Seq<OutputExprView> {
    Seq::new(items.len() as nat, |i: int| items[i]@)
}

/// The mathematical value of the cases of a `match`.
pub open spec fn cases_view(cases: &Vec<(String, String)>) -> Seq<(Seq<char>, Seq<char>)> {
    Seq::new(cases.len() as nat, |i: int| (cases[i].0@, cases[i].1@))
}

impl View for GrammarExpr {
    type V = GrammarExprView;

    open spec fn view(&self) -> GrammarExprView
        decreases self,
    {
        match self {
            GrammarExpr::Literal(s) => GrammarExprView::Literal(s@),
            GrammarExpr::Pattern(s) => GrammarExprView::Pattern(s@),
            GrammarExpr::RuleRef(s) => GrammarExprView::RuleRef(s@),
            GrammarExpr::Sequence(items) => GrammarExprView::Sequence(
                Seq::new(
                    items.len() as nat,
                    |i: int|
                        if 0 <= i < items.len() {
                            items[i]@
                        } else {
                            GrammarExprView::Indent
                        },
                ),
            ),
            GrammarExpr::Choice(items) => GrammarExprView::Choice(
                Seq::new(
                    items.len() as nat,
                    |i: int|
                        if 0 <= i < items.len() {
                            items[i]@
                        } else {
                            GrammarExprView::Indent
                        },
                ),
            ),
            GrammarExpr::ZeroOrMore(inner) => GrammarExprView::ZeroOrMore(Box::new((**inner)@)),
            GrammarExpr::OneOrMore(inner) => GrammarExprView::OneOrMore(Box::new((**inner)@)),
            GrammarExpr::Optional(inner) => GrammarExprView::Optional(Box::new((**inner)@)),
            GrammarExpr::Group(inner) => GrammarExprView::Group(Box::new((**inner)@)),
            GrammarExpr::Indent => GrammarExprView::Indent,
            GrammarExpr::Dedent => GrammarExprView::Dedent,
            GrammarExpr::Newline => GrammarExprView::Newline,
            GrammarExpr::SameIndent => GrammarExprView::SameIndent,
        }
    }
}

impl View for OutputExpr {
    type V = OutputExprView;

    open spec fn view(&self) -> OutputExprView
        decreases self,
    {
        match self {
            OutputExpr::Literal(s) => OutputExprView::Literal(s@),
            OutputExpr::RuleRef(s) => OutputExprView::RuleRef(s@),
            OutputExpr::Sequence(items) => OutputExprView::Sequence(
                Seq::new(
                    items.len() as nat,
                    |i: int|
                        if 0 <= i < items.len() {
                            items[i]@
                        } else {
                            OutputExprView::Literal(Seq::empty())
                        },
                ),
            ),
            OutputExpr::Optional(inner) => OutputExprView::Optional(Box::new((**inner)@)),
            OutputExpr::Join { rule, separator } => OutputExprView::Join {
                rule: rule@,
                separator: separator@,
            },
            OutputExpr::Match { cases, default } => OutputExprView::Match {
                cases: cases_view(cases),
                default: default@,
            },
            OutputExpr::ContextIf { context_value, then_expr, else_expr } => {
                OutputExprView::ContextIf {
                    context_value: context_value@,
                    then_expr: Box::new((**then_expr)@),
                    else_expr: Box::new((**else_expr)@),
                }
            },
            OutputExpr::Choice(items) => OutputExprView::Choice(
                Seq::new(
                    items.len() as nat,
                    |i: int|
                        if 0 <= i < items.len() {
                            items[i]@
                        } else {
                            OutputExprView::Literal(Seq::empty())
                        },
                ),
            ),
        }
    }
}

impl View for InputRule {
    type V = InputRuleView;

    open spec fn view(&self) -> InputRuleView {
        InputRuleView { name: self.name@, expr: self.expr@ }
    }
}

impl View for OutputRule {
    type V = OutputRuleView;

    open spec fn view(&self) -> OutputRuleView {
        OutputRuleView { name: self.name@, expr: self.expr@ }
    }
}

/// The mathematical value of a list of source rules.
pub open spec fn input_rules_view(rules: &Vec<InputRule>) -> Seq<InputRuleView> {
    Seq::new(rules.len() as nat, |i: int| rules[i]@)
}

/// The mathematical value of a list of output rules.
pub open spec fn output_rules_view(rules: &Vec<OutputRule>) -> Seq<OutputRuleView> {
    Seq::new(rules.len() as nat, |i: int| rules[i]@)
}

impl View for InputGrammar {
    type V = InputGrammarView;

    open spec fn view(&self) -> InputGrammarView {
        InputGrammarView { rules: input_rules_view(&self.rules), start_rule: self.start_rule@ }
    }
}

impl View for OutputGrammar {
    type V = Seq<OutputRuleView>;

    open spec fn view(&self) -> Seq<OutputRuleView> {
        output_rules_view(&self.rules)
    }
}

/// The value of a sequence or choice of source expressions is that of its
/// items.
pub proof fn lemma_input_sequence_view(items: &Vec<GrammarExpr>)
    ensures
        GrammarExpr::Sequence(*items)@ == GrammarExprView::Sequence(input_exprs_view(items)),
        GrammarExpr::Choice(*items)@ == GrammarExprView::Choice(input_exprs_view(items)),
{
    assert(GrammarExpr::Sequence(*items)@->Sequence_0 =~= input_exprs_view(items));
    assert(GrammarExpr::Choice(*items)@->Choice_0 =~= input_exprs_view(items));
}

/// The value of a sequence or choice of output expressions is that of its
/// items.
pub proof fn lemma_output_sequence_view(items: &Vec<OutputExpr>)
    ensures
        OutputExpr::Sequence(*items)@ == OutputExprView::Sequence(output_exprs_view(items)),
        OutputExpr::Choice(*items)@ == OutputExprView::Choice(output_exprs_view(items)),
{
    assert(OutputExpr::Sequence(*items)@->Sequence_0 =~= output_exprs_view(items));
    assert(OutputExpr::Choice(*items)@->Choice_0 =~= output_exprs_view(items));
}

/// The index of the first source rule named `name`, or `rules.len()`.
pub open spec fn input_rule_index(rules: Seq<InputRuleView>, name: Seq<char>) -> int
    decreases rules.len(),
{
    if rules.len() == 0 || rules[0].name == name {
        0
    } else {
        1 + input_rule_index(rules.drop_first(), name)
    }
}

/// The index of the first output rule named `name`, or `rules.len()`.
pub open spec fn output_rule_index(rules: Seq<OutputRuleView>, name: Seq<char>) -> int
    decreases rules.len(),
{
    if rules.len() == 0 || rules[0].name == name {
        0
    } else {
        1 + output_rule_index(rules.drop_first(), name)
    }
}

/// The first source rule of a name is within the list, and no rule before
/// it has the name.
pub proof fn lemma_input_rule_index(rules: Seq<InputRuleView>, name: Seq<char>)
    ensures
        0 <= input_rule_index(rules, name) <= rules.len(),
        forall|i: int|
            0 <= i < input_rule_index(rules, name) ==> (#[trigger] rules[i]).name != name,
        input_rule_index(rules, name) < rules.len() ==> rules[input_rule_index(rules, name)].name
            == name,
    decreases rules.len(),
{
    if rules.len() == 0 || rules[0].name == name {
    } else {
        let rest = rules.drop_first();
        lemma_input_rule_index(rest, name);
        assert forall|i: int| 0 <= i < input_rule_index(rules, name) implies (
        #[trigger] rules[i]).name != name by {
            if i > 0 {
                assert(rules[i] == rest[i - 1]);
            }
        }
        if input_rule_index(rules, name) < rules.len() {
            assert(rules[input_rule_index(rules, name)] == rest[input_rule_index(rest, name)]);
        }
    }
}

/// The index of the first source rule of a name is known from the names
/// before and at it.
pub proof fn lemma_input_rule_index_unique(rules: Seq<InputRuleView>, name: Seq<char>, k: int)
    requires
        0 <= k <= rules.len(),
        forall|i: int| 0 <= i < k ==> (#[trigger] rules[i]).name != name,
        k < rules.len() ==> rules[k].name == name,
    ensures
        input_rule_index(rules, name) == k,
    decreases rules.len(),
{
    if rules.len() == 0 || rules[0].name == name {
        if k > 0 {
            assert(rules[0].name != name);
        }
    } else {
        let rest = rules.drop_first();
        assert forall|i: int| 0 <= i < k - 1 implies (#[trigger] rest[i]).name != name by {
            assert(rest[i] == rules[i + 1]);
        }
        if k - 1 < rest.len() {
            assert(rest[k - 1] == rules[k]);
        }
        lemma_input_rule_index_unique(rest, name, k - 1);
    }
}

/// The first output rule of a name is within the list, and no rule before
/// it has the name.
pub proof fn lemma_output_rule_index(rules: Seq<OutputRuleView>, name: Seq<char>)
    ensures
        0 <= output_rule_index(rules, name) <= rules.len(),
        forall|i: int|
            0 <= i < output_rule_index(rules, name) ==> (#[trigger] rules[i]).name != name,
        output_rule_index(rules, name) < rules.len() ==> rules[output_rule_index(
            rules,
            name,
        )].name == name,
    decreases rules.len(),
{
    if rules.len() == 0 || rules[0].name == name {
    } else {
        let rest = rules.drop_first();
        lemma_output_rule_index(rest, name);
        assert forall|i: int| 0 <= i < output_rule_index(rules, name) implies (
        #[trigger] rules[i]).name != name by {
            if i > 0 {
                assert(rules[i] == rest[i - 1]);
            }
        }
        if output_rule_index(rules, name) < rules.len() {
            assert(rules[output_rule_index(rules, name)] == rest[output_rule_index(rest, name)]);
        }
    }
}

/// The index of the first output rule of a name is known from the names
/// before and at it.
pub proof fn lemma_output_rule_index_unique(rules: Seq<OutputRuleView>, name: Seq<char>, k: int)
    requires
        0 <= k <= rules.len(),
        forall|i: int| 0 <= i < k ==> (#[trigger] rules[i]).name != name,
        k < rules.len() ==> rules[k].name == name,
    ensures
        output_rule_index(rules, name) == k,
    decreases rules.len(),
{
    if rules.len() == 0 || rules[0].name == name {
        if k > 0 {
            assert(rules[0].name != name);
        }
    } else {
        let rest = rules.drop_first();
        assert forall|i: int| 0 <= i < k - 1 implies (#[trigger] rest[i]).name != name by {
            assert(rest[i] == rules[i + 1]);
        }
        if k - 1 < rest.len() {
            assert(rest[k - 1] == rules[k]);
        }
        lemma_output_rule_index_unique(rest, name, k - 1);
    }
}

/// The expression that `name` stands for in a source grammar.
pub open spec fn find_input_rule(rules: Seq<InputRuleView>, name: Seq<char>) -> Option<
    GrammarExprView,
> {
    let k = input_rule_index(rules, name);
    if k < rules.len() {
        Some(rules[k].expr)
    } else {
        None
    }
}

/// The expression that `name` stands for in an output grammar.
pub open spec fn find_output_rule(rules: Seq<OutputRuleView>, name: Seq<char>) -> Option<
    OutputExprView,
> {
    let k = output_rule_index(rules, name);
    if k < rules.len() {
        Some(rules[k].expr)
    } else {
        None
    }
}

/// `rules` after `rule` has been defined: it takes the place of the rule of
/// the same name, or comes last if there is none.
pub open spec fn input_rules_with(rules: Seq<InputRuleView>, rule: InputRuleView) -> Seq<
    InputRuleView,
> {
    let k = input_rule_index(rules, rule.name);
    if k < rules.len() {
        rules.update(k, rule)
    } else {
        rules.push(rule)
    }
}

/// `rules` after `rule` has been defined: it takes the place of the rule of
/// the same name, or comes last if there is none.
pub open spec fn output_rules_with(rules: Seq<OutputRuleView>, rule: OutputRuleView) -> Seq<
    OutputRuleView,
> {
    let k = output_rule_index(rules, rule.name);
    if k < rules.len() {
        rules.update(k, rule)
    } else {
        rules.push(rule)
    }
}

/// The index of the first source rule named `name`, or `rules.len()`.
fn locate_input_rule(rules: &Vec<InputRule>, name: &String) -> (k: usize)
    ensures
        k == input_rule_index(input_rules_view(rules), name@),
        k <= rules.len(),
{
    let mut k: usize = 0;
    while k < rules.len()
        invariant
            k <= rules.len(),
            forall|i: int| 0 <= i < k ==> (#[trigger] input_rules_view(rules)[i]).name != name@,
        decreases rules.len() - k,
    {
        if rules[k].name == *name {
            proof {
                lemma_input_rule_index_unique(input_rules_view(rules), name@, k as int);
            }
            return k;
        }
        k += 1;
    }
    proof {
        lemma_input_rule_index_unique(input_rules_view(rules), name@, k as int);
    }
    k
}

/// The index of the first output rule named `name`, or `rules.len()`.
fn locate_output_rule(rules: &Vec<OutputRule>, name: &String) -> (k: usize)
    ensures
        k == output_rule_index(output_rules_view(rules), name@),
        k <= rules.len(),
{
    let mut k: usize = 0;
    while k < rules.len()
        invariant
            k <= rules.len(),
            forall|i: int| 0 <= i < k ==> (#[trigger] output_rules_view(rules)[i]).name != name@,
        decreases rules.len() - k,
    {
        if rules[k].name == *name {
            proof {
                lemma_output_rule_index_unique(output_rules_view(rules), name@, k as int);
            }
            return k;
        }
        k += 1;
    }
    proof {
        lemma_output_rule_index_unique(output_rules_view(rules), name@, k as int);
    }
    k
}

impl InputGrammar {
    /// A grammar without rules.
    pub fn new() -> (grammar: InputGrammar)
        ensures
            grammar@.rules == Seq::<InputRuleView>::empty(),
            grammar@.start_rule == Seq::<char>::empty(),
    {
        let grammar = InputGrammar { rules: Vec::new(), start_rule: String::new() };
        assert(grammar@.rules =~= Seq::empty());
        grammar
    }

    /// The rule that `name` stands for.
    pub fn get(&self, name: &str) -> (rule: Option<&InputRule>)
        ensures
            match rule {
                Some(r) => r@.name == name@ && find_input_rule(self@.rules, name@) == Some(
                    r@.expr,
                ),
                None => find_input_rule(self@.rules, name@) is None,
            },
    {
        let key = name.to_owned();
        let k = locate_input_rule(&self.rules, &key);
        proof {
            lemma_input_rule_index(self@.rules, name@);
        }
        if k < self.rules.len() {
            Some(&self.rules[k])
        } else {
            None
        }
    }

    /// Whether the grammar defines `name`.
    pub fn contains_key(&self, name: &str) -> (found: bool)
        ensures
            found == find_input_rule(self@.rules, name@).is_some(),
    {
        self.get(name).is_some()
    }

    /// Defines `rule`, in place of an earlier rule of the same name.
    pub fn insert(&mut self, rule: InputRule)
        ensures
            final(self)@.rules == input_rules_with(old(self)@.rules, rule@),
            final(self)@.start_rule == old(self)@.start_rule,
    {
        let k = locate_input_rule(&self.rules, &rule.name);
        if k < self.rules.len() {
            self.rules.set(k, rule);
        } else {
            self.rules.push(rule);
        }
        assert(final(self)@.rules =~= input_rules_with(old(self)@.rules, rule@));
    }
}

impl OutputGrammar {
    /// A grammar without rules.
    pub fn new() -> (grammar: OutputGrammar)
        ensures
            grammar@ == Seq::<OutputRuleView>::empty(),
    {
        let grammar = OutputGrammar { rules: Vec::new() };
        assert(grammar@ =~= Seq::empty());
        grammar
    }

    /// The rule that `name` stands for.
    pub fn get(&self, name: &String) -> (rule: Option<&OutputRule>)
        ensures
            match rule {
                Some(r) => r@.name == name@ && find_output_rule(self@, name@) == Some(r@.expr),
                None => find_output_rule(self@, name@) is None,
            },
    {
        let k = locate_output_rule(&self.rules, name);
        proof {
            lemma_output_rule_index(self@, name@);
        }
        if k < self.rules.len() {
            Some(&self.rules[k])
        } else {
            None
        }
    }

    /// Whether the grammar defines `name`.
    pub fn contains_key(&self, name: &str) -> (found: bool)
        ensures
            found == find_output_rule(self@, name@).is_some(),
    {
        let key = name.to_owned();
        self.get(&key).is_some()
    }

    /// Defines `rule`, in place of an earlier rule of the same name.
    pub fn insert(&mut self, rule: OutputRule)
        ensures
            final(self)@ == output_rules_with(old(self)@, rule@),
    {
        let k = locate_output_rule(&self.rules, &rule.name);
        if k < self.rules.len() {
            self.rules.set(k, rule);
        } else {
            self.rules.push(rule);
        }
        assert(final(self)@ =~= output_rules_with(old(self)@, rule@));
    }
}

/// A copy of a list of source expressions.
fn clone_input_exprs(items: &Vec<GrammarExpr>) -> (copy: Vec<GrammarExpr>)
    ensures
        input_exprs_view(&copy) == input_exprs_view(items),
    decreases items,
{
    let mut copy: Vec<GrammarExpr> = Vec::new();
    let mut i: usize = 0;
    while i < items.len()
        invariant
            i <= items.len(),
            copy.len() == i,
            forall|k: int| 0 <= k < i ==> copy[k]@ == items[k]@,
        decreases items.len() - i,
    {
        copy.push(items[i].clone());
        i += 1;
    }
    assert(input_exprs_view(&copy) =~= input_exprs_view(items));
    copy
}

impl Clone for GrammarExpr {
    /// A copy of the expression and of all expressions in it.
    fn clone(&self) -> (copy: Self)
        ensures
            copy@ == self@,
        decreases self,
    {
        match self {
            GrammarExpr::Literal(s) => GrammarExpr::Literal(s.clone()),
            GrammarExpr::Pattern(s) => GrammarExpr::Pattern(s.clone()),
            GrammarExpr::RuleRef(s) => GrammarExpr::RuleRef(s.clone()),
            GrammarExpr::Sequence(items) => {
                let copy = clone_input_exprs(items);
                proof {
                    lemma_input_sequence_view(items);
                    lemma_input_sequence_view(&copy);
                }
                GrammarExpr::Sequence(copy)
            },
            GrammarExpr::Choice(items) => {
                let copy = clone_input_exprs(items);
                proof {
                    lemma_input_sequence_view(items);
                    lemma_input_sequence_view(&copy);
                }
                GrammarExpr::Choice(copy)
            },
            GrammarExpr::ZeroOrMore(inner) => GrammarExpr::ZeroOrMore(Box::new((**inner).clone())),
            GrammarExpr::OneOrMore(inner) => GrammarExpr::OneOrMore(Box::new((**inner).clone())),
            GrammarExpr::Optional(inner) => GrammarExpr::Optional(Box::new((**inner).clone())),
            GrammarExpr::Group(inner) => GrammarExpr::Group(Box::new((**inner).clone())),
            GrammarExpr::Indent => GrammarExpr::Indent,
            GrammarExpr::Dedent => GrammarExpr::Dedent,
            GrammarExpr::Newline => GrammarExpr::Newline,
            GrammarExpr::SameIndent => GrammarExpr::SameIndent,
        }
    }
}

/// A copy of a list of output expressions.
fn clone_output_exprs(items: &Vec<OutputExpr>) -> (copy: Vec<OutputExpr>)
    ensures
        output_exprs_view(&copy) == output_exprs_view(items),
    decreases items,
{
    let mut copy: Vec<OutputExpr> = Vec::new();
    let mut i: usize = 0;
    while i < items.len()
        invariant
            i <= items.len(),
            copy.len() == i,
            forall|k: int| 0 <= k < i ==> copy[k]@ == items[k]@,
        decreases items.len() - i,
    {
        copy.push(items[i].clone());
        i += 1;
    }
    assert(output_exprs_view(&copy) =~= output_exprs_view(items));
    copy
}

/// A copy of the cases of a `match`.
fn clone_cases(cases: &Vec<(String, String)>) -> (copy: Vec<(String, String)>)
    ensures
        cases_view(&copy) == cases_view(cases),
{
    let mut copy: Vec<(String, String)> = Vec::new();
    let mut i: usize = 0;
    while i < cases.len()
        invariant
            i <= cases.len(),
            copy.len() == i,
            forall|k: int| 0 <= k < i ==> copy[k].0@ == cases[k].0@ && copy[k].1@ == cases[k].1@,
        decreases cases.len() - i,
    {
        copy.push((cases[i].0.clone(), cases[i].1.clone()));
        i += 1;
    }
    assert(cases_view(&copy) =~= cases_view(cases));
    copy
}

impl Clone for OutputExpr {
    /// A copy of the expression and of all expressions in it.
    fn clone(&self) -> (copy: Self)
        ensures
            copy@ == self@,
        decreases self,
    {
        match self {
            OutputExpr::Literal(s) => OutputExpr::Literal(s.clone()),
            OutputExpr::RuleRef(s) => OutputExpr::RuleRef(s.clone()),
            OutputExpr::Sequence(items) => {
                let copy = clone_output_exprs(items);
                proof {
                    lemma_output_sequence_view(items);
                    lemma_output_sequence_view(&copy);
                }
                OutputExpr::Sequence(copy)
            },
            OutputExpr::Optional(inner) => OutputExpr::Optional(Box::new((**inner).clone())),
            OutputExpr::Join { rule, separator } => OutputExpr::Join {
                rule: rule.clone(),
                separator: separator.clone(),
            },
            OutputExpr::Match { cases, default } => OutputExpr::Match {
                cases: clone_cases(cases),
                default: default.clone(),
            },
            OutputExpr::ContextIf { context_value, then_expr, else_expr } => {
                OutputExpr::ContextIf {
                    context_value: context_value.clone(),
                    then_expr: Box::new((**then_expr).clone()),
                    else_expr: Box::new((**else_expr).clone()),
                }
            },
            OutputExpr::Choice(items) => {
                let copy = clone_output_exprs(items);
                proof {
                    lemma_output_sequence_view(items);
                    lemma_output_sequence_view(&copy);
                }
                OutputExpr::Choice(copy)
            },
        }
    }
}

impl Clone for InputRule {
    /// A copy of the rule.
    fn clone(&self) -> (copy: Self)
        ensures
            copy@ == self@,
    {
        InputRule { name: self.name.clone(), expr: self.expr.clone() }
    }
}

impl Clone for OutputRule {
    /// A copy of the rule.
    fn clone(&self) -> (copy: Self)
        ensures
            copy@ == self@,
    {
        OutputRule { name: self.name.clone(), expr: self.expr.clone() }
    }
}

} // verus!
