//! Compiling the notation for source grammars.
//!
//! ```text
//! grammar  := rule*
//! rule     := IDENT ":=" expr ";"
//! expr     := sequence ("|" sequence)*
//! sequence := atom+
//! atom     := (STRING | PATTERN | "(" expr ")" | IDENT) ("*" | "+" | "?")?
//! ```
//!
//! The functions `scan_*` say what each part of a grammar text stands for and
//! where it ends; the methods of [`MetaParser`] compute the same.

use crate::lexer::{
    error_at, ident_end, lemma_bracket_end, lemma_lex_string, lemma_skip_trivia, lex_char,
    lex_pattern, lex_string, lex_word, skip_trivia,
};
use crate::meta_parser::{
    input_exprs_view, input_rules_with, lemma_input_sequence_view, GrammarError, GrammarErrorKind,
    GrammarExpr, GrammarExprView, InputGrammar, InputGrammarView, InputRule, InputRuleView,
    MetaParser,
};
use crate::text::{ident_start, is_ident_char, is_ident_start, lemma_skip_while, to_chars};
use vstd::prelude::*;

verus! {

/// Whether a quoted string is read as a pattern: it starts with `[` or holds
/// one of `+`, `*`, `\`.
pub open spec fn is_pattern_text(s: Seq<char>) -> bool {
    ||| s.len() > 0 && s[0] == '['
    ||| exists|i: int| 0 <= i < s.len() && is_pattern_mark(#[trigger] s[i])
}

/// The characters that make a quoted string a pattern wherever they stand.
pub open spec fn is_pattern_mark(c: char) -> bool {
    c == '+' || c == '*' || c == '\\'
}

/// What an identifier stands for: one of the layout terminals, or a rule.
pub open spec fn terminal_or_rule(name: Seq<char>) -> GrammarExprView {
    if name == "INDENT"@ {
        GrammarExprView::Indent
    } else if name == "DEDENT"@ {
        GrammarExprView::Dedent
    } else if name == "NEWLINE"@ {
        GrammarExprView::Newline
    } else if name == "SAME_INDENT"@ {
        GrammarExprView::SameIndent
    } else {
        GrammarExprView::RuleRef(name)
    }
}

/// `base` under the repetition mark that follows it at `pos`, if one does,
/// and the position after.
pub open spec fn with_postfix(text: Seq<char>, pos: int, base: GrammarExprView) -> (
    GrammarExprView,
    int,
) {
    let p = skip_trivia(text, pos);
    if 0 <= p < text.len() && text[p] == '*' {
        (GrammarExprView::ZeroOrMore(Box::new(base)), p + 1)
    } else if 0 <= p < text.len() && text[p] == '+' {
        (GrammarExprView::OneOrMore(Box::new(base)), p + 1)
    } else if 0 <= p < text.len() && text[p] == '?' {
        (GrammarExprView::Optional(Box::new(base)), p + 1)
    } else {
        (base, p)
    }
}

/// The atom that starts at or after `pos`, if one does, and the position
/// after it.
pub open spec fn scan_input_atom(text: Seq<char>, pos: int) -> Result<
    (Option<GrammarExprView>, int),
    GrammarError,
>
    decreases text.len() - pos, 0nat,
{
    let p = skip_trivia(text, pos);
    if !(0 <= pos <= text.len()) || !(0 <= p < text.len()) {
        Ok((None, p))
    } else if text[p] == '"' {
        match lex_string(text, p) {
            Err(e) => Err(e),
            Ok((lit, after)) => {
                let base = if is_pattern_text(lit) {
                    GrammarExprView::Pattern(lit)
                } else {
                    GrammarExprView::Literal(lit)
                };
                let r = with_postfix(text, after, base);
                Ok((Some(r.0), r.1))
            },
        }
    } else if text[p] == '[' {
        match lex_pattern(text, p) {
            Err(e) => Err(e),
            Ok((pattern, after)) => {
                let r = with_postfix(text, after, GrammarExprView::Pattern(pattern));
                Ok((Some(r.0), r.1))
            },
        }
    } else if text[p] == '(' {
        proof {
            lemma_skip_trivia(text, pos);
        }
        match scan_input_expr(text, p + 1) {
            Err(e) => Err(e),
            Ok((inner, after)) => match lex_char(text, skip_trivia(text, after), ')') {
                Err(e) => Err(e),
                Ok(closed) => {
                    let r = with_postfix(text, closed, GrammarExprView::Group(Box::new(inner)));
                    Ok((Some(r.0), r.1))
                },
            },
        }
    } else if is_ident_start(text[p]) {
        let end = ident_end(text, p);
        let r = with_postfix(text, end, terminal_or_rule(text.subrange(p, end)));
        Ok((Some(r.0), r.1))
    } else {
        Ok((None, p))
    }
}

/// The atoms that follow `pos`, after those of `acc`, and the position
/// after them.
pub open spec fn scan_input_items(text: Seq<char>, pos: int, acc: Seq<GrammarExprView>) -> Result<
    (Seq<GrammarExprView>, int),
    GrammarError,
>
    decreases text.len() - pos, 1nat,
{
    match scan_input_atom(text, pos) {
        Err(e) => Err(e),
        Ok((None, after)) => Ok((acc, after)),
        Ok((Some(item), after)) => if pos < after <= text.len() {
            scan_input_items(text, after, acc.push(item))
        } else {
            Ok((acc.push(item), after))
        },
    }
}

/// The sequence that starts at or after `pos`: one atom at least; a single
/// atom stands for itself.
pub open spec fn scan_input_sequence(text: Seq<char>, pos: int) -> Result<
    (GrammarExprView, int),
    GrammarError,
>
    decreases text.len() - pos, 2nat,
{
    match scan_input_items(text, pos, Seq::empty()) {
        Err(e) => Err(e),
        Ok((items, after)) => if items.len() == 0 {
            Err(error_at(GrammarErrorKind::ExpectedExpression, after))
        } else if items.len() == 1 {
            Ok((items[0], after))
        } else {
            Ok((GrammarExprView::Sequence(items), after))
        },
    }
}

/// The alternatives that follow `pos`, each after a `|`, after those of
/// `acc`, and the position after them.
pub open spec fn scan_input_alternatives(
    text: Seq<char>,
    pos: int,
    acc: Seq<GrammarExprView>,
) -> Result<(Seq<GrammarExprView>, int), GrammarError>
    decreases text.len() - pos, 3nat,
{
    let p = skip_trivia(text, pos);
    if 0 <= pos <= text.len() && 0 <= p < text.len() && text[p] == '|' {
        proof {
            lemma_skip_trivia(text, pos);
        }
        match scan_input_sequence(text, p + 1) {
            Err(e) => Err(e),
            Ok((next, after)) => if pos < after <= text.len() {
                scan_input_alternatives(text, after, acc.push(next))
            } else {
                Ok((acc.push(next), after))
            },
        }
    } else {
        Ok((acc, p))
    }
}

/// The expression that starts at or after `pos`: one sequence, or a choice
/// between several.
pub open spec fn scan_input_expr(text: Seq<char>, pos: int) -> Result<
    (GrammarExprView, int),
    GrammarError,
>
    decreases text.len() - pos, 4nat,
{
    match scan_input_sequence(text, pos) {
        Err(e) => Err(e),
        Ok((first, after)) => if pos < after <= text.len() {
            match scan_input_alternatives(text, after, seq![first]) {
                Err(e) => Err(e),
                Ok((alternatives, end)) => if alternatives.len() == 1 {
                    Ok((alternatives[0], end))
                } else {
                    Ok((GrammarExprView::Choice(alternatives), end))
                },
            }
        } else {
            Ok((first, after))
        },
    }
}

/// The rule whose name starts at `pos`, and the position after its `;`.
pub open spec fn scan_input_rule(text: Seq<char>, pos: int) -> Result<
    (InputRuleView, int),
    GrammarError,
> {
    if !(0 <= pos < text.len() && is_ident_start(text[pos])) {
        Err(error_at(GrammarErrorKind::ExpectedRuleName, pos))
    } else {
        let end = ident_end(text, pos);
        match lex_word(text, skip_trivia(text, end), ":="@, GrammarErrorKind::ExpectedAssign) {
            Err(e) => Err(e),
            Ok(body) => match scan_input_expr(text, body) {
                Err(e) => Err(e),
                Ok((expr, after)) => match lex_char(text, skip_trivia(text, after), ';') {
                    Err(e) => Err(e),
                    Ok(done) => Ok((InputRuleView { name: text.subrange(pos, end), expr }, done)),
                },
            },
        }
    }
}

/// `grammar` after `rule` has been defined. The first rule defined gives the
/// start rule.
pub open spec fn input_grammar_with(grammar: InputGrammarView, rule: InputRuleView)
    -> InputGrammarView {
    InputGrammarView {
        rules: input_rules_with(grammar.rules, rule),
        start_rule: if grammar.start_rule.len() == 0 {
            rule.name
        } else {
            grammar.start_rule
        },
    }
}

/// `grammar` after the rules that follow `pos` have been defined, up to the
/// end of `text`.
pub open spec fn scan_input_rules(text: Seq<char>, pos: int, grammar: InputGrammarView) -> Result<
    InputGrammarView,
    GrammarError,
>
    decreases text.len() - pos,
{
    let p = skip_trivia(text, pos);
    if !(0 <= pos <= text.len()) || !(0 <= p < text.len()) {
        Ok(grammar)
    } else {
        match scan_input_rule(text, p) {
            Err(e) => Err(e),
            Ok((rule, after)) => if pos < after <= text.len() {
                scan_input_rules(text, after, input_grammar_with(grammar, rule))
            } else {
                Ok(input_grammar_with(grammar, rule))
            },
        }
    }
}

/// The source grammar that the text from `pos` on stands for.
pub open spec fn compile_input_grammar(text: Seq<char>, pos: int) -> Result<
    InputGrammarView,
    GrammarError,
> {
    scan_input_rules(
        text,
        pos,
        InputGrammarView { rules: Seq::empty(), start_rule: Seq::empty() },
    )
}

/// A repetition mark is looked for further on, within the text.
pub proof fn lemma_with_postfix(text: Seq<char>, pos: int, base: GrammarExprView)
    requires
        0 <= pos <= text.len(),
    ensures
        pos <= with_postfix(text, pos, base).1 <= text.len(),
{
    lemma_skip_trivia(text, pos);
}

/// An atom ends further on than it starts, and within the text; without an
/// atom only blanks and comments are passed.
pub proof fn lemma_input_atom_advances(text: Seq<char>, pos: int)
    requires
        0 <= pos <= text.len(),
    ensures
        match scan_input_atom(text, pos) {
            Ok((Some(_), after)) => pos < after <= text.len(),
            Ok((None, after)) => pos <= after <= text.len(),
            Err(_) => true,
        },
    decreases text.len() - pos, 0nat,
{
    lemma_skip_trivia(text, pos);
    let p = skip_trivia(text, pos);
    if !(0 <= p < text.len()) {
    } else if text[p] == '"' {
        lemma_lex_string(text, p);
        match lex_string(text, p) {
            Ok((lit, after)) => {
                let base = if is_pattern_text(lit) {
                    GrammarExprView::Pattern(lit)
                } else {
                    GrammarExprView::Literal(lit)
                };
                lemma_with_postfix(text, after, base);
            },
            Err(_) => {},
        }
    } else if text[p] == '[' {
        lemma_bracket_end(text, p + 1, 1);
        match lex_pattern(text, p) {
            Ok((pattern, after)) => {
                lemma_with_postfix(text, after, GrammarExprView::Pattern(pattern));
            },
            Err(_) => {},
        }
    } else if text[p] == '(' {
        lemma_input_expr_advances(text, p + 1);
        match scan_input_expr(text, p + 1) {
            Ok((inner, after)) => {
                lemma_skip_trivia(text, after);
                match lex_char(text, skip_trivia(text, after), ')') {
                    Ok(closed) => {
                        lemma_with_postfix(text, closed, GrammarExprView::Group(Box::new(inner)));
                    },
                    Err(_) => {},
                }
            },
            Err(_) => {},
        }
    } else if is_ident_start(text[p]) {
        lemma_skip_while(text, p, |c: char| is_ident_char(c));
        let end = ident_end(text, p);
        assert(end > p) by {
            if end == p {
                assert(is_ident_char(text[p]));
            }
        }
        lemma_with_postfix(text, end, terminal_or_rule(text.subrange(p, end)));
    }
}

/// A list of atoms ends at or after its start, within the text, and further
/// on if it has gained an atom.
pub proof fn lemma_input_items_advance(text: Seq<char>, pos: int, acc: Seq<GrammarExprView>)
    requires
        0 <= pos <= text.len(),
    ensures
        match scan_input_items(text, pos, acc) {
            Ok((items, after)) => pos <= after <= text.len() && items.len() >= acc.len() && (
            items.len() > acc.len() ==> pos < after),
            Err(_) => true,
        },
    decreases text.len() - pos, 1nat,
{
    lemma_input_atom_advances(text, pos);
    match scan_input_atom(text, pos) {
        Ok((Some(item), after)) => {
            lemma_input_items_advance(text, after, acc.push(item));
        },
        _ => {},
    }
}

/// A sequence ends further on than it starts, and within the text.
pub proof fn lemma_input_sequence_advances(text: Seq<char>, pos: int)
    requires
        0 <= pos <= text.len(),
    ensures
        scan_input_sequence(text, pos) matches Ok((_, after)) ==> pos < after <= text.len(),
    decreases text.len() - pos, 2nat,
{
    lemma_input_items_advance(text, pos, Seq::empty());
}

/// The alternatives of a choice end at or after their start, within the text.
pub proof fn lemma_input_alternatives_advance(
    text: Seq<char>,
    pos: int,
    acc: Seq<GrammarExprView>,
)
    requires
        0 <= pos <= text.len(),
    ensures
        scan_input_alternatives(text, pos, acc) matches Ok((_, after)) ==> pos <= after
            <= text.len(),
    decreases text.len() - pos, 3nat,
{
    lemma_skip_trivia(text, pos);
    let p = skip_trivia(text, pos);
    if 0 <= p < text.len() && text[p] == '|' {
        lemma_input_sequence_advances(text, p + 1);
        match scan_input_sequence(text, p + 1) {
            Ok((next, after)) => {
                lemma_input_alternatives_advance(text, after, acc.push(next));
            },
            Err(_) => {},
        }
    }
}

/// An expression ends further on than it starts, and within the text. So
/// every part of a grammar text that is read takes some of the text, and the
/// reading of lists never stops for want of progress.
pub proof fn lemma_input_expr_advances(text: Seq<char>, pos: int)
    requires
        0 <= pos <= text.len(),
    ensures
        scan_input_expr(text, pos) matches Ok((_, after)) ==> pos < after <= text.len(),
    decreases text.len() - pos, 4nat,
{
    lemma_input_sequence_advances(text, pos);
    match scan_input_sequence(text, pos) {
        Ok((first, after)) => {
            lemma_input_alternatives_advance(text, after, seq![first]);
        },
        Err(_) => {},
    }
}

/// `r`, with the cursor at `cursor`, is what `expected` says.
pub open spec fn input_atom_agrees(
    r: Result<Option<GrammarExpr>, GrammarError>,
    cursor: int,
    expected: Result<(Option<GrammarExprView>, int), GrammarError>,
) -> bool {
    match r {
        Ok(Some(e)) => expected == Ok::<(Option<GrammarExprView>, int), GrammarError>(
            (Some(e@), cursor),
        ),
        Ok(None) => expected == Ok::<(Option<GrammarExprView>, int), GrammarError>((None, cursor)),
        Err(err) => expected == Err::<(Option<GrammarExprView>, int), GrammarError>(err),
    }
}

/// `r`, with the cursor at `cursor`, is what `expected` says.
pub open spec fn input_expr_agrees(
    r: Result<GrammarExpr, GrammarError>,
    cursor: int,
    expected: Result<(GrammarExprView, int), GrammarError>,
) -> bool {
    match r {
        Ok(e) => expected == Ok::<(GrammarExprView, int), GrammarError>((e@, cursor)),
        Err(err) => expected == Err::<(GrammarExprView, int), GrammarError>(err),
    }
}

/// `r` is what `expected` says.
pub open spec fn input_grammar_agrees(
    r: Result<InputGrammar, GrammarError>,
    expected: Result<InputGrammarView, GrammarError>,
) -> bool {
    match r {
        Ok(g) => expected == Ok::<InputGrammarView, GrammarError>(g@),
        Err(err) => expected == Err::<InputGrammarView, GrammarError>(err),
    }
}

/// Whether `name` is the word `word`.
pub fn is_word(name: &String, word: &str) -> (r: bool)
    ensures
        r == (name@ == word@),
{
    let w = word.to_owned();
    *name == w
}

/// Whether a quoted string is read as a pattern.
fn pattern_text(lit: &String) -> (r: bool)
    ensures
        r == is_pattern_text(lit@),
{
    let chars = to_chars(lit.as_str());
    if chars.len() > 0 && chars[0] == '[' {
        return true;
    }
    let mut i: usize = 0;
    while i < chars.len()
        invariant
            i <= chars.len(),
            chars@ == lit@,
            forall|j: int| 0 <= j < i ==> !is_pattern_mark(#[trigger] chars@[j]),
        decreases chars.len() - i,
    {
        let c = chars[i];
        if c == '+' || c == '*' || c == '\\' {
            assert(is_pattern_mark(lit@[i as int]));
            return true;
        }
        i += 1;
    }
    false
}

/// What an identifier stands for.
fn name_expr(name: String) -> (e: GrammarExpr)
    ensures
        e@ == terminal_or_rule(name@),
{
    if is_word(&name, "INDENT") {
        GrammarExpr::Indent
    } else if is_word(&name, "DEDENT") {
        GrammarExpr::Dedent
    } else if is_word(&name, "NEWLINE") {
        GrammarExpr::Newline
    } else if is_word(&name, "SAME_INDENT") {
        GrammarExpr::SameIndent
    } else {
        GrammarExpr::RuleRef(name)
    }
}

impl MetaParser {
    /// Puts `base` under the repetition mark at the cursor, if there is one.
    fn parse_postfix(&mut self, base: GrammarExpr) -> (e: GrammarExpr)
        requires
            old(self).well_formed(),
        ensures
            final(self).well_formed(),
            final(self).text() == old(self).text(),
            final(self).cursor() >= old(self).cursor(),
            (e@, final(self).cursor()) == with_postfix(
                old(self).text(),
                old(self).cursor(),
                base@,
            ),
    {
        self.skip_whitespace_and_comments();
        match self.peek_char() {
            Some('*') => {
                self.consume_char();
                GrammarExpr::ZeroOrMore(Box::new(base))
            },
            Some('+') => {
                self.consume_char();
                GrammarExpr::OneOrMore(Box::new(base))
            },
            Some('?') => {
                self.consume_char();
                GrammarExpr::Optional(Box::new(base))
            },
            _ => base,
        }
    }

    /// Compiles the atom at the cursor, if one stands there.
    pub fn parse_input_atom(&mut self) -> (r: Result<Option<GrammarExpr>, GrammarError>)
        requires
            old(self).well_formed(),
        ensures
            final(self).well_formed(),
            final(self).text() == old(self).text(),
            input_atom_agrees(
                r,
                final(self).cursor(),
                scan_input_atom(old(self).text(), old(self).cursor()),
            ),
            r is Ok ==> final(self).cursor() >= old(self).cursor(),
            r matches Ok(Some(_)) ==> final(self).cursor() > old(self).cursor(),
        decreases old(self).text().len() - old(self).cursor(), 0nat,
    {
        self.skip_whitespace_and_comments();
        let ch = match self.peek_char() {
            Some(c) => c,
            None => {
                return Ok(None);
            },
        };
        let base = if ch == '"' {
            let lit = match self.parse_string_literal() {
                Ok(lit) => lit,
                Err(e) => {
                    return Err(e);
                },
            };
            if pattern_text(&lit) {
                GrammarExpr::Pattern(lit)
            } else {
                GrammarExpr::Literal(lit)
            }
        } else if ch == '[' {
            match self.parse_pattern() {
                Ok(pattern) => GrammarExpr::Pattern(pattern),
                Err(e) => {
                    return Err(e);
                },
            }
        } else if ch == '(' {
            self.consume_char();
            let inner = match self.parse_input_expr() {
                Ok(inner) => inner,
                Err(e) => {
                    return Err(e);
                },
            };
            self.skip_whitespace_and_comments();
            match self.expect_char(')') {
                Ok(_) => {},
                Err(e) => {
                    return Err(e);
                },
            }
            GrammarExpr::Group(Box::new(inner))
        } else if ident_start(ch) {
            let name = self.parse_identifier();
            name_expr(name)
        } else {
            return Ok(None);
        };
        Ok(Some(self.parse_postfix(base)))
    }

    /// Compiles the sequence at the cursor.
    pub fn parse_input_sequence(&mut self) -> (r: Result<GrammarExpr, GrammarError>)
        requires
            old(self).well_formed(),
        ensures
            final(self).well_formed(),
            final(self).text() == old(self).text(),
            input_expr_agrees(
                r,
                final(self).cursor(),
                scan_input_sequence(old(self).text(), old(self).cursor()),
            ),
            r is Ok ==> final(self).cursor() > old(self).cursor(),
        decreases old(self).text().len() - old(self).cursor(), 2nat,
    {
        let mut items: Vec<GrammarExpr> = Vec::new();
        let ghost text = self.text();
        let ghost start = self.cursor();
        proof {
            assert(input_exprs_view(&items) =~= Seq::empty());
        }
        loop
            invariant_except_break
                scan_input_items(text, start, Seq::empty()) == scan_input_items(
                    text,
                    self.cursor(),
                    input_exprs_view(&items),
                ),
                items.len() > 0 ==> self.cursor() > start,
            invariant
                self.well_formed(),
                self.text() == text,
                text == old(self).text(),
                start == old(self).cursor(),
                self.cursor() >= start,
            ensures
                self.well_formed(),
                self.text() == text,
                self.cursor() >= start,
                items.len() > 0 ==> self.cursor() > start,
                scan_input_items(text, start, Seq::empty()) == Ok::<
                    (Seq<GrammarExprView>, int),
                    GrammarError,
                >((input_exprs_view(&items), self.cursor())),
            decreases text.len() - self.cursor(),
        {
            let ghost before = input_exprs_view(&items);
            match self.parse_input_atom() {
                Err(e) => {
                    return Err(e);
                },
                Ok(None) => {
                    break;
                },
                Ok(Some(item)) => {
                    items.push(item);
                    proof {
                        assert(input_exprs_view(&items) =~= before.push(
                            item@,
                        ));
                    }
                },
            }
        }
        if items.len() == 0 {
            Err(
                GrammarError {
                    kind: GrammarErrorKind::ExpectedExpression,
                    position: self.position(),
                },
            )
        } else if items.len() == 1 {
            Ok(items.pop().unwrap())
        } else {
            proof {
                lemma_input_sequence_view(&items);
            }
            Ok(GrammarExpr::Sequence(items))
        }
    }

    /// Compiles the expression at the cursor.
    pub fn parse_input_expr(&mut self) -> (r: Result<GrammarExpr, GrammarError>)
        requires
            old(self).well_formed(),
        ensures
            final(self).well_formed(),
            final(self).text() == old(self).text(),
            input_expr_agrees(
                r,
                final(self).cursor(),
                scan_input_expr(old(self).text(), old(self).cursor()),
            ),
            r is Ok ==> final(self).cursor() > old(self).cursor(),
        decreases old(self).text().len() - old(self).cursor(), 4nat,
    {
        let ghost text = self.text();
        let ghost start = self.cursor();
        let first = match self.parse_input_sequence() {
            Ok(first) => first,
            Err(e) => {
                return Err(e);
            },
        };
        let mut choices: Vec<GrammarExpr> = Vec::new();
        choices.push(first);
        let ghost after_first = self.cursor();
        proof {
            assert(input_exprs_view(&choices) =~= seq![first@]);
        }
        loop
            invariant_except_break
                scan_input_alternatives(text, after_first, seq![first@])
                    == scan_input_alternatives(
                    text,
                    self.cursor(),
                    input_exprs_view(&choices),
                ),
            invariant
                self.well_formed(),
                self.text() == text,
                text == old(self).text(),
                start == old(self).cursor(),
                self.cursor() >= after_first > start,
                choices.len() >= 1,
                scan_input_sequence(text, start) == Ok::<(GrammarExprView, int), GrammarError>(
                    (first@, after_first),
                ),
            ensures
                self.well_formed(),
                self.text() == text,
                self.cursor() >= after_first,
                choices.len() >= 1,
                scan_input_alternatives(text, after_first, seq![first@]) == Ok::<
                    (Seq<GrammarExprView>, int),
                    GrammarError,
                >((input_exprs_view(&choices), self.cursor())),
            decreases text.len() - self.cursor(),
        {
            let ghost before = input_exprs_view(&choices);
            self.skip_whitespace_and_comments();
            match self.peek_char() {
                Some('|') => {
                    self.consume_char();
                    match self.parse_input_sequence() {
                        Ok(next) => {
                            choices.push(next);
                            proof {
                                assert(input_exprs_view(&choices)
                                    =~= before.push(next@));
                            }
                        },
                        Err(e) => {
                            return Err(e);
                        },
                    }
                },
                _ => {
                    break;
                },
            }
        }
        if choices.len() == 1 {
            Ok(choices.pop().unwrap())
        } else {
            proof {
                lemma_input_sequence_view(&choices);
            }
            Ok(GrammarExpr::Choice(choices))
        }
    }

    /// Compiles the rule whose name stands at the cursor.
    fn parse_input_rule(&mut self) -> (r: Result<InputRule, GrammarError>)
        requires
            old(self).well_formed(),
        ensures
            final(self).well_formed(),
            final(self).text() == old(self).text(),
            match r {
                Ok(rule) => scan_input_rule(old(self).text(), old(self).cursor()) == Ok::<
                    (InputRuleView, int),
                    GrammarError,
                >((rule@, final(self).cursor())) && final(self).cursor() > old(self).cursor(),
                Err(e) => scan_input_rule(old(self).text(), old(self).cursor()) == Err::<
                    (InputRuleView, int),
                    GrammarError,
                >(e),
            },
    {
        match self.peek_char() {
            Some(c) => {
                if !ident_start(c) {
                    return Err(
                        GrammarError {
                            kind: GrammarErrorKind::ExpectedRuleName,
                            position: self.position(),
                        },
                    );
                }
            },
            None => {
                return Err(
                    GrammarError {
                        kind: GrammarErrorKind::ExpectedRuleName,
                        position: self.position(),
                    },
                );
            },
        }
        let name = self.parse_identifier();
        self.skip_whitespace_and_comments();
        match self.expect_word(":=", GrammarErrorKind::ExpectedAssign) {
            Ok(_) => {},
            Err(e) => {
                return Err(e);
            },
        }
        let expr = match self.parse_input_expr() {
            Ok(expr) => expr,
            Err(e) => {
                return Err(e);
            },
        };
        self.skip_whitespace_and_comments();
        match self.expect_char(';') {
            Ok(_) => {},
            Err(e) => {
                return Err(e);
            },
        }
        Ok(InputRule { name, expr })
    }

    /// Compiles the rest of the text as a source grammar.
    pub fn parse_input_grammar(&mut self) -> (r: Result<InputGrammar, GrammarError>)
        requires
            old(self).well_formed(),
        ensures
            final(self).well_formed(),
            final(self).text() == old(self).text(),
            input_grammar_agrees(r, compile_input_grammar(old(self).text(), old(self).cursor())),
    {
        let mut grammar = InputGrammar::new();
        let ghost text = self.text();
        let ghost start = self.cursor();
        loop
            invariant_except_break
                compile_input_grammar(text, start) == scan_input_rules(
                    text,
                    self.cursor(),
                    grammar@,
                ),
            invariant
                self.well_formed(),
                self.text() == text,
                text == old(self).text(),
                start == old(self).cursor(),
            ensures
                self.well_formed(),
                self.text() == text,
                compile_input_grammar(text, start) == Ok::<InputGrammarView, GrammarError>(
                    grammar@,
                ),
            decreases text.len() - self.cursor(),
        {
            self.skip_whitespace_and_comments();
            if self.at_end() {
                break;
            }
            let rule = match self.parse_input_rule() {
                Ok(rule) => rule,
                Err(e) => {
                    return Err(e);
                },
            };
            let ghost defined = grammar@;
            if grammar.start_rule.as_str().is_empty() {
                grammar.start_rule = rule.name.clone();
            }
            grammar.insert(rule);
            proof {
                assert(grammar@ == input_grammar_with(defined, rule@));
            }
        }
        Ok(grammar)
    }
}

} // verus!
