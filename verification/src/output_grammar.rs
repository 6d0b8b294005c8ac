//! Compiling the notation for output grammars.
//!
//! ```text
//! grammar := rule*
//! rule    := IDENT ":=" expr ";"
//! expr    := match | if | item+
//! item    := atom ("join" STRING)?
//! atom    := (STRING | IDENT | "(" expr ")") "?"?
//! match   := "match" "@value" "{" (case ","?)* "}"
//! case    := (STRING | "_") "=>" (STRING | "@value")
//! if      := "if" "@context" "==" STRING "then" branch "else" branch
//! branch  := "(" expr ")" | atom
//! ```
//!
//! The functions `scan_*` say what each part of a grammar text stands for and
//! where it ends; the methods of [`MetaParser`] compute the same.

use crate::lexer::{
    error_at, ident_end, keyword_at, lemma_lex_string, lemma_skip_trivia, lex_char, lex_keyword,
    lex_string, lex_word, skip_trivia,
};
use crate::meta_parser::{
    cases_view, lemma_output_sequence_view, output_exprs_view, output_rules_with, GrammarError,
    GrammarErrorKind, MetaParser, OutputExpr, OutputExprView, OutputGrammar, OutputRule,
    OutputRuleView,
};
use crate::text::{has_prefix_at, ident_start, is_ident_char, is_ident_start, lemma_skip_while};
use vstd::prelude::*;

verus! {

/// `base` made optional by the `?` that follows it at `pos`, if one does,
/// and the position after.
pub open spec fn with_optional(text: Seq<char>, pos: int, base: OutputExprView) -> (
    OutputExprView,
    int,
) {
    let p = skip_trivia(text, pos);
    if 0 <= p < text.len() && text[p] == '?' {
        (OutputExprView::Optional(Box::new(base)), p + 1)
    } else {
        (base, p)
    }
}

/// The position after the comma at `pos`, if one stands there.
pub open spec fn after_comma(text: Seq<char>, pos: int) -> int {
    let p = skip_trivia(text, pos);
    if 0 <= p < text.len() && text[p] == ',' {
        p + 1
    } else {
        p
    }
}

/// What a case gives: the quoted string at `pos`, or, for `@value`, the text
/// `echo`; and the position after it.
pub open spec fn lex_replacement(text: Seq<char>, pos: int, echo: Seq<char>) -> Result<
    (Seq<char>, int),
    GrammarError,
> {
    if has_prefix_at(text, pos, "@value"@) {
        Ok((echo, pos + "@value"@.len()))
    } else {
        lex_string(text, pos)
    }
}

/// The `match` whose cases follow `pos`, after `cases` and with `default` so
/// far, and the position after its `}`. A later default takes the place of
/// an earlier one. A default of `@value` is kept as that word; a case that
/// gives `@value` gives its own pattern, which is the text that it matches.
pub open spec fn scan_cases(
    text: Seq<char>,
    pos: int,
    cases: Seq<(Seq<char>, Seq<char>)>,
    default: Seq<char>,
) -> Result<(OutputExprView, int), GrammarError>
    decreases text.len() - pos,
{
    let p = skip_trivia(text, pos);
    if !(0 <= pos <= text.len()) || !(0 <= p < text.len()) {
        Err(error_at(GrammarErrorKind::UnexpectedEnd, p))
    } else if text[p] == '}' {
        Ok((OutputExprView::Match { cases, default }, p + 1))
    } else if text[p] == '_' {
        match lex_word(text, skip_trivia(text, p + 1), "=>"@, GrammarErrorKind::ExpectedArrow) {
            Err(e) => Err(e),
            Ok(arrow) => match lex_replacement(text, skip_trivia(text, arrow), "@value"@) {
                Err(e) => Err(e),
                Ok((value, done)) => {
                    let next = after_comma(text, done);
                    if pos < next <= text.len() {
                        scan_cases(text, next, cases, value)
                    } else {
                        Err(error_at(GrammarErrorKind::UnexpectedEnd, next))
                    }
                },
            },
        }
    } else if text[p] == '"' {
        match lex_string(text, p) {
            Err(e) => Err(e),
            Ok((pattern, after)) => match lex_word(
                text,
                skip_trivia(text, after),
                "=>"@,
                GrammarErrorKind::ExpectedArrow,
            ) {
                Err(e) => Err(e),
                Ok(arrow) => match lex_replacement(text, skip_trivia(text, arrow), pattern) {
                    Err(e) => Err(e),
                    Ok((replacement, done)) => {
                        let next = after_comma(text, done);
                        if pos < next <= text.len() {
                            scan_cases(text, next, cases.push((pattern, replacement)), default)
                        } else {
                            Err(error_at(GrammarErrorKind::UnexpectedEnd, next))
                        }
                    },
                },
            },
        }
    } else {
        Err(error_at(GrammarErrorKind::ExpectedChar { expected: '}', found: text[p] }, p))
    }
}

/// The `match` whose keyword ends at `pos`, and the position after its `}`.
pub open spec fn scan_match(text: Seq<char>, pos: int) -> Result<
    (OutputExprView, int),
    GrammarError,
> {
    match lex_word(text, skip_trivia(text, pos), "@value"@, GrammarErrorKind::ExpectedValue) {
        Err(e) => Err(e),
        Ok(subject) => match lex_char(text, skip_trivia(text, subject), '{') {
            Err(e) => Err(e),
            Ok(body) => scan_cases(text, body, Seq::empty(), Seq::empty()),
        },
    }
}

/// The head of the `if` whose keyword ends at `pos`: the context's name, and
/// the position after `then`.
pub open spec fn scan_if_head(text: Seq<char>, pos: int) -> Result<(Seq<char>, int), GrammarError> {
    match lex_word(text, skip_trivia(text, pos), "@context"@, GrammarErrorKind::ExpectedContext) {
        Err(e) => Err(e),
        Ok(subject) => match lex_word(
            text,
            skip_trivia(text, subject),
            "=="@,
            GrammarErrorKind::ExpectedEquals,
        ) {
            Err(e) => Err(e),
            Ok(equals) => match lex_string(text, skip_trivia(text, equals)) {
                Err(e) => Err(e),
                Ok((value, after)) => match lex_keyword(
                    text,
                    skip_trivia(text, after),
                    "then"@,
                    GrammarErrorKind::ExpectedThen,
                ) {
                    Err(e) => Err(e),
                    Ok(then) => Ok((value, then)),
                },
            },
        }
    }
}

/// The head of an `if` ends further on and within the text.
pub proof fn lemma_scan_if_head(text: Seq<char>, pos: int)
    requires
        0 <= pos <= text.len(),
    ensures
        scan_if_head(text, pos) matches Ok((_, after)) ==> pos <= after <= text.len(),
{
    lemma_skip_trivia(text, pos);
    let a = skip_trivia(text, pos);
    match lex_word(text, a, "@context"@, GrammarErrorKind::ExpectedContext) {
        Ok(subject) => {
            lemma_skip_trivia(text, subject);
            let b = skip_trivia(text, subject);
            match lex_word(text, b, "=="@, GrammarErrorKind::ExpectedEquals) {
                Ok(equals) => {
                    lemma_skip_trivia(text, equals);
                    let c = skip_trivia(text, equals);
                    lemma_lex_string(text, c);
                    match lex_string(text, c) {
                        Ok((_, after)) => {
                            lemma_skip_trivia(text, after);
                        },
                        Err(_) => {},
                    }
                },
                Err(_) => {},
            }
        },
        Err(_) => {},
    }
}

/// The atom that starts at or after `pos`, if one does, and the position
/// after it.
pub open spec fn scan_output_atom(text: Seq<char>, pos: int) -> Result<
    (Option<OutputExprView>, int),
    GrammarError,
>
    decreases text.len() - pos, 0nat,
{
    let p = skip_trivia(text, pos);
    if !(0 <= pos <= text.len()) || !(0 <= p < text.len()) {
        Ok((None, p))
    } else if text[p] == '"' {
        match lex_string(text, p) {
            Err(e) => Err(e),
            Ok((lit, after)) => {
                let r = with_optional(text, after, OutputExprView::Literal(lit));
                Ok((Some(r.0), r.1))
            },
        }
    } else if text[p] == '(' {
        proof {
            lemma_skip_trivia(text, pos);
        }
        match scan_output_expr(text, p + 1) {
            Err(e) => Err(e),
            Ok((inner, after)) => match lex_char(text, skip_trivia(text, after), ')') {
                Err(e) => Err(e),
                Ok(closed) => {
                    let r = with_optional(text, closed, inner);
                    Ok((Some(r.0), r.1))
                },
            },
        }
    } else if is_ident_start(text[p]) {
        let end = ident_end(text, p);
        let r = with_optional(text, end, OutputExprView::RuleRef(text.subrange(p, end)));
        Ok((Some(r.0), r.1))
    } else {
        Ok((None, p))
    }
}

/// The items that follow `pos`, after those of `acc`, and the position after
/// them. An item is an atom, or the name of a rule with `join` and a
/// separator.
pub open spec fn scan_output_items(text: Seq<char>, pos: int, acc: Seq<OutputExprView>) -> Result<
    (Seq<OutputExprView>, int),
    GrammarError,
>
    decreases text.len() - pos, 1nat,
{
    match scan_output_atom(text, pos) {
        Err(e) => Err(e),
        Ok((None, after)) => Ok((acc, after)),
        Ok((Some(atom), after)) => {
            let p = skip_trivia(text, after);
            if keyword_at(text, p, "join"@) {
                match lex_string(text, skip_trivia(text, p + "join"@.len())) {
                    Err(e) => Err(e),
                    Ok((separator, done)) => match atom {
                        OutputExprView::RuleRef(rule) => if pos < done <= text.len() {
                            scan_output_items(
                                text,
                                done,
                                acc.push(OutputExprView::Join { rule, separator }),
                            )
                        } else {
                            Ok((acc.push(OutputExprView::Join { rule, separator }), done))
                        },
                        _ => Err(error_at(GrammarErrorKind::JoinWithoutRule, p)),
                    },
                }
            } else if pos < p <= text.len() {
                scan_output_items(text, p, acc.push(atom))
            } else {
                Ok((acc.push(atom), p))
            }
        },
    }
}

/// The branch of an `if` that starts at or after `pos`: a parenthesised
/// expression, or one atom.
pub open spec fn scan_branch(text: Seq<char>, pos: int) -> Result<
    (OutputExprView, int),
    GrammarError,
>
    decreases text.len() - pos, 2nat,
{
    let p = skip_trivia(text, pos);
    if 0 <= pos <= text.len() && 0 <= p < text.len() && text[p] == '(' {
        proof {
            lemma_skip_trivia(text, pos);
        }
        match scan_output_expr(text, p + 1) {
            Err(e) => Err(e),
            Ok((inner, after)) => match lex_char(text, skip_trivia(text, after), ')') {
                Err(e) => Err(e),
                Ok(closed) => Ok((inner, closed)),
            },
        }
    } else {
        match scan_output_atom(text, pos) {
            Err(e) => Err(e),
            Ok((None, after)) => Err(error_at(GrammarErrorKind::ExpectedExpression, after)),
            Ok((Some(atom), after)) => Ok((atom, after)),
        }
    }
}

/// The `if` whose keyword ends at `pos`, and the position after its second
/// branch.
pub open spec fn scan_context_if(text: Seq<char>, pos: int) -> Result<
    (OutputExprView, int),
    GrammarError,
>
    decreases text.len() - pos, 3nat,
{
    if !(0 <= pos <= text.len()) {
        Err(error_at(GrammarErrorKind::UnexpectedEnd, pos))
    } else {
        match scan_if_head(text, pos) {
            Err(e) => Err(e),
            Ok((context_value, then)) => {
                proof {
                    lemma_scan_if_head(text, pos);
                }
                match scan_branch(text, then) {
                    Err(e) => Err(e),
                    Ok((then_expr, after)) => match lex_keyword(
                        text,
                        skip_trivia(text, after),
                        "else"@,
                        GrammarErrorKind::ExpectedElse,
                    ) {
                        Err(e) => Err(e),
                        Ok(otherwise) => if pos <= otherwise <= text.len() {
                            match scan_branch(text, otherwise) {
                                Err(e) => Err(e),
                                Ok((else_expr, done)) => Ok(
                                    (
                                        OutputExprView::ContextIf {
                                            context_value,
                                            then_expr: Box::new(then_expr),
                                            else_expr: Box::new(else_expr),
                                        },
                                        done,
                                    ),
                                ),
                            }
                        } else {
                            Err(error_at(GrammarErrorKind::UnexpectedEnd, otherwise))
                        },
                    },
                }
            },
        }
    }
}

/// The expression that starts at or after `pos`: a `match`, an `if`, or one
/// item or more, where a single item stands for itself.
pub open spec fn scan_output_expr(text: Seq<char>, pos: int) -> Result<
    (OutputExprView, int),
    GrammarError,
>
    decreases text.len() - pos, 4nat,
{
    let p = skip_trivia(text, pos);
    if !(0 <= pos <= text.len()) {
        Err(error_at(GrammarErrorKind::UnexpectedEnd, pos))
    } else if keyword_at(text, p, "match"@) {
        scan_match(text, p + "match"@.len())
    } else if keyword_at(text, p, "if"@) {
        proof {
            lemma_skip_trivia(text, pos);
            reveal_strlit("if");
        }
        scan_context_if(text, p + "if"@.len())
    } else {
        proof {
            lemma_skip_trivia(text, pos);
        }
        match scan_output_items(text, p, Seq::empty()) {
            Err(e) => Err(e),
            Ok((items, after)) => if items.len() == 0 {
                Err(error_at(GrammarErrorKind::ExpectedExpression, after))
            } else if items.len() == 1 {
                Ok((items[0], after))
            } else {
                Ok((OutputExprView::Sequence(items), after))
            },
        }
    }
}

/// The rule whose name starts at `pos`, and the position after its `;`.
pub open spec fn scan_output_rule(text: Seq<char>, pos: int) -> Result<
    (OutputRuleView, int),
    GrammarError,
> {
    if !(0 <= pos < text.len() && is_ident_start(text[pos])) {
        Err(error_at(GrammarErrorKind::ExpectedRuleName, pos))
    } else {
        let end = ident_end(text, pos);
        match lex_word(text, skip_trivia(text, end), ":="@, GrammarErrorKind::ExpectedAssign) {
            Err(e) => Err(e),
            Ok(body) => match scan_output_expr(text, body) {
                Err(e) => Err(e),
                Ok((expr, after)) => match lex_char(text, skip_trivia(text, after), ';') {
                    Err(e) => Err(e),
                    Ok(done) => Ok((OutputRuleView { name: text.subrange(pos, end), expr }, done)),
                },
            },
        }
    }
}

/// `rules` after the rules that follow `pos` have been defined, up to the
/// end of `text`.
pub open spec fn scan_output_rules(text: Seq<char>, pos: int, rules: Seq<OutputRuleView>) -> Result<
    Seq<OutputRuleView>,
    GrammarError,
>
    decreases text.len() - pos,
{
    let p = skip_trivia(text, pos);
    if !(0 <= pos <= text.len()) || !(0 <= p < text.len()) {
        Ok(rules)
    } else {
        match scan_output_rule(text, p) {
            Err(e) => Err(e),
            Ok((rule, after)) => if pos < after <= text.len() {
                scan_output_rules(text, after, output_rules_with(rules, rule))
            } else {
                Ok(output_rules_with(rules, rule))
            },
        }
    }
}

/// The output grammar that the text from `pos` on stands for.
pub open spec fn compile_output_grammar(text: Seq<char>, pos: int) -> Result<
    Seq<OutputRuleView>,
    GrammarError,
> {
    scan_output_rules(text, pos, Seq::empty())
}

/// A `?` is looked for further on, within the text.
pub proof fn lemma_with_optional(text: Seq<char>, pos: int, base: OutputExprView)
    requires
        0 <= pos <= text.len(),
    ensures
        pos <= with_optional(text, pos, base).1 <= text.len(),
{
    lemma_skip_trivia(text, pos);
}

/// What a case gives ends further on than it starts, within the text.
pub proof fn lemma_lex_replacement(text: Seq<char>, pos: int, echo: Seq<char>)
    requires
        0 <= pos <= text.len(),
    ensures
        lex_replacement(text, pos, echo) matches Ok((_, after)) ==> pos <= after <= text.len(),
{
    lemma_lex_string(text, pos);
}

/// The cases of a `match` end further on than they start, within the text.
pub proof fn lemma_cases_advance(
    text: Seq<char>,
    pos: int,
    cases: Seq<(Seq<char>, Seq<char>)>,
    default: Seq<char>,
)
    requires
        0 <= pos <= text.len(),
    ensures
        scan_cases(text, pos, cases, default) matches Ok((_, after)) ==> pos < after
            <= text.len(),
    decreases text.len() - pos,
{
    lemma_skip_trivia(text, pos);
    let p = skip_trivia(text, pos);
    if !(0 <= p < text.len()) {
    } else if text[p] == '}' {
    } else if text[p] == '_' {
        lemma_skip_trivia(text, p + 1);
        match lex_word(text, skip_trivia(text, p + 1), "=>"@, GrammarErrorKind::ExpectedArrow) {
            Ok(arrow) => {
                lemma_skip_trivia(text, arrow);
                lemma_lex_replacement(text, skip_trivia(text, arrow), "@value"@);
                match lex_replacement(text, skip_trivia(text, arrow), "@value"@) {
                    Ok((value, done)) => {
                        lemma_skip_trivia(text, done);
                        lemma_cases_advance(text, after_comma(text, done), cases, value);
                    },
                    Err(_) => {},
                }
            },
            Err(_) => {},
        }
    } else if text[p] == '"' {
        lemma_lex_string(text, p);
        match lex_string(text, p) {
            Ok((pattern, after)) => {
                lemma_skip_trivia(text, after);
                match lex_word(
                    text,
                    skip_trivia(text, after),
                    "=>"@,
                    GrammarErrorKind::ExpectedArrow,
                ) {
                    Ok(arrow) => {
                        lemma_skip_trivia(text, arrow);
                        lemma_lex_replacement(text, skip_trivia(text, arrow), pattern);
                        match lex_replacement(text, skip_trivia(text, arrow), pattern) {
                            Ok((replacement, done)) => {
                                lemma_skip_trivia(text, done);
                                lemma_cases_advance(
                                    text,
                                    after_comma(text, done),
                                    cases.push((pattern, replacement)),
                                    default,
                                );
                            },
                            Err(_) => {},
                        }
                    },
                    Err(_) => {},
                }
            },
            Err(_) => {},
        }
    }
}

/// A `match` ends further on than its keyword, within the text.
pub proof fn lemma_match_advances(text: Seq<char>, pos: int)
    requires
        0 <= pos <= text.len(),
    ensures
        scan_match(text, pos) matches Ok((_, after)) ==> pos < after <= text.len(),
{
    lemma_skip_trivia(text, pos);
    match lex_word(text, skip_trivia(text, pos), "@value"@, GrammarErrorKind::ExpectedValue) {
        Ok(subject) => {
            lemma_skip_trivia(text, subject);
            match lex_char(text, skip_trivia(text, subject), '{') {
                Ok(body) => {
                    lemma_cases_advance(text, body, Seq::empty(), Seq::empty());
                },
                Err(_) => {},
            }
        },
        Err(_) => {},
    }
}

/// An atom ends further on than it starts, and within the text; without an
/// atom only blanks and comments are passed.
pub proof fn lemma_output_atom_advances(text: Seq<char>, pos: int)
    requires
        0 <= pos <= text.len(),
    ensures
        match scan_output_atom(text, pos) {
            Ok((Some(_), after)) => pos < after <= text.len(),
            Ok((None, after)) => pos <= after <= text.len(),
            Err(_) => true,
        },
    decreases text.len() - pos, 0nat,
{
    lemma_skip_trivia(text, pos);
    let p = skip_trivia(text, pos);
    if !(0 <= p < text.len()) {
    } else if text[p] == '"' {
        lemma_lex_string(text, p);
        match lex_string(text, p) {
            Ok((lit, after)) => {
                lemma_with_optional(text, after, OutputExprView::Literal(lit));
            },
            Err(_) => {},
        }
    } else if text[p] == '(' {
        lemma_output_expr_advances(text, p + 1);
        match scan_output_expr(text, p + 1) {
            Ok((inner, after)) => {
                lemma_skip_trivia(text, after);
                match lex_char(text, skip_trivia(text, after), ')') {
                    Ok(closed) => {
                        lemma_with_optional(text, closed, inner);
                    },
                    Err(_) => {},
                }
            },
            Err(_) => {},
        }
    } else if is_ident_start(text[p]) {
        lemma_skip_while(text, p, |c: char| is_ident_char(c));
        let end = ident_end(text, p);
        assert(end > p) by {
            if end == p {
                assert(is_ident_char(text[p]));
            }
        }
        lemma_with_optional(text, end, OutputExprView::RuleRef(text.subrange(p, end)));
    }
}

/// A list of items ends at or after its start, within the text, and further
/// on if it has gained an item.
pub proof fn lemma_output_items_advance(text: Seq<char>, pos: int, acc: Seq<OutputExprView>)
    requires
        0 <= pos <= text.len(),
    ensures
        match scan_output_items(text, pos, acc) {
            Ok((items, after)) => pos <= after <= text.len() && items.len() >= acc.len() && (
            items.len() > acc.len() ==> pos < after),
            Err(_) => true,
        },
    decreases text.len() - pos, 1nat,
{
    lemma_output_atom_advances(text, pos);
    match scan_output_atom(text, pos) {
        Ok((Some(atom), after)) => {
            lemma_skip_trivia(text, after);
            let p = skip_trivia(text, after);
            if keyword_at(text, p, "join"@) {
                lemma_skip_trivia(text, p + "join"@.len());
                lemma_lex_string(text, skip_trivia(text, p + "join"@.len()));
                match lex_string(text, skip_trivia(text, p + "join"@.len())) {
                    Ok((separator, done)) => match atom {
                        OutputExprView::RuleRef(rule) => {
                            lemma_output_items_advance(
                                text,
                                done,
                                acc.push(OutputExprView::Join { rule, separator }),
                            );
                        },
                        _ => {},
                    },
                    Err(_) => {},
                }
            } else {
                lemma_output_items_advance(text, p, acc.push(atom));
            }
        },
        _ => {},
    }
}

/// A branch of an `if` ends further on than it starts, and within the text.
pub proof fn lemma_branch_advances(text: Seq<char>, pos: int)
    requires
        0 <= pos <= text.len(),
    ensures
        scan_branch(text, pos) matches Ok((_, after)) ==> pos < after <= text.len(),
    decreases text.len() - pos, 2nat,
{
    lemma_skip_trivia(text, pos);
    let p = skip_trivia(text, pos);
    if 0 <= p < text.len() && text[p] == '(' {
        lemma_output_expr_advances(text, p + 1);
        match scan_output_expr(text, p + 1) {
            Ok((_, after)) => {
                lemma_skip_trivia(text, after);
            },
            Err(_) => {},
        }
    } else {
        lemma_output_atom_advances(text, pos);
    }
}

/// An `if` ends further on than its keyword, within the text.
pub proof fn lemma_context_if_advances(text: Seq<char>, pos: int)
    requires
        0 <= pos <= text.len(),
    ensures
        scan_context_if(text, pos) matches Ok((_, after)) ==> pos < after <= text.len(),
    decreases text.len() - pos, 3nat,
{
    lemma_scan_if_head(text, pos);
    match scan_if_head(text, pos) {
        Ok((_, then)) => {
            lemma_branch_advances(text, then);
            match scan_branch(text, then) {
                Ok((_, after)) => {
                    lemma_skip_trivia(text, after);
                    match lex_keyword(
                        text,
                        skip_trivia(text, after),
                        "else"@,
                        GrammarErrorKind::ExpectedElse,
                    ) {
                        Ok(otherwise) => {
                            lemma_branch_advances(text, otherwise);
                        },
                        Err(_) => {},
                    }
                },
                Err(_) => {},
            }
        },
        Err(_) => {},
    }
}

/// An expression ends further on than it starts, and within the text. So
/// every part of a grammar text that is read takes some of the text, and the
/// reading of lists never stops for want of progress.
pub proof fn lemma_output_expr_advances(text: Seq<char>, pos: int)
    requires
        0 <= pos <= text.len(),
    ensures
        scan_output_expr(text, pos) matches Ok((_, after)) ==> pos < after <= text.len(),
    decreases text.len() - pos, 4nat,
{
    lemma_skip_trivia(text, pos);
    let p = skip_trivia(text, pos);
    if keyword_at(text, p, "match"@) {
        lemma_match_advances(text, p + "match"@.len());
    } else if keyword_at(text, p, "if"@) {
        reveal_strlit("if");
        lemma_context_if_advances(text, p + "if"@.len());
    } else {
        lemma_output_items_advance(text, p, Seq::empty());
    }
}

/// `r`, with the cursor at `cursor`, is what `expected` says.
pub open spec fn output_atom_agrees(
    r: Result<Option<OutputExpr>, GrammarError>,
    cursor: int,
    expected: Result<(Option<OutputExprView>, int), GrammarError>,
) -> bool {
    match r {
        Ok(Some(e)) => expected == Ok::<(Option<OutputExprView>, int), GrammarError>(
            (Some(e@), cursor),
        ),
        Ok(None) => expected == Ok::<(Option<OutputExprView>, int), GrammarError>((None, cursor)),
        Err(err) => expected == Err::<(Option<OutputExprView>, int), GrammarError>(err),
    }
}

/// `r`, with the cursor at `cursor`, is what `expected` says.
pub open spec fn output_expr_agrees(
    r: Result<OutputExpr, GrammarError>,
    cursor: int,
    expected: Result<(OutputExprView, int), GrammarError>,
) -> bool {
    match r {
        Ok(e) => expected == Ok::<(OutputExprView, int), GrammarError>((e@, cursor)),
        Err(err) => expected == Err::<(OutputExprView, int), GrammarError>(err),
    }
}

/// `r` is what `expected` says.
pub open spec fn output_grammar_agrees(
    r: Result<OutputGrammar, GrammarError>,
    expected: Result<Seq<OutputRuleView>, GrammarError>,
) -> bool {
    match r {
        Ok(g) => expected == Ok::<Seq<OutputRuleView>, GrammarError>(g@),
        Err(err) => expected == Err::<Seq<OutputRuleView>, GrammarError>(err),
    }
}

impl MetaParser {
    /// Makes `base` optional if a `?` stands at the cursor.
    fn parse_optional_mark(&mut self, base: OutputExpr) -> (e: OutputExpr)
        requires
            old(self).well_formed(),
        ensures
            final(self).well_formed(),
            final(self).text() == old(self).text(),
            final(self).cursor() >= old(self).cursor(),
            (e@, final(self).cursor()) == with_optional(
                old(self).text(),
                old(self).cursor(),
                base@,
            ),
    {
        self.skip_whitespace_and_comments();
        match self.peek_char() {
            Some('?') => {
                self.consume_char();
                OutputExpr::Optional(Box::new(base))
            },
            _ => base,
        }
    }

    /// Takes the comma at the cursor, if one stands there.
    fn skip_comma(&mut self)
        requires
            old(self).well_formed(),
        ensures
            final(self).well_formed(),
            final(self).text() == old(self).text(),
            final(self).cursor() >= old(self).cursor(),
            final(self).cursor() == after_comma(old(self).text(), old(self).cursor()),
    {
        self.skip_whitespace_and_comments();
        match self.peek_char() {
            Some(',') => {
                self.consume_char();
            },
            _ => {},
        }
    }

    /// Compiles the atom at the cursor, if one stands there.
    pub fn parse_output_atom(&mut self) -> (r: Result<Option<OutputExpr>, GrammarError>)
        requires
            old(self).well_formed(),
        ensures
            final(self).well_formed(),
            final(self).text() == old(self).text(),
            output_atom_agrees(
                r,
                final(self).cursor(),
                scan_output_atom(old(self).text(), old(self).cursor()),
            ),
            r is Ok ==> final(self).cursor() >= old(self).cursor(),
            r matches Ok(Some(_)) ==> final(self).cursor() > old(self).cursor(),
        decreases old(self).text().len() - old(self).cursor(), 0nat,
    {
        self.skip_whitespace_and_comments();
        let ch = match self.peek_char() {
            Some(c) => c,
            None => {
                return Ok(None);
            },
        };
        if ch == '"' {
            match self.parse_string_literal() {
                Ok(lit) => Ok(Some(self.parse_optional_mark(OutputExpr::Literal(lit)))),
                Err(e) => Err(e),
            }
        } else if ch == '(' {
            self.consume_char();
            let inner = match self.parse_output_expr() {
                Ok(inner) => inner,
                Err(e) => {
                    return Err(e);
                },
            };
            self.skip_whitespace_and_comments();
            match self.expect_char(')') {
                Ok(_) => {},
                Err(e) => {
                    return Err(e);
                },
            }
            Ok(Some(self.parse_optional_mark(inner)))
        } else if ident_start(ch) {
            let name = self.parse_identifier();
            Ok(Some(self.parse_optional_mark(OutputExpr::RuleRef(name))))
        } else {
            Ok(None)
        }
    }

    /// Takes what a case gives: a quoted string, or `@value`, which stands
    /// for `echo`.
    fn parse_replacement(&mut self, echo: String) -> (r: Result<String, GrammarError>)
        requires
            old(self).well_formed(),
        ensures
            final(self).well_formed(),
            final(self).text() == old(self).text(),
            match r {
                Ok(s) => lex_replacement(old(self).text(), old(self).cursor(), echo@) == Ok::<
                    (Seq<char>, int),
                    GrammarError,
                >((s@, final(self).cursor())) && final(self).cursor() >= old(self).cursor(),
                Err(e) => lex_replacement(old(self).text(), old(self).cursor(), echo@) == Err::<
                    (Seq<char>, int),
                    GrammarError,
                >(e),
            },
    {
        if self.accept_word("@value") {
            Ok(echo)
        } else {
            self.parse_string_literal()
        }
    }

    /// Compiles the `match` whose keyword ends at the cursor.
    pub fn parse_match_expr(&mut self) -> (r: Result<OutputExpr, GrammarError>)
        requires
            old(self).well_formed(),
        ensures
            final(self).well_formed(),
            final(self).text() == old(self).text(),
            output_expr_agrees(
                r,
                final(self).cursor(),
                scan_match(old(self).text(), old(self).cursor()),
            ),
            r is Ok ==> final(self).cursor() > old(self).cursor(),
    {
        self.skip_whitespace_and_comments();
        match self.expect_word("@value", GrammarErrorKind::ExpectedValue) {
            Ok(_) => {},
            Err(e) => {
                return Err(e);
            },
        }
        self.skip_whitespace_and_comments();
        match self.expect_char('{') {
            Ok(_) => {},
            Err(e) => {
                return Err(e);
            },
        }
        let mut cases: Vec<(String, String)> = Vec::new();
        let mut default = String::new();
        let ghost text = self.text();
        let ghost body = self.cursor();
        proof {
            assert(cases_view(&cases) =~= Seq::empty());
        }
        loop
            invariant
                self.well_formed(),
                self.text() == text,
                text == old(self).text(),
                self.cursor() >= body > old(self).cursor(),
                scan_match(text, old(self).cursor()) == scan_cases(
                    text,
                    body,
                    Seq::empty(),
                    Seq::empty(),
                ),
                scan_cases(text, body, Seq::empty(), Seq::empty()) == scan_cases(
                    text,
                    self.cursor(),
                    cases_view(&cases),
                    default@,
                ),
            decreases text.len() - self.cursor(),
        {
            let ghost sofar = cases_view(&cases);
            self.skip_whitespace_and_comments();
            let ch = match self.peek_char() {
                Some(c) => c,
                None => {
                    return Err(
                        GrammarError {
                            kind: GrammarErrorKind::UnexpectedEnd,
                            position: self.position(),
                        },
                    );
                },
            };
            if ch == '}' {
                self.consume_char();
                return Ok(OutputExpr::Match { cases, default });
            } else if ch == '_' {
                self.consume_char();
                self.skip_whitespace_and_comments();
                match self.expect_word("=>", GrammarErrorKind::ExpectedArrow) {
                    Ok(_) => {},
                    Err(e) => {
                        return Err(e);
                    },
                }
                self.skip_whitespace_and_comments();
                match self.parse_replacement("@value".to_owned()) {
                    Ok(value) => {
                        default = value;
                    },
                    Err(e) => {
                        return Err(e);
                    },
                }
            } else if ch == '"' {
                let pattern = match self.parse_string_literal() {
                    Ok(pattern) => pattern,
                    Err(e) => {
                        return Err(e);
                    },
                };
                self.skip_whitespace_and_comments();
                match self.expect_word("=>", GrammarErrorKind::ExpectedArrow) {
                    Ok(_) => {},
                    Err(e) => {
                        return Err(e);
                    },
                }
                self.skip_whitespace_and_comments();
                let replacement = match self.parse_replacement(pattern.clone()) {
                    Ok(replacement) => replacement,
                    Err(e) => {
                        return Err(e);
                    },
                };
                cases.push((pattern, replacement));
                proof {
                    assert(cases_view(&cases) =~= sofar.push((pattern@, replacement@)));
                }
            } else {
                return Err(
                    GrammarError {
                        kind: GrammarErrorKind::ExpectedChar { expected: '}', found: ch },
                        position: self.position(),
                    },
                );
            }
            self.skip_comma();
        }
    }

    /// Compiles the branch of an `if` at the cursor.
    fn parse_branch(&mut self) -> (r: Result<OutputExpr, GrammarError>)
        requires
            old(self).well_formed(),
        ensures
            final(self).well_formed(),
            final(self).text() == old(self).text(),
            output_expr_agrees(
                r,
                final(self).cursor(),
                scan_branch(old(self).text(), old(self).cursor()),
            ),
            r is Ok ==> final(self).cursor() > old(self).cursor(),
        decreases old(self).text().len() - old(self).cursor(), 2nat,
    {
        let ghost start = self.cursor();
        let ghost text = self.text();
        proof {
            lemma_skip_trivia(text, start);
        }
        if self.next_is('(') {
            self.skip_whitespace_and_comments();
            self.consume_char();
            let inner = match self.parse_output_expr() {
                Ok(inner) => inner,
                Err(e) => {
                    return Err(e);
                },
            };
            self.skip_whitespace_and_comments();
            match self.expect_char(')') {
                Ok(_) => Ok(inner),
                Err(e) => Err(e),
            }
        } else {
            match self.parse_output_atom() {
                Ok(Some(atom)) => Ok(atom),
                Ok(None) => Err(
                    GrammarError {
                        kind: GrammarErrorKind::ExpectedExpression,
                        position: self.position(),
                    },
                ),
                Err(e) => Err(e),
            }
        }
    }

    /// Compiles the `if` whose keyword ends at the cursor.
    pub fn parse_context_if_expr(&mut self) -> (r: Result<OutputExpr, GrammarError>)
        requires
            old(self).well_formed(),
        ensures
            final(self).well_formed(),
            final(self).text() == old(self).text(),
            output_expr_agrees(
                r,
                final(self).cursor(),
                scan_context_if(old(self).text(), old(self).cursor()),
            ),
            r is Ok ==> final(self).cursor() > old(self).cursor(),
        decreases old(self).text().len() - old(self).cursor(), 3nat,
    {
        let ghost text = self.text();
        let ghost start = self.cursor();
        self.skip_whitespace_and_comments();
        match self.expect_word("@context", GrammarErrorKind::ExpectedContext) {
            Ok(_) => {},
            Err(e) => {
                return Err(e);
            },
        }
        self.skip_whitespace_and_comments();
        match self.expect_word("==", GrammarErrorKind::ExpectedEquals) {
            Ok(_) => {},
            Err(e) => {
                return Err(e);
            },
        }
        self.skip_whitespace_and_comments();
        let context_value = match self.parse_string_literal() {
            Ok(value) => value,
            Err(e) => {
                return Err(e);
            },
        };
        self.skip_whitespace_and_comments();
        match self.expect_keyword("then", GrammarErrorKind::ExpectedThen) {
            Ok(_) => {},
            Err(e) => {
                return Err(e);
            },
        }
        proof {
            lemma_scan_if_head(text, start);
        }
        let then_expr = match self.parse_branch() {
            Ok(branch) => branch,
            Err(e) => {
                return Err(e);
            },
        };
        self.skip_whitespace_and_comments();
        match self.expect_keyword("else", GrammarErrorKind::ExpectedElse) {
            Ok(_) => {},
            Err(e) => {
                return Err(e);
            },
        }
        let else_expr = match self.parse_branch() {
            Ok(branch) => branch,
            Err(e) => {
                return Err(e);
            },
        };
        Ok(
            OutputExpr::ContextIf {
                context_value,
                then_expr: Box::new(then_expr),
                else_expr: Box::new(else_expr),
            },
        )
    }

    /// Compiles the expression at the cursor.
    pub fn parse_output_expr(&mut self) -> (r: Result<OutputExpr, GrammarError>)
        requires
            old(self).well_formed(),
        ensures
            final(self).well_formed(),
            final(self).text() == old(self).text(),
            output_expr_agrees(
                r,
                final(self).cursor(),
                scan_output_expr(old(self).text(), old(self).cursor()),
            ),
            r is Ok ==> final(self).cursor() > old(self).cursor(),
        decreases old(self).text().len() - old(self).cursor(), 4nat,
    {
        let ghost text = self.text();
        let ghost start = self.cursor();
        self.skip_whitespace_and_comments();
        let ghost first = self.cursor();
        if self.accept_keyword("match") {
            proof {
                reveal_strlit("match");
            }
            return self.parse_match_expr();
        }
        if self.accept_keyword("if") {
            proof {
                reveal_strlit("if");
            }
            return self.parse_context_if_expr();
        }
        let mut items: Vec<OutputExpr> = Vec::new();
        proof {
            assert(output_exprs_view(&items) =~= Seq::empty());
        }
        loop
            invariant_except_break
                scan_output_items(text, first, Seq::empty()) == scan_output_items(
                    text,
                    self.cursor(),
                    output_exprs_view(&items),
                ),
                items.len() > 0 ==> self.cursor() > first,
            invariant
                self.well_formed(),
                self.text() == text,
                text == old(self).text(),
                start == old(self).cursor(),
                first == skip_trivia(text, start),
                !keyword_at(text, first, "match"@),
                !keyword_at(text, first, "if"@),
                self.cursor() >= first >= start,
            ensures
                self.well_formed(),
                self.text() == text,
                self.cursor() >= first,
                items.len() > 0 ==> self.cursor() > first,
                scan_output_items(text, first, Seq::empty()) == Ok::<
                    (Seq<OutputExprView>, int),
                    GrammarError,
                >((output_exprs_view(&items), self.cursor())),
            decreases text.len() - self.cursor(),
        {
            let ghost before = output_exprs_view(&items);
            let atom = match self.parse_output_atom() {
                Err(e) => {
                    return Err(e);
                },
                Ok(None) => {
                    break;
                },
                Ok(Some(atom)) => atom,
            };
            self.skip_whitespace_and_comments();
            let at = self.position();
            if self.accept_keyword("join") {
                self.skip_whitespace_and_comments();
                let separator = match self.parse_string_literal() {
                    Ok(separator) => separator,
                    Err(e) => {
                        return Err(e);
                    },
                };
                match atom {
                    OutputExpr::RuleRef(rule) => {
                        items.push(OutputExpr::Join { rule, separator });
                        proof {
                            assert(output_exprs_view(&items) =~= before.push(
                                OutputExprView::Join { rule: rule@, separator: separator@ },
                            ));
                        }
                    },
                    _ => {
                        return Err(
                            GrammarError { kind: GrammarErrorKind::JoinWithoutRule, position: at },
                        );
                    },
                }
            } else {
                items.push(atom);
                proof {
                    assert(output_exprs_view(&items) =~= before.push(atom@));
                }
            }
        }
        if items.len() == 0 {
            Err(
                GrammarError {
                    kind: GrammarErrorKind::ExpectedExpression,
                    position: self.position(),
                },
            )
        } else if items.len() == 1 {
            Ok(items.pop().unwrap())
        } else {
            proof {
                lemma_output_sequence_view(&items);
            }
            Ok(OutputExpr::Sequence(items))
        }
    }

    /// Compiles the rule whose name stands at the cursor.
    fn parse_output_rule(&mut self) -> (r: Result<OutputRule, GrammarError>)
        requires
            old(self).well_formed(),
        ensures
            final(self).well_formed(),
            final(self).text() == old(self).text(),
            match r {
                Ok(rule) => scan_output_rule(old(self).text(), old(self).cursor()) == Ok::<
                    (OutputRuleView, int),
                    GrammarError,
                >((rule@, final(self).cursor())) && final(self).cursor() > old(self).cursor(),
                Err(e) => scan_output_rule(old(self).text(), old(self).cursor()) == Err::<
                    (OutputRuleView, int),
                    GrammarError,
                >(e),
            },
    {
        match self.peek_char() {
            Some(c) => {
                if !ident_start(c) {
                    return Err(
                        GrammarError {
                            kind: GrammarErrorKind::ExpectedRuleName,
                            position: self.position(),
                        },
                    );
                }
            },
            None => {
                return Err(
                    GrammarError {
                        kind: GrammarErrorKind::ExpectedRuleName,
                        position: self.position(),
                    },
                );
            },
        }
        let name = self.parse_identifier();
        self.skip_whitespace_and_comments();
        match self.expect_word(":=", GrammarErrorKind::ExpectedAssign) {
            Ok(_) => {},
            Err(e) => {
                return Err(e);
            },
        }
        let expr = match self.parse_output_expr() {
            Ok(expr) => expr,
            Err(e) => {
                return Err(e);
            },
        };
        self.skip_whitespace_and_comments();
        match self.expect_char(';') {
            Ok(_) => {},
            Err(e) => {
                return Err(e);
            },
        }
        Ok(OutputRule { name, expr })
    }

    /// Compiles the rest of the text as an output grammar.
    pub fn parse_output_grammar(&mut self) -> (r: Result<OutputGrammar, GrammarError>)
        requires
            old(self).well_formed(),
        ensures
            final(self).well_formed(),
            final(self).text() == old(self).text(),
            output_grammar_agrees(
                r,
                compile_output_grammar(old(self).text(), old(self).cursor()),
            ),
    {
        let mut grammar = OutputGrammar::new();
        let ghost text = self.text();
        let ghost start = self.cursor();
        loop
            invariant_except_break
                compile_output_grammar(text, start) == scan_output_rules(
                    text,
                    self.cursor(),
                    grammar@,
                ),
            invariant
                self.well_formed(),
                self.text() == text,
                text == old(self).text(),
                start == old(self).cursor(),
            ensures
                self.well_formed(),
                self.text() == text,
                compile_output_grammar(text, start) == Ok::<Seq<OutputRuleView>, GrammarError>(
                    grammar@,
                ),
            decreases text.len() - self.cursor(),
        {
            self.skip_whitespace_and_comments();
            if self.at_end() {
                break;
            }
            let rule = match self.parse_output_rule() {
                Ok(rule) => rule,
                Err(e) => {
                    return Err(e);
                },
            };
            grammar.insert(rule);
        }
        Ok(grammar)
    }
}

} // verus!
