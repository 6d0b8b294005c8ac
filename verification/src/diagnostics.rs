//! How the failures of the grammar compiler and of the parser are worded.

use crate::meta_parser::{GrammarError, GrammarErrorKind};
use crate::parser::{FailureView, ParseFailure};
use crate::report::render;
use crate::text::{decimal, decimal_chars, from_chars};
use vstd::prelude::*;
use vstd::string::StringExecFns;

verus! {

/// What was wrong, in words.
pub open spec fn kind_message(kind: GrammarErrorKind) -> Seq<char> {
    match kind {
        GrammarErrorKind::UnexpectedEnd => "Unexpected end of input"@,
        GrammarErrorKind::ExpectedChar { expected, found } => "Expected '"@ + seq![expected]
            + "', got '"@ + seq![found] + seq!['\''],
        GrammarErrorKind::UnclosedPattern => "Unclosed pattern"@,
        GrammarErrorKind::ExpectedRuleName => "Expected a rule name"@,
        GrammarErrorKind::ExpectedAssign => "Expected ':=' after rule name"@,
        GrammarErrorKind::ExpectedExpression => "Expected an expression"@,
        GrammarErrorKind::JoinWithoutRule => "join must follow a rule reference"@,
        GrammarErrorKind::ExpectedValue => "Expected @value after match"@,
        GrammarErrorKind::ExpectedArrow => "Expected '=>' in match"@,
        GrammarErrorKind::ExpectedContext => "Expected @context after if"@,
        GrammarErrorKind::ExpectedEquals => "Expected '==' after @context"@,
        GrammarErrorKind::ExpectedThen => "Expected 'then' after context value"@,
        GrammarErrorKind::ExpectedElse => "Expected 'else' after then expression"@,
    }
}

/// What was wrong and where: the message of the kind, and the position.
pub open spec fn grammar_error_message(e: GrammarError) -> Seq<char> {
    kind_message(e.kind) + " at position "@ + decimal(e.position as nat)
}

/// How a failed parse is worded: a syntax error as its report; the others in
/// one line, which names the pattern if one is at fault.
pub open spec fn failure_message(f: FailureView) -> Seq<char> {
    match f {
        FailureView::Syntax(e) => render(e),
        FailureView::BadPattern(pattern) => "Invalid regex pattern: "@ + pattern,
        FailureView::TooDeep => "The grammar nests too deep on this text"@,
    }
}

impl GrammarErrorKind {
    /// What was wrong, in words.
    pub fn message(&self) -> (s: String)
        ensures
            s@ == kind_message(*self),
    {
        match self {
            GrammarErrorKind::UnexpectedEnd => "Unexpected end of input".to_owned(),
            GrammarErrorKind::ExpectedChar { expected, found } => {
                let mut s = "Expected '".to_owned();
                s.push(*expected);
                s.append("', got '");
                s.push(*found);
                s.push('\'');
                assert(s@ =~= kind_message(*self));
                s
            },
            GrammarErrorKind::UnclosedPattern => "Unclosed pattern".to_owned(),
            GrammarErrorKind::ExpectedRuleName => "Expected a rule name".to_owned(),
            GrammarErrorKind::ExpectedAssign => "Expected ':=' after rule name".to_owned(),
            GrammarErrorKind::ExpectedExpression => "Expected an expression".to_owned(),
            GrammarErrorKind::JoinWithoutRule => "join must follow a rule reference".to_owned(),
            GrammarErrorKind::ExpectedValue => "Expected @value after match".to_owned(),
            GrammarErrorKind::ExpectedArrow => "Expected '=>' in match".to_owned(),
            GrammarErrorKind::ExpectedContext => "Expected @context after if".to_owned(),
            GrammarErrorKind::ExpectedEquals => "Expected '==' after @context".to_owned(),
            GrammarErrorKind::ExpectedThen => "Expected 'then' after context value".to_owned(),
            GrammarErrorKind::ExpectedElse => "Expected 'else' after then expression".to_owned(),
        }
    }
}

impl GrammarError {
    /// What was wrong and where.
    pub fn to_string(&self) -> (s: String)
        ensures
            s@ == grammar_error_message(*self),
    {
        let mut s = self.kind.message();
        s.append(" at position ");
        let position = from_chars(&decimal_chars(self.position));
        s.append(position.as_str());
        s
    }
}

impl ParseFailure {
    /// How the failure is worded.
    pub fn to_string(&self) -> (s: String)
        ensures
            s@ == failure_message(self@),
    {
        match self {
            ParseFailure::Syntax(e) => e.to_string(),
            ParseFailure::BadPattern(pattern) => {
                let mut s = "Invalid regex pattern: ".to_owned();
                s.append(pattern.as_str());
                s
            },
            ParseFailure::TooDeep => "The grammar nests too deep on this text".to_owned(),
        }
    }
}

} // verus!
