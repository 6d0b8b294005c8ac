//! The lexical layer of the grammar notations: blanks and comments,
//! identifiers, quoted strings and bracketed patterns.

use crate::meta_parser::{GrammarError, GrammarErrorKind, MetaParser};
use crate::text::{
    has_prefix_at, ident_char, is_ident_char, is_space, lemma_skip_while, lemma_skip_while_unique,
    skip_while, space, starts_with_at, substring, to_chars,
};
use vstd::prelude::*;

verus! {

/// The end of the whitespace that starts at `pos`.
pub open spec fn skip_spaces(text: Seq<char>, pos: int) -> int {
    skip_while(text, pos, |c: char| is_space(c))
}

/// The end of the identifier characters that start at `pos`.
pub open spec fn ident_end(text: Seq<char>, pos: int) -> int {
    skip_while(text, pos, |c: char| is_ident_char(c))
}

/// The position of the first `"` at or after `pos`, or the end of `text`.
pub open spec fn quote_end(text: Seq<char>, pos: int) -> int {
    skip_while(text, pos, |c: char| c != '"')
}

/// The start of the line after the one that holds `pos`, or the end of
/// `text`.
pub open spec fn line_end(text: Seq<char>, pos: int) -> int {
    let q = skip_while(text, pos, |c: char| c != '\n');
    if q < text.len() {
        q + 1
    } else {
        q
    }
}

/// Whether a `//` comment starts at `pos`.
pub open spec fn comment_at(text: Seq<char>, pos: int) -> bool {
    0 <= pos && pos + 1 < text.len() && text[pos] == '/' && text[pos + 1] == '/'
}

/// The end of the whitespace and comments that start at `pos`.
pub open spec fn skip_trivia(text: Seq<char>, pos: int) -> int
    decreases text.len() - pos,
{
    if 0 <= pos <= text.len() {
        let p = skip_spaces(text, pos);
        if comment_at(text, p) {
            proof {
                lemma_skip_while(text, pos, |c: char| is_space(c));
                lemma_skip_while(text, p + 2, |c: char| c != '\n');
            }
            skip_trivia(text, line_end(text, p + 2))
        } else {
            p
        }
    } else {
        pos
    }
}

/// Skipping blanks and comments moves forward and stays within the text.
pub proof fn lemma_skip_trivia(text: Seq<char>, pos: int)
    requires
        0 <= pos <= text.len(),
    ensures
        pos <= skip_trivia(text, pos) <= text.len(),
    decreases text.len() - pos,
{
    lemma_skip_while(text, pos, |c: char| is_space(c));
    let p = skip_spaces(text, pos);
    if comment_at(text, p) {
        lemma_skip_while(text, p + 2, |c: char| c != '\n');
        lemma_skip_trivia(text, line_end(text, p + 2));
    }
}

/// Whether `word` stands at `pos` and no identifier character follows it.
pub open spec fn keyword_at(text: Seq<char>, pos: int, word: Seq<char>) -> bool {
    &&& has_prefix_at(text, pos, word)
    &&& pos + word.len() < text.len() ==> !is_ident_char(text[pos + word.len()])
}

/// An error of kind `kind` at `pos`.
pub open spec fn error_at(kind: GrammarErrorKind, pos: int) -> GrammarError {
    GrammarError { kind, position: pos as usize }
}

/// The position after the character `expected`, which must stand at `pos`.
pub open spec fn lex_char(text: Seq<char>, pos: int, expected: char) -> Result<int, GrammarError> {
    if !(0 <= pos < text.len()) {
        Err(error_at(GrammarErrorKind::UnexpectedEnd, pos))
    } else if text[pos] != expected {
        Err(error_at(GrammarErrorKind::ExpectedChar { expected, found: text[pos] }, pos))
    } else {
        Ok(pos + 1)
    }
}

/// The position after `word`, which must stand at `pos`; else an error of
/// kind `kind`.
pub open spec fn lex_word(text: Seq<char>, pos: int, word: Seq<char>, kind: GrammarErrorKind)
    -> Result<int, GrammarError> {
    if has_prefix_at(text, pos, word) {
        Ok(pos + word.len())
    } else {
        Err(error_at(kind, pos))
    }
}

/// The position after the keyword `word`, which must stand at `pos`; else an
/// error of kind `kind`.
pub open spec fn lex_keyword(text: Seq<char>, pos: int, word: Seq<char>, kind: GrammarErrorKind)
    -> Result<int, GrammarError> {
    if keyword_at(text, pos, word) {
        Ok(pos + word.len())
    } else {
        Err(error_at(kind, pos))
    }
}

/// The quoted string that starts at `pos`: what stands between the quotes,
/// taken as it is, and the position after the closing quote.
pub open spec fn lex_string(text: Seq<char>, pos: int) -> Result<(Seq<char>, int), GrammarError> {
    match lex_char(text, pos, '"') {
        Err(e) => Err(e),
        Ok(start) => {
            let end = quote_end(text, start);
            match lex_char(text, end, '"') {
                Err(e) => Err(e),
                Ok(after) => Ok((text.subrange(start, end), after)),
            }
        },
    }
}

/// A quoted string takes two characters at least and ends within the text.
pub proof fn lemma_lex_string(text: Seq<char>, pos: int)
    requires
        0 <= pos <= text.len(),
    ensures
        lex_string(text, pos) matches Ok((_, after)) ==> pos + 2 <= after <= text.len(),
{
    if lex_char(text, pos, '"') is Ok {
        lemma_skip_while(text, pos + 1, |c: char| c != '"');
    }
}

/// The position after the `]` that closes a pattern of which `depth`
/// brackets are open at `pos`.
pub open spec fn bracket_end(text: Seq<char>, pos: int, depth: nat) -> Option<int>
    decreases text.len() - pos,
{
    if !(0 <= pos < text.len()) {
        None
    } else if text[pos] == ']' && depth <= 1 {
        Some(pos + 1)
    } else {
        bracket_end(
            text,
            pos + 1,
            if text[pos] == '[' {
                depth + 1
            } else if text[pos] == ']' {
                (depth - 1) as nat
            } else {
                depth
            },
        )
    }
}

/// A closing bracket, if there is one, lies further on and within the text.
pub proof fn lemma_bracket_end(text: Seq<char>, pos: int, depth: nat)
    requires
        0 <= pos <= text.len(),
    ensures
        bracket_end(text, pos, depth) matches Some(end) ==> pos < end <= text.len(),
    decreases text.len() - pos,
{
    if !(0 <= pos < text.len()) {
    } else if text[pos] == ']' && depth <= 1 {
    } else {
        lemma_bracket_end(
            text,
            pos + 1,
            if text[pos] == '[' {
                depth + 1
            } else if text[pos] == ']' {
                (depth - 1) as nat
            } else {
                depth
            },
        );
    }
}

/// The bracketed pattern that starts at `pos`: what stands between the outer
/// brackets, inner brackets included, and the position after the closing one.
pub open spec fn lex_pattern(text: Seq<char>, pos: int) -> Result<(Seq<char>, int), GrammarError> {
    match lex_char(text, pos, '[') {
        Err(e) => Err(e),
        Ok(start) => match bracket_end(text, start, 1) {
            None => Err(error_at(GrammarErrorKind::UnclosedPattern, text.len() as int)),
            Some(after) => Ok((text.subrange(start, after - 1), after)),
        },
    }
}

/// The end of the whitespace that starts at `pos`.
fn spaces_end(text: &Vec<char>, pos: usize) -> (end: usize)
    requires
        pos <= text.len(),
    ensures
        end == skip_spaces(text@, pos as int),
        pos <= end <= text.len(),
{
    let mut end = pos;
    while end < text.len() && space(text[end])
        invariant
            pos <= end <= text.len(),
            forall|i: int| pos <= i < end ==> is_space(#[trigger] text@[i]),
        decreases text.len() - end,
    {
        end += 1;
    }
    proof {
        lemma_skip_while_unique(text@, pos as int, |c: char| is_space(c), end as int);
    }
    end
}

/// The end of the identifier characters that start at `pos`.
fn identifier_end(text: &Vec<char>, pos: usize) -> (end: usize)
    requires
        pos <= text.len(),
    ensures
        end == ident_end(text@, pos as int),
        pos <= end <= text.len(),
{
    let mut end = pos;
    while end < text.len() && ident_char(text[end])
        invariant
            pos <= end <= text.len(),
            forall|i: int| pos <= i < end ==> is_ident_char(#[trigger] text@[i]),
        decreases text.len() - end,
    {
        end += 1;
    }
    proof {
        lemma_skip_while_unique(text@, pos as int, |c: char| is_ident_char(c), end as int);
    }
    end
}

/// The first position at or after `pos` that holds `stop`, or the end.
fn until_char(text: &Vec<char>, pos: usize, stop: char) -> (end: usize)
    requires
        pos <= text.len(),
    ensures
        end == skip_while(text@, pos as int, |c: char| c != stop),
        pos <= end <= text.len(),
{
    let mut end = pos;
    while end < text.len() && text[end] != stop
        invariant
            pos <= end <= text.len(),
            forall|i: int| pos <= i < end ==> #[trigger] text@[i] != stop,
        decreases text.len() - end,
    {
        end += 1;
    }
    proof {
        lemma_skip_while_unique(text@, pos as int, |c: char| c != stop, end as int);
    }
    end
}

/// The end of the whitespace and comments that start at `pos`.
fn trivia_end(text: &Vec<char>, pos: usize) -> (end: usize)
    requires
        pos <= text.len(),
    ensures
        end == skip_trivia(text@, pos as int),
        pos <= end <= text.len(),
{
    let mut end = pos;
    proof {
        lemma_skip_trivia(text@, pos as int);
    }
    loop
        invariant_except_break
            skip_trivia(text@, end as int) == skip_trivia(text@, pos as int),
        invariant
            pos <= end <= text.len(),
        ensures
            pos <= end <= text.len(),
            end == skip_trivia(text@, pos as int),
        decreases text.len() - end,
    {
        let p = spaces_end(text, end);
        if text.len() - p >= 2 && text[p] == '/' && text[p + 1] == '/' {
            let q = until_char(text, p + 2, '\n');
            end = if q < text.len() {
                q + 1
            } else {
                q
            };
        } else {
            end = p;
            break;
        }
    }
    end
}

impl MetaParser {
    /// The characters of the grammar text.
    pub closed spec fn text(&self) -> Seq<char> {
        self.input@
    }

    /// The position of the cursor.
    pub closed spec fn cursor(&self) -> int {
        self.pos as int
    }

    /// The cursor is within the text or at its end.
    pub open spec fn well_formed(&self) -> bool {
        0 <= self.cursor() <= self.text().len() <= usize::MAX
    }

    /// A compiler for the grammar text `input`, at its start.
    pub fn new(input: &str) -> (parser: MetaParser)
        ensures
            parser.well_formed(),
            parser.text() == input@,
            parser.cursor() == 0,
    {
        let chars = to_chars(input);
        assert(chars.len() <= usize::MAX);
        MetaParser { input: chars, pos: 0 }
    }

    /// Moves the cursor past whitespace and `//` comments.
    pub fn skip_whitespace_and_comments(&mut self)
        requires
            old(self).well_formed(),
        ensures
            final(self).well_formed(),
            final(self).text() == old(self).text(),
            final(self).cursor() == skip_trivia(old(self).text(), old(self).cursor()),
            final(self).cursor() >= old(self).cursor(),
    {
        self.pos = trivia_end(&self.input, self.pos);
    }

    /// The position of the cursor.
    pub fn position(&self) -> (p: usize)
        ensures
            p == self.cursor(),
    {
        self.pos
    }

    /// Whether the cursor is at the end of the text.
    pub fn at_end(&self) -> (r: bool)
        requires
            self.well_formed(),
        ensures
            r == (self.cursor() >= self.text().len()),
    {
        self.pos >= self.input.len()
    }

    /// Whether `c` is the next character after blanks and comments.
    pub fn next_is(&self, c: char) -> (r: bool)
        requires
            self.well_formed(),
        ensures
            r == ({
                let p = skip_trivia(self.text(), self.cursor());
                0 <= p < self.text().len() && self.text()[p] == c
            }),
    {
        let p = trivia_end(&self.input, self.pos);
        p < self.input.len() && self.input[p] == c
    }

    /// The character under the cursor.
    pub fn peek_char(&self) -> (c: Option<char>)
        requires
            self.well_formed(),
        ensures
            c == if self.cursor() < self.text().len() {
                Some(self.text()[self.cursor()])
            } else {
                None
            },
    {
        if self.pos < self.input.len() {
            Some(self.input[self.pos])
        } else {
            None
        }
    }

    /// Takes the character under the cursor.
    pub fn consume_char(&mut self) -> (c: Option<char>)
        requires
            old(self).well_formed(),
        ensures
            final(self).well_formed(),
            final(self).text() == old(self).text(),
            c == if old(self).cursor() < old(self).text().len() {
                Some(old(self).text()[old(self).cursor()])
            } else {
                None
            },
            final(self).cursor() == if c is Some {
                old(self).cursor() + 1
            } else {
                old(self).cursor()
            },
    {
        if self.pos < self.input.len() {
            let c = self.input[self.pos];
            self.pos += 1;
            Some(c)
        } else {
            None
        }
    }

    /// Takes the character `expected`, which must stand under the cursor.
    pub fn expect_char(&mut self, expected: char) -> (r: Result<(), GrammarError>)
        requires
            old(self).well_formed(),
        ensures
            final(self).well_formed(),
            final(self).text() == old(self).text(),
            match r {
                Ok(_) => lex_char(old(self).text(), old(self).cursor(), expected) == Ok::<
                    int,
                    GrammarError,
                >(final(self).cursor()),
                Err(e) => lex_char(old(self).text(), old(self).cursor(), expected) == Err::<
                    int,
                    GrammarError,
                >(e),
            },
    {
        if self.pos >= self.input.len() {
            Err(GrammarError { kind: GrammarErrorKind::UnexpectedEnd, position: self.pos })
        } else if self.input[self.pos] != expected {
            Err(
                GrammarError {
                    kind: GrammarErrorKind::ExpectedChar { expected, found: self.input[self.pos] },
                    position: self.pos,
                },
            )
        } else {
            self.pos += 1;
            Ok(())
        }
    }

    /// Whether the keyword `word` stands under the cursor: the word, and no
    /// identifier character after it.
    pub fn at_keyword(&self, word: &str) -> (r: bool)
        requires
            self.well_formed(),
        ensures
            r == keyword_at(self.text(), self.cursor(), word@),
    {
        let w = to_chars(word);
        if !starts_with_at(&self.input, self.pos, &w) {
            return false;
        }
        let after = self.pos + w.len();
        after >= self.input.len() || !ident_char(self.input[after])
    }

    /// Takes the keyword `word` if it stands under the cursor, and says
    /// whether it did.
    pub fn accept_keyword(&mut self, word: &str) -> (r: bool)
        requires
            old(self).well_formed(),
        ensures
            final(self).well_formed(),
            final(self).text() == old(self).text(),
            r == keyword_at(old(self).text(), old(self).cursor(), word@),
            final(self).cursor() == if r {
                old(self).cursor() + word@.len()
            } else {
                old(self).cursor()
            },
    {
        if self.at_keyword(word) {
            let w = to_chars(word);
            self.pos += w.len();
            true
        } else {
            false
        }
    }

    /// Takes `word` if it stands under the cursor, and says whether it did.
    pub fn accept_word(&mut self, word: &str) -> (r: bool)
        requires
            old(self).well_formed(),
        ensures
            final(self).well_formed(),
            final(self).text() == old(self).text(),
            r == has_prefix_at(old(self).text(), old(self).cursor(), word@),
            final(self).cursor() == if r {
                old(self).cursor() + word@.len()
            } else {
                old(self).cursor()
            },
    {
        let w = to_chars(word);
        if starts_with_at(&self.input, self.pos, &w) {
            self.pos += w.len();
            true
        } else {
            false
        }
    }

    /// Takes `word`, which must stand under the cursor; else fails with
    /// `kind`.
    pub fn expect_word(&mut self, word: &str, kind: GrammarErrorKind) -> (r: Result<
        (),
        GrammarError,
    >)
        requires
            old(self).well_formed(),
        ensures
            final(self).well_formed(),
            final(self).text() == old(self).text(),
            match r {
                Ok(_) => lex_word(old(self).text(), old(self).cursor(), word@, kind) == Ok::<
                    int,
                    GrammarError,
                >(final(self).cursor()),
                Err(e) => lex_word(old(self).text(), old(self).cursor(), word@, kind) == Err::<
                    int,
                    GrammarError,
                >(e),
            },
    {
        let w = to_chars(word);
        if starts_with_at(&self.input, self.pos, &w) {
            self.pos += w.len();
            Ok(())
        } else {
            Err(GrammarError { kind, position: self.pos })
        }
    }

    /// Takes the keyword `word`, which must stand under the cursor; else
    /// fails with `kind`.
    pub fn expect_keyword(&mut self, word: &str, kind: GrammarErrorKind) -> (r: Result<
        (),
        GrammarError,
    >)
        requires
            old(self).well_formed(),
        ensures
            final(self).well_formed(),
            final(self).text() == old(self).text(),
            match r {
                Ok(_) => lex_keyword(old(self).text(), old(self).cursor(), word@, kind) == Ok::<
                    int,
                    GrammarError,
                >(final(self).cursor()),
                Err(e) => lex_keyword(old(self).text(), old(self).cursor(), word@, kind) == Err::<
                    int,
                    GrammarError,
                >(e),
            },
    {
        if self.at_keyword(word) {
            let w = to_chars(word);
            self.pos += w.len();
            Ok(())
        } else {
            Err(GrammarError { kind, position: self.pos })
        }
    }

    /// Takes the identifier characters under the cursor; the result is empty
    /// if there are none.
    pub fn parse_identifier(&mut self) -> (name: String)
        requires
            old(self).well_formed(),
        ensures
            final(self).well_formed(),
            final(self).text() == old(self).text(),
            final(self).cursor() == ident_end(old(self).text(), old(self).cursor()),
            final(self).cursor() >= old(self).cursor(),
            name@ == old(self).text().subrange(old(self).cursor(), final(self).cursor()),
    {
        let start = self.pos;
        let end = identifier_end(&self.input, start);
        self.pos = end;
        substring(&self.input, start, end)
    }

    /// Takes the quoted string under the cursor and gives what stands between
    /// its quotes.
    pub fn parse_string_literal(&mut self) -> (r: Result<String, GrammarError>)
        requires
            old(self).well_formed(),
        ensures
            final(self).well_formed(),
            final(self).text() == old(self).text(),
            match r {
                Ok(s) => lex_string(old(self).text(), old(self).cursor()) == Ok::<
                    (Seq<char>, int),
                    GrammarError,
                >((s@, final(self).cursor())) && final(self).cursor() >= old(self).cursor() + 2,
                Err(e) => lex_string(old(self).text(), old(self).cursor()) == Err::<
                    (Seq<char>, int),
                    GrammarError,
                >(e),
            },
    {
        match self.expect_char('"') {
            Err(e) => {
                return Err(e);
            },
            Ok(_) => {},
        }
        let start = self.pos;
        let end = until_char(&self.input, start, '"');
        self.pos = end;
        match self.expect_char('"') {
            Err(e) => Err(e),
            Ok(_) => Ok(substring(&self.input, start, end)),
        }
    }

    /// Takes the bracketed pattern under the cursor and gives what stands
    /// between its outer brackets.
    pub fn parse_pattern(&mut self) -> (r: Result<String, GrammarError>)
        requires
            old(self).well_formed(),
        ensures
            final(self).well_formed(),
            final(self).text() == old(self).text(),
            match r {
                Ok(s) => lex_pattern(old(self).text(), old(self).cursor()) == Ok::<
                    (Seq<char>, int),
                    GrammarError,
                >((s@, final(self).cursor())) && final(self).cursor() >= old(self).cursor() + 2,
                Err(e) => lex_pattern(old(self).text(), old(self).cursor()) == Err::<
                    (Seq<char>, int),
                    GrammarError,
                >(e),
            },
    {
        match self.expect_char('[') {
            Err(e) => {
                return Err(e);
            },
            Ok(_) => {},
        }
        let start = self.pos;
        let mut depth: usize = 1;
        let mut at = start;
        while at < self.input.len()
            invariant
                self.well_formed(),
                self.text() == old(self).text(),
                self.pos == start,
                start == old(self).cursor() + 1,
                start <= at <= self.input.len(),
                1 <= depth <= at - start + 1,
                bracket_end(self.text(), start as int, 1) == bracket_end(
                    self.text(),
                    at as int,
                    depth as nat,
                ),
                lex_char(old(self).text(), old(self).cursor(), '[') == Ok::<int, GrammarError>(
                    start as int,
                ),
            decreases self.input.len() - at,
        {
            let c = self.input[at];
            if c == ']' && depth <= 1 {
                self.pos = at + 1;
                return Ok(substring(&self.input, start, at));
            }
            if c == '[' {
                depth += 1;
            } else if c == ']' {
                depth -= 1;
            }
            at += 1;
        }
        Err(GrammarError { kind: GrammarErrorKind::UnclosedPattern, position: self.input.len() })
    }
}

} // verus!
