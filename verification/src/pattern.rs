//! Regular expressions, which the `regex` crate compiles and matches for the
//! parser.

use regex::Regex;
use vstd::prelude::*;

verus! {

/// `regex::Regex`, a compiled regular expression. Nothing of its inside is
/// known here; it is carried from where it is compiled to where it is used.
#[verifier::external_type_specification]
#[verifier::external_body]
pub struct ExRegex(regex::Regex);

/// `regex::Error`, why a pattern did not compile. Nothing of its inside is
/// known here; the parser reports the pattern instead.
#[verifier::external_type_specification]
#[verifier::external_body]
pub struct ExRegexError(regex::Error);

/// A compiled regular expression, together with the text that it was
/// compiled from. Values are made by [`compile`] alone.
pub struct Compiled {
    source: String,
    regex: Regex,
}

impl View for Compiled {
    type V = Seq<char>;

    /// The text that the expression was compiled from.
    closed spec fn view(&self) -> Seq<char> {
        self.source@
    }
}

impl Compiled {
    /// Whether the expression was compiled from `pattern`.
    pub fn is_for(&self, pattern: &String) -> (r: bool)
        ensures
            r == (self@ == pattern@),
    {
        self.source == *pattern
    }
}

/// What trying a regular expression on a text gave.
#[derive(Debug)]
pub enum Probe {
    /// The expression does not compile.
    Invalid,
    /// The expression matches nowhere in the text.
    Absent,
    /// The leftmost match: the byte offset at which it starts, and its text.
    Found { start: usize, matched: String },
}

/// The mathematical value of a [`Probe`].
pub enum ProbeView {
    Invalid,
    Absent,
    Found { start: nat, matched: Seq<char> },
}

impl View for Probe {
    type V = ProbeView;

    open spec fn view(&self) -> ProbeView {
        match self {
            Probe::Invalid => ProbeView::Invalid,
            Probe::Absent => ProbeView::Absent,
            Probe::Found { start, matched } => ProbeView::Found {
                start: *start as nat,
                matched: matched@,
            },
        }
    }
}

/// Whether `regex::Regex::new` accepts `pattern`.
pub uninterp spec fn pattern_is_valid(pattern: Seq<char>) -> bool;

/// What `regex::Regex::find` gives for the expression compiled from `pattern`
/// on `text`: the byte offset of the start of the leftmost match and the
/// matched text, or nothing.
pub uninterp spec fn leftmost_match(pattern: Seq<char>, text: Seq<char>) -> Option<
    (nat, Seq<char>),
>;

/// What trying `pattern` on `text` gives.
pub open spec fn probe_of(pattern: Seq<char>, text: Seq<char>) -> ProbeView {
    if !pattern_is_valid(pattern) {
        ProbeView::Invalid
    } else {
        match leftmost_match(pattern, text) {
            None => ProbeView::Absent,
            Some((start, matched)) => ProbeView::Found { start, matched },
        }
    }
}

/// Compiles `pattern` with `regex::Regex::new`.
///
/// Believed, not proved: the call succeeds exactly on the patterns for which
/// the name [`pattern_is_valid`] stands, and what it gives is kept together
/// with the pattern.
#[verifier::external_body]
pub(crate) fn compile(pattern: &str) -> (r: Result<Compiled, regex::Error>)
    ensures
        match r {
            Ok(compiled) => compiled@ == pattern@ && pattern_is_valid(pattern@),
            Err(_) => !pattern_is_valid(pattern@),
        },
{
    match Regex::new(pattern) {
        Ok(regex) => Ok(Compiled { source: pattern.to_string(), regex }),
        Err(e) => Err(e),
    }
}

/// Searches `text` with `regex::Regex::find` and gives `Match::start` and
/// `Match::as_str` of what was found.
///
/// Believed, not proved: the answer depends on nothing but the text that the
/// expression was compiled from and the text that is searched; it is the one
/// for which the name [`leftmost_match`] stands.
#[verifier::external_body]
pub(crate) fn search(compiled: &Compiled, text: &str) -> (r: Option<(usize, String)>)
    ensures
        match r {
            Some((start, matched)) => leftmost_match(compiled@, text@) == Some(
                (start as nat, matched@),
            ),
            None => leftmost_match(compiled@, text@) is None,
        },
{
    match compiled.regex.find(text) {
        Some(m) => Some((m.start(), m.as_str().to_string())),
        None => None,
    }
}

/// Tries a compiled expression on `text`.
pub(crate) fn probe(compiled: &Compiled, text: &str) -> (r: Probe)
    requires
        pattern_is_valid(compiled@),
    ensures
        r@ == probe_of(compiled@, text@),
{
    match search(compiled, text) {
        Some((start, matched)) => Probe::Found { start, matched },
        None => Probe::Absent,
    }
}

/// The text that a probe matched at the very start of the searched text.
pub open spec fn anchored_text(probe: ProbeView) -> Option<Seq<char>> {
    match probe {
        ProbeView::Found { start, matched } => if start == 0 {
            Some(matched)
        } else {
            None
        },
        _ => None,
    }
}

/// The text that `probe` matched at the very start of the searched text: a
/// match that starts later is no match at the cursor.
pub fn anchored(probe: Probe) -> (r: Option<String>)
    ensures
        match r {
            Some(s) => anchored_text(probe@) == Some(s@),
            None => anchored_text(probe@) is None,
        },
{
    match probe {
        Probe::Found { start, matched } => if start == 0 {
            Some(matched)
        } else {
            None
        },
        _ => None,
    }
}

} // verus!
