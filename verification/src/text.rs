//! Character-level helpers shared by the grammar compiler, the source parser
//! and the generator. Text is modelled as `Seq<char>`; executable code scans
//! `Vec<char>` buffers and builds `String`s from them.

use vstd::prelude::*;
use vstd::string::StringExecFns;

verus! {

/// `String::push` appends exactly one character at the end.
pub assume_specification[ String::push ](s: &mut String, c: char)
    ensures
        final(s)@ == old(s)@.push(c),
;

/// Horizontal whitespace: what terminals of a source grammar skip.
pub open spec fn is_inline_space(c: char) -> bool {
    c == ' ' || c == '\t' || c == '\r'
}

/// Unicode `White_Space`.
pub open spec fn is_space(c: char) -> bool {
    let n = c as u32;
    ||| 0x09 <= n <= 0x0D
    ||| n == 0x20
    ||| n == 0x85
    ||| n == 0xA0
    ||| n == 0x1680
    ||| 0x2000 <= n <= 0x200A
    ||| n == 0x2028
    ||| n == 0x2029
    ||| n == 0x202F
    ||| n == 0x205F
    ||| n == 0x3000
}

/// First character of an identifier: `[A-Za-z_]`.
pub open spec fn is_ident_start(c: char) -> bool {
    ('a' <= c <= 'z') || ('A' <= c <= 'Z') || c == '_'
}

/// Later character of an identifier: `[A-Za-z0-9_]`.
pub open spec fn is_ident_char(c: char) -> bool {
    is_ident_start(c) || ('0' <= c <= '9')
}

/// Every character of `s` is whitespace (so trimming `s` leaves nothing).
pub open spec fn is_blank(s: Seq<char>) -> bool {
    forall|i: int| 0 <= i < s.len() ==> is_space(#[trigger] s[i])
}

/// `text` continues with `word` at `pos`.
pub open spec fn has_prefix_at(text: Seq<char>, pos: int, word: Seq<char>) -> bool {
    &&& 0 <= pos
    &&& pos + word.len() <= text.len()
    &&& text.subrange(pos, pos + word.len()) == word
}

/// The number of leading characters of `s` that satisfy `pred`.
pub open spec fn run_length(s: Seq<char>, pred: spec_fn(char) -> bool) -> nat
    decreases s.len(),
{
    if s.len() > 0 && pred(s[0]) {
        1 + run_length(s.drop_first(), pred)
    } else {
        0
    }
}

/// The first position at or after `pos` whose character does not satisfy
/// `pred`, or the end of `text`.
pub open spec fn skip_while(text: Seq<char>, pos: int, pred: spec_fn(char) -> bool) -> int
    recommends
        0 <= pos <= text.len(),
{
    pos + run_length(text.skip(pos), pred)
}

/// A run lies within the text, all its members satisfy the predicate, and
/// the character after it does not.
pub proof fn lemma_run_length_bounds(s: Seq<char>, pred: spec_fn(char) -> bool)
    ensures
        run_length(s, pred) <= s.len(),
        forall|i: int| 0 <= i < run_length(s, pred) ==> pred(#[trigger] s[i]),
        run_length(s, pred) < s.len() ==> !pred(s[run_length(s, pred) as int]),
    decreases s.len(),
{
    if s.len() > 0 && pred(s[0]) {
        let t = s.drop_first();
        lemma_run_length_bounds(t, pred);
        assert forall|i: int| 0 <= i < run_length(s, pred) implies pred(#[trigger] s[i]) by {
            if i > 0 {
                assert(s[i] == t[i - 1]);
            }
        }
        if run_length(s, pred) < s.len() {
            assert(s[run_length(s, pred) as int] == t[run_length(t, pred) as int]);
        }
    }
}

/// A run is characterised by its members and the character that ends it.
pub proof fn lemma_run_length_unique(s: Seq<char>, pred: spec_fn(char) -> bool, n: int)
    requires
        0 <= n <= s.len(),
        forall|i: int| 0 <= i < n ==> pred(#[trigger] s[i]),
        n < s.len() ==> !pred(s[n]),
    ensures
        run_length(s, pred) == n,
    decreases s.len(),
{
    if s.len() > 0 && pred(s[0]) {
        let t = s.drop_first();
        assert forall|i: int| 0 <= i < n - 1 implies pred(#[trigger] t[i]) by {
            assert(t[i] == s[i + 1]);
        }
        if n - 1 < t.len() {
            assert(t[n - 1] == s[n]);
        }
        lemma_run_length_unique(t, pred, n - 1);
    }
}

/// Skipping moves forward and stays within the text; what is skipped
/// satisfies the predicate, and what follows does not.
pub proof fn lemma_skip_while(text: Seq<char>, pos: int, pred: spec_fn(char) -> bool)
    requires
        0 <= pos <= text.len(),
    ensures
        pos <= skip_while(text, pos, pred) <= text.len(),
        forall|i: int| pos <= i < skip_while(text, pos, pred) ==> pred(#[trigger] text[i]),
        skip_while(text, pos, pred) < text.len() ==> !pred(text[skip_while(text, pos, pred)]),
{
    let s = text.skip(pos);
    lemma_run_length_bounds(s, pred);
    assert forall|i: int| pos <= i < skip_while(text, pos, pred) implies pred(
        #[trigger] text[i],
    ) by {
        assert(text[i] == s[i - pos]);
    }
    if skip_while(text, pos, pred) < text.len() {
        assert(text[skip_while(text, pos, pred)] == s[run_length(s, pred) as int]);
    }
}

/// Where skipping ends is known from what is skipped and what follows.
pub proof fn lemma_skip_while_unique(
    text: Seq<char>,
    pos: int,
    pred: spec_fn(char) -> bool,
    end: int,
)
    requires
        0 <= pos <= end <= text.len(),
        forall|i: int| pos <= i < end ==> pred(#[trigger] text[i]),
        end < text.len() ==> !pred(text[end]),
    ensures
        skip_while(text, pos, pred) == end,
{
    let s = text.skip(pos);
    assert forall|i: int| 0 <= i < end - pos implies pred(#[trigger] s[i]) by {
        assert(s[i] == text[pos + i]);
    }
    if end - pos < s.len() {
        assert(s[end - pos] == text[end]);
    }
    lemma_run_length_unique(s, pred, end - pos);
}

/// Whether `c` is a space, a tab or a carriage return.
pub fn inline_space(c: char) -> (r: bool)
    ensures
        r == is_inline_space(c),
{
    c == ' ' || c == '\t' || c == '\r'
}

/// Whether `c` is whitespace.
pub fn space(c: char) -> (r: bool)
    ensures
        r == is_space(c),
{
    let n: u32 = c as u32;
    (0x09 <= n && n <= 0x0D) || n == 0x20 || n == 0x85 || n == 0xA0 || n == 0x1680 || (0x2000 <= n
        && n <= 0x200A) || n == 0x2028 || n == 0x2029 || n == 0x202F || n == 0x205F || n == 0x3000
}

/// Whether `c` may start an identifier.
pub fn ident_start(c: char) -> (r: bool)
    ensures
        r == is_ident_start(c),
{
    ('a' <= c && c <= 'z') || ('A' <= c && c <= 'Z') || c == '_'
}

/// Whether `c` may continue an identifier.
pub fn ident_char(c: char) -> (r: bool)
    ensures
        r == is_ident_char(c),
{
    ident_start(c) || ('0' <= c && c <= '9')
}

/// The characters of a string slice, in order.
pub fn to_chars(s: &str) -> (v: Vec<char>)
    ensures
        v@ == s@,
{
    let mut v: Vec<char> = Vec::new();
    for c in it: s.chars()
        invariant
            v@ == it.seq().take(it.index() as int),
            it.seq() == s@,
    {
        v.push(c);
    }
    v
}

/// The string made of `v[from..to]`.
pub fn substring(v: &Vec<char>, from: usize, to: usize) -> (s: String)
    requires
        from <= to <= v.len(),
    ensures
        s@ == v@.subrange(from as int, to as int),
{
    let mut s = String::new();
    let mut i: usize = from;
    while i < to
        invariant
            from <= i <= to <= v.len(),
            s@ == v@.subrange(from as int, i as int),
        decreases to - i,
    {
        s.push(v[i]);
        i += 1;
    }
    s
}

/// The string made of all of `v`.
pub fn from_chars(v: &Vec<char>) -> (s: String)
    ensures
        s@ == v@,
{
    let s = substring(v, 0, v.len());
    assert(v@.subrange(0, v.len() as int) == v@);
    s
}

/// Whether `text` continues with `word` at `pos`.
pub fn starts_with_at(text: &Vec<char>, pos: usize, word: &Vec<char>) -> (r: bool)
    requires
        pos <= text.len(),
    ensures
        r == has_prefix_at(text@, pos as int, word@),
{
    if word.len() > text.len() - pos {
        return false;
    }
    let mut i: usize = 0;
    while i < word.len()
        invariant
            i <= word.len(),
            pos + word.len() <= text.len(),
            text@.subrange(pos as int, pos + i) == word@.take(i as int),
        decreases word.len() - i,
    {
        if text[pos + i] != word[i] {
            assert(text@.subrange(pos as int, pos + word.len())[i as int] != word@[i as int]);
            return false;
        }
        assert(text@.subrange(pos as int, pos + i + 1) == text@.subrange(
            pos as int,
            pos + i,
        ).push(text@[pos + i]));
        assert(word@.take(i + 1) == word@.take(i as int).push(word@[i as int]));
        i += 1;
    }
    assert(word@.take(word.len() as int) == word@);
    true
}

/// Whether every character of `s` is whitespace.
pub fn blank(s: &Vec<char>) -> (r: bool)
    ensures
        r == is_blank(s@),
{
    let mut i: usize = 0;
    while i < s.len()
        invariant
            i <= s.len(),
            forall|j: int| 0 <= j < i ==> is_space(#[trigger] s@[j]),
        decreases s.len() - i,
    {
        if !space(s[i]) {
            return false;
        }
        i += 1;
    }
    true
}

/// `s` with each two-character escape `\n`, `\t`, `\r` replaced by the
/// character it stands for, read left to right.
pub open spec fn expand_escapes(s: Seq<char>) -> Seq<char>
    decreases s.len(),
{
    if s.len() == 0 {
        s
    } else if s.len() >= 2 && s[0] == '\\' && (s[1] == 'n' || s[1] == 't' || s[1] == 'r') {
        seq![escape_value(s[1])] + expand_escapes(s.skip(2))
    } else {
        seq![s[0]] + expand_escapes(s.skip(1))
    }
}

/// The character that the escape letter `c` stands for.
pub open spec fn escape_value(c: char) -> char {
    if c == 'n' {
        '\n'
    } else if c == 't' {
        '\t'
    } else {
        '\r'
    }
}

/// Expanding from a position on: the escape or character there, then the
/// rest.
proof fn lemma_expand_step(s: Seq<char>, i: int)
    requires
        0 <= i < s.len(),
    ensures
        i + 1 < s.len() && s[i] == '\\' && (s[i + 1] == 'n' || s[i + 1] == 't' || s[i + 1] == 'r')
            ==> expand_escapes(s.skip(i)) == seq![escape_value(s[i + 1])] + expand_escapes(
            s.skip(i + 2),
        ),
        !(i + 1 < s.len() && s[i] == '\\' && (s[i + 1] == 'n' || s[i + 1] == 't' || s[i + 1]
            == 'r')) ==> expand_escapes(s.skip(i)) == seq![s[i]] + expand_escapes(s.skip(i + 1)),
{
    let t = s.skip(i);
    assert(t[0] == s[i]);
    if i + 1 < s.len() {
        assert(t[1] == s[i + 1]);
    }
    assert(t.skip(1) == s.skip(i + 1));
    if i + 1 < s.len() {
        assert(t.skip(2) == s.skip(i + 2));
    }
}

/// Expands the escapes of `s`.
pub fn expand(s: &str) -> (r: String)
    ensures
        r@ == expand_escapes(s@),
{
    let v = to_chars(s);
    let mut r = String::new();
    let mut i: usize = 0;
    assert(v@.skip(0) == v@);
    assert(r@ + expand_escapes(v@) == expand_escapes(v@));
    while i < v.len()
        invariant
            i <= v.len(),
            v@ == s@,
            r@ + expand_escapes(v@.skip(i as int)) == expand_escapes(v@),
        decreases v.len() - i,
    {
        proof {
            lemma_expand_step(v@, i as int);
        }
        let ghost before = r@;
        if v[i] == '\\' && i + 1 < v.len() && (v[i + 1] == 'n' || v[i + 1] == 't' || v[i + 1]
            == 'r') {
            let c = if v[i + 1] == 'n' {
                '\n'
            } else if v[i + 1] == 't' {
                '\t'
            } else {
                '\r'
            };
            r.push(c);
            assert(before.push(c) + expand_escapes(v@.skip(i + 2)) == before + (seq![c]
                + expand_escapes(v@.skip(i + 2))));
            i += 2;
        } else {
            r.push(v[i]);
            assert(before.push(v@[i as int]) + expand_escapes(v@.skip(i + 1)) == before + (
            seq![v@[i as int]] + expand_escapes(v@.skip(i + 1))));
            i += 1;
        }
    }
    assert(v@.skip(v.len() as int).len() == 0);
    assert(r@ + Seq::<char>::empty() == r@);
    r
}

/// `a` followed by `b`.
pub fn appended(a: String, b: &String) -> (r: String)
    ensures
        r@ == a@ + b@,
{
    let mut r = a;
    r.append(b.as_str());
    r
}

/// The decimal digits of `n`, most significant first, without leading zeros.
pub open spec fn decimal(n: nat) -> Seq<char>
    decreases n,
{
    if n < 10 {
        seq![digit(n)]
    } else {
        decimal(n / 10).push(digit(n % 10))
    }
}

/// The character for one decimal digit.
pub open spec fn digit(d: nat) -> char
    recommends
        d < 10,
{
    if d == 0 {
        '0'
    } else if d == 1 {
        '1'
    } else if d == 2 {
        '2'
    } else if d == 3 {
        '3'
    } else if d == 4 {
        '4'
    } else if d == 5 {
        '5'
    } else if d == 6 {
        '6'
    } else if d == 7 {
        '7'
    } else if d == 8 {
        '8'
    } else {
        '9'
    }
}

/// The character for one decimal digit.
fn digit_char(d: usize) -> (c: char)
    requires
        d < 10,
    ensures
        c == digit(d as nat),
{
    if d == 0 {
        '0'
    } else if d == 1 {
        '1'
    } else if d == 2 {
        '2'
    } else if d == 3 {
        '3'
    } else if d == 4 {
        '4'
    } else if d == 5 {
        '5'
    } else if d == 6 {
        '6'
    } else if d == 7 {
        '7'
    } else if d == 8 {
        '8'
    } else {
        '9'
    }
}

/// Writes `n` in decimal.
pub fn decimal_chars(n: usize) -> (v: Vec<char>)
    ensures
        v@ == decimal(n as nat),
    decreases n,
{
    if n < 10 {
        let mut v: Vec<char> = Vec::new();
        v.push(digit_char(n));
        v
    } else {
        let mut v = decimal_chars(n / 10);
        v.push(digit_char(n % 10));
        v
    }
}

/// `parts` with `sep` between each two neighbours.
pub open spec fn join_with(parts: Seq<Seq<char>>, sep: Seq<char>) -> Seq<char>
    decreases parts.len(),
{
    if parts.len() == 0 {
        Seq::empty()
    } else if parts.len() == 1 {
        parts[0]
    } else {
        join_with(parts.drop_last(), sep) + sep + parts.last()
    }
}

/// The sum of the lengths of `parts`.
pub open spec fn total_len(parts: Seq<Seq<char>>) -> nat
    decreases parts.len(),
{
    if parts.len() == 0 {
        0
    } else {
        total_len(parts.drop_last()) + parts.last().len()
    }
}

/// Joining one more part adds the separator and the part.
pub proof fn lemma_join_push(parts: Seq<Seq<char>>, sep: Seq<char>, part: Seq<char>)
    ensures
        join_with(parts.push(part), sep) == if parts.len() == 0 {
            part
        } else {
            join_with(parts, sep) + sep + part
        },
{
    assert(parts.push(part).drop_last() == parts);
}

/// The length of a join: all parts, and one separator less than parts.
pub proof fn lemma_join_len(parts: Seq<Seq<char>>, sep: Seq<char>)
    ensures
        join_with(parts, sep).len() == total_len(parts) + if parts.len() == 0 {
            0
        } else {
            (parts.len() - 1) * sep.len()
        },
    decreases parts.len(),
{
    let n = parts.len() as int;
    let m = sep.len() as int;
    if n == 0 {
    } else if n == 1 {
        assert(parts.drop_last().len() == 0);
        assert(total_len(parts.drop_last()) == 0);
        assert((n - 1) * m == 0) by (nonlinear_arith)
            requires
                n == 1,
        ;
    } else {
        lemma_join_len(parts.drop_last(), sep);
        assert((n - 1) * m == (n - 2) * m + m) by (nonlinear_arith);
        assert(join_with(parts, sep).len() == join_with(parts.drop_last(), sep).len() + m
            + parts.last().len());
    }
}

} // verus!
