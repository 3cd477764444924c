//! The pattern that cuts text into pieces.
//!
//! The pattern is a `fancy_regex::Regex`. What a pattern compiles to and what it
//! matches are taken from that crate and only named here: nothing is known of a match
//! but that the same pattern finds the same one in the same text. Only plain patterns are
//! compiled: what refers back to a group can end in a panic, and what repeats very often
//! may take forever.
use fancy_regex::Regex;
use vstd::prelude::*;

use crate::text::characters;

verus! {

#[verifier::external_type_specification]
#[verifier::external_body]
pub struct ExRegex(Regex);

#[verifier::external_type_specification]
#[verifier::external_body]
pub struct ExRegexError(fancy_regex::Error);

/// The regular expression that `Regex::new` makes of a pattern; `None` of a pattern
/// that it refuses.
pub uninterp spec fn compiled(pattern: Seq<char>) -> Option<Regex>;

/// The byte offsets at which the first match that `Regex::find` finds in a text begins
/// and ends; `None` where it finds none or gives up.
pub uninterp spec fn first_match(regex: Regex, text: Seq<char>) -> Option<(usize, usize)>;

/// A decimal digit.
pub open spec fn digit(c: char) -> bool {
    '0' <= c <= '9'
}

/// A blank, which a pattern may have between its parts.
pub open spec fn blank(c: char) -> bool {
    c == ' ' || c == '\t' || c == '\r' || c == '\n'
}

/// Whether the character at place `i` is escaped by the one before it.
pub open spec fn escaped(p: Seq<char>, i: int) -> bool
    decreases i,
{
    0 < i && p[i - 1] == '\\' && !escaped(p, i - 1)
}

/// Whether an escape that refers to a group can begin at place `i`: `\k`, `\g` or a
/// digit. It can also hide behind `\p`, which takes any character for a name.
pub open spec fn escape_refers_at(p: Seq<char>, i: int) -> bool {
    &&& p[i] == '\\' && !escaped(p, i) && i + 1 < p.len()
    &&& {
        ||| digit(p[i + 1]) || p[i + 1] == 'k' || p[i + 1] == 'g'
        ||| (p[i + 1] == 'p' || p[i + 1] == 'P') && i + 2 < p.len() && p[i + 2] == '\\'
    }
}

/// Whether a group that refers to another can begin with the question mark at place `i`:
/// `(?P=` or `(?(`. Between the parenthesis and the question mark blanks can stand
/// where the flag `x` is set, and comments anywhere.
pub open spec fn group_refers_at(p: Seq<char>, i: int) -> bool {
    &&& p[i] == '?' && i + 1 < p.len()
    &&& {
        ||| p[i + 1] == 'P' && i + 2 < p.len() && p[i + 2] == '='
        ||| p[i + 1] == '(' && (p.contains('#') || (i > 0 && (p[i - 1] == '(' || (blank(p[i - 1])
            && p.contains('x')))))
    }
}

/// Whether something that refers to a group can begin at place `i`.
pub open spec fn refers_at(p: Seq<char>, i: int) -> bool {
    escape_refers_at(p, i) || group_refers_at(p, i)
}

/// Whether place `n` stands in braces, after nothing but digits, commas and blanks.
pub open spec fn in_braces(p: Seq<char>, n: int) -> bool
    decreases n,
{
    0 < n && (p[n - 1] == '{' || ((digit(p[n - 1]) || p[n - 1] == ',' || blank(p[n - 1]))
        && in_braces(p, n - 1)))
}

/// Whether the character at place `i` can be a digit of a count: one in braces, or any
/// digit where there can be comments, which may stand in braces too.
pub open spec fn counts_at(p: Seq<char>, i: int) -> bool {
    digit(p[i]) && (in_braces(p, i) || p.contains('#'))
}

/// The length of a pattern, ten times for each of its first `n` characters that can be a
/// digit of a count: no more can be repeated, all in all.
pub open spec fn weight(p: Seq<char>, n: int) -> nat
    decreases n,
{
    if n <= 0 {
        p.len()
    } else if counts_at(p, n - 1) {
        10 * weight(p, n - 1)
    } else {
        weight(p, n - 1)
    }
}

/// The greatest weight of a plain pattern.
pub const MOST_REPEATED: u64 = 100_000_000;

/// A pattern that refers to no group, and does not repeat very often.
pub open spec fn plain(p: Seq<char>) -> bool {
    &&& forall|i: int| 0 <= i < p.len() ==> !#[trigger] refers_at(p, i)
    &&& weight(p, p.len() as int) <= MOST_REPEATED
}

/// A regular expression that was compiled from a plain pattern.
pub open spec fn from_plain(regex: Regex) -> bool {
    exists|p: Seq<char>| plain(p) && #[trigger] compiled(p) == Some(regex)
}

fn is_digit(c: char) -> (r: bool)
    ensures
        r == digit(c),
{
    '0' <= c && c <= '9'
}

fn is_blank(c: char) -> (r: bool)
    ensures
        r == blank(c),
{
    c == ' ' || c == '\t' || c == '\r' || c == '\n'
}

fn has(p: &Vec<char>, c: char) -> (r: bool)
    ensures
        r == p@.contains(c),
{
    for i in 0..p.len()
        invariant
            forall|j: int| 0 <= j < i ==> p@[j] != c,
    {
        if p[i] == c {
            return true;
        }
    }
    false
}

proof fn lemma_weight_grows(p: Seq<char>, n: int, m: int)
    requires
        0 <= n <= m,
    ensures
        weight(p, n) <= weight(p, m),
    decreases m - n,
{
    if n < m {
        lemma_weight_grows(p, n, m - 1);
    }
}

/// Whether a pattern is plain.
pub fn is_plain(pattern: &str) -> (r: bool)
    ensures
        r == plain(pattern@),
{
    let p = characters(pattern);
    let n = p.len();
    let spaced = has(&p, 'x');
    let commented = has(&p, '#');
    let mut total: u64 = n as u64;
    let mut open = false;
    let mut after_escape = false;
    if total > MOST_REPEATED {
        proof {
            lemma_weight_grows(p@, 0, n as int);
        }
        return false;
    }
    for i in 0..n
        invariant
            p@ == pattern@,
            n == p@.len(),
            spaced == p@.contains('x'),
            commented == p@.contains('#'),
            open == in_braces(p@, i as int),
            after_escape == escaped(p@, i as int),
            total == weight(p@, i as int),
            total <= MOST_REPEATED,
            forall|j: int| 0 <= j < i ==> !#[trigger] refers_at(p@, j),
    {
        let c = p[i];
        let left = n - i;
        let escape = c == '\\' && !after_escape;
        let refers = (escape && left > 1 && (is_digit(p[i + 1]) || p[i + 1] == 'k' || p[i + 1]
            == 'g' || ((p[i + 1] == 'p' || p[i + 1] == 'P') && left > 2 && p[i + 2] == '\\')))
            || (c == '?' && left > 1 && ((p[i + 1] == 'P' && left > 2 && p[i + 2] == '=') || (p[i
            + 1] == '(' && (commented || (i > 0 && (p[i - 1] == '(' || (is_blank(p[i - 1])
            && spaced)))))));
        if refers {
            assert(refers_at(p@, i as int));
            return false;
        }
        if is_digit(c) && (open || commented) {
            total = total * 10;
            if total > MOST_REPEATED {
                proof {
                    lemma_weight_grows(p@, i + 1, n as int);
                }
                return false;
            }
        }
        open = c == '{' || ((is_digit(c) || c == ',' || is_blank(c)) && open);
        after_escape = escape;
    }
    true
}

/// `Regex::new`: compiles a plain pattern.
#[verifier::external_body]
pub(crate) fn compile(pattern: &str) -> (r: Result<Regex, fancy_regex::Error>)
    requires
        plain(pattern@),
    ensures
        match r {
            Ok(regex) => compiled(pattern@) == Some(regex),
            Err(_) => compiled(pattern@) is None,
        },
{
    Regex::new(pattern)
}

/// `Regex::find` with a plain pattern: where the first match begins and ends, as byte
/// offsets.
#[verifier::external_body]
pub(crate) fn find(regex: &Regex, text: &str) -> (r: Result<
    Option<(usize, usize)>,
    fancy_regex::Error,
>)
    requires
        from_plain(*regex),
    ensures
        first_match(*regex, text@) == match r {
            Ok(found) => found,
            Err(_) => None,
        },
{
    match regex.find(text) {
        Ok(Some(m)) => Ok(Some((m.start(), m.end()))),
        Ok(None) => Ok(None),
        Err(e) => Err(e),
    }
}

/// A pattern of which no character is a backslash, a question mark, a brace or a number sign
/// is plain, if it is not beyond all measure.
pub proof fn law_simple_patterns_are_plain(p: Seq<char>)
    requires
        p.len() <= 100_000_000,
        !p.contains('\\'),
        !p.contains('?'),
        !p.contains('{'),
        !p.contains('#'),
    ensures
        plain(p),
{
    assert forall|i: int| 0 <= i < p.len() implies !#[trigger] refers_at(p, i) by {
        assert(p.contains(p[i]));
    }
    lemma_weightless(p, p.len() as int);
}

proof fn lemma_weightless(p: Seq<char>, n: int)
    requires
        0 <= n <= p.len(),
        !p.contains('{'),
        !p.contains('#'),
    ensures
        weight(p, n) == p.len(),
        !in_braces(p, n),
    decreases n,
{
    if n > 0 {
        lemma_weightless(p, n - 1);
        assert(p.contains(p[n - 1]));
    }
}

} // verus!
