//! What encoding and decoding a text mean.
//!
//! A text is encoded from left to right. Where an allowed special token stands next,
//! it is taken whole. Elsewhere the pattern finds the next piece, what stands before it
//! is left out, and the piece is encoded on its own.
use fancy_regex::Regex;
use vstd::prelude::*;
use vstd::utf8::{decode_utf8, encode_utf8, is_char_boundary};

use super::bpe::piece_tokens;
use super::pattern::first_match;
use super::vocab::lookup;
use crate::text::lossy_text;
use crate::Rank;

verus! {

/// What a tokenizer knows.
pub struct Vocabulary {
    /// The name.
    pub name: Seq<char>,
    /// The ranks of the byte strings that are tokens.
    pub ranks: Map<Seq<u8>, Rank>,
    /// The ranks of the special tokens.
    pub specials: Map<Seq<char>, Rank>,
    /// The byte string of each rank.
    pub bytes: Map<Rank, Seq<u8>>,
    /// The special token of each rank.
    pub texts: Map<Rank, Seq<char>>,
    /// The pattern that cuts text into pieces.
    pub pattern: Regex,
}

/// The first of the special tokens from `allowed[from]` on that is known and stands at
/// the beginning of `rest`.
pub open spec fn special_at(
    specials: Map<Seq<char>, Rank>,
    allowed: Seq<Seq<char>>,
    rest: Seq<char>,
    from: int,
) -> Option<Seq<char>>
    decreases allowed.len() - from,
{
    if from < 0 || from >= allowed.len() {
        None
    } else if allowed[from].is_prefix_of(rest) && specials.contains_key(allowed[from]) {
        Some(allowed[from])
    } else {
        special_at(specials, allowed, rest, from + 1)
    }
}

/// Whether `start` and `end` delimit a stretch of whole characters of `text`.
pub open spec fn well_placed(text: Seq<char>, start: usize, end: usize) -> bool {
    &&& start <= end <= encode_utf8(text).len()
    &&& is_char_boundary(encode_utf8(text), start as int)
    &&& is_char_boundary(encode_utf8(text), end as int)
}

/// The characters of `text` from byte `at` on.
pub open spec fn text_from(text: Seq<char>, at: usize) -> Seq<char> {
    decode_utf8(encode_utf8(text).skip(at as int))
}

/// One step of encoding.
pub enum Step {
    /// These tokens are next, and this text remains.
    Take(Seq<Rank>, Seq<char>),
    /// The pattern finds nothing more: the rest of the text is left out.
    Stop,
    /// The pattern has matched something that is no stretch of the text.
    Misplaced,
}

/// The next step on a text that is not empty.
pub open spec fn next_step(v: Vocabulary, allowed: Seq<Seq<char>>, rest: Seq<char>) -> Step {
    match special_at(v.specials, allowed, rest, 0) {
        Some(special) => Step::Take(
            seq![v.specials[special]],
            rest.skip(special.len() as int),
        ),
        None => match first_match(v.pattern, rest) {
            Some((start, end)) => if well_placed(rest, start, end) {
                Step::Take(
                    piece_tokens(
                        v.ranks,
                        encode_utf8(rest).subrange(start as int, end as int),
                    ),
                    text_from(rest, end),
                )
            } else {
                Step::Misplaced
            },
            None => Step::Stop,
        },
    }
}

/// The tokens of a text. `None` where encoding would not come to an end, because a
/// step takes nothing from the text, or where a match is misplaced.
pub open spec fn scan(
    v: Vocabulary,
    allowed: Seq<Seq<char>>,
    rest: Seq<char>,
) -> Option<Seq<Rank>>
    decreases rest.len(),
{
    if rest.len() == 0 {
        Some(seq![])
    } else {
        match next_step(v, allowed, rest) {
            Step::Take(tokens, after) => if after.len() < rest.len() {
                match scan(v, allowed, after) {
                    Some(more) => Some(tokens + more),
                    None => None,
                }
            } else {
                None
            },
            Step::Stop => Some(seq![]),
            Step::Misplaced => None,
        }
    }
}

/// Whether `names` lists the special tokens, each once.
pub open spec fn lists(specials: Map<Seq<char>, Rank>, names: Seq<Seq<char>>) -> bool {
    &&& forall|i: int| 0 <= i < names.len() ==> specials.contains_key(#[trigger] names[i])
    &&& forall|name: Seq<char>| #[trigger] specials.contains_key(name) ==> names.contains(name)
    &&& names.no_duplicates()
}

/// The text of bytes that wait to be decoded.
pub open spec fn flushed(pending: Seq<u8>) -> Seq<char> {
    if pending.len() == 0 {
        seq![]
    } else {
        lossy_text(pending)
    }
}

/// The text of some tokens, after bytes that wait to be decoded. The bytes of
/// neighbouring tokens are decoded together; an unknown token is left out.
pub open spec fn decoded(v: Vocabulary, tokens: Seq<Rank>, pending: Seq<u8>) -> Seq<char>
    decreases tokens.len(),
{
    if tokens.len() == 0 {
        flushed(pending)
    } else if v.texts.contains_key(tokens[0]) {
        flushed(pending) + v.texts[tokens[0]] + decoded(v, tokens.skip(1), seq![])
    } else if v.bytes.contains_key(tokens[0]) {
        decoded(v, tokens.skip(1), pending + v.bytes[tokens[0]])
    } else {
        decoded(v, tokens.skip(1), pending)
    }
}

/// `back` gives, for every value of `m`, one of the keys that have it.
pub open spec fn turned_around<K>(m: Map<K, Rank>, back: Map<Rank, K>) -> bool {
    &&& forall|key: K| #[trigger] m.contains_key(key) ==> back.contains_key(m[key])
    &&& forall|rank: Rank| #[trigger]
        back.contains_key(rank) ==> lookup(m, back[rank]) == Some(rank)
}

} // verus!
