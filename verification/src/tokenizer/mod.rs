//! Byte pair tokenization of text, and back.
use ahash::AHashMap;
use fancy_regex::Regex;
use vstd::prelude::*;
use vstd::utf8::{decode_utf8, encode_utf8, is_char_boundary};

use crate::text::{from_utf8_lossy, same_text, strip_prefix};
use crate::Rank;

pub mod bpe;
pub mod laws;
pub mod pattern;
pub mod queue;
pub mod scan;
pub mod special_tokens;
pub mod vocab;

use bpe::{encode_piece, piece_tokens};
use pattern::{compile, compiled, find, first_match, from_plain, plain};
use scan::{
    decoded, flushed, lists, scan, special_at, text_from, turned_around, well_placed, Vocabulary,
};
use vocab::{
    bytes_map, bytes_map_get, bytes_map_insert, bytes_map_new, lookup, name_map, name_map_get,
    name_map_insert, name_map_len, name_map_names, name_map_new, rank_map, rank_map_insert,
    rank_map_len, rank_map_new, rank_map_pairs, text_map, text_map_get, text_map_insert,
    text_map_new,
};

verus! {

/// A tokenizer as it is stored: its name, the pattern that cuts text into pieces, the
/// ranks of the byte strings that are tokens, and those of the special tokens.
#[derive(Debug)]
pub struct TiktokenEncoding {
    pub name: String,
    pub pat_str: String,
    pub mergeable_ranks: Vec<(Vec<u8>, Rank)>,
    pub special_tokens: Vec<(String, Rank)>,
}

impl TiktokenEncoding {
    /// Whether a file with this ending can hold a stored tokenizer.
    pub fn is_stored_as(extension: &str) -> (r: bool)
        ensures
            r == (extension@ == "pkl"@),
    {
        same_text(extension, "pkl")
    }
}

/// Why a tokenizer refuses.
#[derive(Debug)]
pub enum TokenizerError {
    /// The pattern is not a regular expression.
    Pattern(fancy_regex::Error),
    /// There is no such special token.
    SpecialTokenNotFound,
}

/// A tokenizer that uses byte pair encoding to turn text into token ids.
pub struct Tokenizer {
    name: String,
    pattern: Regex,
    mergeable_ranks: AHashMap<Vec<u8>, Rank>,
    special_tokens: AHashMap<String, Rank>,
    decoder: AHashMap<Rank, Vec<u8>>,
    special_tokens_decoder: AHashMap<Rank, String>,
}

/// The map that a list of pairs makes; of two pairs with one key the later one counts.
pub open spec fn rank_pairs(pairs: Seq<(Vec<u8>, Rank)>) -> Map<Seq<u8>, Rank>
    decreases pairs.len(),
{
    if pairs.len() == 0 {
        Map::empty()
    } else {
        rank_pairs(pairs.drop_last()).insert(pairs.last().0@, pairs.last().1)
    }
}

/// The map that a list of pairs makes; of two pairs with one key the later one counts.
pub open spec fn name_pairs(pairs: Seq<(String, Rank)>) -> Map<Seq<char>, Rank>
    decreases pairs.len(),
{
    if pairs.len() == 0 {
        Map::empty()
    } else {
        name_pairs(pairs.drop_last()).insert(pairs.last().0@, pairs.last().1)
    }
}

/// The texts of a list of strings.
pub open spec fn texts(names: Seq<&str>) -> Seq<Seq<char>> {
    names.map_values(|name: &str| name@)
}

/// Splitting a text at a character boundary splits its characters.
proof fn lemma_split(text: Seq<char>, at: int, head: Seq<char>, after: Seq<char>)
    requires
        0 <= at <= encode_utf8(text).len(),
        is_char_boundary(encode_utf8(text), at),
        encode_utf8(head) == encode_utf8(text).subrange(0, at),
        encode_utf8(after) == encode_utf8(text).subrange(at, encode_utf8(text).len() as int),
    ensures
        text == head + after,
        after == decode_utf8(encode_utf8(text).skip(at)),
        head.len() == 0 <==> at == 0,
{
    broadcast use vstd::utf8::group_utf8_lib;

    let bytes = encode_utf8(text);
    vstd::utf8::decode_utf8_split(bytes, at);
    assert(decode_utf8(encode_utf8(head)) == head);
    assert(decode_utf8(encode_utf8(after)) == after);
    assert(decode_utf8(bytes) == text);
    assert(bytes.skip(at) =~= bytes.subrange(at, bytes.len() as int));
}

/// A character boundary of some bytes is one of any longer stretch's beginning.
proof fn lemma_boundary_of_prefix(bytes: Seq<u8>, start: int, end: int)
    requires
        vstd::utf8::valid_utf8(bytes),
        0 <= start <= end <= bytes.len(),
        is_char_boundary(bytes, start),
        is_char_boundary(bytes, end),
    ensures
        vstd::utf8::valid_utf8(bytes.subrange(0, end)),
        is_char_boundary(bytes.subrange(0, end), start),
{
    broadcast use vstd::utf8::group_utf8_lib;

    let head = bytes.subrange(0, end);
    vstd::utf8::valid_utf8_split(bytes, end);
    if start < end {
        vstd::utf8::is_char_boundary_iff_not_is_continuation_byte(bytes, start);
        vstd::utf8::is_char_boundary_iff_not_is_continuation_byte(head, start);
        assert(head[start] == bytes[start]);
    } else {
        vstd::utf8::is_char_boundary_start_end_of_seq(head);
    }
}

/// The names of a map, each once, list its keys.
proof fn lemma_names_listed(specials: Map<Seq<char>, Rank>, names: Seq<&str>)
    requires
        forall|i: int| 0 <= i < names.len() ==> specials.contains_key((#[trigger] names[i])@),
        forall|key: Seq<char>| #[trigger]
            specials.contains_key(key) ==> exists|i: int|
                0 <= i < names.len() && (#[trigger] names[i])@ == key,
        forall|i: int, j: int|
            0 <= i < j < names.len() ==> (#[trigger] names[i])@ != (#[trigger] names[j])@,
    ensures
        lists(specials, texts(names)),
{
    let listed = texts(names);
    assert forall|i: int| 0 <= i < listed.len() implies specials.contains_key(
        #[trigger] listed[i],
    ) by {
        assert(listed[i] == names[i]@);
    }
    assert forall|key: Seq<char>| #[trigger] specials.contains_key(key) implies listed.contains(
        key,
    ) by {
        let i = choose|i: int| 0 <= i < names.len() && (#[trigger] names[i])@ == key;
        assert(listed[i] == key);
    }
    assert forall|i: int, j: int| 0 <= i < listed.len() && 0 <= j < listed.len() && i != j implies listed[i]
        != listed[j] by {
        assert(listed[i] == names[i]@ && listed[j] == names[j]@);
    }
}

impl View for Tokenizer {
    type V = Vocabulary;

    closed spec fn view(&self) -> Vocabulary {
        Vocabulary {
            name: self.name@,
            ranks: rank_map(self.mergeable_ranks),
            specials: name_map(self.special_tokens),
            bytes: bytes_map(self.decoder),
            texts: text_map(self.special_tokens_decoder),
            pattern: self.pattern,
        }
    }
}

impl Tokenizer {
    /// The pattern is a plain one.
    #[verifier::type_invariant]
    spec fn has_plain_pattern(self) -> bool {
        from_plain(self.pattern)
    }

    /// The decoding maps are the encoding maps turned around.
    pub open spec fn wf(self) -> bool {
        &&& turned_around(self@.ranks, self@.bytes)
        &&& turned_around(self@.specials, self@.texts)
        &&& self@.ranks.dom().finite()
        &&& self@.specials.dom().finite()
    }

    /// Builds a tokenizer. It fails only where the pattern does not compile.
    pub fn from_encoding(encoding: TiktokenEncoding) -> (r: Result<Self, TokenizerError>)
        requires
            plain(encoding.pat_str@),
        ensures
            match r {
                Ok(tokenizer) => {
                    &&& tokenizer.wf()
                    &&& tokenizer@.name == encoding.name@
                    &&& tokenizer@.ranks == rank_pairs(encoding.mergeable_ranks@)
                    &&& tokenizer@.specials == name_pairs(encoding.special_tokens@)
                    &&& compiled(encoding.pat_str@) == Some(tokenizer@.pattern)
                },
                Err(e) => e is Pattern && compiled(encoding.pat_str@) is None,
            },
    {
        let mut mergeable_ranks = rank_map_new();
        let pairs = &encoding.mergeable_ranks;
        for i in 0..pairs.len()
            invariant
                rank_map(mergeable_ranks) == rank_pairs(pairs@.take(i as int)),
                rank_map(mergeable_ranks).dom().finite(),
        {
            rank_map_insert(&mut mergeable_ranks, pairs[i].0.clone(), pairs[i].1);
            assert(pairs@.take(i + 1).drop_last() =~= pairs@.take(i as int));
        }
        assert(pairs@.take(pairs@.len() as int) =~= pairs@);

        let mut special_tokens = name_map_new();
        let named = &encoding.special_tokens;
        for i in 0..named.len()
            invariant
                name_map(special_tokens) == name_pairs(named@.take(i as int)),
                name_map(special_tokens).dom().finite(),
        {
            name_map_insert(&mut special_tokens, named[i].0.clone(), named[i].1);
            assert(named@.take(i + 1).drop_last() =~= named@.take(i as int));
        }
        assert(named@.take(named@.len() as int) =~= named@);

        let mut decoder = bytes_map_new();
        let known = rank_map_pairs(&mergeable_ranks);
        for i in 0..known.len()
            invariant
                forall|k: int|
                    0 <= k < known@.len() ==> lookup(
                        rank_map(mergeable_ranks),
                        (#[trigger] known@[k]).0@,
                    ) == Some(known@[k].1),
                forall|k: int|
                    0 <= k < i ==> bytes_map(decoder).contains_key((#[trigger] known@[k]).1),
                forall|rank: Rank| #[trigger]
                    bytes_map(decoder).contains_key(rank) ==> lookup(
                        rank_map(mergeable_ranks),
                        bytes_map(decoder)[rank],
                    ) == Some(rank),
        {
            bytes_map_insert(&mut decoder, known[i].1, known[i].0.clone());
        }

        let mut special_tokens_decoder = text_map_new();
        let names = name_map_names(&special_tokens);
        for i in 0..names.len()
            invariant
                forall|k: int|
                    0 <= k < names@.len() ==> name_map(special_tokens).contains_key(
                        (#[trigger] names@[k])@,
                    ),
                forall|k: int|
                    0 <= k < i ==> text_map(special_tokens_decoder).contains_key(
                        name_map(special_tokens)[(#[trigger] names@[k])@],
                    ),
                forall|rank: Rank| #[trigger]
                    text_map(special_tokens_decoder).contains_key(rank) ==> lookup(
                        name_map(special_tokens),
                        text_map(special_tokens_decoder)[rank],
                    ) == Some(rank),
        {
            if let Some(rank) = name_map_get(&special_tokens, names[i]) {
                text_map_insert(&mut special_tokens_decoder, rank, names[i].to_owned());
            }
        }

        match compile(encoding.pat_str.as_str()) {
            Ok(pattern) => {
                assert(plain(encoding.pat_str@) && compiled(encoding.pat_str@) == Some(pattern));
                let tokenizer = Tokenizer {
                    name: encoding.name,
                    pattern,
                    mergeable_ranks,
                    special_tokens,
                    decoder,
                    special_tokens_decoder,
                };
                Ok(tokenizer)
            },
            Err(e) => Err(TokenizerError::Pattern(e)),
        }
    }

    /// The tokens of one piece of text, by its bytes.
    pub fn encode_bytes(&self, piece: &[u8]) -> (tokens: Vec<Rank>)
        ensures
            tokens@ == piece_tokens(self@.ranks, piece@),
    {
        encode_piece(&self.mergeable_ranks, piece)
    }

    /// The rank of the special token that stands next, the text after it, and whether
    /// that is less text than before.
    fn next_special<'a>(&self, rest: &'a str, allowed_special: &Vec<&str>) -> (r: Option<
        (Rank, &'a str, bool),
    >)
        ensures
            match r {
                Some((rank, after, moved)) => {
                    &&& special_at(self@.specials, texts(allowed_special@), rest@, 0) matches Some(
                        special,
                    )
                    &&& self@.specials[special] == rank
                    &&& after@ == rest@.skip(special.len() as int)
                    &&& moved <==> after@.len() < rest@.len()
                },
                None => special_at(self@.specials, texts(allowed_special@), rest@, 0) is None,
            },
    {
        let ghost names = texts(allowed_special@);
        for i in 0..allowed_special.len()
            invariant
                names == texts(allowed_special@),
                special_at(self@.specials, names, rest@, 0) == special_at(
                    self@.specials,
                    names,
                    rest@,
                    i as int,
                ),
        {
            assert(names[i as int] == allowed_special@[i as int]@);
            if let Some(after) = strip_prefix(rest, allowed_special[i]) {
                assert(rest@.subrange(0, names[i as int].len() as int) =~= names[i as int]);
                if let Some(rank) = name_map_get(&self.special_tokens, allowed_special[i]) {
                    assert(after@ =~= rest@.skip(names[i as int].len() as int));
                    return Some((rank, after, !allowed_special[i].is_empty()));
                }
            }
        }
        None
    }

    /// The text in and after the next match of the pattern, and whether what is after it
    /// is less text than before; `None` where there is no match, and an error where the
    /// match is no stretch of the text.
    fn next_match<'a>(&self, rest: &'a str) -> (r: Result<Option<(&'a str, &'a str, bool)>, ()>)
        ensures
            match (first_match(self@.pattern, rest@), r) {
                (None, Ok(None)) => true,
                (Some((start, end)), Ok(Some((piece, after, moved)))) => {
                    &&& well_placed(rest@, start, end)
                    &&& encode_utf8(piece@) == encode_utf8(rest@).subrange(
                        start as int,
                        end as int,
                    )
                    &&& after@ == text_from(rest@, end)
                    &&& moved <==> after@.len() < rest@.len()
                },
                (Some((start, end)), Err(_)) => !well_placed(rest@, start, end),
                _ => false,
            },
    {
        proof {
            use_type_invariant(self);
        }
        let found = match find(&self.pattern, rest) {
            Ok(Some(found)) => found,
            _ => return Ok(None),
        };
        let (start, end) = found;
        if start > end || end > rest.as_bytes().len() {
            return Err(());
        }
        if !rest.is_char_boundary(start) || !rest.is_char_boundary(end) {
            return Err(());
        }
        let (head, after) = rest.split_at(end);
        proof {
            vstd::utf8::encode_utf8_valid_utf8(rest@);
            lemma_split(rest@, end as int, head@, after@);
            lemma_boundary_of_prefix(encode_utf8(rest@), start as int, end as int);
        }
        let (gap, piece) = head.split_at(start);
        Ok(Some((piece, after, end > 0)))
    }

    /// Encodes text with the given special tokens allowed.
    ///
    /// `None` of a text on which encoding would not come to an end: where an empty
    /// special token is allowed, or the pattern matches nothing at the place that
    /// encoding has reached; and where a match of the pattern is no stretch of the text.
    pub fn try_encode_with_special_tokens(&self, text: &str, allowed_special: &Vec<&str>) -> (r:
        Option<Vec<Rank>>)
        ensures
            match r {
                Some(tokens) => scan(self@, texts(allowed_special@), text@) == Some(tokens@),
                None => scan(self@, texts(allowed_special@), text@) is None,
            },
    {
        let ghost allowed = texts(allowed_special@);
        let mut tokens: Vec<Rank> = Vec::new();
        let mut rest: &str = text;
        assert(match scan(self@, allowed, rest@) {
            Some(more) => tokens@ + more =~= more,
            None => true,
        });
        while !rest.is_empty()
            invariant
                allowed == texts(allowed_special@),
                scan(self@, allowed, text@) == match scan(self@, allowed, rest@) {
                    Some(more) => Some(tokens@ + more),
                    None => None,
                },
            ensures
                scan(self@, allowed, text@) == Some(tokens@),
            decreases rest@.len(),
        {
            let ghost before = rest@;
            let ghost sofar = tokens@;
            if let Some((rank, after, moved)) = self.next_special(rest, allowed_special) {
                if !moved {
                    return None;
                }
                tokens.push(rank);
                rest = after;
                assert(match scan(self@, allowed, rest@) {
                    Some(more) => sofar + (seq![rank] + more) =~= tokens@ + more,
                    None => true,
                });
                continue;
            }
            match self.next_match(rest) {
                Ok(Some((piece, after, moved))) => {
                    if !moved {
                        return None;
                    }
                    let mut piece_tokens = self.encode_bytes(piece.as_bytes());
                    let ghost taken = piece_tokens@;
                    tokens.append(&mut piece_tokens);
                    rest = after;
                    assert(match scan(self@, allowed, rest@) {
                        Some(more) => sofar + (taken + more) =~= tokens@ + more,
                        None => true,
                    });
                },
                Ok(None) => {
                    assert(scan(self@, allowed, text@) == Some(sofar + seq![]));
                    assert(sofar + seq![] =~= sofar);
                    break;
                },
                Err(_) => {
                    return None;
                },
            }
        }
        Some(tokens)
    }

    /// Encodes text with the given special tokens allowed.
    pub fn encode_with_special_tokens(&self, text: &str, allowed_special: &Vec<&str>) -> (r:
        Result<Vec<Rank>, TokenizerError>)
        requires
            scan(self@, texts(allowed_special@), text@) is Some,
        ensures
            r matches Ok(tokens) && scan(self@, texts(allowed_special@), text@) == Some(tokens@),
    {
        match self.try_encode_with_special_tokens(text, allowed_special) {
            Some(tokens) => Ok(tokens),
            None => {
                assert(false);
                Ok(Vec::new())
            },
        }
    }

    /// Encodes text into a sequence of token ids, with all special tokens allowed.
    ///
    /// Where more than one special token stands at the same place, which one is taken
    /// depends on the order in which the hash map gives them.
    pub fn encode(&self, text: &str) -> (r: Result<Vec<Rank>, TokenizerError>)
        requires
            forall|names: Seq<Seq<char>>| #[trigger]
                lists(self@.specials, names) ==> scan(self@, names, text@) is Some,
        ensures
            r matches Ok(tokens) && exists|names: Seq<Seq<char>>| #[trigger]
                lists(self@.specials, names) && scan(self@, names, text@) == Some(tokens@),
    {
        let names = name_map_names(&self.special_tokens);
        proof {
            lemma_names_listed(self@.specials, names@);
        }
        self.encode_with_special_tokens(text, &names)
    }

    /// Encodes text into a sequence of token ids, with all special tokens allowed.
    ///
    /// `None` where `try_encode_with_special_tokens` gives it.
    pub fn try_encode(&self, text: &str) -> (r: Option<Vec<Rank>>)
        ensures
            exists|names: Seq<Seq<char>>| #[trigger]
                lists(self@.specials, names) && match r {
                    Some(tokens) => scan(self@, names, text@) == Some(tokens@),
                    None => scan(self@, names, text@) is None,
                },
    {
        let names = name_map_names(&self.special_tokens);
        proof {
            lemma_names_listed(self@.specials, names@);
        }
        self.try_encode_with_special_tokens(text, &names)
    }

    /// The token id of a special token.
    pub fn encode_special(&self, text: &str) -> (r: Result<u32, TokenizerError>)
        ensures
            match r {
                Ok(rank) => lookup(self@.specials, text@) == Some(rank),
                Err(e) => e is SpecialTokenNotFound && !self@.specials.contains_key(text@),
            },
    {
        match name_map_get(&self.special_tokens, text) {
            Some(rank) => Ok(rank),
            None => Err(TokenizerError::SpecialTokenNotFound),
        }
    }

    /// Decodes a sequence of token ids back into text. Unknown ids are left out.
    pub fn decode(&self, tokens: &[Rank]) -> (r: Result<String, TokenizerError>)
        ensures
            r matches Ok(text) && text@ == decoded(self@, tokens@, seq![]),
    {
        let mut pending: Vec<u8> = Vec::new();
        let mut out = String::new();
        assert(tokens@.skip(0) =~= tokens@);
        assert(out@ + decoded(self@, tokens@, seq![]) =~= decoded(self@, tokens@, seq![]));
        for i in 0..tokens.len()
            invariant
                out@ + decoded(self@, tokens@.skip(i as int), pending@) == decoded(
                    self@,
                    tokens@,
                    seq![],
                ),
        {
            let ghost out0 = out@;
            let ghost pending0 = pending@;
            let token = tokens[i];
            proof {
                assert(tokens@.skip(i as int)[0] == token);
                assert(tokens@.skip(i as int).skip(1) =~= tokens@.skip(i + 1));
            }
            if let Some(special) = text_map_get(&self.special_tokens_decoder, token) {
                if !pending.is_empty() {
                    let text = from_utf8_lossy(&pending);
                    out.append(text.as_str());
                    pending.clear();
                }
                out.append(special.as_str());
                proof {
                    let more = decoded(self@, tokens@.skip(i + 1), seq![]);
                    assert(pending@ =~= seq![]);
                    assert(out@ + more =~= out0 + (flushed(pending0) + special@ + more));
                }
            } else if let Some(bytes) = bytes_map_get(&self.decoder, token) {
                pending.extend_from_slice(bytes.as_slice());
                assert(pending@ =~= pending0 + bytes@);
            }
        }
        proof {
            assert(tokens@.skip(tokens@.len() as int) =~= seq![]);
        }
        if !pending.is_empty() {
            let text = from_utf8_lossy(&pending);
            out.append(text.as_str());
        } else {
            assert(out@ + flushed(pending@) =~= out@);
        }
        Ok(out)
    }

    /// The tokenizer's name.
    pub fn name(&self) -> (r: &str)
        ensures
            r@ == self@.name,
    {
        self.name.as_str()
    }

    /// The number of tokens in the vocabulary.
    pub fn vocab_size(&self) -> (n: usize)
        requires
            self@.ranks.dom().len() + self@.specials.dom().len() <= usize::MAX,
        ensures
            n == self@.ranks.dom().len() + self@.specials.dom().len(),
    {
        rank_map_len(&self.mergeable_ranks) + name_map_len(&self.special_tokens)
    }
}

/// Of the pairs with one key the last one counts, and there are no other keys.
pub proof fn law_last_pair_counts(pairs: Seq<(Vec<u8>, Rank)>, i: int, key: Seq<u8>)
    requires
        0 <= i < pairs.len(),
        forall|j: int| i < j < pairs.len() ==> (#[trigger] pairs[j]).0@ != pairs[i].0@,
        forall|j: int| 0 <= j < pairs.len() ==> (#[trigger] pairs[j]).0@ != key,
    ensures
        rank_pairs(pairs).contains_key(pairs[i].0@),
        rank_pairs(pairs)[pairs[i].0@] == pairs[i].1,
        !rank_pairs(pairs).contains_key(key),
    decreases pairs.len(),
{
    let before = pairs.drop_last();
    assert forall|j: int| 0 <= j < before.len() implies (#[trigger] before[j]).0@ != key by {
        assert(before[j] == pairs[j]);
    }
    assert(pairs[pairs.len() - 1].0@ != key);
    if i < before.len() {
        assert forall|j: int| i < j < before.len() implies (#[trigger] before[j]).0@
            != before[i].0@ by {
            assert(before[j] == pairs[j]);
        }
        assert(pairs[pairs.len() - 1].0@ != pairs[i].0@);
        law_last_pair_counts(before, i, key);
    } else if before.len() > 0 {
        lemma_no_such_pair(before, key);
    } else {
        assert(rank_pairs(before) == Map::<Seq<u8>, Rank>::empty());
    }
}

proof fn lemma_no_such_pair(pairs: Seq<(Vec<u8>, Rank)>, key: Seq<u8>)
    requires
        forall|j: int| 0 <= j < pairs.len() ==> (#[trigger] pairs[j]).0@ != key,
    ensures
        !rank_pairs(pairs).contains_key(key),
    decreases pairs.len(),
{
    if pairs.len() > 0 {
        let before = pairs.drop_last();
        assert forall|j: int| 0 <= j < before.len() implies (#[trigger] before[j]).0@ != key by {
            assert(before[j] == pairs[j]);
        }
        assert(pairs[pairs.len() - 1].0@ != key);
        lemma_no_such_pair(before, key);
    }
}

/// Of the special tokens with one name the last one counts, and there are no other names.
pub proof fn law_last_name_counts(pairs: Seq<(String, Rank)>, i: int, name: Seq<char>)
    requires
        0 <= i < pairs.len(),
        forall|j: int| i < j < pairs.len() ==> (#[trigger] pairs[j]).0@ != pairs[i].0@,
        forall|j: int| 0 <= j < pairs.len() ==> (#[trigger] pairs[j]).0@ != name,
    ensures
        name_pairs(pairs).contains_key(pairs[i].0@),
        name_pairs(pairs)[pairs[i].0@] == pairs[i].1,
        !name_pairs(pairs).contains_key(name),
    decreases pairs.len(),
{
    let before = pairs.drop_last();
    assert forall|j: int| 0 <= j < before.len() implies (#[trigger] before[j]).0@ != name by {
        assert(before[j] == pairs[j]);
    }
    assert(pairs[pairs.len() - 1].0@ != name);
    if i < before.len() {
        assert forall|j: int| i < j < before.len() implies (#[trigger] before[j]).0@
            != before[i].0@ by {
            assert(before[j] == pairs[j]);
        }
        assert(pairs[pairs.len() - 1].0@ != pairs[i].0@);
        law_last_name_counts(before, i, name);
    } else if before.len() > 0 {
        lemma_no_such_name(before, name);
    } else {
        assert(name_pairs(before) == Map::<Seq<char>, Rank>::empty());
    }
}

proof fn lemma_no_such_name(pairs: Seq<(String, Rank)>, name: Seq<char>)
    requires
        forall|j: int| 0 <= j < pairs.len() ==> (#[trigger] pairs[j]).0@ != name,
    ensures
        !name_pairs(pairs).contains_key(name),
    decreases pairs.len(),
{
    if pairs.len() > 0 {
        let before = pairs.drop_last();
        assert forall|j: int| 0 <= j < before.len() implies (#[trigger] before[j]).0@ != name by {
            assert(before[j] == pairs[j]);
        }
        assert(pairs[pairs.len() - 1].0@ != name);
        lemma_no_such_name(before, name);
    }
}

} // verus!
