//! What holds of encoding and decoding as a whole.
use vstd::prelude::*;
use vstd::utf8::{decode_utf8, encode_utf8, is_char_boundary, valid_utf8};

use super::bpe::{joined, merge_at, merged, mergeable, next_merge, part_token, piece_tokens, singles};
use super::pattern::first_match;
use super::scan::{
    decoded, flushed, lists, next_step, scan, special_at, text_from, turned_around, well_placed,
    Step, Vocabulary,
};
use super::vocab::lookup;
use crate::text::repaired_text;
use crate::Rank;

verus! {

/// The parts, one after the other.
pub open spec fn concat(parts: Seq<Seq<u8>>) -> Seq<u8>
    decreases parts.len(),
{
    if parts.len() == 0 {
        seq![]
    } else {
        parts[0] + concat(parts.skip(1))
    }
}

proof fn lemma_merge_at_concat(parts: Seq<Seq<u8>>, k: int)
    requires
        0 <= k < parts.len() - 1,
    ensures
        concat(merge_at(parts, k)) == concat(parts),
    decreases k,
{
    let after = merge_at(parts, k);
    if k == 0 {
        assert(after.skip(1) =~= parts.skip(1).skip(1));
        assert(parts.skip(1)[0] == parts[1]);
        assert(after[0] == parts[0] + parts[1]);
        assert(concat(parts.skip(1)) == parts[1] + concat(parts.skip(1).skip(1)));
        assert(concat(after) =~= parts[0] + (parts[1] + concat(parts.skip(1).skip(1))));
    } else {
        let rest = parts.skip(1);
        lemma_merge_at_concat(rest, k - 1);
        assert(joined(rest, k - 1) == joined(parts, k));
        assert(after.skip(1) =~= merge_at(rest, k - 1));
        assert(after[0] == parts[0]);
    }
}

proof fn lemma_singles_concat(piece: Seq<u8>)
    ensures
        concat(singles(piece)) == piece,
    decreases piece.len(),
{
    if piece.len() > 0 {
        let rest = piece.skip(1);
        lemma_singles_concat(rest);
        assert(singles(piece).skip(1) =~= singles(rest));
        assert(singles(piece)[0] =~= seq![piece[0]]);
        assert(seq![piece[0]] + rest =~= piece);
    } else {
        assert(singles(piece) =~= seq![]);
        assert(piece =~= seq![]);
    }
}

/// Joining parts moves no byte: the parts that are left, one after the other, are the
/// bytes that there were.
pub proof fn law_merging_keeps_bytes(ranks: Map<Seq<u8>, Rank>, parts: Seq<Seq<u8>>)
    ensures
        concat(merged(ranks, parts)) == concat(parts),
    decreases parts.len(),
{
    if exists|k: int| next_merge(ranks, parts, k) {
        let k = choose|k: int| next_merge(ranks, parts, k);
        lemma_merge_at_concat(parts, k);
        law_merging_keeps_bytes(ranks, merge_at(parts, k));
    }
}

/// Of some pairs that can be joined, one is next.
proof fn lemma_some_merge_is_next(ranks: Map<Seq<u8>, Rank>, parts: Seq<Seq<u8>>, k: int)
    requires
        mergeable(ranks, parts, k),
    ensures
        exists|j: int| next_merge(ranks, parts, j),
    decreases ranks[joined(parts, k)], k,
{
    if !next_merge(ranks, parts, k) {
        let j = choose|j: int| #[trigger]
            mergeable(ranks, parts, j) && !{
                ||| ranks[joined(parts, k)] < ranks[joined(parts, j)]
                ||| ranks[joined(parts, k)] == ranks[joined(parts, j)] && k <= j
            };
        lemma_some_merge_is_next(ranks, parts, j);
    }
}

/// Merging goes on until nothing can be joined any more.
pub proof fn law_merging_is_complete(ranks: Map<Seq<u8>, Rank>, parts: Seq<Seq<u8>>, k: int)
    ensures
        !mergeable(ranks, merged(ranks, parts), k),
    decreases parts.len(),
{
    if exists|j: int| next_merge(ranks, parts, j) {
        let j = choose|j: int| next_merge(ranks, parts, j);
        law_merging_is_complete(ranks, merge_at(parts, j), k);
    } else if mergeable(ranks, parts, k) {
        lemma_some_merge_is_next(ranks, parts, k);
    }
}

/// Merging what has been merged changes nothing.
pub proof fn law_merging_is_idempotent(ranks: Map<Seq<u8>, Rank>, parts: Seq<Seq<u8>>)
    ensures
        merged(ranks, merged(ranks, parts)) == merged(ranks, parts),
{
    let done = merged(ranks, parts);
    assert forall|k: int| !next_merge(ranks, done, k) by {
        law_merging_is_complete(ranks, parts, k);
    }
}

/// Whether every part is a single byte or a token.
spec fn known_parts(ranks: Map<Seq<u8>, Rank>, parts: Seq<Seq<u8>>) -> bool {
    forall|i: int|
        0 <= i < parts.len() ==> (#[trigger] parts[i]).len() == 1 || ranks.contains_key(parts[i])
}

proof fn lemma_merged_known(ranks: Map<Seq<u8>, Rank>, parts: Seq<Seq<u8>>)
    requires
        known_parts(ranks, parts),
    ensures
        known_parts(ranks, merged(ranks, parts)),
        merged(ranks, parts).len() <= parts.len(),
        parts.len() > 0 ==> merged(ranks, parts).len() > 0,
    decreases parts.len(),
{
    if exists|k: int| next_merge(ranks, parts, k) {
        let k = choose|k: int| next_merge(ranks, parts, k);
        let after = merge_at(parts, k);
        assert forall|i: int| 0 <= i < after.len() implies (#[trigger] after[i]).len() == 1
            || ranks.contains_key(after[i]) by {
            if i < k {
                assert(after[i] == parts[i]);
            } else if i == k {
                assert(after[i] == joined(parts, k));
            } else {
                assert(after[i] == parts[i + 1]);
            }
        }
        lemma_merged_known(ranks, after);
    }
}

/// A piece has at least one token, if it is not empty, and at most as many as bytes.
pub proof fn law_piece_token_count(ranks: Map<Seq<u8>, Rank>, piece: Seq<u8>)
    ensures
        piece_tokens(ranks, piece).len() <= piece.len(),
        piece.len() > 0 ==> piece_tokens(ranks, piece).len() > 0,
{
    assert(known_parts(ranks, singles(piece)));
    lemma_merged_known(ranks, singles(piece));
}

/// A piece of one byte is one token, whose id is the byte.
pub proof fn law_single_byte(ranks: Map<Seq<u8>, Rank>, byte: u8)
    ensures
        piece_tokens(ranks, seq![byte]) == seq![byte as Rank],
{
    let parts = singles(seq![byte]);
    assert forall|k: int| !next_merge(ranks, parts, k) by {
        assert(!mergeable(ranks, parts, k));
    }
    assert(merged(ranks, parts) == parts);
    assert(piece_tokens(ranks, seq![byte]) =~= seq![byte as Rank]);
}

/// No two keys have the same rank.
pub open spec fn distinct<K>(m: Map<K, Rank>) -> bool {
    forall|a: K, b: K|
        #![trigger m.contains_key(a), m.contains_key(b)]
        m.contains_key(a) && m.contains_key(b) && m[a] == m[b] ==> a == b
}

/// Whether every token stands for one thing: each byte is a token whose id is the byte,
/// ids are given once, and the decoding maps are the encoding maps turned around.
pub open spec fn faithful(v: Vocabulary) -> bool {
    &&& forall|byte: u8| lookup(v.ranks, #[trigger] seq![byte]) == Some(byte as Rank)
    &&& distinct(v.ranks)
    &&& distinct(v.specials)
    &&& forall|key: Seq<u8>| #[trigger] v.ranks.contains_key(key) ==> !v.texts.contains_key(v.ranks[key])
    &&& turned_around(v.ranks, v.bytes)
    &&& turned_around(v.specials, v.texts)
}

/// Whether encoding takes up the whole text: the pattern matches, without a gap, all
/// that is no special token.
pub open spec fn covered(v: Vocabulary, allowed: Seq<Seq<char>>, rest: Seq<char>) -> bool
    decreases rest.len(),
{
    if rest.len() == 0 {
        true
    } else {
        match special_at(v.specials, allowed, rest, 0) {
            Some(special) => {
                &&& rest.skip(special.len() as int).len() < rest.len()
                &&& covered(v, allowed, rest.skip(special.len() as int))
            },
            None => match first_match(v.pattern, rest) {
                Some((start, end)) => {
                    &&& start == 0
                    &&& well_placed(rest, start, end)
                    &&& text_from(rest, end).len() < rest.len()
                    &&& covered(v, allowed, text_from(rest, end))
                },
                None => false,
            },
        }
    }
}

/// Whether the tokens of a piece decode, one by one, to the parts that they were made of.
pub open spec fn spelled(v: Vocabulary, piece: Seq<u8>) -> bool {
    spelled_parts(v, merged(v.ranks, singles(piece)))
}

/// Whether the token of each part decodes to that part.
pub open spec fn spelled_parts(v: Vocabulary, parts: Seq<Seq<u8>>) -> bool {
    forall|i: int|
        0 <= i < parts.len() ==> {
            let token = part_token(v.ranks, #[trigger] parts[i]);
            !v.texts.contains_key(token) && lookup(v.bytes, token) == Some(parts[i])
        }
}

/// Whether each token that `text` is encoded to stands for the text that it was made of.
pub open spec fn readable(v: Vocabulary, allowed: Seq<Seq<char>>, rest: Seq<char>) -> bool
    decreases rest.len(),
{
    if rest.len() == 0 {
        true
    } else {
        match special_at(v.specials, allowed, rest, 0) {
            Some(special) => {
                let after = rest.skip(special.len() as int);
                &&& lookup(v.texts, v.specials[special]) == Some(special)
                &&& after.len() < rest.len() ==> readable(v, allowed, after)
            },
            None => match first_match(v.pattern, rest) {
                Some((start, end)) => {
                    let piece = encode_utf8(rest).subrange(start as int, end as int);
                    &&& spelled(v, piece)
                    &&& text_from(rest, end).len() < rest.len() ==> readable(
                        v,
                        allowed,
                        text_from(rest, end),
                    )
                },
                None => true,
            },
        }
    }
}

proof fn lemma_special_found(
    specials: Map<Seq<char>, Rank>,
    allowed: Seq<Seq<char>>,
    rest: Seq<char>,
    from: int,
)
    requires
        0 <= from,
    ensures
        match special_at(specials, allowed, rest, from) {
            Some(special) => {
                &&& specials.contains_key(special)
                &&& special.is_prefix_of(rest)
                &&& exists|i: int| from <= i < allowed.len() && allowed[i] == special
            },
            None => forall|i: int|
                from <= i < allowed.len() && specials.contains_key(#[trigger] allowed[i])
                    ==> !allowed[i].is_prefix_of(rest),
        },
    decreases allowed.len() - from,
{
    if from < allowed.len() {
        lemma_special_found(specials, allowed, rest, from + 1);
    }
}

/// Parts that are spelled by their tokens decode to their bytes.
proof fn lemma_parts_decoded(
    v: Vocabulary,
    parts: Seq<Seq<u8>>,
    more: Seq<Rank>,
    pending: Seq<u8>,
)
    requires
        spelled_parts(v, parts),
    ensures
        decoded(
            v,
            parts.map_values(|part: Seq<u8>| part_token(v.ranks, part)) + more,
            pending,
        ) == decoded(v, more, pending + concat(parts)),
    decreases parts.len(),
{
    let tokens = parts.map_values(|part: Seq<u8>| part_token(v.ranks, part));
    if parts.len() == 0 {
        assert(tokens + more =~= more);
        assert(pending + concat(parts) =~= pending);
    } else {
        let part = parts[0];
        let token = part_token(v.ranks, part);
        let rest = parts.skip(1);
        assert(lookup(v.bytes, part_token(v.ranks, parts[0])) == Some(parts[0]));
        assert((tokens + more)[0] == token);
        assert((tokens + more).skip(1) =~= rest.map_values(
            |part: Seq<u8>| part_token(v.ranks, part),
        ) + more);
        assert(spelled_parts(v, rest)) by {
            assert forall|i: int| 0 <= i < rest.len() implies {
                let token = part_token(v.ranks, #[trigger] rest[i]);
                !v.texts.contains_key(token) && lookup(v.bytes, token) == Some(rest[i])
            } by {
                assert(rest[i] == parts[i + 1]);
            }
        }
        lemma_parts_decoded(v, rest, more, pending + part);
        assert((pending + part) + concat(rest) =~= pending + concat(parts));
    }
}

/// The bytes of a text and more text are the bytes of both.
proof fn lemma_encode_concat(a: Seq<char>, b: Seq<char>)
    ensures
        encode_utf8(a + b) == encode_utf8(a) + encode_utf8(b),
    decreases a.len(),
{
    if a.len() == 0 {
        assert(a + b =~= b);
        assert(encode_utf8(a) + encode_utf8(b) =~= encode_utf8(b));
    } else {
        lemma_encode_concat(a.drop_first(), b);
        assert((a + b).drop_first() =~= a.drop_first() + b);
        assert((a + b)[0] == a[0]);
        assert(encode_utf8(a + b) =~= encode_utf8(a) + encode_utf8(b));
    }
}

proof fn lemma_flushed_text(text: Seq<char>)
    ensures
        flushed(encode_utf8(text)) == text,
{
    broadcast use vstd::utf8::group_utf8_lib;

    assert(decode_utf8(encode_utf8(text)) == text);
    if encode_utf8(text).len() == 0 {
        assert(encode_utf8(text) =~= seq![]);
        assert(text =~= seq![]);
    }
}

/// Decoding what a text was encoded to, after text that waits to be decoded, gives both.
proof fn lemma_round_trip(
    v: Vocabulary,
    allowed: Seq<Seq<char>>,
    rest: Seq<char>,
    before: Seq<char>,
)
    requires
        readable(v, allowed, rest),
        covered(v, allowed, rest),
    ensures
        scan(v, allowed, rest) matches Some(tokens) && decoded(v, tokens, encode_utf8(before))
            == before + rest,
    decreases rest.len(),
{
    if rest.len() == 0 {
        lemma_flushed_text(before);
        assert(before + rest =~= before);
    } else {
        lemma_special_found(v.specials, allowed, rest, 0);
        match special_at(v.specials, allowed, rest, 0) {
            Some(special) => {
                let after = rest.skip(special.len() as int);
                lemma_round_trip(v, allowed, after, seq![]);
                let more = scan(v, allowed, after)->0;
                let rank = v.specials[special];
                let tokens = seq![rank] + more;
                assert(scan(v, allowed, rest) == Some(tokens));
                assert(tokens[0] == rank);
                assert(tokens.skip(1) =~= more);
                lemma_flushed_text(before);
                assert(encode_utf8(Seq::<char>::empty()) =~= seq![]);
                assert(seq![] + after =~= after);
                assert(special + after =~= rest);
                assert(before + special + after =~= before + rest);
            },
            None => {
                let (start, end) = first_match(v.pattern, rest)->0;
                let bytes = encode_utf8(rest);
                let piece = bytes.subrange(0, end as int);
                let after = text_from(rest, end);
                vstd::utf8::encode_utf8_valid_utf8(rest);
                vstd::utf8::valid_utf8_split(bytes, end as int);
                vstd::utf8::decode_utf8_split(bytes, end as int);
                let head = decode_utf8(piece);
                vstd::utf8::decode_utf8_encode_utf8(piece);
                vstd::utf8::encode_utf8_decode_utf8(rest);
                assert(bytes.skip(end as int) =~= bytes.subrange(end as int, bytes.len() as int));
                assert(rest == head + after);
                lemma_round_trip(v, allowed, after, before + head);
                let more = scan(v, allowed, after)->0;
                let parts = merged(v.ranks, singles(piece));
                let tokens = piece_tokens(v.ranks, piece);
                assert(scan(v, allowed, rest) == Some(tokens + more));
                law_merging_keeps_bytes(v.ranks, singles(piece));
                lemma_singles_concat(piece);
                lemma_parts_decoded(v, parts, more, encode_utf8(before));
                lemma_encode_concat(before, head);
                assert(before + head + after =~= before + rest);
            },
        }
    }
}

/// Decoding gives back what was encoded: where encoding takes up the whole text, and each
/// token stands for the text that it was made of, the tokens decode to that text.
pub proof fn law_round_trip(v: Vocabulary, allowed: Seq<Seq<char>>, text: Seq<char>)
    requires
        readable(v, allowed, text),
        covered(v, allowed, text),
    ensures
        scan(v, allowed, text) matches Some(tokens) && decoded(v, tokens, seq![]) == text,
{
    lemma_round_trip(v, allowed, text, seq![]);
    assert(encode_utf8(Seq::<char>::empty()) =~= seq![]);
    assert(seq![] + text =~= text);
}

/// In a faithful vocabulary each token stands for the text that it was made of.
pub proof fn law_faithful_is_readable(v: Vocabulary, allowed: Seq<Seq<char>>, rest: Seq<char>)
    requires
        faithful(v),
    ensures
        readable(v, allowed, rest),
    decreases rest.len(),
{
    if rest.len() > 0 {
        lemma_special_found(v.specials, allowed, rest, 0);
        match special_at(v.specials, allowed, rest, 0) {
            Some(special) => {
                let rank = v.specials[special];
                assert(v.texts.contains_key(rank));
                assert(lookup(v.specials, v.texts[rank]) == Some(rank));
                let after = rest.skip(special.len() as int);
                if after.len() < rest.len() {
                    law_faithful_is_readable(v, allowed, after);
                }
            },
            None => {
                if let Some((start, end)) = first_match(v.pattern, rest) {
                    let piece = encode_utf8(rest).subrange(start as int, end as int);
                    lemma_faithful_is_spelled(v, piece);
                    if text_from(rest, end).len() < rest.len() {
                        law_faithful_is_readable(v, allowed, text_from(rest, end));
                    }
                }
            },
        }
    }
}

proof fn lemma_faithful_is_spelled(v: Vocabulary, piece: Seq<u8>)
    requires
        faithful(v),
    ensures
        spelled(v, piece),
{
    let parts = merged(v.ranks, singles(piece));
    assert(known_parts(v.ranks, singles(piece)));
    lemma_merged_known(v.ranks, singles(piece));
    assert forall|i: int| 0 <= i < parts.len() implies {
        let token = part_token(v.ranks, #[trigger] parts[i]);
        !v.texts.contains_key(token) && lookup(v.bytes, token) == Some(parts[i])
    } by {
        let part = parts[i];
        let token = part_token(v.ranks, part);
        if part.len() == 1 {
            assert(part =~= seq![part[0]]);
            assert(lookup(v.ranks, seq![part[0]]) == Some(part[0] as Rank));
        }
        assert(v.ranks.contains_key(part) && v.ranks[part] == token);
        assert(v.bytes.contains_key(token));
        assert(lookup(v.ranks, v.bytes[token]) == Some(token));
    }
}

/// The empty text has no tokens.
pub proof fn law_empty_text(v: Vocabulary, allowed: Seq<Seq<char>>)
    ensures
        scan(v, allowed, seq![]) == Some(Seq::<Rank>::empty()),
{
}

/// No special token begins another one.
pub open spec fn prefix_free(specials: Map<Seq<char>, Rank>) -> bool {
    forall|a: Seq<char>, b: Seq<char>|
        #![trigger specials.contains_key(a), specials.contains_key(b)]
        specials.contains_key(a) && specials.contains_key(b) && a.is_prefix_of(b) ==> a == b
}

proof fn lemma_special_by_any_order(
    specials: Map<Seq<char>, Rank>,
    names: Seq<Seq<char>>,
    other: Seq<Seq<char>>,
    rest: Seq<char>,
)
    requires
        prefix_free(specials),
        lists(specials, names),
        lists(specials, other),
    ensures
        special_at(specials, names, rest, 0) == special_at(specials, other, rest, 0),
{
    lemma_special_found(specials, names, rest, 0);
    lemma_special_found(specials, other, rest, 0);
    match (special_at(specials, names, rest, 0), special_at(specials, other, rest, 0)) {
        (Some(a), Some(b)) => {
            if a.len() <= b.len() {
                assert(a.is_prefix_of(b));
            } else {
                assert(b.is_prefix_of(a));
            }
        },
        (Some(a), None) => {
            assert(other.contains(a));
        },
        (None, Some(b)) => {
            assert(names.contains(b));
        },
        (None, None) => {},
    }
}

/// Where no special token begins another one, the order in which they are tried makes no
/// difference: a text has the same tokens by any of them.
pub proof fn law_special_order_is_irrelevant(
    v: Vocabulary,
    names: Seq<Seq<char>>,
    other: Seq<Seq<char>>,
    rest: Seq<char>,
)
    requires
        prefix_free(v.specials),
        lists(v.specials, names),
        lists(v.specials, other),
    ensures
        scan(v, names, rest) == scan(v, other, rest),
    decreases rest.len(),
{
    if rest.len() > 0 {
        lemma_special_by_any_order(v.specials, names, other, rest);
        assert(next_step(v, names, rest) == next_step(v, other, rest));
        match next_step(v, names, rest) {
            Step::Take(tokens, after) => {
                if after.len() < rest.len() {
                    law_special_order_is_irrelevant(v, names, other, after);
                }
            },
            _ => {},
        }
    }
}

/// A special token in front of a text is encoded as its own id, whatever follows.
pub proof fn law_special_token_first(
    v: Vocabulary,
    names: Seq<Seq<char>>,
    special: Seq<char>,
    rest: Seq<char>,
)
    requires
        prefix_free(v.specials),
        lists(v.specials, names),
        v.specials.contains_key(special),
        special.len() > 0,
    ensures
        scan(v, names, special + rest) == match scan(v, names, rest) {
            Some(tokens) => Some(seq![v.specials[special]] + tokens),
            None => None,
        },
{
    let text = special + rest;
    lemma_special_found(v.specials, names, text, 0);
    assert(special.is_prefix_of(text)) by {
        assert(text.subrange(0, special.len() as int) =~= special);
    }
    assert(names.contains(special));
    let found = special_at(v.specials, names, text, 0);
    assert(found is Some);
    let a = found->0;
    if a.len() <= special.len() {
        assert(a.is_prefix_of(special)) by {
            assert(special.subrange(0, a.len() as int) =~= text.subrange(0, a.len() as int));
        }
    } else {
        assert(special.is_prefix_of(a)) by {
            assert(a.subrange(0, special.len() as int) =~= text.subrange(0, special.len() as int));
        }
    }
    assert(a == special);
    assert(text.skip(special.len() as int) =~= rest);
}

/// A token that is not known adds nothing to a text.
pub proof fn law_unknown_token_is_left_out(
    v: Vocabulary,
    before: Seq<Rank>,
    unknown: Rank,
    after: Seq<Rank>,
    pending: Seq<u8>,
)
    requires
        !v.texts.contains_key(unknown),
        !v.bytes.contains_key(unknown),
    ensures
        decoded(v, before.push(unknown) + after, pending) == decoded(v, before + after, pending),
    decreases before.len(),
{
    let with = before.push(unknown) + after;
    let without = before + after;
    if before.len() == 0 {
        assert(with.skip(1) =~= without);
        assert(with[0] == unknown);
    } else {
        let rest = before.skip(1);
        assert(with[0] == before[0] && without[0] == before[0]);
        assert(with.skip(1) =~= rest.push(unknown) + after);
        assert(without.skip(1) =~= rest + after);
        law_unknown_token_is_left_out(v, rest, unknown, after, seq![]);
        law_unknown_token_is_left_out(v, rest, unknown, after, pending);
        if v.bytes.contains_key(before[0]) {
            law_unknown_token_is_left_out(v, rest, unknown, after, pending + v.bytes[before[0]]);
        }
    }
}

/// A special token parts a text: what stands before it and what stands after it are
/// decoded on their own.
pub proof fn law_special_token_parts_text(
    v: Vocabulary,
    before: Seq<Rank>,
    special: Rank,
    after: Seq<Rank>,
    pending: Seq<u8>,
)
    requires
        v.texts.contains_key(special),
    ensures
        decoded(v, before.push(special) + after, pending) == decoded(v, before, pending)
            + v.texts[special] + decoded(v, after, seq![]),
    decreases before.len(),
{
    let whole = before.push(special) + after;
    if before.len() == 0 {
        assert(whole.skip(1) =~= after);
        assert(whole[0] == special);
    } else {
        let rest = before.skip(1);
        assert(whole[0] == before[0]);
        assert(whole.skip(1) =~= rest.push(special) + after);
        law_special_token_parts_text(v, rest, special, after, seq![]);
        law_special_token_parts_text(v, rest, special, after, pending);
        if v.bytes.contains_key(before[0]) {
            law_special_token_parts_text(v, rest, special, after, pending + v.bytes[before[0]]);
        }
        if v.texts.contains_key(before[0]) {
            let text = v.texts[before[0]];
            assert(decoded(v, whole, pending) =~= flushed(pending) + text + decoded(
                v,
                rest,
                seq![],
            ) + v.texts[special] + decoded(v, after, seq![]));
        }
    }
}

/// The steps in which a piece is merged. The result has the parts before each step and at
/// the end, and the place of the pair that each step joins. At first every byte is a part
/// of its own. Every step joins a pair that is a token, of a rank no higher than that of
/// any other pair that is one, and the leftmost of that rank. At the end no pair is a
/// token, and the tokens of the piece are those of the parts: a single byte is its own,
/// and a longer part has its rank.
pub proof fn law_merges_go_by_rank(ranks: Map<Seq<u8>, Rank>, piece: Seq<u8>) -> (r: (
    Seq<Seq<Seq<u8>>>,
    Seq<int>,
))
    ensures
        r.0.len() == r.1.len() + 1,
        r.0[0] == Seq::new(piece.len(), |i: int| seq![piece[i]]),
        forall|s: int|
            0 <= s < r.1.len() ==> {
                let parts = r.0[s];
                let k = #[trigger] r.1[s];
                let pair = parts[k] + parts[k + 1];
                &&& 0 <= k < parts.len() - 1
                &&& ranks.contains_key(pair)
                &&& r.0[s + 1] == parts.take(k) + seq![pair] + parts.skip(k + 2)
                &&& forall|j: int, n: int|
                    0 <= j && n == j + 1 && n < parts.len() && #[trigger] ranks.contains_key(
                        parts[j] + parts[n],
                    ) ==> ranks[pair] < ranks[parts[j] + parts[n]] || (ranks[pair]
                        == ranks[parts[j] + parts[n]] && k <= j)
            },
        ({
            let parts = r.0.last();
            let tokens = piece_tokens(ranks, piece);
            &&& forall|j: int, n: int|
                0 <= j && n == j + 1 && n < parts.len() ==> !#[trigger] ranks.contains_key(
                    parts[j] + parts[n],
                )
            &&& tokens.len() == parts.len()
            &&& forall|i: int|
                0 <= i < parts.len() ==> #[trigger] tokens[i] == if parts[i].len() == 1 {
                    parts[i][0] as Rank
                } else {
                    ranks[parts[i]]
                }
        }),
{
    let r = lemma_merge_trace(ranks, singles(piece));
    assert(r.0[0] =~= Seq::new(piece.len(), |i: int| seq![piece[i]]));
    r
}

/// The steps in which parts are merged.
proof fn lemma_merge_trace(ranks: Map<Seq<u8>, Rank>, parts: Seq<Seq<u8>>) -> (r: (
    Seq<Seq<Seq<u8>>>,
    Seq<int>,
))
    ensures
        r.0.len() == r.1.len() + 1,
        r.0[0] == parts,
        r.0.last() == merged(ranks, parts),
        forall|s: int|
            0 <= s < r.1.len() ==> {
                let parts = r.0[s];
                let k = #[trigger] r.1[s];
                let pair = parts[k] + parts[k + 1];
                &&& 0 <= k < parts.len() - 1
                &&& ranks.contains_key(pair)
                &&& r.0[s + 1] == parts.take(k) + seq![pair] + parts.skip(k + 2)
                &&& forall|j: int, n: int|
                    0 <= j && n == j + 1 && n < parts.len() && #[trigger] ranks.contains_key(
                        parts[j] + parts[n],
                    ) ==> ranks[pair] < ranks[parts[j] + parts[n]] || (ranks[pair]
                        == ranks[parts[j] + parts[n]] && k <= j)
            },
        forall|j: int, n: int|
            0 <= j && n == j + 1 && n < r.0.last().len() ==> !#[trigger] ranks.contains_key(
                r.0.last()[j] + r.0.last()[n],
            ),
    decreases parts.len(),
{
    if exists|k: int| next_merge(ranks, parts, k) {
        let k = choose|k: int| next_merge(ranks, parts, k);
        let pair = parts[k] + parts[k + 1];
        let after = merge_at(parts, k);
        let rest = lemma_merge_trace(ranks, after);
        let states = seq![parts] + rest.0;
        let places = seq![k] + rest.1;
        assert(after =~= parts.take(k) + seq![pair] + parts.skip(k + 2));
        assert(states.last() == rest.0.last());
        assert forall|s: int| 0 <= s < places.len() implies {
            let parts = states[s];
            let k = #[trigger] places[s];
            let pair = parts[k] + parts[k + 1];
            &&& 0 <= k < parts.len() - 1
            &&& ranks.contains_key(pair)
            &&& states[s + 1] == parts.take(k) + seq![pair] + parts.skip(k + 2)
            &&& forall|j: int, n: int|
                0 <= j && n == j + 1 && n < parts.len() && #[trigger] ranks.contains_key(
                    parts[j] + parts[n],
                ) ==> ranks[pair] < ranks[parts[j] + parts[n]] || (ranks[pair]
                    == ranks[parts[j] + parts[n]] && k <= j)
        } by {
            if s == 0 {
                assert(states[1] == rest.0[0]);
                assert forall|j: int, n: int|
                    0 <= j && n == j + 1 && n < parts.len() && #[trigger] ranks.contains_key(
                        parts[j] + parts[n],
                    ) implies ranks[pair] < ranks[parts[j] + parts[n]] || (ranks[pair]
                    == ranks[parts[j] + parts[n]] && k <= j) by {
                    assert(joined(parts, j) == parts[j] + parts[n]);
                    assert(mergeable(ranks, parts, j));
                    assert(joined(parts, k) == pair);
                }
            } else {
                assert(places[s] == rest.1[s - 1]);
                assert(states[s] == rest.0[s - 1]);
                assert(states[s + 1] == rest.0[s]);
            }
        }
        (states, places)
    } else {
        let states = seq![parts];
        let places: Seq<int> = seq![];
        assert forall|j: int, n: int|
            0 <= j && n == j + 1 && n < parts.len() implies !#[trigger] ranks.contains_key(
            parts[j] + parts[n],
        ) by {
            assert(joined(parts, j) == parts[j] + parts[n]);
            if mergeable(ranks, parts, j) {
                lemma_some_merge_is_next(ranks, parts, j);
            }
        }
        (states, places)
    }
}

/// Two bytes are one token where the two are a token together, and else two.
pub proof fn law_two_bytes(ranks: Map<Seq<u8>, Rank>, a: u8, b: u8)
    ensures
        piece_tokens(ranks, seq![a, b]) == if ranks.contains_key(seq![a, b]) {
            seq![ranks[seq![a, b]]]
        } else {
            seq![a as Rank, b as Rank]
        },
{
    let piece = seq![a, b];
    let tokens = piece_tokens(ranks, piece);
    let (states, places) = law_merges_go_by_rank(ranks, piece);
    let parts = states[0];
    assert(parts =~= seq![seq![a], seq![b]]);
    assert(parts[0] + parts[1] =~= piece);
    if places.len() > 0 {
        let k = places[0];
        assert(k == 0);
        assert(states[1] =~= seq![piece]);
        if places.len() > 1 {
            let k = places[1];
            assert(0 <= k < states[1].len() - 1);
        }
        assert(tokens =~= seq![ranks[piece]]);
    } else {
        assert(tokens[0] == a as Rank && tokens[1] == b as Rank);
        assert(tokens =~= seq![a as Rank, b as Rank]);
    }
}

/// Of two pairs that overlap in a piece of three bytes, the one of lower rank is joined,
/// and the first of two of one rank.
pub proof fn law_lower_rank_is_joined(ranks: Map<Seq<u8>, Rank>, a: u8, b: u8, c: u8)
    requires
        ranks.contains_key(seq![a, b]),
        ranks.contains_key(seq![b, c]),
        !ranks.contains_key(seq![a, b, c]),
    ensures
        piece_tokens(ranks, seq![a, b, c]) == if ranks[seq![a, b]] <= ranks[seq![b, c]] {
            seq![ranks[seq![a, b]], c as Rank]
        } else {
            seq![a as Rank, ranks[seq![b, c]]]
        },
{
    let piece = seq![a, b, c];
    let (ab, bc) = (seq![a, b], seq![b, c]);
    let tokens = piece_tokens(ranks, piece);
    let (states, places) = law_merges_go_by_rank(ranks, piece);
    let parts = states[0];
    assert(parts =~= seq![seq![a], seq![b], seq![c]]);
    assert(parts[0] + parts[1] =~= ab);
    assert(parts[1] + parts[2] =~= bc);
    assert(places.len() > 0);
    let k = places[0];
    assert(k == 0 || k == 1);
    let next = states[1];
    if k == 0 {
        assert(next =~= seq![ab, seq![c]]);
    } else {
        assert(next =~= seq![seq![a], bc]);
    }
    assert(next[0] + next[1] =~= piece);
    if places.len() > 1 {
        let m = places[1];
        assert(m == 0);
    }
    assert(states.last() == next);
    assert(tokens.len() == 2);
    assert(tokens[0] == if k == 0 { ranks[ab] } else { a as Rank });
    assert(tokens[1] == if k == 0 { c as Rank } else { ranks[bc] });
    assert(tokens =~= seq![tokens[0], tokens[1]]);
}

/// The bytes of a text, followed by those of another, can be parted between the two.
proof fn lemma_boundary_between(a: Seq<char>, b: Seq<char>)
    ensures
        is_char_boundary(encode_utf8(a + b), encode_utf8(a).len() as int),
        encode_utf8(a + b) == encode_utf8(a) + encode_utf8(b),
{
    let (x, y, whole) = (encode_utf8(a), encode_utf8(b), encode_utf8(a + b));
    lemma_encode_concat(a, b);
    vstd::utf8::encode_utf8_valid_utf8(a + b);
    vstd::utf8::encode_utf8_valid_utf8(b);
    let at = x.len() as int;
    if y.len() == 0 {
        assert(whole.len() == at);
        vstd::utf8::is_char_boundary_start_end_of_seq(whole);
    } else {
        vstd::utf8::is_char_boundary_start_end_of_seq(y);
        vstd::utf8::is_char_boundary_iff_not_is_continuation_byte(y, 0);
        assert(whole[at] == y[0]);
        vstd::utf8::is_char_boundary_iff_not_is_continuation_byte(whole, at);
    }
}

/// Where no special token stands next, what the pattern matches first is encoded on its
/// own, what stands before the match is left out, and encoding goes on after it.
pub proof fn law_pieces_are_encoded_on_their_own(
    v: Vocabulary,
    allowed: Seq<Seq<char>>,
    gap: Seq<char>,
    piece: Seq<char>,
    rest: Seq<char>,
)
    requires
        gap.len() + piece.len() > 0,
        !exists|i: int|
            0 <= i < allowed.len() && v.specials.contains_key(#[trigger] allowed[i])
                && allowed[i].is_prefix_of(gap + piece + rest),
        first_match(v.pattern, gap + piece + rest) matches Some((start, end)) && start
            == encode_utf8(gap).len() && end == encode_utf8(gap).len() + encode_utf8(piece).len(),
    ensures
        scan(v, allowed, gap + piece + rest) == match scan(v, allowed, rest) {
            Some(tokens) => Some(piece_tokens(v.ranks, encode_utf8(piece)) + tokens),
            None => None,
        },
{
    let text = gap + piece + rest;
    let (start, end) = first_match(v.pattern, text)->0;
    lemma_special_found(v.specials, allowed, text, 0);
    assert(special_at(v.specials, allowed, text, 0) is None);
    lemma_boundary_between(gap, piece + rest);
    lemma_boundary_between(gap + piece, rest);
    lemma_encode_concat(gap, piece);
    lemma_encode_concat(piece, rest);
    assert(gap + (piece + rest) =~= text);
    assert(encode_utf8(text).subrange(start as int, end as int) =~= encode_utf8(piece));
    assert(encode_utf8(text).skip(end as int) =~= encode_utf8(rest));
    vstd::utf8::encode_utf8_decode_utf8(rest);
    assert(text_from(text, end) == rest);
    assert(well_placed(text, start, end));
}

/// Of the allowed special tokens that are known and stand next, the first in the list is
/// taken, and encoding goes on after it.
pub proof fn law_first_listed_special_is_taken(
    v: Vocabulary,
    allowed: Seq<Seq<char>>,
    i: int,
    rest: Seq<char>,
)
    requires
        0 <= i < allowed.len(),
        v.specials.contains_key(allowed[i]),
        allowed[i].len() > 0,
        forall|j: int|
            0 <= j < i ==> !(v.specials.contains_key(#[trigger] allowed[j])
                && allowed[j].is_prefix_of(allowed[i] + rest)),
    ensures
        scan(v, allowed, allowed[i] + rest) == match scan(v, allowed, rest) {
            Some(tokens) => Some(seq![v.specials[allowed[i]]] + tokens),
            None => None,
        },
{
    let text = allowed[i] + rest;
    assert(allowed[i].is_prefix_of(text)) by {
        assert(text.subrange(0, allowed[i].len() as int) =~= allowed[i]);
    }
    lemma_special_first(v.specials, allowed, text, 0, i);
    assert(text.skip(allowed[i].len() as int) =~= rest);
}

proof fn lemma_special_first(
    specials: Map<Seq<char>, Rank>,
    allowed: Seq<Seq<char>>,
    text: Seq<char>,
    from: int,
    i: int,
)
    requires
        0 <= from <= i < allowed.len(),
        specials.contains_key(allowed[i]),
        allowed[i].is_prefix_of(text),
        forall|j: int|
            from <= j < i ==> !(specials.contains_key(#[trigger] allowed[j])
                && allowed[j].is_prefix_of(text)),
    ensures
        special_at(specials, allowed, text, from) == Some(allowed[i]),
    decreases i - from,
{
    if from < i {
        assert(!(specials.contains_key(allowed[from]) && allowed[from].is_prefix_of(text)));
        lemma_special_first(specials, allowed, text, from + 1, i);
    }
}

/// Where neither a special token stands next nor the pattern matches anything, the rest of
/// the text has no tokens.
pub proof fn law_unmatched_text_has_no_tokens(
    v: Vocabulary,
    allowed: Seq<Seq<char>>,
    text: Seq<char>,
)
    requires
        !exists|i: int|
            0 <= i < allowed.len() && v.specials.contains_key(#[trigger] allowed[i])
                && allowed[i].is_prefix_of(text),
        first_match(v.pattern, text) is None,
    ensures
        scan(v, allowed, text) == Some(Seq::<Rank>::empty()),
{
    lemma_special_found(v.specials, allowed, text, 0);
    if text.len() > 0 {
        assert(next_step(v, allowed, text) == Step::Stop);
    }
}

proof fn lemma_bytes_gather(v: Vocabulary, tokens: Seq<Rank>, pending: Seq<u8>)
    requires
        forall|i: int|
            0 <= i < tokens.len() ==> !v.texts.contains_key(#[trigger] tokens[i])
                && v.bytes.contains_key(tokens[i]),
    ensures
        decoded(v, tokens, pending) == flushed(
            pending + tokens.map_values(|t: Rank| v.bytes[t]).flatten(),
        ),
    decreases tokens.len(),
{
    let strings = tokens.map_values(|t: Rank| v.bytes[t]);
    if tokens.len() == 0 {
        assert(strings.flatten() =~= seq![]);
        assert(pending + strings.flatten() =~= pending);
    } else {
        let rest = tokens.skip(1);
        assert forall|i: int| 0 <= i < rest.len() implies !v.texts.contains_key(
            #[trigger] rest[i],
        ) && v.bytes.contains_key(rest[i]) by {
            assert(rest[i] == tokens[i + 1]);
        }
        assert(!v.texts.contains_key(tokens[0]) && v.bytes.contains_key(tokens[0]));
        lemma_bytes_gather(v, rest, pending + v.bytes[tokens[0]]);
        assert(strings.drop_first() =~= rest.map_values(|t: Rank| v.bytes[t]));
        assert(strings.first() == v.bytes[tokens[0]]);
        assert(pending + v.bytes[tokens[0]] + rest.map_values(|t: Rank| v.bytes[t]).flatten()
            =~= pending + strings.flatten());
    }
}

/// Tokens that stand for bytes are decoded together: the text is the one that all their
/// bytes, one after the other, encode.
pub proof fn law_bytes_are_decoded_together(v: Vocabulary, tokens: Seq<Rank>)
    requires
        forall|i: int|
            0 <= i < tokens.len() ==> !v.texts.contains_key(#[trigger] tokens[i])
                && v.bytes.contains_key(tokens[i]),
    ensures
        ({
            let all = tokens.map_values(|t: Rank| v.bytes[t]).flatten();
            decoded(v, tokens, seq![]) == if valid_utf8(all) {
                decode_utf8(all)
            } else {
                repaired_text(all)
            }
        }),
{
    let all = tokens.map_values(|t: Rank| v.bytes[t]).flatten();
    lemma_bytes_gather(v, tokens, seq![]);
    assert(seq![] + all =~= all);
    if all.len() == 0 {
        assert(all =~= seq![]);
        assert(decode_utf8(all) =~= seq![]);
    }
}

/// A special token is decoded to its text, whatever else its id may stand for.
pub proof fn law_special_token_is_decoded(v: Vocabulary, special: Rank)
    requires
        v.texts.contains_key(special),
    ensures
        decoded(v, seq![special], seq![]) == v.texts[special],
{
    assert(seq![special].skip(1) =~= seq![]);
    assert(decoded(v, seq![], seq![]) =~= seq![]);
    assert(decoded(v, seq![special], seq![]) =~= v.texts[special]);
}

/// Every id that a token has is known back, as that of a token with this id.
pub proof fn law_ids_are_known_back<K>(m: Map<K, Rank>, back: Map<Rank, K>, key: K)
    requires
        turned_around(m, back),
        m.contains_key(key),
    ensures
        back.contains_key(m[key]),
        m.contains_key(back[m[key]]),
        m[back[m[key]]] == m[key],
{
    assert(lookup(m, back[m[key]]) == Some(m[key]));
}

/// Encoding has no end, and no tokens are given, where an empty special token is the first
/// that stands next, or the pattern matches at the very beginning, and nothing.
pub proof fn law_steps_that_take_nothing(
    v: Vocabulary,
    allowed: Seq<Seq<char>>,
    i: int,
    text: Seq<char>,
)
    requires
        text.len() > 0,
        0 <= i < allowed.len(),
        v.specials.contains_key(allowed[i]) && allowed[i].len() == 0 ==> forall|j: int|
            0 <= j < i ==> !(v.specials.contains_key(#[trigger] allowed[j])
                && allowed[j].is_prefix_of(text)),
    ensures
        v.specials.contains_key(allowed[i]) && allowed[i].len() == 0 ==> scan(v, allowed, text)
            is None,
        (forall|j: int|
            0 <= j < allowed.len() ==> !(v.specials.contains_key(#[trigger] allowed[j])
                && allowed[j].is_prefix_of(text))) && first_match(v.pattern, text) == Some(
            (0usize, 0usize),
        ) ==> scan(v, allowed, text) is None,
{
    if v.specials.contains_key(allowed[i]) && allowed[i].len() == 0 {
        assert(allowed[i] =~= seq![]);
        assert(allowed[i].is_prefix_of(text)) by {
            assert(text.subrange(0, 0) =~= seq![]);
        }
        lemma_special_first(v.specials, allowed, text, 0, i);
        assert(text.skip(0) =~= text);
    }
    if (forall|j: int|
        0 <= j < allowed.len() ==> !(v.specials.contains_key(#[trigger] allowed[j])
            && allowed[j].is_prefix_of(text))) && first_match(v.pattern, text) == Some(
        (0usize, 0usize),
    ) {
        lemma_special_found(v.specials, allowed, text, 0);
        assert(special_at(v.specials, allowed, text, 0) is None);
        assert(encode_utf8(text).skip(0) =~= encode_utf8(text));
        vstd::utf8::encode_utf8_decode_utf8(text);
        assert(text_from(text, 0) == text);
    }
}

} // verus!
