//! The hash maps of the tokenizer.
//!
//! The maps are `ahash::AHashMap`s. Each kind of map has a name for what it holds,
//! a mathematical map between plain values, and one function for each operation
//! that the tokenizer performs on it. The bodies call the operation of the same
//! name on the map; their contracts are the documented behaviour of a hash map and
//! are taken on trust.
use ahash::AHashMap;
use vstd::prelude::*;

use crate::Rank;

verus! {

#[verifier::external_type_specification]
#[verifier::external_body]
#[verifier::reject_recursive_types(K)]
#[verifier::reject_recursive_types(V)]
#[verifier::reject_recursive_types(S)]
pub struct ExAHashMap<K, V, S>(AHashMap<K, V, S>);

#[verifier::external_type_specification]
#[verifier::external_body]
pub struct ExRandomState(ahash::RandomState);

/// What a map from byte strings to ranks holds.
pub uninterp spec fn rank_map(m: AHashMap<Vec<u8>, Rank>) -> Map<Seq<u8>, Rank>;

/// What a map from names to ranks holds.
pub uninterp spec fn name_map(m: AHashMap<String, Rank>) -> Map<Seq<char>, Rank>;

/// What a map from ranks to byte strings holds.
pub uninterp spec fn bytes_map(m: AHashMap<Rank, Vec<u8>>) -> Map<Rank, Seq<u8>>;

/// What a map from ranks to texts holds.
pub uninterp spec fn text_map(m: AHashMap<Rank, String>) -> Map<Rank, Seq<char>>;

/// What looking `key` up in `m` gives.
pub open spec fn lookup<K, V>(m: Map<K, V>, key: K) -> Option<V> {
    if m.contains_key(key) {
        Some(m[key])
    } else {
        None
    }
}

/// Whether `m` has no keys.
pub open spec fn holds_nothing<K, V>(m: Map<K, V>) -> bool {
    m == Map::<K, V>::empty()
}

/// Whether `m` holds `n` keys.
pub open spec fn has_size<K, V>(m: Map<K, V>, n: usize) -> bool {
    m.dom().finite() && m.dom().len() == n
}

/// `AHashMap::new`: an empty map.
#[verifier::external_body]
pub(crate) fn rank_map_new() -> (m: AHashMap<Vec<u8>, Rank>)
    ensures
        holds_nothing(rank_map(m)),
{
    AHashMap::new()
}

/// `AHashMap::insert`: adds the pair, or replaces the value that the key had.
#[verifier::external_body]
pub(crate) fn rank_map_insert(m: &mut AHashMap<Vec<u8>, Rank>, key: Vec<u8>, rank: Rank)
    ensures
        rank_map(*final(m)) == rank_map(*old(m)).insert(key@, rank),
{
    m.insert(key, rank);
}

/// `AHashMap::get`: the rank of a byte string, where it has one.
#[verifier::external_body]
pub(crate) fn rank_map_get(m: &AHashMap<Vec<u8>, Rank>, key: &[u8]) -> (r: Option<Rank>)
    ensures
        r == lookup(rank_map(*m), key@),
{
    m.get(key).copied()
}

/// `len` of the map: how many byte strings it holds.
#[verifier::external_body]
pub(crate) fn rank_map_len(m: &AHashMap<Vec<u8>, Rank>) -> (n: usize)
    ensures
        has_size(rank_map(*m), n),
{
    m.len()
}

/// `iter` of the map: every pair that it holds, each key once, in no particular order.
#[verifier::external_body]
pub(crate) fn rank_map_pairs(m: &AHashMap<Vec<u8>, Rank>) -> (pairs: Vec<(Vec<u8>, Rank)>)
    ensures
        forall|i: int|
            0 <= i < pairs@.len() ==> lookup(rank_map(*m), (#[trigger] pairs@[i]).0@) == Some(
                pairs@[i].1,
            ),
        forall|key: Seq<u8>| #[trigger]
            rank_map(*m).contains_key(key) ==> exists|i: int|
                0 <= i < pairs@.len() && (#[trigger] pairs@[i]).0@ == key,
        forall|i: int, j: int|
            0 <= i < j < pairs@.len() ==> (#[trigger] pairs@[i]).0@ != (#[trigger] pairs@[j]).0@,
{
    m.iter().map(|pair| (pair.0.clone(), *pair.1)).collect()
}

/// `AHashMap::new`: an empty map.
#[verifier::external_body]
pub(crate) fn name_map_new() -> (m: AHashMap<String, Rank>)
    ensures
        holds_nothing(name_map(m)),
{
    AHashMap::new()
}

/// `AHashMap::insert`: adds the pair, or replaces the value that the key had.
#[verifier::external_body]
pub(crate) fn name_map_insert(m: &mut AHashMap<String, Rank>, key: String, rank: Rank)
    ensures
        name_map(*final(m)) == name_map(*old(m)).insert(key@, rank),
{
    m.insert(key, rank);
}

/// `AHashMap::get`: the rank of a name, where it has one.
#[verifier::external_body]
pub(crate) fn name_map_get(m: &AHashMap<String, Rank>, key: &str) -> (r: Option<Rank>)
    ensures
        r == lookup(name_map(*m), key@),
{
    m.get(key).copied()
}

/// `len` of the map: how many names it holds.
#[verifier::external_body]
pub(crate) fn name_map_len(m: &AHashMap<String, Rank>) -> (n: usize)
    ensures
        has_size(name_map(*m), n),
{
    m.len()
}

/// `keys` of the map: every name that it holds, each once, in no particular order.
#[verifier::external_body]
pub(crate) fn name_map_names(m: &AHashMap<String, Rank>) -> (names: Vec<&str>)
    ensures
        forall|i: int|
            0 <= i < names@.len() ==> name_map(*m).contains_key((#[trigger] names@[i])@),
        forall|key: Seq<char>| #[trigger]
            name_map(*m).contains_key(key) ==> exists|i: int|
                0 <= i < names@.len() && (#[trigger] names@[i])@ == key,
        forall|i: int, j: int|
            0 <= i < j < names@.len() ==> (#[trigger] names@[i])@ != (#[trigger] names@[j])@,
{
    m.keys().map(|name| name.as_str()).collect()
}

/// `AHashMap::new`: an empty map.
#[verifier::external_body]
pub(crate) fn bytes_map_new() -> (m: AHashMap<Rank, Vec<u8>>)
    ensures
        holds_nothing(bytes_map(m)),
{
    AHashMap::new()
}

/// `AHashMap::insert`: adds the pair, or replaces the value that the key had.
#[verifier::external_body]
pub(crate) fn bytes_map_insert(m: &mut AHashMap<Rank, Vec<u8>>, rank: Rank, bytes: Vec<u8>)
    ensures
        bytes_map(*final(m)) == bytes_map(*old(m)).insert(rank, bytes@),
{
    m.insert(rank, bytes);
}

/// `AHashMap::get`: the byte string of a rank, where it has one.
#[verifier::external_body]
pub(crate) fn bytes_map_get(m: &AHashMap<Rank, Vec<u8>>, rank: Rank) -> (r: Option<&Vec<u8>>)
    ensures
        match r {
            Some(bytes) => lookup(bytes_map(*m), rank) == Some(bytes@),
            None => !bytes_map(*m).contains_key(rank),
        },
{
    m.get(&rank)
}

/// `AHashMap::new`: an empty map.
#[verifier::external_body]
pub(crate) fn text_map_new() -> (m: AHashMap<Rank, String>)
    ensures
        holds_nothing(text_map(m)),
{
    AHashMap::new()
}

/// `AHashMap::insert`: adds the pair, or replaces the value that the key had.
#[verifier::external_body]
pub(crate) fn text_map_insert(m: &mut AHashMap<Rank, String>, rank: Rank, text: String)
    ensures
        text_map(*final(m)) == text_map(*old(m)).insert(rank, text@),
{
    m.insert(rank, text);
}

/// `AHashMap::get`: the text of a rank, where it has one.
#[verifier::external_body]
pub(crate) fn text_map_get(m: &AHashMap<Rank, String>, rank: Rank) -> (r: Option<&String>)
    ensures
        match r {
            Some(text) => lookup(text_map(*m), rank) == Some(text@),
            None => !text_map(*m).contains_key(rank),
        },
{
    m.get(&rank)
}

} // verus!
