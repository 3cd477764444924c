//! Sampling the next token: the way it is done, and the choice once probabilities have
//! been compared with random numbers.
use vstd::prelude::*;

use crate::temperature::Temperature;

verus! {

/// The way in which a token is sampled.
#[derive(Clone, Copy, Debug, PartialEq, Eq, Structural)]
pub enum Plan {
    /// The most likely token.
    Greedy,
    /// One of so many most likely tokens, by chance.
    TopK(usize),
    /// Any token, by chance.
    Full,
}

/// Why no token is sampled.
#[derive(Clone, Copy, Debug, PartialEq, Eq, Structural)]
pub enum SamplingError {
    /// The temperature is below zero.
    NegativeTemperature,
    /// A row of candidates and the row of tokens that they stand for differ in length.
    Shape,
}

/// Whether a number is below zero.
pub open spec fn negative(temperature: Temperature) -> bool {
    !temperature.nan() && temperature.order() < 0
}

/// The way in which a token is sampled: at temperature zero the most likely one, else by
/// chance among the `top_k` most likely, or among all where that is no restriction.
pub open spec fn plan_of(temperature: Temperature, top_k: Option<usize>, vocab: usize) -> Plan {
    if temperature.order() == 0 {
        Plan::Greedy
    } else {
        match top_k {
            Some(k) => if 0 < k < vocab {
                Plan::TopK(k)
            } else {
                Plan::Full
            },
            None => Plan::Full,
        }
    }
}

/// The way in which a token is sampled, or why none is.
pub open spec fn sampling_plan(
    temperature: Temperature,
    top_k: Option<usize>,
    vocab: usize,
) -> Result<Plan, SamplingError> {
    if negative(temperature) {
        Err(SamplingError::NegativeTemperature)
    } else {
        Ok(plan_of(temperature, top_k, vocab))
    }
}

/// The way in which a token is sampled.
pub fn plan_sampling(temperature: Temperature, top_k: Option<usize>, vocab: usize) -> (r: Result<
    Plan,
    SamplingError,
>)
    ensures
        match r {
            Ok(plan) => !negative(temperature) && plan == plan_of(temperature, top_k, vocab),
            Err(e) => negative(temperature) && e is NegativeTemperature,
        },
        r == sampling_plan(temperature, top_k, vocab),
{
    if temperature.below(Temperature::from_bits(0)) {
        return Err(SamplingError::NegativeTemperature);
    }
    if temperature.is_zero() {
        return Ok(Plan::Greedy);
    }
    match top_k {
        Some(k) => if k > 0 && k < vocab {
            Ok(Plan::TopK(k))
        } else {
            Ok(Plan::Full)
        },
        None => Ok(Plan::Full),
    }
}

impl SamplingError {
    /// The text that says why.
    pub fn message(&self) -> (text: String)
        ensures
            text@ == match *self {
                SamplingError::NegativeTemperature => "temperature must be non-negative"@,
                SamplingError::Shape => "candidates and tokens differ in number"@,
            },
    {
        match self {
            SamplingError::NegativeTemperature => "temperature must be non-negative".to_owned(),
            SamplingError::Shape => "candidates and tokens differ in number".to_owned(),
        }
    }
}

/// Whether `index` is the earliest place of a hit; the first place where there is none.
pub open spec fn is_earliest(hits: Seq<bool>, index: int) -> bool {
    if exists|i: int| 0 <= i < hits.len() && #[trigger] hits[i] {
        0 <= index < hits.len() && hits[index] && forall|i: int|
            0 <= i < index ==> !#[trigger] hits[i]
    } else {
        index == 0
    }
}

/// The earliest place of a hit; the first place where there is none.
pub fn earliest_hit(hits: &Vec<bool>) -> (index: usize)
    ensures
        is_earliest(hits@, index as int),
{
    for i in 0..hits.len()
        invariant
            forall|j: int| 0 <= j < i ==> !#[trigger] hits@[j],
    {
        if hits[i] {
            return i;
        }
    }
    0
}

/// Whether `token` is the one that a row of candidates chooses: the candidate at the
/// earliest hit, or the token that it stands for.
pub open spec fn chosen(hits: Seq<bool>, mapping: Option<Seq<u32>>, token: u32) -> bool {
    exists|index: int| #[trigger]
        is_earliest(hits, index) && match mapping {
            Some(tokens) => 0 <= index < tokens.len() && token == tokens[index],
            None => token == index,
        }
}

/// Whether each token is the one that its row of candidates chooses.
pub open spec fn all_chosen(
    hits: Seq<Vec<bool>>,
    mapping: Option<&Vec<Vec<u32>>>,
    tokens: Seq<u32>,
) -> bool {
    &&& tokens.len() == hits.len()
    &&& forall|b: int|
        0 <= b < tokens.len() ==> chosen(
            hits[b]@,
            match mapping {
                Some(rows) => Some(rows@[b]@),
                None => None,
            },
            #[trigger] tokens[b],
        )
}

/// Chooses a token for each row. A row has, for each candidate, whether the probability
/// of it and of those before it reaches the row's random number. Where candidates stand
/// for tokens, `mapping` has those of each row.
pub fn choose_tokens(hits: &Vec<Vec<bool>>, mapping: Option<&Vec<Vec<u32>>>) -> (r: Result<
    Vec<u32>,
    SamplingError,
>)
    requires
        forall|b: int|
            0 <= b < hits@.len() ==> 0 < (#[trigger] hits@[b])@.len() <= u32::MAX,
    ensures
        r matches Err(e) ==> e is Shape && exists|rows: &Vec<Vec<u32>>|
            mapping == Some(rows) && !same_shape(hits@, #[trigger] rows@),
        r matches Ok(tokens) ==> {
            &&& mapping matches Some(rows) ==> same_shape(hits@, rows@)
            &&& tokens@.len() == hits@.len()
            &&& forall|b: int|
                0 <= b < tokens@.len() ==> chosen(
                    hits@[b]@,
                    match mapping {
                        Some(rows) => Some(rows@[b]@),
                        None => None,
                    },
                    #[trigger] tokens@[b],
                )
        },
        r matches Ok(tokens) ==> all_chosen(hits@, mapping, tokens@),
{
    let n = hits.len();
    if let Some(rows) = mapping {
        if rows.len() != n {
            return Err(SamplingError::Shape);
        }
    }
    let mut tokens: Vec<u32> = Vec::new();
    for b in 0..n
        invariant
            n == hits@.len(),
            forall|b: int|
                0 <= b < hits@.len() ==> 0 < (#[trigger] hits@[b])@.len() <= u32::MAX,
            mapping matches Some(rows) ==> rows@.len() == n,
            mapping matches Some(rows) ==> forall|i: int|
                0 <= i < b ==> (#[trigger] rows@[i])@.len() == hits@[i]@.len(),
            tokens@.len() == b,
            forall|i: int|
                0 <= i < b ==> chosen(
                    hits@[i]@,
                    match mapping {
                        Some(rows) => Some(rows@[i]@),
                        None => None,
                    },
                    #[trigger] tokens@[i],
                ),
    {
        let row = &hits[b];
        assert(0 < hits@[b as int]@.len() <= u32::MAX);
        let index = earliest_hit(row);
        assert(index < row@.len());
        match mapping {
            Some(rows) => {
                if rows[b].len() != row.len() {
                    assert(!same_shape(hits@, rows@)) by {
                        assert(rows@[b as int]@.len() != hits@[b as int]@.len());
                    }
                    return Err(SamplingError::Shape);
                }
                let token = rows[b][index];
                assert(chosen(row@, Some(rows@[b as int]@), token)) by {
                    assert(is_earliest(row@, index as int));
                }
                tokens.push(token);
            },
            None => {
                let token = index as u32;
                assert(chosen(row@, None, token)) by {
                    assert(is_earliest(row@, index as int));
                }
                tokens.push(token);
            },
        }
    }
    Ok(tokens)
}

/// Whether there is a row of tokens for each row of candidates, of the same length.
pub open spec fn same_shape(hits: Seq<Vec<bool>>, rows: Seq<Vec<u32>>) -> bool {
    &&& rows.len() == hits.len()
    &&& forall|b: int| 0 <= b < rows.len() ==> (#[trigger] rows[b])@.len() == hits[b]@.len()
}

/// A row chooses one token only.
pub proof fn law_choice_is_unique(hits: Seq<bool>, mapping: Option<Seq<u32>>, a: u32, b: u32)
    requires
        chosen(hits, mapping, a),
        chosen(hits, mapping, b),
    ensures
        a == b,
{
    let i = choose|index: int| #[trigger]
        is_earliest(hits, index) && match mapping {
            Some(tokens) => 0 <= index < tokens.len() && a == tokens[index],
            None => a == index,
        };
    let j = choose|index: int| #[trigger]
        is_earliest(hits, index) && match mapping {
            Some(tokens) => 0 <= index < tokens.len() && b == tokens[index],
            None => b == index,
        };
    if exists|k: int| 0 <= k < hits.len() && #[trigger] hits[k] {
        if i < j {
            assert(hits[i]);
        }
        if j < i {
            assert(hits[j]);
        }
    }
}

/// Where candidates stand for tokens, the chosen token is one of them.
pub proof fn law_choice_is_among_candidates(hits: Seq<bool>, tokens: Seq<u32>, token: u32)
    requires
        chosen(hits, Some(tokens), token),
    ensures
        tokens.contains(token),
{
}

/// No restriction and one that allows no tokens or all of them are the same.
pub proof fn law_full_vocabulary(temperature: Temperature, k: usize, vocab: usize)
    requires
        k == 0 || k >= vocab,
    ensures
        plan_of(temperature, Some(k), vocab) == plan_of(temperature, None, vocab),
{
}

/// At a temperature of zero, and at no other, the most likely token is taken. At every other
/// temperature a token is taken by chance: among the `k` most likely ones where `k` allows
/// some but not all, and else among all.
pub proof fn law_ways_of_sampling(temperature: Temperature, top_k: Option<usize>, vocab: usize)
    ensures
        plan_of(temperature, top_k, vocab) is Greedy <==> temperature.bits == 0
            || temperature.bits == 0x8000_0000_0000_0000,
        forall|k: usize| #[trigger]
            plan_of(temperature, top_k, vocab) == Plan::TopK(k) <==> temperature.bits != 0
                && temperature.bits != 0x8000_0000_0000_0000 && top_k == Some(k) && 0 < k < vocab,
        plan_of(temperature, top_k, vocab) is Full <==> temperature.bits != 0 && temperature.bits
            != 0x8000_0000_0000_0000 && (top_k matches Some(k) ==> k == 0 || k >= vocab),
{
}

/// Exactly the numbers below zero are refused as temperatures: those with the sign bit, but
/// for the second zero and what is not a number.
pub proof fn law_refused_temperatures(temperature: Temperature)
    ensures
        negative(temperature) <==> 0x8000_0000_0000_0000 < temperature.bits
            <= 0xfff0_0000_0000_0000,
{
}

/// The candidate at the earliest hit is chosen, or the token that it stands for.
pub proof fn law_earliest_hit_is_chosen(
    hits: Seq<bool>,
    tokens: Seq<u32>,
    index: int,
    token: u32,
    mapped: u32,
)
    requires
        0 <= index < hits.len() <= u32::MAX,
        tokens.len() == hits.len(),
        hits[index],
        forall|i: int| 0 <= i < index ==> !#[trigger] hits[i],
    ensures
        chosen(hits, None, token) <==> token == index,
        chosen(hits, Some(tokens), mapped) <==> mapped == tokens[index],
{
    assert(is_earliest(hits, index));
    assert(chosen(hits, None, index as u32));
    assert(chosen(hits, Some(tokens), tokens[index]));
    if chosen(hits, None, token) {
        law_choice_is_unique(hits, None, token, index as u32);
    }
    if chosen(hits, Some(tokens), mapped) {
        law_choice_is_unique(hits, Some(tokens), mapped, tokens[index]);
    }
}

/// Where nothing is hit, the first candidate is chosen.
pub proof fn law_without_a_hit(hits: Seq<bool>, tokens: Seq<u32>, token: u32, mapped: u32)
    requires
        0 < hits.len(),
        tokens.len() == hits.len(),
        forall|i: int| 0 <= i < hits.len() ==> !#[trigger] hits[i],
    ensures
        chosen(hits, None, token) <==> token == 0,
        chosen(hits, Some(tokens), mapped) <==> mapped == tokens[0],
{
    assert(is_earliest(hits, 0));
    assert(chosen(hits, None, 0));
    assert(chosen(hits, Some(tokens), tokens[0]));
    if chosen(hits, None, token) {
        law_choice_is_unique(hits, None, token, 0);
    }
    if chosen(hits, Some(tokens), mapped) {
        law_choice_is_unique(hits, Some(tokens), mapped, tokens[0]);
    }
}

/// What is done at each temperature, by its bits: below zero nothing, at either zero the most
/// likely token, and at every other by chance.
pub proof fn law_every_temperature(temperature: Temperature, top_k: Option<usize>, vocab: usize)
    ensures
        sampling_plan(temperature, top_k, vocab) is Err <==> 0x8000_0000_0000_0000
            < temperature.bits <= 0xfff0_0000_0000_0000,
        sampling_plan(temperature, top_k, vocab) == Ok::<Plan, SamplingError>(Plan::Greedy)
            <==> temperature.bits == 0 || temperature.bits == 0x8000_0000_0000_0000,
        sampling_plan(temperature, top_k, vocab) == Ok::<Plan, SamplingError>(Plan::Full) <==> (0
            < temperature.bits < 0x8000_0000_0000_0000 || temperature.bits
            > 0xfff0_0000_0000_0000) && (top_k matches Some(k) ==> k == 0 || k >= vocab),
        top_k matches Some(k) ==> 0 < k < vocab && (0 < temperature.bits < 0x8000_0000_0000_0000
            || temperature.bits > 0xfff0_0000_0000_0000) ==> sampling_plan(
            temperature,
            top_k,
            vocab,
        ) == Ok::<Plan, SamplingError>(Plan::TopK(k)),
{
}

/// Row by row, and in their order, the candidate at the earliest hit is chosen, or the token
/// that it stands for.
pub proof fn law_rows_choose_on_their_own(
    hits: Seq<Vec<bool>>,
    rows: Vec<Vec<u32>>,
    plain: Seq<u32>,
    mapped: Seq<u32>,
    b: int,
    index: int,
)
    requires
        all_chosen(hits, None, plain),
        all_chosen(hits, Some(&rows), mapped),
        0 <= b < hits.len(),
        rows@.len() == hits.len(),
        rows@[b]@.len() == hits[b]@.len(),
        0 <= index < hits[b]@.len() <= u32::MAX,
        hits[b]@[index],
        forall|i: int| 0 <= i < index ==> !#[trigger] hits[b]@[i],
    ensures
        plain.len() == hits.len(),
        mapped.len() == hits.len(),
        plain[b] == index,
        mapped[b] == rows@[b]@[index],
{
    assert(chosen(hits[b]@, None, plain[b]));
    assert(chosen(hits[b]@, Some(rows@[b]@), mapped[b]));
    law_earliest_hit_is_chosen(hits[b]@, rows@[b]@, index, plain[b], mapped[b]);
}

} // verus!
