//! The configuration of a model, and the sizes that follow from it.
use vstd::prelude::*;

use crate::text::{decimal, with_number};

verus! {

/// The sizes of a model.
#[derive(Clone, Copy, Debug)]
pub struct GPTConfig {
    pub vocab_size: usize,
    pub n_embd: usize,
    pub n_layer: usize,
    pub n_head: usize,
    pub n_kv_head: usize,
    /// The longest sequence.
    pub sequence_len: usize,
}

/// Why a configuration is refused.
#[derive(Debug)]
pub enum ConfigError {
    NoLayers,
    NoHeads,
    /// The embedding, of the first size, cannot be cut into so many heads.
    Embedding(usize, usize),
    OddHead,
    /// So many heads cannot share so many key/value heads evenly.
    Sharing(usize, usize),
    /// The model has a vocabulary of the first size, and the tokenizer of the second.
    Vocabulary(usize, usize),
}

/// Whether `n` is a multiple of `m`.
pub open spec fn multiple_of(n: int, m: int) -> bool {
    if m == 0 {
        n == 0
    } else {
        n % m == 0
    }
}

/// What is wrong with a configuration, if anything; the first thing counts.
pub open spec fn config_fault(c: GPTConfig) -> Option<ConfigError> {
    if c.n_layer == 0 {
        Some(ConfigError::NoLayers)
    } else if c.n_head == 0 {
        Some(ConfigError::NoHeads)
    } else if !multiple_of(c.n_embd as int, c.n_head as int) {
        Some(ConfigError::Embedding(c.n_embd, c.n_head))
    } else if !multiple_of(c.n_embd as int / c.n_head as int, 2) {
        Some(ConfigError::OddHead)
    } else if !multiple_of(c.n_head as int, c.n_kv_head as int) {
        Some(ConfigError::Sharing(c.n_head, c.n_kv_head))
    } else {
        None
    }
}

/// The text that names what is wrong.
pub open spec fn config_complaint(e: ConfigError) -> Seq<char> {
    match e {
        ConfigError::NoLayers => "config must have at least one layer"@,
        ConfigError::NoHeads => "config.n_head must be > 0"@,
        ConfigError::Embedding(n, m) => "n_embd ("@ + decimal(n as nat)
            + ") must be divisible by n_head ("@ + decimal(m as nat) + ")"@,
        ConfigError::OddHead => "head_dim must be even"@,
        ConfigError::Sharing(n, m) => "n_head ("@ + decimal(n as nat)
            + ") must be a multiple of n_kv_head ("@ + decimal(m as nat) + ")"@,
        ConfigError::Vocabulary(n, m) =>
            "Model and tokenizer have different vocab sizes: "@ + decimal(n as nat) + " != "@
            + decimal(m as nat) + ""@,
    }
}

/// Two numbers with texts before, between and after them.
fn with_two_numbers(before: &str, n: usize, between: &str, m: usize, after: &str) -> (text: String)
    ensures
        text@ == before@ + decimal(n as nat) + between@ + decimal(m as nat) + after@,
{
    let head = with_number(before, n, between);
    with_number(head.as_str(), m, after)
}

impl ConfigError {
    /// The text that names what is wrong.
    pub fn message(&self) -> (text: String)
        ensures
            text@ == config_complaint(*self),
    {
        match self {
            ConfigError::NoLayers => "config must have at least one layer".to_owned(),
            ConfigError::NoHeads => "config.n_head must be > 0".to_owned(),
            ConfigError::Embedding(n, m) => with_two_numbers(
                "n_embd (",
                *n,
                ") must be divisible by n_head (",
                *m,
                ")",
            ),
            ConfigError::OddHead => "head_dim must be even".to_owned(),
            ConfigError::Sharing(n, m) => with_two_numbers(
                "n_head (",
                *n,
                ") must be a multiple of n_kv_head (",
                *m,
                ")",
            ),
            ConfigError::Vocabulary(n, m) => with_two_numbers(
                "Model and tokenizer have different vocab sizes: ",
                *n,
                " != ",
                *m,
                "",
            ),
        }
    }
}

/// Whether `n` is a multiple of `m`.
fn is_multiple_of(n: usize, m: usize) -> (r: bool)
    ensures
        r == multiple_of(n as int, m as int),
{
    if m == 0 {
        n == 0
    } else {
        n % m == 0
    }
}

/// Whether a tokenizer has as many tokens as a model has.
pub open spec fn vocabularies_agree(c: GPTConfig, tokens: usize) -> bool {
    c.vocab_size == tokens
}

/// A tokenizer goes with exactly the models that have as many tokens: neither with one that
/// has fewer nor with one that has more.
pub proof fn law_vocabularies(c: GPTConfig, tokens: usize)
    ensures
        c.vocab_size < tokens || c.vocab_size > tokens ==> !vocabularies_agree(c, tokens),
        vocabularies_agree(c, c.vocab_size),
{
}

impl GPTConfig {
    /// Whether nothing is wrong.
    pub open spec fn valid(&self) -> bool {
        config_fault(*self) is None
    }

    /// Accepts a configuration that a model can be built with.
    pub fn validate(&self) -> (r: Result<(), ConfigError>)
        ensures
            match (config_fault(*self), r) {
                (None, Ok(())) => true,
                (Some(fault), Err(e)) => e == fault,
                _ => false,
            },
    {
        if self.n_layer == 0 {
            return Err(ConfigError::NoLayers);
        }
        if self.n_head == 0 {
            return Err(ConfigError::NoHeads);
        }
        if !is_multiple_of(self.n_embd, self.n_head) {
            return Err(ConfigError::Embedding(self.n_embd, self.n_head));
        }
        if !is_multiple_of(self.n_embd / self.n_head, 2) {
            return Err(ConfigError::OddHead);
        }
        if !is_multiple_of(self.n_head, self.n_kv_head) {
            return Err(ConfigError::Sharing(self.n_head, self.n_kv_head));
        }
        Ok(())
    }

    /// Accepts a tokenizer with as many tokens as the model has.
    pub fn check_vocabulary(&self, tokens: usize) -> (r: Result<(), ConfigError>)
        ensures
            match r {
                Ok(()) => self.vocab_size == tokens,
                Err(e) => self.vocab_size != tokens && e == ConfigError::Vocabulary(
                    self.vocab_size,
                    tokens,
                ),
            },
            r is Ok <==> vocabularies_agree(*self, tokens),
    {
        if self.vocab_size == tokens {
            Ok(())
        } else {
            Err(ConfigError::Vocabulary(self.vocab_size, tokens))
        }
    }
}

/// In a valid configuration the heads make up the embedding, each is even, and each
/// key/value head serves the same number of heads, at least one.
pub proof fn law_valid_config(c: GPTConfig)
    requires
        c.valid(),
    ensures
        c.n_head > 0,
        c.n_kv_head > 0,
        c.n_layer > 0,
        c.n_head * (c.n_embd as int / c.n_head as int) == c.n_embd,
        (c.n_embd as int / c.n_head as int) % 2 == 0,
        c.n_kv_head * (c.n_head as int / c.n_kv_head as int) == c.n_head,
        c.n_head as int / c.n_kv_head as int >= 1,
{
    let (e, h, k) = (c.n_embd as int, c.n_head as int, c.n_kv_head as int);
    vstd::arithmetic::div_mod::lemma_fundamental_div_mod(e, h);
    vstd::arithmetic::div_mod::lemma_fundamental_div_mod(h, k);
    assert(h / k >= 1) by (nonlinear_arith)
        requires
            h == k * (h / k),
            h > 0,
            k > 0,
    ;
}

/// A configuration is accepted exactly if it has layers and heads, the heads cut the
/// embedding evenly into parts of an even size, and the key/value heads are shared evenly.
pub proof fn law_accepted_configurations(c: GPTConfig)
    ensures
        c.valid() <==> c.n_layer > 0 && c.n_head > 0 && c.n_kv_head > 0 && c.n_embd as int
            % c.n_head as int == 0 && (c.n_embd as int / c.n_head as int) % 2 == 0
            && c.n_head as int % c.n_kv_head as int == 0,
{
}

/// Heads of an even size `2 * half`, in `groups` groups of `shared` heads that share a
/// key/value head, make a configuration that is accepted, whatever the numbers.
pub proof fn law_configurations_by_design(
    c: GPTConfig,
    half: nat,
    groups: nat,
    shared: nat,
)
    requires
        c.n_layer > 0,
        groups > 0,
        shared > 0,
        c.n_kv_head == groups,
        c.n_head == groups * shared,
        c.n_embd == c.n_head * (2 * half),
    ensures
        c.valid(),
{
    let (h, k) = (c.n_head as int, c.n_kv_head as int);
    assert(h > 0) by (nonlinear_arith)
        requires
            h == groups * shared,
            groups > 0,
            shared > 0,
    ;
    vstd::arithmetic::div_mod::lemma_fundamental_div_mod_converse(
        c.n_embd as int,
        h,
        2 * half as int,
        0,
    );
    assert(c.n_embd == (2 * half) * h + 0) by (nonlinear_arith)
        requires
            c.n_embd == h * (2 * half),
    ;
    vstd::arithmetic::div_mod::lemma_fundamental_div_mod_converse(h, k, shared as int, 0);
}

/// What is wrong is told by the first of these that is missing: layers, heads, heads that
/// cut the embedding evenly, heads of an even size, key/value heads that are shared evenly.
pub proof fn law_refused_configurations(c: GPTConfig)
    ensures
        c.n_layer == 0 <==> config_fault(c) == Some(ConfigError::NoLayers),
        c.n_layer > 0 && c.n_head == 0 <==> config_fault(c) == Some(ConfigError::NoHeads),
        c.n_layer > 0 && c.n_head > 0 && c.n_embd as int % c.n_head as int != 0 <==> config_fault(
            c,
        ) == Some(ConfigError::Embedding(c.n_embd, c.n_head)),
        c.n_layer > 0 && c.n_head > 0 && c.n_embd as int % c.n_head as int == 0 && (c.n_embd as int
            / c.n_head as int) % 2 != 0 <==> config_fault(c) == Some(ConfigError::OddHead),
        c.n_layer > 0 && c.n_head > 0 && c.n_embd as int % c.n_head as int == 0 && (c.n_embd as int
            / c.n_head as int) % 2 == 0 && (c.n_kv_head == 0 || c.n_head as int
            % c.n_kv_head as int != 0) <==> config_fault(c) == Some(
            ConfigError::Sharing(c.n_head, c.n_kv_head),
        ),
{
}

/// The text of a refusal names what is wrong, with the numbers that do not go together.
pub proof fn law_config_complaints(n: usize, m: usize)
    ensures
        config_complaint(ConfigError::NoLayers) == "config must have at least one layer"@,
        config_complaint(ConfigError::NoHeads) == "config.n_head must be > 0"@,
        config_complaint(ConfigError::Embedding(n, m)) == "n_embd ("@ + decimal(n as nat)
            + ") must be divisible by n_head ("@ + decimal(m as nat) + ")"@,
        config_complaint(ConfigError::OddHead) == "head_dim must be even"@,
        config_complaint(ConfigError::Sharing(n, m)) == "n_head ("@ + decimal(n as nat)
            + ") must be a multiple of n_kv_head ("@ + decimal(m as nat) + ")"@,
        config_complaint(ConfigError::Vocabulary(n, m))
            == "Model and tokenizer have different vocab sizes: "@ + decimal(n as nat) + " != "@
            + decimal(m as nat),
{
    reveal_strlit("");
    let text = "Model and tokenizer have different vocab sizes: "@ + decimal(n as nat) + " != "@
        + decimal(m as nat);
    assert(text + ""@ =~= text);
}

} // verus!
