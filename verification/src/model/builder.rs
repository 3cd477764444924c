//! What has to be known to build a model from its weights.
use vstd::prelude::*;

use super::gpt::{law_valid_config, GPTConfig};
use crate::text::{decimal, same_text, with_number};

verus! {

/// What is stored next to the weights of a model.
#[derive(Clone, Copy, Debug)]
pub struct MetaConfig {
    pub model_config: GPTConfig,
}

/// A device that a model can run on; of several of one kind, the one with this number.
#[derive(Clone, Copy, Debug, PartialEq, Eq, Structural)]
pub enum DeviceKind {
    Cuda(usize),
    Metal(usize),
    Cpu,
}

/// The devices to try, in order: those that are there, and in the end the processor,
/// which always is.
pub open spec fn devices_to_try(cuda: bool, metal: bool, local_rank: usize) -> Seq<DeviceKind> {
    (if cuda {
        seq![DeviceKind::Cuda(local_rank)]
    } else {
        seq![]
    }) + (if metal {
        seq![DeviceKind::Metal(0)]
    } else {
        seq![]
    }) + seq![DeviceKind::Cpu]
}

/// The devices to try, in order.
pub fn device_candidates(cuda: bool, metal: bool, local_rank: usize) -> (r: Vec<DeviceKind>)
    ensures
        r@ == devices_to_try(cuda, metal, local_rank),
        r@.last() == DeviceKind::Cpu,
{
    let mut kinds: Vec<DeviceKind> = Vec::new();
    if cuda {
        kinds.push(DeviceKind::Cuda(local_rank));
    }
    if metal {
        kinds.push(DeviceKind::Metal(0));
    }
    kinds.push(DeviceKind::Cpu);
    assert(kinds@ =~= devices_to_try(cuda, metal, local_rank));
    kinds
}

/// The forms in which weights are stored.
#[derive(Clone, Copy, Debug, PartialEq, Eq, Structural)]
pub enum WeightFormat {
    SafeTensors,
    Pth,
}

/// A character, in lower case if it is an ASCII letter.
pub open spec fn lower_ascii(c: char) -> char {
    if 'A' <= c && c <= 'Z' {
        (c as u32 + 32) as char
    } else {
        c
    }
}

/// A text with its ASCII letters in lower case.
pub open spec fn lowered_ascii(text: Seq<char>) -> Seq<char> {
    text.map_values(|c: char| lower_ascii(c))
}

/// The form that the ending of a file name tells, if any.
pub open spec fn format_of(extension: Seq<char>) -> Option<WeightFormat> {
    let lowered = lowered_ascii(extension);
    if lowered == "safetensors"@ {
        Some(WeightFormat::SafeTensors)
    } else if lowered == "pt"@ || lowered == "pth"@ {
        Some(WeightFormat::Pth)
    } else {
        None
    }
}

/// A text with its ASCII letters in lower case.
pub fn to_ascii_lowercase(text: &str) -> (r: String)
    ensures
        r@ == lowered_ascii(text@),
{
    let chars = crate::text::characters(text);
    let mut lowered = String::new();
    for i in 0..chars.len()
        invariant
            chars@ == text@,
            lowered@ == lowered_ascii(text@.take(i as int)),
    {
        let c = chars[i];
        if 'A' <= c && c <= 'Z' {
            let code: u8 = c as u8 + 32;
            lowered.push(code as char);
        } else {
            lowered.push(c);
        }
        assert(lowered@ =~= lowered_ascii(text@.take(i + 1)));
    }
    assert(text@.take(text@.len() as int) =~= text@);
    lowered
}

/// The form that the ending of a file name tells, if any.
pub fn weight_format(extension: &str) -> (r: Option<WeightFormat>)
    ensures
        r == format_of(extension@),
{
    let lowered = to_ascii_lowercase(extension);
    if same_text(lowered.as_str(), "safetensors") {
        Some(WeightFormat::SafeTensors)
    } else if same_text(lowered.as_str(), "pt") || same_text(lowered.as_str(), "pth") {
        Some(WeightFormat::Pth)
    } else {
        None
    }
}

/// The sizes of a model's weights: of each projection, how many numbers it takes and how
/// many it gives.
#[derive(Clone, Copy, Debug)]
pub struct ModelShapes {
    pub head_dim: usize,
    pub q: (usize, usize),
    pub k: (usize, usize),
    pub v: (usize, usize),
    pub o: (usize, usize),
    pub up: (usize, usize),
    pub down: (usize, usize),
    pub lm_head: (usize, usize),
    /// The number of positions that heads can be turned by.
    pub max_positions: usize,
}

/// How many times wider than the embedding the hidden layer between two blocks is.
pub const EXPANSION_FACTOR: usize = 4;

impl ModelShapes {
    /// The sizes that follow from a configuration.
    pub open spec fn shapes_of(config: GPTConfig) -> Self {
        let head_dim = config.n_embd as int / config.n_head as int;
        let kv = (config.n_kv_head * head_dim) as usize;
        let hidden = (config.n_embd * EXPANSION_FACTOR) as usize;
        ModelShapes {
            head_dim: head_dim as usize,
            q: (config.n_embd, config.n_embd),
            k: (config.n_embd, kv),
            v: (config.n_embd, kv),
            o: (config.n_embd, config.n_embd),
            up: (config.n_embd, hidden),
            down: (hidden, config.n_embd),
            lm_head: (config.n_embd, config.vocab_size),
            max_positions: (config.sequence_len * 2) as usize,
        }
    }

    /// The sizes that follow from a configuration.
    pub fn new(config: &GPTConfig) -> (r: Self)
        requires
            config.valid(),
            config.n_embd * EXPANSION_FACTOR <= usize::MAX,
            config.sequence_len * 2 <= usize::MAX,
        ensures
            ({
                let head_dim = config.n_embd as int / config.n_head as int;
                let kv = config.n_kv_head * head_dim;
                &&& r.head_dim == head_dim
                &&& r.q == (config.n_embd, config.n_embd)
                &&& r.k == (config.n_embd, kv as usize)
                &&& r.v == (config.n_embd, kv as usize)
                &&& kv <= config.n_embd
                &&& r.o == (config.n_embd, config.n_embd)
                &&& r.up == (config.n_embd, (config.n_embd * EXPANSION_FACTOR) as usize)
                &&& r.down == ((config.n_embd * EXPANSION_FACTOR) as usize, config.n_embd)
                &&& r.lm_head == (config.n_embd, config.vocab_size)
                &&& r.max_positions == config.sequence_len * 2
            }),
            r == Self::shapes_of(*config),
    {
        let head_dim = config.n_embd / config.n_head;
        proof {
            law_valid_config(*config);
            let (k, h, d) = (config.n_kv_head as int, config.n_head as int, head_dim as int);
            assert(k <= h && k * d <= h * d) by (nonlinear_arith)
                requires
                    k > 0,
                    h == k * (h / k),
                    h / k >= 1,
                    d >= 0,
            {
                assert(k * (h / k) >= k);
            }
        }
        let heads = config.n_head * head_dim;
        let kv = config.n_kv_head * head_dim;
        let hidden = config.n_embd * EXPANSION_FACTOR;
        ModelShapes {
            head_dim,
            q: (config.n_embd, heads),
            k: (config.n_embd, kv),
            v: (config.n_embd, kv),
            o: (heads, config.n_embd),
            up: (config.n_embd, hidden),
            down: (hidden, config.n_embd),
            lm_head: (config.n_embd, config.vocab_size),
            max_positions: config.sequence_len * 2,
        }
    }
}

/// The name under which the weights of a block are stored.
pub fn block_name(idx: usize) -> (r: String)
    ensures
        r@ == "h."@ + decimal(idx as nat) + ""@,
{
    with_number("h.", idx, "")
}

/// A device is tried exactly if it is there, a CUDA device before a Metal one, and the
/// processor in the end.
pub proof fn law_devices_in_order(cuda: bool, metal: bool, local_rank: usize)
    ensures
        ({
            let d = devices_to_try(cuda, metal, local_rank);
            &&& cuda && metal ==> d.len() == 3 && d[0] == DeviceKind::Cuda(local_rank) && d[1]
                == DeviceKind::Metal(0) && d[2] == DeviceKind::Cpu
            &&& cuda && !metal ==> d.len() == 2 && d[0] == DeviceKind::Cuda(local_rank) && d[1]
                == DeviceKind::Cpu
            &&& !cuda && metal ==> d.len() == 2 && d[0] == DeviceKind::Metal(0) && d[1]
                == DeviceKind::Cpu
            &&& !cuda && !metal ==> d.len() == 1 && d[0] == DeviceKind::Cpu
        }),
{
}

/// Whether two texts differ in nothing but the case of ASCII letters.
pub open spec fn same_but_for_case(a: Seq<char>, b: Seq<char>) -> bool {
    &&& a.len() == b.len()
    &&& forall|i: int|
        0 <= i < a.len() ==> {
            ||| #[trigger] a[i] == b[i]
            ||| 'A' <= a[i] <= 'Z' && b[i] as u32 == a[i] as u32 + 32
            ||| 'A' <= b[i] <= 'Z' && a[i] as u32 == b[i] as u32 + 32
        }
}

/// The form of weights is told by the endings `safetensors`, `pt` and `pth`, in whatever
/// case, and by no other.
pub proof fn law_endings_of_weights(extension: Seq<char>)
    ensures
        format_of(extension) == Some(WeightFormat::SafeTensors) <==> same_but_for_case(
            extension,
            "safetensors"@,
        ),
        format_of(extension) == Some(WeightFormat::Pth) <==> same_but_for_case(extension, "pt"@)
            || same_but_for_case(extension, "pth"@),
{
    reveal_strlit("safetensors");
    reveal_strlit("pt");
    reveal_strlit("pth");
    lemma_case(extension, "safetensors"@);
    lemma_case(extension, "pt"@);
    lemma_case(extension, "pth"@);
    assert("safetensors"@.len() == 11 && "pt"@.len() == 2 && "pth"@.len() == 3);
}

/// A text in lower case is another one exactly if they differ in nothing but case.
proof fn lemma_case(text: Seq<char>, lower: Seq<char>)
    requires
        forall|i: int| 0 <= i < lower.len() ==> 'a' <= #[trigger] lower[i] <= 'z',
    ensures
        lowered_ascii(text) == lower <==> same_but_for_case(text, lower),
{
    let lowered = lowered_ascii(text);
    if lowered == lower {
        assert forall|i: int| 0 <= i < text.len() implies {
            ||| #[trigger] text[i] == lower[i]
            ||| 'A' <= text[i] <= 'Z' && lower[i] as u32 == text[i] as u32 + 32
            ||| 'A' <= lower[i] <= 'Z' && text[i] as u32 == lower[i] as u32 + 32
        } by {
            assert(lowered[i] == lower_ascii(text[i]));
        }
    }
    if same_but_for_case(text, lower) {
        assert forall|i: int| 0 <= i < text.len() implies lowered[i] == lower[i] by {
            assert('a' <= lower[i] <= 'z');
            assert(text[i] == text[i]);
        }
        assert(lowered =~= lower);
    }
}

/// The projections fit together: those of queries, keys and values give as many numbers as
/// their heads have, that of the heads takes what all heads give, the hidden layer is four
/// times as wide as the embedding, a token's logits are as many as there are tokens, and
/// heads can be turned by twice as many positions as a sequence may have.
pub proof fn law_projections_fit_together(config: GPTConfig)
    requires
        config.valid(),
        config.n_embd * 4 <= usize::MAX,
        config.sequence_len * 2 <= usize::MAX,
    ensures
        ({
            let s = ModelShapes::shapes_of(config);
            &&& s.q.0 == config.n_embd && s.q.1 == config.n_head * s.head_dim
            &&& s.k.0 == config.n_embd && s.k.1 == config.n_kv_head * s.head_dim
            &&& s.v == s.k
            &&& s.o.0 == config.n_head * s.head_dim && s.o.1 == config.n_embd
            &&& s.up.0 == config.n_embd && s.up.1 == 4 * config.n_embd
            &&& s.down.0 == s.up.1 && s.down.1 == config.n_embd
            &&& s.lm_head.0 == config.n_embd && s.lm_head.1 == config.vocab_size
            &&& s.max_positions == 2 * config.sequence_len
        }),
{
    law_valid_config(config);
    let (e, k, h) = (config.n_embd as int, config.n_kv_head as int, config.n_head as int);
    let d = e / h;
    assert(0 <= d <= e && 0 <= k * d <= e) by (nonlinear_arith)
        requires
            h > 0,
            k > 0,
            e >= 0,
            h * d == e,
            h == k * (h / k),
            h / k >= 1,
    {
        assert(k * (h / k) >= k);
        assert(d >= 0);
        assert(k * d <= h * d);
        assert(1 * d <= h * d);
    }
}

} // verus!
