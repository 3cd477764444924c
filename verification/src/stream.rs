//! From a request to what generation starts with.
use vstd::prelude::*;

use crate::chat::{known_role, settings, settings_of, ChatRequest, GenerationDefaults};
use crate::engine::{Sampling, SamplingParams};
use crate::temperature::Temperature;
use crate::worker::{
    bodies_of, encodable, laid_out, law_conversation_frame, roles_known, ConversationError, Marks, Worker,
};
use crate::TokenId;

verus! {

/// What generation starts with.
pub struct Prepared {
    /// The tokens to continue.
    pub conversation: Vec<TokenId>,
    /// How tokens are sampled.
    pub sampling: SamplingParams,
    /// How many tokens the reply may have.
    pub max_tokens: usize,
}

/// How the tokens of a reply are sampled: the end of the assistant's message and the
/// beginning of a conversation end it.
pub open spec fn reply_sampling(
    marks: Marks,
    temperature: Temperature,
    top_k: usize,
    seed: Option<u64>,
) -> Sampling {
    Sampling {
        temperature,
        top_k: Some(top_k),
        seed,
        stop_tokens: set![marks.assistant_end, marks.bos],
    }
}

/// How the tokens of a reply are sampled.
pub fn sampling_for(
    marks: &Marks,
    temperature: Temperature,
    top_k: usize,
    seed: Option<u64>,
) -> (r: SamplingParams)
    ensures
        r@ == reply_sampling(*marks, temperature, top_k, seed),
{
    let stop_tokens: Vec<TokenId> = vec![marks.assistant_end, marks.bos];
    let ghost listed = stop_tokens@;
    let params = SamplingParams::new(temperature, Some(top_k), seed, Default::default());
    let sampling = params.with_stop_tokens(stop_tokens);
    proof {
        let wanted = set![marks.assistant_end, marks.bos];
        assert(listed =~= seq![marks.assistant_end, marks.bos]);
        assert forall|token: TokenId| listed.to_set().contains(token) == wanted.contains(token) by {
            if wanted.contains(token) {
                assert(listed[0] == marks.assistant_end && listed[1] == marks.bos);
                assert(listed.contains(token));
            }
        }
        assert(listed.to_set() =~= wanted);
    }
    sampling
}

/// Whether generation starts as a request and the defaults say.
pub open spec fn starts_as_asked(
    worker: Worker,
    request: ChatRequest,
    defaults: GenerationDefaults,
    p: Prepared,
) -> bool {
    let s = settings_of(request, defaults);
    &&& p.max_tokens == s.max_tokens
    &&& p.sampling@ == reply_sampling(worker.marks, s.temperature, s.top_k, defaults.seed)
    &&& exists|bodies: Seq<Seq<TokenId>>| #[trigger]
        bodies_of(worker.tokenizer@, request.messages@, bodies) && p.conversation@ == laid_out(
            worker.marks,
            request.messages@,
            bodies,
        ).push(worker.marks.assistant_start)
}

/// What an accepted request names is what generation starts with; what it does not name is
/// the default, where that is within the limits. The conversation begins with the token for
/// its beginning, and ends where the assistant is to go on.
pub proof fn law_generation_starts_as_asked(
    worker: Worker,
    request: ChatRequest,
    defaults: GenerationDefaults,
    p: Prepared,
)
    requires
        starts_as_asked(worker, request, defaults, p),
    ensures
        request.max_tokens matches Some(n) ==> 1 <= n <= 4096 ==> p.max_tokens == n,
        request.max_tokens is None && 1 <= defaults.max_tokens <= 4096 ==> p.max_tokens
            == defaults.max_tokens,
        request.top_k matches Some(k) ==> 1 <= k <= 200 ==> p.sampling@.top_k == Some(k),
        request.top_k is None && 1 <= defaults.top_k <= 200 ==> p.sampling@.top_k == Some(
            defaults.top_k,
        ),
        request.temperature matches Some(t) ==> t.bits <= 0x4000_0000_0000_0000
            ==> p.sampling@.temperature == t,
        request.temperature is None && defaults.temperature.bits <= 0x4000_0000_0000_0000
            ==> p.sampling@.temperature == defaults.temperature,
        p.sampling@.seed == defaults.seed,
        forall|token: TokenId| #[trigger]
            p.sampling@.stop_tokens.contains(token) <==> token == worker.marks.assistant_end
                || token == worker.marks.bos,
        p.conversation@.len() >= 2 * request.messages@.len() + 2,
        p.conversation@[0] == worker.marks.bos,
        p.conversation@[p.conversation@.len() - 1] == worker.marks.assistant_start,
{
    let bodies = choose|bodies: Seq<Seq<TokenId>>| #[trigger]
        bodies_of(worker.tokenizer@, request.messages@, bodies) && p.conversation@ == laid_out(
            worker.marks,
            request.messages@,
            bodies,
        ).push(worker.marks.assistant_start);
    law_conversation_frame(worker.marks, request.messages@, bodies);
}

/// Turns a request into what generation starts with.
pub fn prepare(worker: &Worker, request: &ChatRequest, defaults: &GenerationDefaults) -> (r: Result<
    Prepared,
    ConversationError,
>)
    ensures
        match r {
            Ok(p) => {
                let s = settings_of(*request, *defaults);
                &&& p.max_tokens == s.max_tokens
                &&& p.sampling@ == reply_sampling(
                    worker.marks,
                    s.temperature,
                    s.top_k,
                    defaults.seed,
                )
                &&& roles_known(request.messages@)
                &&& exists|bodies: Seq<Seq<TokenId>>| #[trigger]
                    bodies_of(worker.tokenizer@, request.messages@, bodies) && p.conversation@
                        == laid_out(worker.marks, request.messages@, bodies).push(
                        worker.marks.assistant_start,
                    )
            },
            Err(ConversationError::UnsupportedRole(role)) => exists|i: int|
                {
                    &&& 0 <= i < request.messages@.len()
                    &&& (#[trigger] request.messages@[i]).role@ == role@
                    &&& !known_role(role@)
                    &&& roles_known(request.messages@.take(i))
                },
            Err(ConversationError::Endless(i)) => {
                &&& i < request.messages@.len()
                &&& !encodable(worker.tokenizer@, request.messages@[i as int].content@)
                &&& roles_known(request.messages@.take(i + 1))
            },
        },
        r matches Ok(p) ==> starts_as_asked(*worker, *request, *defaults, p),
{
    let s = settings(request, defaults);
    let conversation = worker.try_build_conversation(&request.messages)?;
    let sampling = sampling_for(&worker.marks, s.temperature, s.top_k, defaults.seed);
    Ok(Prepared { conversation, sampling, max_tokens: s.max_tokens })
}

/// A reply is sampled as the request's settings say, and ends with the assistant's message
/// or where a conversation begins, and with no other token.
pub proof fn law_replies_end_with_two_tokens(
    marks: Marks,
    temperature: Temperature,
    top_k: usize,
    seed: Option<u64>,
    token: TokenId,
)
    ensures
        ({
            let s = reply_sampling(marks, temperature, top_k, seed);
            &&& s.temperature == temperature
            &&& s.top_k == Some(top_k)
            &&& s.seed == seed
            &&& s.stop_tokens.contains(token) <==> token == marks.assistant_end || token
                == marks.bos
        }),
{
}

} // verus!
