//! Autoregressive generation: the sequences that grow, token by token, and when they
//! are complete.
use ahash::HashSet;
use candle_core::{DType, Device, Tensor};
use rand::rngs::StdRng;
use rand::SeedableRng;
use vstd::prelude::*;

use crate::model::gpt::GPTConfig;
use crate::model::kv::{shape4, spread_out, KVCache};
use crate::model::tensor::{
    alike, device_of, dims, element_type, entries, fits, inside, kind, narrow, on_cpu, squeeze,
    storable, tensor_dims,
};
use crate::model::ModelError;
use crate::temperature::Temperature;
use crate::TokenId;

verus! {

#[verifier::external_type_specification]
#[verifier::external_body]
pub struct ExStdRng(StdRng);

/// The state of a random number generator.
pub uninterp spec fn rng_state(rng: StdRng) -> int;

/// The state of a random number generator that has just been seeded.
pub uninterp spec fn seeded_state(seed: u64) -> int;

/// `StdRng::seed_from_u64`: a generator whose state depends on the seed alone.
#[verifier::external_body]
fn seeded_rng(seed: u64) -> (rng: StdRng)
    ensures
        rng_state(rng) == seeded_state(seed),
{
    StdRng::seed_from_u64(seed)
}

/// `StdRng::try_from_os_rng`: a generator seeded by chance, or nothing where the system
/// has no randomness to give. Nothing is said of its state, which is up to chance.
#[verifier::external_body]
fn chance_rng() -> (rng: Option<StdRng>) {
    StdRng::try_from_os_rng().ok()
}

/// `HashSet::from_iter`: the set of some tokens.
#[verifier::external_body]
fn token_set(tokens: Vec<TokenId>) -> (set: HashSet<TokenId>)
    ensures
        set@ == tokens@.to_set(),
{
    HashSet::from_iter(tokens)
}

/// `HashSet::contains`: whether a token is in a set.
#[verifier::external_body]
fn set_contains(set: &HashSet<TokenId>, token: TokenId) -> (r: bool)
    ensures
        r == set@.contains(token),
{
    set.contains(&token)
}

/// `HashSet::clone`: another set of the same tokens.
#[verifier::external_body]
fn set_clone(set: &HashSet<TokenId>) -> (r: HashSet<TokenId>)
    ensures
        r@ == set@,
{
    set.clone()
}

/// How tokens are sampled, and which of them end a sequence.
#[derive(Debug)]
pub struct SamplingParams {
    temperature: Temperature,
    top_k: Option<usize>,
    seed: Option<u64>,
    stop_tokens: HashSet<TokenId>,
}

/// How tokens are sampled, and which of them end a sequence.
pub struct Sampling {
    pub temperature: Temperature,
    pub top_k: Option<usize>,
    pub seed: Option<u64>,
    pub stop_tokens: Set<TokenId>,
}

impl View for SamplingParams {
    type V = Sampling;

    closed spec fn view(&self) -> Sampling {
        Sampling {
            temperature: self.temperature,
            top_k: self.top_k,
            seed: self.seed,
            stop_tokens: self.stop_tokens@,
        }
    }
}

impl SamplingParams {
    pub fn new(
        temperature: Temperature,
        top_k: Option<usize>,
        seed: Option<u64>,
        stop_tokens: HashSet<TokenId>,
    ) -> (r: Self)
        ensures
            r@ == (Sampling { temperature, top_k, seed, stop_tokens: stop_tokens@ }),
    {
        SamplingParams { temperature, top_k, seed, stop_tokens }
    }

    /// The same with other tokens that end a sequence.
    pub fn with_stop_tokens(self, stop_tokens: Vec<TokenId>) -> (r: Self)
        ensures
            r@ == (Sampling { stop_tokens: stop_tokens@.to_set(), ..self@ }),
    {
        SamplingParams { stop_tokens: token_set(stop_tokens), ..self }
    }

    pub fn temperature(&self) -> (r: Temperature)
        ensures
            r == self@.temperature,
    {
        self.temperature
    }

    pub fn top_k(&self) -> (r: Option<usize>)
        ensures
            r == self@.top_k,
    {
        self.top_k
    }

    /// A random number generator: with a seed the same one every time, else any, where the
    /// system has randomness to give.
    pub fn rng(&self) -> (r: Option<StdRng>)
        ensures
            self@.seed matches Some(seed) ==> (r matches Some(rng) && rng_state(rng)
                == seeded_state(seed)),
    {
        match self.seed {
            Some(seed) => Some(seeded_rng(seed)),
            None => chance_rng(),
        }
    }
}

impl Default for SamplingParams {
    fn default() -> (r: Self)
        ensures
            r@.temperature.bits == 0,
            r@.top_k == Some(50usize),
            r@.seed == Some(42u64),
            r@.stop_tokens == Set::<TokenId>::empty(),
    {
        let none: Vec<TokenId> = Vec::new();
        let stop_tokens = token_set(none);
        SamplingParams::new(Temperature::from_bits(0), Some(50), Some(42), stop_tokens)
    }
}

impl Clone for SamplingParams {
    fn clone(&self) -> (r: Self)
        ensures
            r@ == self@,
    {
        SamplingParams {
            temperature: self.temperature,
            top_k: self.top_k,
            seed: self.seed,
            stop_tokens: set_clone(&self.stop_tokens),
        }
    }
}

/// `last` is what `logits`, of dimensions (B, T, V), has for the last position.
pub open spec fn last_position_of(logits: Tensor, last: Tensor) -> bool {
    let d = dims(logits);
    &&& alike(last, logits)
    &&& dims(last) == seq![d[0], d[2]]
    &&& forall|i: Seq<int>|
        inside(dims(last), i) ==> #[trigger] entries(last)[i] == entries(logits)[seq![
            i[0],
            d[1] - 1,
            i[1],
        ]]
}

/// What `logits`, of dimensions (B, T, V), has for the last position.
pub fn last_position(logits: &Tensor) -> (r: Result<Tensor, ModelError>)
    requires
        dims(*logits).len() == 3 ==> dims(*logits)[1] > 0,
    ensures
        match r {
            Ok(last) => dims(*logits).len() == 3 && last_position_of(*logits, last),
            Err(e) => dims(*logits).len() != 3 && e is Rank,
        },
{
    let d = tensor_dims(logits);
    if d.len() != 3 {
        return Err(ModelError::Rank);
    }
    let row = match narrow(logits, 1, d[1] - 1, 1) {
        Ok(t) => t,
        Err(e) => {
            return Err(ModelError::Backend(e));
        },
    };
    match squeeze(&row, 1) {
        Ok(last) => {
            proof {
                assert(dims(last) =~= seq![d[0], d[2]]);
                assert forall|i: Seq<int>| inside(dims(last), i) implies #[trigger] entries(last)[i]
                    == entries(*logits)[seq![i[0], d[1] - 1, i[1]]] by {
                    assert(0 <= i[0] < d[0] && 0 <= i[1] < d[2]);
                    let j = i.insert(1, 0);
                    assert(j =~= seq![i[0], 0, i[1]]);
                    assert(inside(dims(row), j));
                    assert(j.update(1, j[1] + (d[1] - 1)) =~= seq![i[0], d[1] - 1, i[1]]);
                }
            }
            Ok(last)
        },
        Err(e) => Err(ModelError::Backend(e)),
    }
}

/// Why no tokens can be generated.
#[derive(Debug)]
pub enum GenerateError {
    /// There is nothing to continue.
    EmptyPrompt,
    /// No sequences are asked for.
    NoSamples,
    /// The model refuses.
    Model(ModelError),
}

/// One of the sequences that are generated side by side.
pub struct RowState {
    pub tokens: Vec<TokenId>,
    pub completed: bool,
}

/// One of the sequences that are generated side by side.
pub struct Row {
    pub tokens: Seq<TokenId>,
    pub completed: bool,
}

impl View for RowState {
    type V = Row;

    open spec fn view(&self) -> Row {
        Row { tokens: self.tokens@, completed: self.completed }
    }
}

impl RowState {
    /// A sequence that is to be continued.
    pub fn new(tokens: Vec<TokenId>) -> (r: Self)
        ensures
            r@ == (Row { tokens: tokens@, completed: false }),
    {
        RowState { tokens, completed: false }
    }
}

/// The state of generation.
pub struct Generation {
    /// The sequences.
    pub rows: Seq<Row>,
    /// The tokens sampled last, one for each sequence.
    pub current: Seq<TokenId>,
    /// The tokens that end a sequence.
    pub stop: Set<TokenId>,
    /// The length at which a sequence ends.
    pub limit: nat,
}

/// A sequence after a token has been sampled for it: a complete one stays as it is, and
/// any other gets the token, which may complete it.
pub open spec fn stepped(row: Row, token: TokenId, stop: Set<TokenId>) -> Row {
    if row.completed {
        row
    } else {
        Row { tokens: row.tokens.push(token), completed: stop.contains(token) }
    }
}

/// The sequences after a token has been sampled for each.
pub open spec fn stepped_rows(rows: Seq<Row>, tokens: Seq<TokenId>, stop: Set<TokenId>) -> Seq<Row> {
    Seq::new(rows.len(), |i: int| stepped(rows[i], tokens[i], stop))
}

/// The state after a token has been sampled for each sequence.
pub open spec fn next_generation(g: Generation, tokens: Seq<TokenId>) -> Generation {
    Generation { rows: stepped_rows(g.rows, tokens, g.stop), current: tokens, ..g }
}

/// Whether a sequence is at its end: complete, or as long as the model allows.
pub open spec fn at_end(row: Row, limit: nat) -> bool {
    row.completed || row.tokens.len() >= limit
}

/// Whether all sequences are at their ends.
pub open spec fn all_at_end(g: Generation) -> bool {
    forall|i: int| 0 <= i < g.rows.len() ==> at_end(#[trigger] g.rows[i], g.limit)
}

/// The state before the first step: every sequence is the prompt and one more token.
pub open spec fn first_generation(
    prompt: Seq<TokenId>,
    samples: nat,
    first: TokenId,
    stop: Set<TokenId>,
    limit: nat,
) -> Generation {
    Generation {
        rows: Seq::new(samples, |i: int| Row { tokens: prompt.push(first), completed: false }),
        current: Seq::new(samples, |i: int| first),
        stop,
        limit,
    }
}

/// The dimensions of the buffers with which a prompt is started: room for a quarter of
/// the longest sequence, to save memory.
pub open spec fn first_cache_shape(config: GPTConfig) -> Seq<usize> {
    shape4(
        1,
        config.n_head,
        (config.sequence_len as int / 4) as usize,
        (config.n_embd as int / config.n_head as int) as usize,
    )
}

/// A prompt that the model is about to read.
pub struct Prefill {
    pub kv_cache: KVCache,
    pub prompt: Vec<TokenId>,
    pub num_samples: usize,
    pub sequence_len: usize,
}

impl Prefill {
    /// The tokens to continue.
    pub open spec fn tokens(&self) -> Seq<TokenId> {
        self.prompt@
    }

    /// The number of continuations asked for.
    pub open spec fn samples(&self) -> nat {
        self.num_samples as nat
    }

    /// The length at which a sequence ends.
    pub open spec fn limit(&self) -> nat {
        self.sequence_len as nat
    }

    /// There is something to continue, at least once.
    pub open spec fn wf(&self) -> bool {
        self.tokens().len() > 0 && 0 < self.samples() <= usize::MAX && self.kv_cache.wf()
    }

    /// The dimensions of the buffers once there is a row for each continuation.
    pub open spec fn batch_shape(&self) -> Seq<usize> {
        let d = self.kv_cache.shape();
        shape4(self.samples() as usize, d[1], d[2], d[3])
    }

    /// Why there cannot be a row for each continuation, if there cannot: the cache is for
    /// a batch of another size, and not of one.
    pub open spec fn batch_refusal(&self) -> Option<ModelError> {
        let batch = self.kv_cache.shape()[0];
        if self.samples() > 1 && batch != self.samples() && batch != 1 {
            Some(ModelError::BatchChange(batch, self.samples() as usize))
        } else {
            None
        }
    }

    /// Checks what is asked for, and sets up the cache.
    pub fn new(
        config: &GPTConfig,
        prefill: &Vec<TokenId>,
        num_samples: usize,
        device: &Device,
        dtype: DType,
    ) -> (r: Result<Self, GenerateError>)
        requires
            config.n_head > 0,
            fits(first_cache_shape(*config)),
        ensures
            prefill@.len() == 0 <==> r is Err && r->Err_0 is EmptyPrompt,
            prefill@.len() > 0 && num_samples == 0 <==> r is Err && r->Err_0 is NoSamples,
            prefill@.len() > 0 && num_samples > 0 && config.n_layer == 0 <==> r is Err && (
            r->Err_0 matches GenerateError::Model(e) && e is NoLayers),
            r matches Err(GenerateError::Model(e)) ==> e is NoLayers || e is Backend,
            on_cpu(*device) ==> (r is Ok <==> prefill@.len() > 0 && num_samples > 0
                && config.n_layer > 0 && storable(kind(dtype))),
            r matches Ok(p) ==> {
                &&& on_cpu(*device) ==> p.kv_cache.ready()
                &&& p.wf()
                &&& p.tokens() == prefill@
                &&& p.samples() == num_samples
                &&& p.limit() == config.sequence_len
                &&& p.kv_cache.settled()
                &&& p.kv_cache.used() == 0
                &&& p.kv_cache.buffers().len() == config.n_layer
                &&& p.kv_cache.shape() == first_cache_shape(*config)
                &&& element_type(p.kv_cache.buffers()[0].0) == kind(dtype)
                &&& device_of(p.kv_cache.buffers()[0].0) == *device
            },
    {
        if prefill.len() == 0 {
            return Err(GenerateError::EmptyPrompt);
        }
        if num_samples == 0 {
            return Err(GenerateError::NoSamples);
        }
        let ctx_limit = config.sequence_len / 4;
        match KVCache::new(
            config.n_layer,
            (1, config.n_head, ctx_limit, config.n_embd / config.n_head),
            device,
            dtype,
        ) {
            Ok(kv_cache) => {
                let mut prompt: Vec<TokenId> = Vec::new();
                prompt.extend_from_slice(prefill.as_slice());
                assert(prompt@ =~= prefill@);
                Ok(Prefill { kv_cache, prompt, num_samples, sequence_len: config.sequence_len })
            },
            Err(e) => Err(GenerateError::Model(e)),
        }
    }

    /// Whether there can be buffers with a row for each continuation.
    pub fn can_expand(&self) -> (r: bool)
        requires
            self.wf(),
        ensures
            r == fits(self.batch_shape()),
    {
        self.kv_cache.has_room_for_batch(self.num_samples)
    }
}

/// Whether a generator continues a prompt that the model has read.
pub open spec fn continues_prompt(
    prefill: Prefill,
    sampling: Sampling,
    first: TokenId,
    g: Generator,
) -> bool {
    &&& g.sampling() == sampling
    &&& g@ == first_generation(
        prefill.tokens(),
        prefill.samples(),
        first,
        sampling.stop_tokens,
        prefill.limit(),
    )
}

/// A generator has as many sequences as are asked for, each the prompt and the first token
/// and not complete, samples as it is told to, and ends sequences with the tokens and at the
/// length that it is told.
pub proof fn law_prompts_are_continued(
    prefill: Prefill,
    sampling: Sampling,
    first: TokenId,
    g: Generator,
    i: int,
)
    requires
        continues_prompt(prefill, sampling, first, g),
        0 <= i < prefill.num_samples,
    ensures
        g.sequences@.len() == prefill.num_samples,
        g.sequences@[i].tokens@ == prefill.prompt@ + seq![first],
        !g.sequences@[i].completed,
        g.current_tokens@.len() == prefill.num_samples,
        g.current_tokens@[i] == first,
        g.sequence_len == prefill.sequence_len,
        g.sampling_params@ == sampling,
{
    let wanted = first_generation(
        prefill.tokens(),
        prefill.samples(),
        first,
        sampling.stop_tokens,
        prefill.limit(),
    );
    assert(g@.rows.len() == wanted.rows.len());
    assert(g@.rows.len() == g.sequences@.len());
    assert(g@.rows[i] == wanted.rows[i]);
    assert(g@.rows[i] == g.sequences@[i]@);
    assert(prefill.prompt@.push(first) =~= prefill.prompt@ + seq![first]);
}

/// Sequences that grow from one prompt, a token at a time.
pub struct Generator {
    pub kv_cache: KVCache,
    pub sequences: Vec<RowState>,
    pub current_tokens: Vec<TokenId>,
    pub sampling_params: SamplingParams,
    pub sequence_len: usize,
}

impl View for Generator {
    type V = Generation;

    open spec fn view(&self) -> Generation {
        Generation {
            rows: self.sequences@.map_values(|row: RowState| row@),
            current: self.current_tokens@,
            stop: self.sampling_params@.stop_tokens,
            limit: self.sequence_len as nat,
        }
    }
}

impl Generator {
    /// There is a current token for each sequence, and at least one sequence.
    pub open spec fn wf(&self) -> bool {
        self@.current.len() == self@.rows.len() && self@.rows.len() > 0
    }

    /// How tokens are sampled.
    pub open spec fn sampling(&self) -> Sampling {
        self.sampling_params@
    }

    /// Continues a prompt that the model has read, with the first token that was sampled.
    pub fn new(prefill: Prefill, params: &SamplingParams, first_id: TokenId) -> (r: Result<
        Self,
        GenerateError,
    >)
        requires
            prefill.wf(),
            prefill.samples() > 1 ==> fits(prefill.batch_shape()),
        ensures
            match prefill.batch_refusal() {
                Some(e) => r is Err && r->Err_0 == GenerateError::Model(e),
                None => r is Ok || (r->Err_0 matches GenerateError::Model(e) && e is Backend),
            },
            r is Err && prefill.batch_refusal() is None ==> prefill.samples() > 1
                && prefill.kv_cache.shape()[0] == 1 && !prefill.kv_cache.ready(),
            r matches Ok(g) ==> continues_prompt(prefill, params@, first_id, g),
            r matches Ok(g) ==> {
                let (before, after) = (prefill.kv_cache, g.kv_cache);
                &&& g.wf()
                &&& g.sampling() == params@
                &&& g@ == first_generation(
                    prefill.tokens(),
                    prefill.samples(),
                    first_id,
                    params@.stop_tokens,
                    prefill.limit(),
                )
                &&& after.wf()
                &&& after.used() == before.used()
                &&& after.buffers().len() == before.buffers().len()
                &&& before.ready() ==> after.ready()
                &&& prefill.samples() == 1 || before.shape()[0] == prefill.samples()
                    ==> after == before
                &&& prefill.samples() > 1 && before.shape()[0] != prefill.samples() ==> forall|
                    l: int,
                |
                    0 <= l < after.buffers().len() ==> {
                        &&& spread_out(
                            before.buffers()[l].0,
                            (#[trigger] after.buffers()[l]).0,
                            prefill.samples() as int,
                            before.capacity(),
                            before.used() as int,
                        )
                        &&& spread_out(
                            before.buffers()[l].1,
                            after.buffers()[l].1,
                            prefill.samples() as int,
                            before.capacity(),
                            before.used() as int,
                        )
                    }
            },
    {
        let Prefill { kv_cache, prompt, num_samples, sequence_len } = prefill;
        let mut kv_cache = kv_cache;
        if num_samples > 1 {
            match kv_cache.expand_batch(num_samples) {
                Ok(()) => {},
                Err(e) => {
                    return Err(GenerateError::Model(e));
                },
            }
        }
        let mut sequences: Vec<RowState> = Vec::new();
        let mut current_tokens: Vec<TokenId> = Vec::new();
        for i in 0..num_samples
            invariant
                sequences@.len() == i,
                current_tokens@.len() == i,
                forall|j: int|
                    0 <= j < i ==> (#[trigger] sequences@[j])@ == (Row {
                        tokens: prompt@.push(first_id),
                        completed: false,
                    }),
                forall|j: int| 0 <= j < i ==> #[trigger] current_tokens@[j] == first_id,
        {
            let mut tokens: Vec<TokenId> = Vec::new();
            tokens.extend_from_slice(prompt.as_slice());
            tokens.push(first_id);
            assert(tokens@ =~= prompt@.push(first_id));
            sequences.push(RowState::new(tokens));
            current_tokens.push(first_id);
        }
        let g = Generator {
            kv_cache,
            sequences,
            current_tokens,
            sampling_params: params.clone(),
            sequence_len,
        };
        proof {
            let wanted = first_generation(
                prefill.tokens(),
                prefill.samples(),
                first_id,
                params@.stop_tokens,
                prefill.limit(),
            );
            assert(g@.rows =~= wanted.rows);
            assert(g@.current =~= wanted.current);
        }
        Ok(g)
    }

    /// The tokens sampled last, one for each sequence.
    pub fn current_tokens(&self) -> (r: &[TokenId])
        ensures
            r@ == self@.current,
    {
        self.current_tokens.as_slice()
    }

    /// Takes the tokens that were sampled next, one for each sequence.
    pub fn decode_step(&mut self, next_ids: &Vec<TokenId>)
        requires
            old(self).wf(),
            next_ids@.len() == old(self)@.rows.len(),
        ensures
            final(self).wf(),
            final(self)@ == next_generation(old(self)@, next_ids@),
            final(self).sampling() == old(self).sampling(),
            final(self).kv_cache == old(self).kv_cache,
    {
        let n = self.sequences.len();
        let ghost before = *self;
        for i in 0..n
            invariant
                n == before.sequences@.len(),
                next_ids@.len() == n,
                self.sequences@.len() == n,
                self.current_tokens@.len() == n,
                self.sampling_params == before.sampling_params,
                self.sequence_len == before.sequence_len,
                self.kv_cache == before.kv_cache,
                forall|j: int|
                    0 <= j < i ==> (#[trigger] self.sequences@[j])@ == stepped(
                        before.sequences@[j]@,
                        next_ids@[j],
                        before.sampling_params@.stop_tokens,
                    ),
                forall|j: int| i <= j < n ==> #[trigger] self.sequences@[j] == before.sequences@[j],
                forall|j: int| 0 <= j < i ==> #[trigger] self.current_tokens@[j] == next_ids@[j],
        {
            let token = next_ids[i];
            self.current_tokens[i] = token;
            assert(self.sequences@[i as int] == before.sequences@[i as int]);
            if !self.sequences[i].completed {
                let stops = set_contains(&self.sampling_params.stop_tokens, token);
                self.sequences[i].tokens.push(token);
                if stops {
                    self.sequences[i].completed = true;
                }
            }
        }
        proof {
            let wanted = next_generation(before@, next_ids@);
            assert(self@.rows =~= wanted.rows);
            assert(self@.current =~= wanted.current);
        }
    }

    /// Whether all sequences are at their ends.
    pub fn is_completed(&self) -> (r: bool)
        ensures
            r == all_at_end(self@),
    {
        for i in 0..self.sequences.len()
            invariant
                forall|j: int|
                    0 <= j < i ==> at_end((#[trigger] self.sequences@[j])@, self@.limit),
        {
            let row = &self.sequences[i];
            if !(row.completed || row.tokens.len() >= self.sequence_len) {
                assert(self@.rows[i as int] == self.sequences@[i as int]@);
                return false;
            }
        }
        assert forall|i: int| 0 <= i < self@.rows.len() implies at_end(
            #[trigger] self@.rows[i],
            self@.limit,
        ) by {
            assert(self@.rows[i] == self.sequences@[i]@);
        }
        true
    }

    /// The sequences, from the prompt on.
    pub fn sequences(&self) -> (r: Vec<Vec<TokenId>>)
        ensures
            r@.len() == self@.rows.len(),
            forall|i: int| 0 <= i < r@.len() ==> (#[trigger] r@[i])@ == self@.rows[i].tokens,
    {
        let mut all: Vec<Vec<TokenId>> = Vec::new();
        for i in 0..self.sequences.len()
            invariant
                all@.len() == i,
                forall|j: int| 0 <= j < i ==> (#[trigger] all@[j])@ == self.sequences@[j].tokens@,
        {
            let mut tokens: Vec<TokenId> = Vec::new();
            tokens.extend_from_slice(self.sequences[i].tokens.as_slice());
            assert(tokens@ =~= self.sequences@[i as int].tokens@);
            all.push(tokens);
        }
        all
    }
}

/// The state after some steps, each with a token for every sequence.
pub open spec fn run(g: Generation, steps: Seq<Seq<TokenId>>) -> Generation
    decreases steps.len(),
{
    if steps.len() == 0 {
        g
    } else {
        next_generation(run(g, steps.drop_last()), steps.last())
    }
}

/// A sequence after some tokens have been sampled for it.
pub open spec fn run_row(row: Row, tokens: Seq<TokenId>, stop: Set<TokenId>) -> Row
    decreases tokens.len(),
{
    if tokens.len() == 0 {
        row
    } else {
        stepped(run_row(row, tokens.drop_last(), stop), tokens.last(), stop)
    }
}

/// The tokens that some steps have for sequence `i`.
pub open spec fn column(steps: Seq<Seq<TokenId>>, i: int) -> Seq<TokenId> {
    steps.map_values(|tokens: Seq<TokenId>| tokens[i])
}

/// Sequences do not influence each other: each becomes what it would become alone.
pub proof fn law_sequences_are_independent(g: Generation, steps: Seq<Seq<TokenId>>, i: int)
    requires
        0 <= i < g.rows.len(),
    ensures
        run(g, steps).rows.len() == g.rows.len(),
        run(g, steps).stop == g.stop,
        run(g, steps).limit == g.limit,
        run(g, steps).rows[i] == run_row(g.rows[i], column(steps, i), g.stop),
    decreases steps.len(),
{
    if steps.len() > 0 {
        law_sequences_are_independent(g, steps.drop_last(), i);
        assert(column(steps, i).drop_last() =~= column(steps.drop_last(), i));
        assert(column(steps, i).last() == steps.last()[i]);
    }
}

/// A complete sequence stays as it is.
pub proof fn law_complete_sequences_stay(row: Row, tokens: Seq<TokenId>, stop: Set<TokenId>)
    requires
        row.completed,
    ensures
        run_row(row, tokens, stop) == row,
    decreases tokens.len(),
{
    if tokens.len() > 0 {
        law_complete_sequences_stay(row, tokens.drop_last(), stop);
    }
}

/// As long as no token ends it, a sequence takes every token.
pub proof fn law_sequence_takes_tokens(row: Row, tokens: Seq<TokenId>, stop: Set<TokenId>)
    requires
        !row.completed,
        forall|j: int| 0 <= j < tokens.len() ==> !stop.contains(#[trigger] tokens[j]),
    ensures
        run_row(row, tokens, stop) == (Row { tokens: row.tokens + tokens, completed: false }),
    decreases tokens.len(),
{
    if tokens.len() > 0 {
        let before = tokens.drop_last();
        assert forall|j: int| 0 <= j < before.len() implies !stop.contains(
            #[trigger] before[j],
        ) by {
            assert(before[j] == tokens[j]);
        }
        law_sequence_takes_tokens(row, before, stop);
        assert(!stop.contains(tokens[tokens.len() - 1]));
        assert((row.tokens + before).push(tokens.last()) =~= row.tokens + tokens);
    } else {
        assert(row.tokens + tokens =~= row.tokens);
    }
}

/// The first token that ends a sequence is its last.
pub proof fn law_first_stop_token_is_last(
    row: Row,
    tokens: Seq<TokenId>,
    stop: Set<TokenId>,
    k: int,
)
    requires
        !row.completed,
        0 <= k < tokens.len(),
        stop.contains(tokens[k]),
        forall|j: int| 0 <= j < k ==> !stop.contains(#[trigger] tokens[j]),
    ensures
        run_row(row, tokens, stop) == (Row {
            tokens: row.tokens + tokens.take(k + 1),
            completed: true,
        }),
    decreases tokens.len(),
{
    let before = tokens.drop_last();
    if k < tokens.len() - 1 {
        assert(before[k] == tokens[k]);
        assert forall|j: int| 0 <= j < k implies !stop.contains(#[trigger] before[j]) by {
            assert(before[j] == tokens[j]);
        }
        law_first_stop_token_is_last(row, before, stop, k);
        assert(before.take(k + 1) =~= tokens.take(k + 1));
    } else {
        assert forall|j: int| 0 <= j < before.len() implies !stop.contains(
            #[trigger] before[j],
        ) by {
            assert(before[j] == tokens[j]);
        }
        law_sequence_takes_tokens(row, before, stop);
        assert((row.tokens + before).push(tokens.last()) =~= row.tokens + tokens.take(k + 1));
    }
}

/// A sequence never loses a token: what it was stays its beginning.
pub proof fn law_sequence_only_grows(row: Row, tokens: Seq<TokenId>, stop: Set<TokenId>)
    ensures
        row.tokens.is_prefix_of(run_row(row, tokens, stop).tokens),
        run_row(row, tokens, stop).tokens.len() <= row.tokens.len() + tokens.len(),
    decreases tokens.len(),
{
    if tokens.len() > 0 {
        law_sequence_only_grows(row, tokens.drop_last(), stop);
    }
}

/// A sequence is at its end exactly if a token has completed it or it is as long as the
/// model allows, and generation is over exactly if every sequence is.
pub proof fn law_ends_of_generation(g: Generation, row: Row, limit: nat)
    ensures
        at_end(row, limit) <==> row.completed || row.tokens.len() >= limit,
        all_at_end(g) <==> forall|i: int|
            0 <= i < g.rows.len() ==> (#[trigger] g.rows[i]).completed || g.rows[i].tokens.len()
                >= g.limit,
{
    if all_at_end(g) {
        assert forall|i: int| 0 <= i < g.rows.len() implies (#[trigger] g.rows[i]).completed
            || g.rows[i].tokens.len() >= g.limit by {
            assert(at_end(g.rows[i], g.limit));
        }
    }
}

/// A token that is sampled for a sequence that goes on becomes its last, and completes it
/// exactly if it is one of those that do; the tokens of all sequences are taken at once.
pub proof fn law_one_step(g: Generation, tokens: Seq<TokenId>, i: int)
    requires
        0 <= i < g.rows.len(),
        tokens.len() == g.rows.len(),
    ensures
        ({
            let next = next_generation(g, tokens);
            &&& next.current == tokens
            &&& next.stop == g.stop
            &&& next.limit == g.limit
            &&& next.rows.len() == g.rows.len()
            &&& g.rows[i].completed ==> next.rows[i] == g.rows[i]
            &&& !g.rows[i].completed ==> next.rows[i].tokens == g.rows[i].tokens + seq![tokens[i]]
            &&& !g.rows[i].completed ==> (next.rows[i].completed <==> g.stop.contains(tokens[i]))
        }),
{
    assert(g.rows[i].tokens.push(tokens[i]) =~= g.rows[i].tokens + seq![tokens[i]]);
}

/// Generation begins with as many sequences as are asked for, each of which is the prompt
/// and the first token, and goes on.
pub proof fn law_generation_begins(
    prompt: Seq<TokenId>,
    samples: nat,
    first: TokenId,
    stop: Set<TokenId>,
    limit: nat,
    i: int,
)
    requires
        0 <= i < samples,
    ensures
        ({
            let g = first_generation(prompt, samples, first, stop, limit);
            &&& g.rows.len() == samples
            &&& g.current.len() == samples
            &&& g.rows[i].tokens == prompt + seq![first]
            &&& !g.rows[i].completed
            &&& g.current[i] == first
            &&& g.stop == stop
            &&& g.limit == limit
        }),
{
    assert(prompt.push(first) =~= prompt + seq![first]);
}

/// The first buffers are for one row, with a head for each head of the model, room for a
/// quarter of the longest sequence, and heads of the size that cuts the embedding evenly.
pub proof fn law_first_buffers(config: GPTConfig)
    requires
        config.n_head > 0,
    ensures
        ({
            let d = first_cache_shape(config);
            &&& d.len() == 4
            &&& d[0] == 1
            &&& d[1] == config.n_head
            &&& 4 * d[2] <= config.sequence_len < 4 * (d[2] + 1)
            &&& d[1] * d[3] <= config.n_embd < d[1] * (d[3] + 1)
        }),
{
    let (e, h) = (config.n_embd as int, config.n_head as int);
    vstd::arithmetic::div_mod::lemma_fundamental_div_mod(e, h);
    assert(e / h <= e) by (nonlinear_arith)
        requires
            h > 0,
            e >= 0,
    ;
    assert(h * (e / h + 1) == h * (e / h) + h) by (nonlinear_arith);
}

/// What is taken of the logits is the row of the last position, of every sequence.
pub proof fn law_last_logits(logits: Tensor, last: Tensor, b: int, token: int)
    requires
        last_position_of(logits, last),
        dims(logits).len() == 3,
        dims(logits)[1] > 0,
        0 <= b < dims(logits)[0],
        0 <= token < dims(logits)[2],
    ensures
        dims(last) == seq![dims(logits)[0], dims(logits)[2]],
        entries(last)[seq![b, token]] == entries(logits)[seq![b, dims(logits)[1] - 1, token]],
{
    assert(inside(dims(last), seq![b, token]));
}

/// A cache can be made to have a row for each continuation exactly if it has one row, or as
/// many as there are continuations, or there is only one continuation.
pub proof fn law_rows_for_continuations(prefill: Prefill)
    requires
        prefill.wf(),
    ensures
        prefill.batch_refusal() is None <==> prefill.samples() == 1
            || prefill.kv_cache.shape()[0] == 1 || prefill.kv_cache.shape()[0]
            == prefill.samples(),
        prefill.batch_refusal() matches Some(e) ==> e == ModelError::BatchChange(
            prefill.kv_cache.shape()[0],
            prefill.samples() as usize,
        ),
{
}

} // verus!
