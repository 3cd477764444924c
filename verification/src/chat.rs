//! Chat requests, the limits on them, and what is answered to one that is refused.
use vstd::prelude::*;

use crate::temperature::{clamp_f64, Temperature};
use crate::text::{
    characters, decimal, decimal_text, law_trimmed_texts, same_text, trim, trimmed, white_space,
    with_number,
};

verus! {

pub const MAX_MESSAGES_PER_REQUEST: usize = 500;

pub const MAX_MESSAGE_LENGTH: usize = 8_000;

pub const MAX_TOTAL_CONVERSATION_LENGTH: usize = 32_000;

/// The bits of the lowest temperature, zero.
pub const MIN_TEMPERATURE: u64 = 0;

/// The bits of the highest temperature, two.
pub const MAX_TEMPERATURE: u64 = 0x4000_0000_0000_0000;

pub const MIN_TOP_K: usize = 1;

pub const MAX_TOP_K: usize = 200;

pub const MIN_MAX_TOKENS: usize = 1;

pub const MAX_MAX_TOKENS: usize = 4_096;

/// One message of a conversation.
#[derive(Debug)]
pub struct ChatMessage {
    pub role: String,
    pub content: String,
}

/// A conversation to be continued, and how.
#[derive(Debug)]
pub struct ChatRequest {
    pub messages: Vec<ChatMessage>,
    pub temperature: Option<Temperature>,
    pub max_tokens: Option<usize>,
    pub top_k: Option<usize>,
}

/// How to continue a conversation where the request does not say.
#[derive(Clone, Copy, Debug)]
pub struct GenerationDefaults {
    pub temperature: Temperature,
    pub top_k: usize,
    pub max_tokens: usize,
    pub seed: Option<u64>,
}

/// How a conversation is continued.
#[derive(Clone, Copy, Debug)]
pub struct Settings {
    pub temperature: Temperature,
    pub top_k: usize,
    pub max_tokens: usize,
}

/// Why a request is answered with an error.
#[derive(Debug)]
pub enum ApiError {
    /// The request breaks a rule; the text says which.
    Validation(String),
    /// Something else went wrong; the text is for the log.
    Internal(String),
}

/// What is wrong with a message.
pub enum Fault {
    Empty,
    TooLong,
    Role,
}

/// The rule that a request breaks.
pub enum Violation {
    NoMessages,
    TooManyMessages,
    Message(usize, Fault),
    TotalLength,
    Temperature,
    TopK,
    MaxTokens,
}

/// Whether a role is known.
pub open spec fn known_role(role: Seq<char>) -> bool {
    role == "user"@ || role == "assistant"@ || role == "system"@
}

/// What is wrong with a message, if anything.
pub open spec fn fault(message: ChatMessage) -> Option<Fault> {
    if trimmed(message.content@).len() == 0 {
        Some(Fault::Empty)
    } else if message.content@.len() > MAX_MESSAGE_LENGTH {
        Some(Fault::TooLong)
    } else if !known_role(message.role@) {
        Some(Fault::Role)
    } else {
        None
    }
}

/// The first message from `from` on with which something is wrong.
pub open spec fn first_fault(messages: Seq<ChatMessage>, from: int) -> Option<Violation>
    decreases messages.len() - from,
{
    if from < 0 || from >= messages.len() {
        None
    } else {
        match fault(messages[from]) {
            Some(f) => Some(Violation::Message(from as usize, f)),
            None => first_fault(messages, from + 1),
        }
    }
}

/// The number of characters in all messages.
pub open spec fn total_length(messages: Seq<ChatMessage>) -> nat
    decreases messages.len(),
{
    if messages.len() == 0 {
        0
    } else {
        total_length(messages.drop_last()) + messages.last().content@.len()
    }
}

/// The lowest temperature.
pub open spec fn coldest() -> Temperature {
    Temperature { bits: MIN_TEMPERATURE }
}

/// The highest temperature.
pub open spec fn hottest() -> Temperature {
    Temperature { bits: MAX_TEMPERATURE }
}

/// Whether a temperature is allowed.
pub open spec fn temperature_allowed(temperature: Temperature) -> bool {
    &&& !temperature.nan()
    &&& coldest().order() <= temperature.order() <= hottest().order()
}

/// The first rule that a request breaks, in the order in which they are looked at.
pub open spec fn violation(request: ChatRequest) -> Option<Violation> {
    let messages = request.messages@;
    if messages.len() == 0 {
        Some(Violation::NoMessages)
    } else if messages.len() > MAX_MESSAGES_PER_REQUEST {
        Some(Violation::TooManyMessages)
    } else if first_fault(messages, 0) is Some {
        first_fault(messages, 0)
    } else if total_length(messages) > MAX_TOTAL_CONVERSATION_LENGTH {
        Some(Violation::TotalLength)
    } else if request.temperature matches Some(t) && !temperature_allowed(t) {
        Some(Violation::Temperature)
    } else if request.top_k matches Some(k) && !(MIN_TOP_K <= k <= MAX_TOP_K) {
        Some(Violation::TopK)
    } else if request.max_tokens matches Some(n) && !(MIN_MAX_TOKENS <= n <= MAX_MAX_TOKENS) {
        Some(Violation::MaxTokens)
    } else {
        None
    }
}

/// Whether a request keeps to all the limits.
pub open spec fn within_limits(request: ChatRequest) -> bool {
    let messages = request.messages@;
    &&& 1 <= messages.len() <= MAX_MESSAGES_PER_REQUEST
    &&& forall|i: int|
        0 <= i < messages.len() ==> {
            &&& trimmed((#[trigger] messages[i]).content@).len() > 0
            &&& messages[i].content@.len() <= MAX_MESSAGE_LENGTH
            &&& known_role(messages[i].role@)
        }
    &&& total_length(messages) <= MAX_TOTAL_CONVERSATION_LENGTH
    &&& request.temperature matches Some(t) ==> temperature_allowed(t)
    &&& request.top_k matches Some(k) ==> MIN_TOP_K <= k <= MAX_TOP_K
    &&& request.max_tokens matches Some(n) ==> MIN_MAX_TOKENS <= n <= MAX_MAX_TOKENS
}

/// The text that names the broken rule.
pub open spec fn complaint(violation: Violation) -> Seq<char> {
    match violation {
        Violation::NoMessages => "At least one message is required"@,
        Violation::TooManyMessages => "Too many messages. Maximum "@ + decimal(
            MAX_MESSAGES_PER_REQUEST as nat,
        ) + " messages allowed per request"@,
        Violation::Message(i, Fault::Empty) => "Message "@ + decimal(i as nat)
            + " has empty content"@,
        Violation::Message(i, Fault::TooLong) => "Message "@ + decimal(i as nat)
            + " is too long. Maximum "@ + decimal(MAX_MESSAGE_LENGTH as nat)
            + " characters allowed per message"@,
        Violation::Message(i, Fault::Role) => "Message "@ + decimal(i as nat)
            + " has invalid role. Must be 'user', 'assistant', or 'system'"@,
        Violation::TotalLength => "Total conversation is too long. Maximum "@ + decimal(
            MAX_TOTAL_CONVERSATION_LENGTH as nat,
        ) + " characters allowed"@,
        Violation::Temperature => "Temperature must be between 0 and 2"@,
        Violation::TopK => "top_k must be between "@ + decimal(MIN_TOP_K as nat) + " and "@
            + decimal(MAX_TOP_K as nat),
        Violation::MaxTokens => "max_tokens must be between "@ + decimal(MIN_MAX_TOKENS as nat)
            + " and "@ + decimal(MAX_MAX_TOKENS as nat),
    }
}

impl Violation {
    /// The text that names the broken rule.
    pub fn message(&self) -> (text: String)
        ensures
            text@ == complaint(*self),
    {
        match self {
            Violation::NoMessages => "At least one message is required".to_owned(),
            Violation::TooManyMessages => with_number(
                "Too many messages. Maximum ",
                MAX_MESSAGES_PER_REQUEST,
                " messages allowed per request",
            ),
            Violation::Message(i, Fault::Empty) => with_number(
                "Message ",
                *i,
                " has empty content",
            ),
            Violation::Message(i, Fault::TooLong) => {
                let head = with_number("Message ", *i, " is too long. Maximum ");
                with_number(
                    head.as_str(),
                    MAX_MESSAGE_LENGTH,
                    " characters allowed per message",
                )
            },
            Violation::Message(i, Fault::Role) => with_number(
                "Message ",
                *i,
                " has invalid role. Must be 'user', 'assistant', or 'system'",
            ),
            Violation::TotalLength => with_number(
                "Total conversation is too long. Maximum ",
                MAX_TOTAL_CONVERSATION_LENGTH,
                " characters allowed",
            ),
            Violation::Temperature => "Temperature must be between 0 and 2".to_owned(),
            Violation::TopK => {
                let mut text = with_number("top_k must be between ", MIN_TOP_K, " and ");
                text.append(decimal_text(MAX_TOP_K as u64).as_str());
                text
            },
            Violation::MaxTokens => {
                let mut text = with_number("max_tokens must be between ", MIN_MAX_TOKENS, " and ");
                text.append(decimal_text(MAX_MAX_TOKENS as u64).as_str());
                text
            },
        }
    }
}

/// The HTTP status and the body with which an error is answered.
pub open spec fn answer_to(e: ApiError) -> (u16, Seq<char>) {
    match e {
        ApiError::Validation(msg) => (400, msg@),
        ApiError::Internal(_) => (500, "internal server error"@),
    }
}

/// A broken rule is the client's fault and told in full; what went wrong inside is the
/// server's, and the same is told whatever it was.
pub proof fn law_answers_to_errors(text: String, other: String)
    ensures
        answer_to(ApiError::Validation(text)).0 == 400,
        answer_to(ApiError::Validation(text)).1 == text@,
        answer_to(ApiError::Internal(text)).0 == 500,
        answer_to(ApiError::Internal(text)).1 == "internal server error"@,
        answer_to(ApiError::Internal(text)) == answer_to(ApiError::Internal(other)),
{
}

impl ApiError {
    /// The error of a request that breaks a rule.
    pub fn validation(msg: String) -> (e: Self)
        ensures
            e == ApiError::Validation(msg),
    {
        ApiError::Validation(msg)
    }

    /// The HTTP status and the body with which the error is answered. What went wrong
    /// inside is not told.
    pub fn response(&self) -> (r: (u16, String))
        ensures
            match *self {
                ApiError::Validation(msg) => r.0 == 400 && r.1@ == msg@,
                ApiError::Internal(_) => r.0 == 500 && r.1@ == "internal server error"@,
            },
            (r.0, r.1@) == answer_to(*self),
    {
        match self {
            ApiError::Validation(msg) => (400, msg.clone()),
            ApiError::Internal(_) => (500, "internal server error".to_owned()),
        }
    }
}

/// Whether a role is known.
fn is_known_role(role: &str) -> (r: bool)
    ensures
        r == known_role(role@),
{
    same_text(role, "user") || same_text(role, "assistant") || same_text(role, "system")
}

/// What is wrong with a message, if anything, and how many characters it has.
fn look_at_message(message: &ChatMessage) -> (r: (Option<Fault>, usize))
    ensures
        r.0 == fault(*message),
        r.1 == message.content@.len(),
{
    let len = characters(message.content.as_str()).len();
    let content = trim(message.content.as_str());
    let found = if content.as_str().is_empty() {
        Some(Fault::Empty)
    } else if len > MAX_MESSAGE_LENGTH {
        Some(Fault::TooLong)
    } else if !is_known_role(message.role.as_str()) {
        Some(Fault::Role)
    } else {
        None
    };
    (found, len)
}

/// The first rule that a request breaks, if any.
pub fn find_violation(request: &ChatRequest) -> (r: Option<Violation>)
    ensures
        r == violation(*request),
{
    let n = request.messages.len();
    if n == 0 {
        return Some(Violation::NoMessages);
    }
    if n > MAX_MESSAGES_PER_REQUEST {
        return Some(Violation::TooManyMessages);
    }
    let mut total: usize = 0;
    for i in 0..n
        invariant
            n == request.messages@.len(),
            1 <= n <= MAX_MESSAGES_PER_REQUEST,
            first_fault(request.messages@, 0) == first_fault(request.messages@, i as int),
            total == total_length(request.messages@.take(i as int)),
            total <= i * MAX_MESSAGE_LENGTH,
    {
        let (found, len) = look_at_message(&request.messages[i]);
        if let Some(f) = found {
            return Some(Violation::Message(i, f));
        }
        proof {
            let taken = request.messages@.take(i + 1);
            assert(taken.drop_last() =~= request.messages@.take(i as int));
        }
        total = total + len;
    }
    assert(request.messages@.take(n as int) =~= request.messages@);
    if total > MAX_TOTAL_CONVERSATION_LENGTH {
        return Some(Violation::TotalLength);
    }
    if let Some(temperature) = request.temperature {
        if !temperature.is_between(
            Temperature::from_bits(MIN_TEMPERATURE),
            Temperature::from_bits(MAX_TEMPERATURE),
        ) {
            return Some(Violation::Temperature);
        }
    }
    if let Some(top_k) = request.top_k {
        if !(MIN_TOP_K <= top_k && top_k <= MAX_TOP_K) {
            return Some(Violation::TopK);
        }
    }
    if let Some(max_tokens) = request.max_tokens {
        if !(MIN_MAX_TOKENS <= max_tokens && max_tokens <= MAX_MAX_TOKENS) {
            return Some(Violation::MaxTokens);
        }
    }
    None
}

/// The text with which a request is refused, if it is.
pub open spec fn verdict(request: ChatRequest) -> Option<Seq<char>> {
    match violation(request) {
        Some(v) => Some(complaint(v)),
        None => None,
    }
}

/// Accepts a request that keeps to the limits; refuses any other with a text that
/// names the first rule that it breaks.
pub fn validate_chat_request(request: &ChatRequest) -> (r: Result<(), ApiError>)
    ensures
        match (violation(*request), r) {
            (None, Ok(())) => true,
            (Some(v), Err(ApiError::Validation(msg))) => msg@ == complaint(v),
            _ => false,
        },
        verdict(*request) == (match r {
            Ok(()) => None::<Seq<char>>,
            Err(ApiError::Validation(msg)) => Some(msg@),
            Err(ApiError::Internal(msg)) => Some(msg@),
        }),
{
    match find_violation(request) {
        None => Ok(()),
        Some(v) => Err(ApiError::validation(v.message())),
    }
}

/// The nearest number from `min` to `max`.
pub fn clamp_usize(value: usize, min: usize, max: usize) -> (r: usize)
    requires
        min <= max,
    ensures
        r == clamped(value, min, max),
        min <= r <= max,
{
    if value < min {
        min
    } else if value > max {
        max
    } else {
        value
    }
}

/// `value`, moved into the range from `min` to `max`.
pub open spec fn clamped(value: usize, min: usize, max: usize) -> usize {
    if value < min {
        min
    } else if value > max {
        max
    } else {
        value
    }
}

/// `value`, moved into the allowed range.
pub open spec fn clamped_temperature(value: Temperature) -> Temperature {
    if value.lt(coldest()) {
        coldest()
    } else if hottest().lt(value) {
        hottest()
    } else {
        value
    }
}

/// How a request's conversation is continued: as the request says, else as the defaults
/// say, and within the limits in either case.
pub open spec fn settings_of(request: ChatRequest, defaults: GenerationDefaults) -> Settings {
    Settings {
        temperature: clamped_temperature(
            match request.temperature {
                Some(t) => t,
                None => defaults.temperature,
            },
        ),
        top_k: clamped(
            match request.top_k {
                Some(k) => k,
                None => defaults.top_k,
            },
            MIN_TOP_K,
            MAX_TOP_K,
        ),
        max_tokens: clamped(
            match request.max_tokens {
                Some(n) => n,
                None => defaults.max_tokens,
            },
            MIN_MAX_TOKENS,
            MAX_MAX_TOKENS,
        ),
    }
}

/// How a request's conversation is continued.
pub fn settings(request: &ChatRequest, defaults: &GenerationDefaults) -> (r: Settings)
    ensures
        r == settings_of(*request, *defaults),
{
    let temperature = match request.temperature {
        Some(t) => t,
        None => defaults.temperature,
    };
    let top_k = match request.top_k {
        Some(k) => k,
        None => defaults.top_k,
    };
    let max_tokens = match request.max_tokens {
        Some(n) => n,
        None => defaults.max_tokens,
    };
    Settings {
        temperature: clamp_f64(
            temperature,
            Temperature::from_bits(MIN_TEMPERATURE),
            Temperature::from_bits(MAX_TEMPERATURE),
        ),
        top_k: clamp_usize(top_k, MIN_TOP_K, MAX_TOP_K),
        max_tokens: clamp_usize(max_tokens, MIN_MAX_TOKENS, MAX_MAX_TOKENS),
    }
}

proof fn lemma_no_fault(messages: Seq<ChatMessage>, from: int)
    requires
        0 <= from <= messages.len() <= MAX_MESSAGES_PER_REQUEST,
    ensures
        first_fault(messages, from) is None <==> (forall|i: int|
            from <= i < messages.len() ==> fault(#[trigger] messages[i]) is None),
    decreases messages.len() - from,
{
    if from < messages.len() {
        lemma_no_fault(messages, from + 1);
    }
}

/// A request is accepted exactly if it keeps to all the limits.
pub proof fn law_accepted_requests(request: ChatRequest)
    ensures
        violation(request) is None <==> within_limits(request),
{
    if request.messages@.len() <= MAX_MESSAGES_PER_REQUEST {
        lemma_no_fault(request.messages@, 0);
    }
    if within_limits(request) {
        assert forall|i: int| 0 <= i < request.messages@.len() implies fault(
            #[trigger] request.messages@[i],
        ) is None by {}
    }
    if violation(request) is None {
        assert forall|i: int| 0 <= i < request.messages@.len() implies {
            &&& trimmed((#[trigger] request.messages@[i]).content@).len() > 0
            &&& request.messages@[i].content@.len() <= MAX_MESSAGE_LENGTH
            &&& known_role(request.messages@[i].role@)
        } by {
            assert(fault(request.messages@[i]) is None);
        }
    }
}

/// What an accepted request asks for is what it gets: its settings are used unchanged.
pub proof fn law_accepted_settings_are_kept(request: ChatRequest, defaults: GenerationDefaults)
    requires
        within_limits(request),
    ensures
        request.temperature matches Some(t) ==> settings_of(request, defaults).temperature == t,
        request.top_k matches Some(k) ==> settings_of(request, defaults).top_k == k,
        request.max_tokens matches Some(n) ==> settings_of(request, defaults).max_tokens == n,
{
}

/// Whatever a request and the defaults say, generation keeps to the limits; of the
/// temperature this holds where it is a number.
pub proof fn law_settings_within_limits(request: ChatRequest, defaults: GenerationDefaults)
    ensures
        ({
            let s = settings_of(request, defaults);
            &&& MIN_TOP_K <= s.top_k <= MAX_TOP_K
            &&& MIN_MAX_TOKENS <= s.max_tokens <= MAX_MAX_TOKENS
            &&& s.temperature.nan() || temperature_allowed(s.temperature)
        }),
{
}

proof fn lemma_total_length(messages: Seq<ChatMessage>)
    ensures
        total_length(messages) == messages.fold_left(
            0int,
            |n: int, message: ChatMessage| n + message.content@.len(),
        ),
    decreases messages.len(),
{
    reveal_with_fuel(Seq::fold_left, 1);
    if messages.len() > 0 {
        lemma_total_length(messages.drop_last());
    }
}

proof fn lemma_fault(message: ChatMessage)
    ensures
        fault(message) is None <==> {
            &&& exists|c: int|
                0 <= c < message.content@.len() && !white_space(#[trigger] message.content@[c])
            &&& message.content@.len() <= 8000
            &&& message.role@ == "user"@ || message.role@ == "assistant"@ || message.role@
                == "system"@
        },
        fault(message) == Some(Fault::Empty) <==> forall|c: int|
            0 <= c < message.content@.len() ==> white_space(#[trigger] message.content@[c]),
{
    law_trimmed_texts(message.content@);
    if trimmed(message.content@).len() > 0 {
        let c = choose|c: int|
            0 <= c < message.content@.len() && !white_space(#[trigger] message.content@[c]);
        assert(!white_space(message.content@[c]));
    }
}

/// A request is accepted exactly if it has from 1 to 500 messages, each with something but
/// white space in it, of at most 8000 characters, by the user, the assistant or the system,
/// and together of at most 32000 characters; and if, where it says so, the temperature is
/// from 0 to 2, the candidates are from 1 to 200, and the reply's tokens from 1 to 4096.
pub proof fn law_limits_of_requests(request: ChatRequest)
    ensures
        ({
            let messages = request.messages@;
            violation(request) is None <==> {
                &&& 1 <= messages.len() <= 500
                &&& forall|j: int|
                    #![trigger messages[j]]
                    0 <= j < messages.len() ==> {
                        &&& exists|c: int|
                            0 <= c < messages[j].content@.len() && !white_space(
                                #[trigger] messages[j].content@[c],
                            )
                        &&& messages[j].content@.len() <= 8000
                        &&& messages[j].role@ == "user"@ || messages[j].role@ == "assistant"@
                            || messages[j].role@ == "system"@
                    }
                &&& messages.fold_left(
                    0int,
                    |n: int, message: ChatMessage| n + message.content@.len(),
                ) <= 32000
                &&& request.temperature matches Some(t) ==> t.bits <= 0x4000_0000_0000_0000
                    || t.bits == 0x8000_0000_0000_0000
                &&& request.top_k matches Some(k) ==> 1 <= k <= 200
                &&& request.max_tokens matches Some(n) ==> 1 <= n <= 4096
            }
        }),
{
    let messages = request.messages@;
    lemma_total_length(messages);
    law_accepted_requests(request);
    assert forall|j: int| 0 <= j < messages.len() implies (fault(#[trigger] messages[j]) is None
        <==> {
        &&& trimmed(messages[j].content@).len() > 0
        &&& messages[j].content@.len() <= MAX_MESSAGE_LENGTH
        &&& known_role(messages[j].role@)
    }) by {}
    assert forall|j: int| 0 <= j < messages.len() implies (fault(#[trigger] messages[j]) is None
        <==> {
        &&& exists|c: int|
            0 <= c < messages[j].content@.len() && !white_space(
                #[trigger] messages[j].content@[c],
            )
        &&& messages[j].content@.len() <= 8000
        &&& messages[j].role@ == "user"@ || messages[j].role@ == "assistant"@
            || messages[j].role@ == "system"@
    }) by {
        lemma_fault(messages[j]);
    }
    if violation(request) is None {
        assert forall|j: int| 0 <= j < messages.len() implies fault(#[trigger] messages[j]) is None by {
            assert(trimmed(messages[j].content@).len() > 0);
        }
    }
}

proof fn lemma_first_fault(messages: Seq<ChatMessage>, from: int)
    requires
        0 <= from <= messages.len() <= usize::MAX,
    ensures
        match first_fault(messages, from) {
            Some(Violation::Message(i, f)) => {
                &&& from <= i < messages.len()
                &&& fault(messages[i as int]) == Some(f)
                &&& forall|j: int| from <= j < i ==> fault(#[trigger] messages[j]) is None
            },
            Some(_) => false,
            None => forall|j: int|
                from <= j < messages.len() ==> fault(#[trigger] messages[j]) is None,
        },
    decreases messages.len() - from,
{
    if from < messages.len() {
        lemma_first_fault(messages, from + 1);
    }
}

/// A request without messages, and one with more than 500, is refused for that. Else the
/// first message with which something is wrong is named: that it is empty before that it is
/// too long, and that before its role.
pub proof fn law_first_bad_message_is_named(request: ChatRequest, i: usize)
    ensures
        ({
            let messages = request.messages@;
            let at = messages[i as int];
            let blank = forall|c: int|
                0 <= c < at.content@.len() ==> white_space(#[trigger] at.content@[c]);
            let first = 1 <= messages.len() <= 500 && i < messages.len() && forall|j: int|
                #![trigger messages[j]]
                0 <= j < i ==> {
                    &&& exists|c: int|
                        0 <= c < messages[j].content@.len() && !white_space(
                            #[trigger] messages[j].content@[c],
                        )
                    &&& messages[j].content@.len() <= 8000
                    &&& messages[j].role@ == "user"@ || messages[j].role@ == "assistant"@
                        || messages[j].role@ == "system"@
                };
            &&& violation(request) == Some(Violation::NoMessages) <==> messages.len() == 0
            &&& violation(request) == Some(Violation::TooManyMessages) <==> messages.len() > 500
            &&& violation(request) == Some(Violation::Message(i, Fault::Empty)) <==> first && blank
            &&& violation(request) == Some(Violation::Message(i, Fault::TooLong)) <==> first
                && !blank && at.content@.len() > 8000
            &&& violation(request) == Some(Violation::Message(i, Fault::Role)) <==> first && !blank
                && at.content@.len() <= 8000 && at.role@ != "user"@ && at.role@ != "assistant"@
                && at.role@ != "system"@
        }),
{
    let messages = request.messages@;
    if messages.len() <= 500 {
        lemma_first_fault(messages, 0);
    }
    assert forall|j: int| 0 <= j < messages.len() implies (fault(#[trigger] messages[j]) is None
        <==> {
        &&& exists|c: int|
            0 <= c < messages[j].content@.len() && !white_space(
                #[trigger] messages[j].content@[c],
            )
        &&& messages[j].content@.len() <= 8000
        &&& messages[j].role@ == "user"@ || messages[j].role@ == "assistant"@
            || messages[j].role@ == "system"@
    }) by {
        lemma_fault(messages[j]);
    }
    if i < messages.len() {
        lemma_fault(messages[i as int]);
    }
}

/// Where nothing is wrong with a message, the length of all of them is looked at before the
/// temperature, that before the number of candidates, and that before the reply's length.
pub proof fn law_later_rules_in_order(request: ChatRequest)
    requires
        1 <= request.messages@.len() <= 500,
        forall|j: int|
            0 <= j < request.messages@.len() ==> fault(#[trigger] request.messages@[j]) is None,
    ensures
        ({
            let long = request.messages@.fold_left(
                0int,
                |n: int, message: ChatMessage| n + message.content@.len(),
            ) > 32000;
            let hot = request.temperature matches Some(t) && 0x4000_0000_0000_0000 < t.bits
                && t.bits != 0x8000_0000_0000_0000;
            let wide = request.top_k matches Some(k) && (k < 1 || k > 200);
            let wordy = request.max_tokens matches Some(n) && (n < 1 || n > 4096);
            &&& violation(request) == Some(Violation::TotalLength) <==> long
            &&& violation(request) == Some(Violation::Temperature) <==> !long && hot
            &&& violation(request) == Some(Violation::TopK) <==> !long && !hot && wide
            &&& violation(request) == Some(Violation::MaxTokens) <==> !long && !hot && !wide
                && wordy
        }),
{
    lemma_total_length(request.messages@);
    lemma_no_fault(request.messages@, 0);
}

/// Where a request does not name a setting, it is the default, if that is within the limits.
pub proof fn law_defaults_are_used(request: ChatRequest, defaults: GenerationDefaults)
    ensures
        request.max_tokens is None && 1 <= defaults.max_tokens <= 4096 ==> settings_of(
            request,
            defaults,
        ).max_tokens == defaults.max_tokens,
        request.top_k is None && 1 <= defaults.top_k <= 200 ==> settings_of(
            request,
            defaults,
        ).top_k == defaults.top_k,
        request.temperature is None && (defaults.temperature.bits <= 0x4000_0000_0000_0000
            || defaults.temperature.bits == 0x8000_0000_0000_0000) ==> settings_of(
            request,
            defaults,
        ).temperature == defaults.temperature,
{
}

/// A request's own setting is used whatever the default is, and a setting that is not
/// within the limits becomes the nearest one that is. Settings do not depend on each other.
pub proof fn law_settings_are_the_nearest(
    request: ChatRequest,
    defaults: GenerationDefaults,
    top_k: usize,
    max_tokens: usize,
)
    requires
        1 <= top_k <= 200,
        1 <= max_tokens <= 4096,
    ensures
        ({
            let s = settings_of(request, defaults);
            let k: int = match request.top_k {
                Some(k) => k as int,
                None => defaults.top_k as int,
            };
            let n: int = match request.max_tokens {
                Some(n) => n as int,
                None => defaults.max_tokens as int,
            };
            let t: u64 = match request.temperature {
                Some(t) => t.bits,
                None => defaults.temperature.bits,
            };
            &&& 1 <= s.top_k <= 200
            &&& (if s.top_k < k { k - s.top_k } else { s.top_k - k }) <= (if top_k < k {
                k - top_k
            } else {
                top_k - k
            })
            &&& 1 <= s.max_tokens <= 4096
            &&& (if s.max_tokens < n { n - s.max_tokens } else { s.max_tokens - n }) <= (
            if max_tokens < n {
                n - max_tokens
            } else {
                max_tokens - n
            })
            &&& 0x8000_0000_0000_0000 < t <= 0xfff0_0000_0000_0000 ==> s.temperature.bits == 0
            &&& 0x4000_0000_0000_0000 < t <= 0x7ff0_0000_0000_0000 ==> s.temperature.bits
                == 0x4000_0000_0000_0000
            &&& t <= 0x4000_0000_0000_0000 || t == 0x8000_0000_0000_0000 || (
            0x7ff0_0000_0000_0000 < t < 0x8000_0000_0000_0000) || 0xfff0_0000_0000_0000 < t
                ==> s.temperature.bits == t
        }),
{
}

/// The text of a refusal names the rule, the limit, and the place of the message.
pub proof fn law_complaints_name_the_rule(i: usize)
    ensures
        complaint(Violation::NoMessages) == "At least one message is required"@,
        complaint(Violation::TooManyMessages) == "Too many messages. Maximum "@ + decimal(500)
            + " messages allowed per request"@,
        complaint(Violation::Message(i, Fault::Empty)) == "Message "@ + decimal(i as nat)
            + " has empty content"@,
        complaint(Violation::Message(i, Fault::TooLong)) == "Message "@ + decimal(i as nat)
            + " is too long. Maximum "@ + decimal(8000) + " characters allowed per message"@,
        complaint(Violation::Message(i, Fault::Role)) == "Message "@ + decimal(i as nat)
            + " has invalid role. Must be 'user', 'assistant', or 'system'"@,
        complaint(Violation::TotalLength) == "Total conversation is too long. Maximum "@ + decimal(
            32000,
        ) + " characters allowed"@,
        complaint(Violation::Temperature) == "Temperature must be between 0 and 2"@,
        complaint(Violation::TopK) == "top_k must be between "@ + decimal(1) + " and "@ + decimal(
            200,
        ),
        complaint(Violation::MaxTokens) == "max_tokens must be between "@ + decimal(1) + " and "@
            + decimal(4096),
{
}

/// A number is moved to the nearest one in a range, and stays where it is in the range.
pub proof fn law_clamped_is_the_nearest(value: usize, min: usize, max: usize, other: usize)
    requires
        min <= other <= max,
    ensures
        min <= clamped(value, min, max) <= max,
        min <= value <= max ==> clamped(value, min, max) == value,
        value < min ==> clamped(value, min, max) <= other,
        value > max ==> clamped(value, min, max) >= other,
{
}

/// A request that breaks no rule is accepted, and any other is refused with the text that
/// names the first rule that it breaks.
pub proof fn law_verdicts(request: ChatRequest, v: Violation)
    ensures
        violation(request) is None <==> verdict(request) is None,
        violation(request) == Some(v) ==> verdict(request) == Some(complaint(v)),
{
}

} // verus!
