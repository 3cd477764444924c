use nanochat_rs::chat::{validate_chat_request, ChatMessage, ChatRequest, GenerationDefaults};
use nanochat_rs::engine::{Generator, Prefill, SamplingParams};
use nanochat_rs::model::gpt::GPTConfig;
use nanochat_rs::pool::{WorkerPool, WorkerSummary};
use nanochat_rs::reply::Reply;
use nanochat_rs::session::{classify, command, Command, Session};
use nanochat_rs::source::{parse_source, ModelSource, SourceError};
use nanochat_rs::stream::{prepare, sampling_for};
use nanochat_rs::temperature::Temperature;
use nanochat_rs::tokenizer::{TiktokenEncoding, Tokenizer, TokenizerError};
use nanochat_rs::worker::{ConversationError, Marks, Worker};

fn tokenizer(pat_str: &str, with_marks: bool) -> Tokenizer {
    let mut mergeable_ranks: Vec<(Vec<u8>, u32)> = Vec::new();
    for byte in 0..256u32 {
        mergeable_ranks.push((vec![byte as u8], byte));
    }
    mergeable_ranks.push((b"hi".to_vec(), 256));
    let mut special_tokens: Vec<(String, u32)> = Vec::new();
    special_tokens.push(("<|bos|>".to_string(), 1000));
    special_tokens.push(("<|user_start|>".to_string(), 1001));
    special_tokens.push(("<|user_end|>".to_string(), 1002));
    special_tokens.push(("<|assistant_start|>".to_string(), 1003));
    if with_marks {
        special_tokens.push(("<|assistant_end|>".to_string(), 1004));
    }
    Tokenizer::from_encoding(TiktokenEncoding {
        name: "bytes".to_string(),
        pat_str: pat_str.to_string(),
        mergeable_ranks,
        special_tokens,
    })
    .unwrap()
}

fn worker() -> Worker {
    match Worker::new(3, "Cpu".to_string(), tokenizer(r"\w+|\W+", true)) {
        Ok(worker) => worker,
        Err(_) => panic!("the tokenizer has all marks"),
    }
}

fn message(role: &str, content: &str) -> ChatMessage {
    ChatMessage {
        role: role.to_string(),
        content: content.to_string(),
    }
}

#[test]
fn a_worker_needs_all_marks() {
    let worker = worker();
    assert_eq!(worker.id, 3);
    assert_eq!(worker.device, "Cpu");
    assert_eq!(
        worker.marks,
        Marks {
            bos: 1000,
            user_start: 1001,
            user_end: 1002,
            assistant_start: 1003,
            assistant_end: 1004,
        }
    );
    let without = Worker::new(0, "Cpu".to_string(), tokenizer(".+", false));
    assert!(matches!(without, Err(TokenizerError::SpecialTokenNotFound)));
}

#[test]
fn a_conversation_is_laid_out_between_marks() {
    let messages = vec![
        message("system", "hi"),
        message("user", "a"),
        message("assistant", "b"),
    ];
    let tokens = worker().try_build_conversation(&messages).unwrap();
    assert_eq!(
        tokens,
        vec![1000, 1001, 256, 1002, 1001, 97, 1002, 1003, 98, 1004, 1003]
    );
    assert_eq!(worker().build_conversation(&messages).unwrap(), tokens);
    assert_eq!(
        worker().try_build_conversation(&vec![]).unwrap(),
        vec![1000, 1003]
    );
}

#[test]
fn system_messages_are_laid_out_as_user_messages() {
    let system = vec![message("system", "hi"), message("assistant", "b")];
    let user = vec![message("user", "hi"), message("assistant", "b")];
    let tokens = worker().try_build_conversation(&system).unwrap();
    assert_eq!(tokens, worker().try_build_conversation(&user).unwrap());
    assert_eq!(tokens.len(), 1 + 2 * 2 + 2 + 1);
    assert_eq!(tokens[0], 1000);
}

#[test]
fn accepted_requests_have_conversations() {
    let request = ChatRequest {
        messages: vec![
            message("system", "hi"),
            message("user", "a"),
            message("assistant", "b"),
        ],
        temperature: None,
        max_tokens: None,
        top_k: None,
    };
    assert!(validate_chat_request(&request).is_ok());
    assert!(worker().try_build_conversation(&request.messages).is_ok());
}

#[test]
fn a_conversation_with_an_unknown_role_is_refused() {
    let messages = vec![message("user", "a"), message("tool", "b")];
    match worker().try_build_conversation(&messages) {
        Err(ConversationError::UnsupportedRole(role)) => assert_eq!(role, "tool"),
        _ => panic!("tool has no marks"),
    }
}

#[test]
fn a_message_without_end_is_refused() {
    let endless = match Worker::new(0, "Cpu".to_string(), tokenizer("x*", true)) {
        Ok(worker) => worker,
        Err(_) => panic!("the tokenizer has all marks"),
    };
    let messages = vec![message("user", "xx"), message("user", "abc")];
    match endless.try_build_conversation(&messages) {
        Err(e) => {
            assert!(matches!(e, ConversationError::Endless(1)));
            assert_eq!(e.message(), "Encoding of message 1 does not come to an end");
        }
        Ok(_) => panic!("the pattern matches nothing"),
    }
}

#[test]
fn only_text_is_sent() {
    let worker = worker();
    assert_eq!(worker.emitted_text(256), Some("hi".to_string()));
    assert_eq!(
        worker.emitted_text(1004),
        Some("<|assistant_end|>".to_string())
    );
    assert_eq!(worker.emitted_text(5000), None);
}

#[test]
fn a_request_is_prepared() {
    let defaults = GenerationDefaults {
        temperature: Temperature::from_bits(0.8f64.to_bits()),
        top_k: 50,
        max_tokens: 512,
        seed: Some(9),
    };
    let request = ChatRequest {
        messages: vec![message("user", "hi")],
        temperature: None,
        max_tokens: Some(20),
        top_k: None,
    };
    let prepared = match prepare(&worker(), &request, &defaults) {
        Ok(prepared) => prepared,
        Err(_) => panic!("the request is in order"),
    };
    assert_eq!(prepared.conversation, vec![1000, 1001, 256, 1002, 1003]);
    assert_eq!(prepared.max_tokens, 20);
    assert_eq!(prepared.sampling.top_k(), Some(50));
    assert_eq!(prepared.sampling.temperature().bits, 0.8f64.to_bits());
}

fn marks() -> Marks {
    worker().marks
}

fn generator(samples: usize, sequence_len: usize) -> Generator {
    let config = GPTConfig {
        vocab_size: 8,
        n_embd: 4,
        n_layer: 1,
        n_head: 1,
        n_kv_head: 1,
        sequence_len,
    };
    let prefill = Prefill::new(
        &config,
        &vec![1000, 1003],
        samples,
        &candle_core::Device::Cpu,
        candle_core::DType::F32,
    )
    .unwrap();
    let params = sampling_for(&marks(), Temperature::from_bits(0), 5, Some(1));
    Generator::new(prefill, &params, 60).unwrap()
}

#[test]
fn a_reply_has_no_more_tokens_than_allowed() {
    let mut generator = generator(1, 100);
    let mut reply = Reply::start(generator.current_tokens()[0], 3, 1004);
    assert!(reply.wants_more());
    assert_eq!(reply.take_step(&mut generator, &vec![61]), Some(61));
    assert!(reply.wants_more());
    assert_eq!(reply.take_step(&mut generator, &vec![62]), Some(62));
    assert!(!reply.wants_more());
    assert_eq!(reply.as_slice(), &[60, 61, 62]);
    assert_eq!(reply.into_turn(), vec![60, 61, 62, 1004]);
}

#[test]
fn a_reply_always_has_its_first_token() {
    let reply = Reply::start(60, 0, 1004);
    assert!(!reply.wants_more());
    assert_eq!(reply.as_slice(), &[60]);
    let one = Reply::start(60, 1, 1004);
    assert!(!one.wants_more());
}

#[test]
fn a_reply_ends_with_the_assistant() {
    let reply = Reply::start(1004, 10, 1004);
    assert!(!reply.wants_more());
    assert_eq!(reply.into_turn(), vec![1004]);
}

#[test]
fn a_stop_token_is_not_part_of_the_reply() {
    let mut generator = generator(1, 100);
    let mut reply = Reply::start(60, 10, 1004);
    assert_eq!(reply.take_step(&mut generator, &vec![61]), Some(61));
    assert_eq!(reply.take_step(&mut generator, &vec![1000]), None);
    assert!(!reply.wants_more());
    assert_eq!(reply.into_turn(), vec![60, 61, 1004]);
    assert_eq!(generator.sequences(), vec![vec![1000, 1003, 60, 61, 1000]]);
}

#[test]
fn a_reply_ends_with_the_longest_sequence() {
    let mut generator = generator(1, 5);
    let mut reply = Reply::start(60, 10, 1004);
    assert_eq!(reply.take_step(&mut generator, &vec![61]), Some(61));
    assert_eq!(reply.take_step(&mut generator, &vec![62]), None);
    assert_eq!(reply.as_slice(), &[60, 61]);
}

#[test]
fn commands_of_a_session() {
    assert_eq!(command("QUIT"), Command::Quit);
    assert_eq!(command("exit"), Command::Quit);
    assert_eq!(command("Clear"), Command::Clear);
    assert_eq!(command(""), Command::Nothing);
    assert_eq!(command("quit now"), Command::Say);
    assert_eq!(command("ÇLEAR"), Command::Say);
    assert_eq!(classify("x", "exit"), Command::Quit);
    assert_eq!(classify("", "y"), Command::Nothing);
    assert!(Command::Quit.is_last(false));
    assert!(Command::Clear.is_last(true));
    assert!(!Command::Clear.is_last(false));
    assert!(!Command::Say.is_last(false));
}

#[test]
fn a_session_is_a_conversation() {
    let worker = worker();
    let mut session = Session::new(worker.marks);
    assert_eq!(session.conversation(), &vec![1000]);
    assert!(session.say(&worker.tokenizer, "hi"));
    assert_eq!(session.conversation(), &vec![1000, 1001, 256, 1002, 1003]);
    session.answer(Reply::start(98, 5, 1004));
    assert!(session.say(&worker.tokenizer, "a"));
    let messages = vec![
        message("user", "hi"),
        message("assistant", "b"),
        message("user", "a"),
    ];
    assert_eq!(
        session.conversation(),
        &worker.try_build_conversation(&messages).unwrap()
    );
    session.clear();
    assert_eq!(session.conversation(), &vec![1000]);
    let endless = tokenizer("x*", true);
    assert!(!session.say(&endless, "abc"));
    assert_eq!(session.conversation(), &vec![1000]);
}

#[test]
fn sources_are_parsed() {
    match parse_source("  hf: Antigma/nanochat-d32 \n") {
        Ok(ModelSource::HuggingFace(id)) => assert_eq!(id, "Antigma/nanochat-d32"),
        _ => panic!("a repository"),
    }
    match parse_source(" /models/d 20 ") {
        Ok(ModelSource::Local(path)) => assert_eq!(path, "/models/d 20"),
        _ => panic!("a directory"),
    }
    match parse_source(" \t ") {
        Err(e) => {
            assert_eq!(e, SourceError::Empty);
            assert_eq!(e.message(), "--source must not be empty");
        }
        Ok(_) => panic!("nothing"),
    }
    match parse_source("hf:  ") {
        Err(e) => {
            assert_eq!(e, SourceError::NoRepository);
            assert_eq!(
                e.message(),
                "HuggingFace source must use the form 'hf:<repo_id>'"
            );
        }
        Ok(_) => panic!("no repository"),
    }
}

#[test]
fn workers_are_served_in_turn() {
    let workers = (0..3)
        .map(|id| WorkerSummary {
            worker_id: id,
            device: format!("Cpu{}", id),
        })
        .collect();
    let mut pool = WorkerPool::new(workers);
    assert_eq!(pool.worker_summaries()[2].device, "Cpu2");
    assert!(pool.snapshot().ready());
    assert_eq!(pool.acquire(), Some(0));
    assert_eq!(pool.acquire(), Some(1));
    assert_eq!(pool.snapshot().available_workers, 1);
    assert_eq!(pool.snapshot().busy_workers(), 2);
    pool.release(0);
    assert_eq!(pool.acquire(), Some(2));
    assert_eq!(pool.acquire(), Some(0));
    assert_eq!(pool.acquire(), None);
    assert!(!pool.snapshot().ready());
    assert_eq!(pool.snapshot().busy_workers(), 3);
    let empty = WorkerPool::new(vec![]);
    assert!(!empty.snapshot().ready());
}

#[test]
fn parameters_of_sampling() {
    let params = SamplingParams::default();
    assert_eq!(params.temperature().bits, 0.0f64.to_bits());
    assert_eq!(params.top_k(), Some(50));
    assert_eq!(params.rng(), params.clone().rng());
    let other = SamplingParams::new(
        Temperature::from_bits(0),
        None,
        Some(43),
        Default::default(),
    );
    assert_ne!(params.rng(), other.rng());
    let chance = SamplingParams::new(Temperature::from_bits(0), None, None, Default::default());
    assert!(chance.rng().is_some());
    assert_ne!(chance.rng(), chance.rng());
}
