use nanochat_rs::chat::{
    clamp_usize, settings, validate_chat_request, ApiError, ChatMessage, ChatRequest,
    GenerationDefaults, MAX_MESSAGES_PER_REQUEST, MAX_MESSAGE_LENGTH,
};
use nanochat_rs::temperature::{clamp_f64, Temperature};
use nanochat_rs::worker::{role_boundaries, ConversationError};

fn temperature(value: f64) -> Temperature {
    Temperature::from_bits(value.to_bits())
}

fn message(role: &str, content: &str) -> ChatMessage {
    ChatMessage {
        role: role.to_string(),
        content: content.to_string(),
    }
}

fn request(messages: Vec<ChatMessage>) -> ChatRequest {
    ChatRequest {
        messages,
        temperature: None,
        max_tokens: None,
        top_k: None,
    }
}

fn complaint(request: &ChatRequest) -> String {
    match validate_chat_request(request) {
        Err(ApiError::Validation(msg)) => msg,
        Err(ApiError::Internal(_)) => "internal".to_string(),
        Ok(()) => "accepted".to_string(),
    }
}

#[test]
fn role_boundaries_accepts_system_as_user_delimiters() {
    let user_start = 10u32;
    let user_end = 11u32;
    let assistant_start = 20u32;
    let assistant_end = 21u32;

    let got = role_boundaries(
        "system",
        user_start,
        user_end,
        assistant_start,
        assistant_end,
    )
    .expect("system should be encodable");

    assert_eq!(got, (user_start, user_end));
}

#[test]
fn role_boundaries_of_the_other_roles() {
    assert_eq!(role_boundaries("user", 10, 11, 20, 21).unwrap(), (10, 11));
    assert_eq!(
        role_boundaries("assistant", 10, 11, 20, 21).unwrap(),
        (20, 21)
    );
    match role_boundaries("tool", 10, 11, 20, 21) {
        Err(e) => {
            assert!(matches!(e, ConversationError::UnsupportedRole(_)));
            assert_eq!(e.message(), "Unsupported role during encoding: tool");
        }
        Ok(_) => panic!("tool has no marks"),
    }
}

#[test]
fn validate_chat_request_accepts_system_role() {
    let req = ChatRequest {
        messages: vec![message("system", "be concise"), message("user", "hello")],
        temperature: Some(temperature(0.8)),
        max_tokens: Some(64),
        top_k: Some(50),
    };

    validate_chat_request(&req).expect("system role should pass request validation");
}

#[test]
fn validate_chat_request_rejects_too_many_messages() {
    let messages = (0..=MAX_MESSAGES_PER_REQUEST)
        .map(|_| message("user", "hello"))
        .collect();
    let req = request(messages);

    let err = validate_chat_request(&req).expect_err("should reject message overflow");
    let msg = match err {
        ApiError::Validation(msg) => msg,
        ApiError::Internal(_) => "internal".to_string(),
    };
    assert!(msg.contains("Too many messages"));
    assert_eq!(
        msg,
        "Too many messages. Maximum 500 messages allowed per request"
    );
}

#[test]
fn validate_chat_request_rejects_overlong_message() {
    let content = "a".repeat(MAX_MESSAGE_LENGTH + 1);
    let req = request(vec![message("user", &content)]);

    let err = validate_chat_request(&req).expect_err("should reject long message");
    let msg = match err {
        ApiError::Validation(msg) => msg,
        ApiError::Internal(_) => "internal".to_string(),
    };
    assert!(msg.contains("too long"));
    assert_eq!(
        msg,
        "Message 0 is too long. Maximum 8000 characters allowed per message"
    );
}

#[test]
fn a_request_at_all_limits_is_accepted() {
    let mut messages: Vec<ChatMessage> = Vec::new();
    for _ in 0..4 {
        messages.push(message("user", &"é".repeat(8_000)));
    }
    let mut req = request(messages);
    req.temperature = Some(temperature(2.0));
    req.top_k = Some(200);
    req.max_tokens = Some(4096);
    assert_eq!(complaint(&req), "accepted");
    req.temperature = Some(temperature(-0.0));
    req.top_k = Some(1);
    req.max_tokens = Some(1);
    assert_eq!(complaint(&req), "accepted");
    let many = (0..500).map(|_| message("assistant", "x")).collect();
    assert_eq!(complaint(&request(many)), "accepted");
}

#[test]
fn each_rule_has_its_complaint() {
    assert_eq!(
        complaint(&request(vec![])),
        "At least one message is required"
    );
    assert_eq!(
        complaint(&request(vec![message("user", "hi"), message("user", " \t\n\u{3000}")])),
        "Message 1 has empty content"
    );
    assert_eq!(
        complaint(&request(vec![message("user", "hi"), message("User", "hi")])),
        "Message 1 has invalid role. Must be 'user', 'assistant', or 'system'"
    );
    let mut messages: Vec<ChatMessage> = Vec::new();
    for _ in 0..5 {
        messages.push(message("user", &"a".repeat(8_000)));
    }
    assert_eq!(
        complaint(&request(messages)),
        "Total conversation is too long. Maximum 32000 characters allowed"
    );
    let mut req = request(vec![message("user", "hi")]);
    for value in [-0.5, 2.0000000000000004, f64::NAN, f64::INFINITY, f64::NEG_INFINITY] {
        req.temperature = Some(temperature(value));
        assert_eq!(complaint(&req), "Temperature must be between 0 and 2");
    }
    req.temperature = None;
    req.top_k = Some(0);
    assert_eq!(complaint(&req), "top_k must be between 1 and 200");
    req.top_k = Some(201);
    assert_eq!(complaint(&req), "top_k must be between 1 and 200");
    req.top_k = None;
    req.max_tokens = Some(0);
    assert_eq!(complaint(&req), "max_tokens must be between 1 and 4096");
    req.max_tokens = Some(4097);
    assert_eq!(complaint(&req), "max_tokens must be between 1 and 4096");
}

#[test]
fn the_first_broken_rule_counts() {
    let mut req = request(vec![message("nobody", ""), message("nobody", "x")]);
    req.top_k = Some(0);
    assert_eq!(complaint(&req), "Message 0 has empty content");
}

#[test]
fn errors_are_answered() {
    let refused = ApiError::validation("no".to_string());
    assert_eq!(refused.response(), (400, "no".to_string()));
    let broken = ApiError::Internal("secret".to_string());
    assert_eq!(broken.response(), (500, "internal server error".to_string()));
}

#[test]
fn settings_come_from_the_request_and_then_the_defaults() {
    let defaults = GenerationDefaults {
        temperature: temperature(5.0),
        top_k: 1000,
        max_tokens: 0,
        seed: Some(3),
    };
    let mut req = request(vec![message("user", "hi")]);
    let s = settings(&req, &defaults);
    assert_eq!(s.temperature, temperature(2.0));
    assert_eq!(s.top_k, 200);
    assert_eq!(s.max_tokens, 1);
    req.temperature = Some(temperature(0.25));
    req.top_k = Some(7);
    req.max_tokens = Some(99);
    let s = settings(&req, &defaults);
    assert_eq!(s.temperature, temperature(0.25));
    assert_eq!(s.top_k, 7);
    assert_eq!(s.max_tokens, 99);
}

#[test]
fn clamping_numbers() {
    assert_eq!(clamp_usize(0, 1, 200), 1);
    assert_eq!(clamp_usize(77, 1, 200), 77);
    assert_eq!(clamp_usize(201, 1, 200), 200);
    let (low, high) = (temperature(0.0), temperature(2.0));
    for value in [
        -1.0,
        -0.0,
        0.0,
        1e-300,
        0.8,
        2.0,
        2.5,
        f64::INFINITY,
        f64::NEG_INFINITY,
    ] {
        let got = clamp_f64(temperature(value), low, high);
        assert_eq!(got, temperature(value.clamp(0.0, 2.0)));
    }
    let nan = temperature(f64::NAN);
    assert_eq!(clamp_f64(nan, low, high), nan);
}

#[test]
fn temperatures_are_ordered_as_numbers() {
    let values = [
        f64::NEG_INFINITY,
        -2.5,
        -1e-310,
        -0.0,
        0.0,
        1e-310,
        0.5,
        2.0,
        1e300,
        f64::INFINITY,
        f64::NAN,
        -f64::NAN,
    ];
    for a in values {
        assert_eq!(temperature(a).is_nan(), a.is_nan());
        assert_eq!(temperature(a).is_zero(), a == 0.0);
        for b in values {
            assert_eq!(temperature(a).below(temperature(b)), a < b);
            assert_eq!(
                temperature(1.0).is_between(temperature(a), temperature(b)),
                (a..=b).contains(&1.0)
            );
        }
    }
}
