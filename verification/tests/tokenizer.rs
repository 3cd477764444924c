use nanochat_rs::tokenizer::pattern::is_plain;
use nanochat_rs::tokenizer::{TiktokenEncoding, Tokenizer, TokenizerError};

const PATTERN: &str = r" ?\p{L}+| ?\p{N}+| ?[^\s\p{L}\p{N}]+|\s+(?!\S)|\s+";

fn encoding_with(pat_str: &str, special_tokens: Vec<(&str, u32)>) -> TiktokenEncoding {
    let mut mergeable_ranks: Vec<(Vec<u8>, u32)> = Vec::new();
    for byte in 0..256u32 {
        mergeable_ranks.push((vec![byte as u8], byte));
    }
    mergeable_ranks.push((b"he".to_vec(), 256));
    mergeable_ranks.push((b"ll".to_vec(), 257));
    mergeable_ranks.push((b"hell".to_vec(), 258));
    mergeable_ranks.push((b"hello".to_vec(), 259));
    mergeable_ranks.push((b"aa".to_vec(), 260));
    TiktokenEncoding {
        name: "bytes".to_string(),
        pat_str: pat_str.to_string(),
        mergeable_ranks,
        special_tokens: special_tokens
            .into_iter()
            .map(|(name, rank)| (name.to_string(), rank))
            .collect(),
    }
}

fn encoding() -> TiktokenEncoding {
    encoding_with(
        PATTERN,
        vec![
            ("<|bos|>", 1000),
            ("<|user_start|>", 1001),
            ("<|user_end|>", 1002),
            ("<|assistant_start|>", 1003),
            ("<|assistant_end|>", 1004),
        ],
    )
}

fn tokenizer() -> Tokenizer {
    Tokenizer::from_encoding(encoding()).unwrap()
}

#[test]
fn test_tokenizer_creation() {
    let tokenizer = tokenizer();
    assert!(!tokenizer.name().is_empty());
    assert!(tokenizer.vocab_size() > 0);
    assert_eq!(tokenizer.name(), "bytes");
    assert_eq!(tokenizer.vocab_size(), 266);
}

#[test]
fn test_basic_encoding() {
    let tokenizer = tokenizer();
    let text = "Hello, world!";
    let tokens = tokenizer.encode(text).unwrap();
    assert!(!tokens.is_empty(), "Tokens should not be empty");
}

#[test]
fn test_empty_string() {
    let tokenizer = tokenizer();
    let tokens = tokenizer.encode("").unwrap();
    assert_eq!(tokens.len(), 0, "Empty string should produce no tokens");
}

#[test]
fn test_encode_decode_roundtrip() {
    let tokenizer = tokenizer();
    let texts = vec![
        "Hello, world!",
        "The quick brown fox jumps over the lazy dog.",
        "Testing 123",
        "Unicode: 你好世界 🌍",
        "Code: fn main() { println!(\"Hello\"); }",
    ];
    for text in texts {
        let tokens = tokenizer.encode(text).unwrap();
        let decoded = tokenizer.decode(&tokens).unwrap();
        assert_eq!(
            text, decoded,
            "Round-trip encoding/decoding should preserve text"
        );
    }
}

#[test]
fn test_single_byte() {
    let tokenizer = tokenizer();
    let text = "a";
    let tokens = tokenizer.encode(text).unwrap();
    assert_eq!(tokens.len(), 1, "Single character should be one token");
    let decoded = tokenizer.decode(&tokens).unwrap();
    assert_eq!(text, decoded);
}

#[test]
fn test_decode_with_unknown_token() {
    let tokenizer = tokenizer();
    let tokens = vec![999999];
    let decoded = tokenizer.decode(&tokens).unwrap();
    assert_eq!(decoded, "");
}

#[test]
fn test_multi_line_text() {
    let tokenizer = tokenizer();
    let text = "Line 1\nLine 2\nLine 3";
    let tokens = tokenizer.encode(text).unwrap();
    let decoded = tokenizer.decode(&tokens).unwrap();
    assert_eq!(text, decoded, "Multi-line text should round-trip correctly");
}

#[test]
fn test_numbers_and_symbols() {
    let tokenizer = tokenizer();
    let text = "123 + 456 = 579! @#$%^&*()";
    let tokens = tokenizer.encode(text).unwrap();
    let decoded = tokenizer.decode(&tokens).unwrap();
    assert_eq!(
        text, decoded,
        "Numbers and symbols should round-trip correctly"
    );
}

#[test]
fn merges_go_by_rank() {
    let tokenizer = tokenizer();
    assert_eq!(tokenizer.encode("hello").unwrap(), vec![259]);
    assert_eq!(tokenizer.encode("hell").unwrap(), vec![258]);
    assert_eq!(tokenizer.encode("hel").unwrap(), vec![256, 108]);
    assert_eq!(tokenizer.encode("ell").unwrap(), vec![101, 257]);
    assert_eq!(
        tokenizer.encode("hello hello").unwrap(),
        vec![259, 32, 259]
    );
}

#[test]
fn equal_ranks_merge_from_the_left() {
    let tokenizer = tokenizer();
    assert_eq!(tokenizer.encode("aaa").unwrap(), vec![260, 97]);
    assert_eq!(tokenizer.encode("aaaa").unwrap(), vec![260, 260]);
}

#[test]
fn merging_again_changes_nothing() {
    let tokenizer = tokenizer();
    let tokens = tokenizer.encode("hellollaaa").unwrap();
    let text = tokenizer.decode(&tokens).unwrap();
    assert_eq!(tokenizer.encode(&text).unwrap(), tokens);
}

#[test]
fn single_bytes_stand_for_themselves() {
    let encoding = TiktokenEncoding {
        name: "few".to_string(),
        pat_str: ".+".to_string(),
        mergeable_ranks: vec![(b"a".to_vec(), 7)],
        special_tokens: vec![],
    };
    let tokenizer = Tokenizer::from_encoding(encoding).unwrap();
    assert_eq!(tokenizer.encode("ab").unwrap(), vec![97, 98]);
}

#[test]
fn special_tokens_are_taken_whole() {
    let tokenizer = tokenizer();
    assert_eq!(tokenizer.encode("<|bos|>hello").unwrap(), vec![1000, 259]);
    assert_eq!(
        tokenizer.encode("<|bos|><|user_start|>").unwrap(),
        vec![1000, 1001]
    );
    assert_eq!(tokenizer.encode_special("<|user_end|>").unwrap(), 1002);
    let none: Vec<&str> = vec![];
    assert_eq!(
        tokenizer
            .encode_with_special_tokens("<|bos|>", &none)
            .unwrap(),
        vec![60, 124, 98, 111, 115, 124, 62]
    );
    assert_eq!(
        tokenizer
            .encode_with_special_tokens("<|bos|><|user_end|>", &vec!["<|user_end|>"])
            .unwrap(),
        vec![60, 124, 98, 111, 115, 124, 62, 60, 124, 117, 115, 101, 114, 95, 101, 110, 100, 124, 62]
    );
}

#[test]
fn special_token_at_the_start_of_the_rest_is_found() {
    let tokenizer = tokenizer();
    assert_eq!(
        tokenizer
            .encode_with_special_tokens("<|user_end|>hell", &vec!["<|user_end|>"])
            .unwrap(),
        vec![1002, 258]
    );
    assert_eq!(
        tokenizer
            .try_encode_with_special_tokens("hell<|user_end|>", &vec!["<|user_end|>"])
            .unwrap(),
        vec![258, 1002]
    );
}

#[test]
fn unknown_special_token_is_an_error() {
    let tokenizer = tokenizer();
    assert!(matches!(
        tokenizer.encode_special("<|nothing|>"),
        Err(TokenizerError::SpecialTokenNotFound)
    ));
}

#[test]
fn bad_pattern_is_an_error() {
    let result = Tokenizer::from_encoding(encoding_with("(", vec![]));
    assert!(matches!(result, Err(TokenizerError::Pattern(_))));
}

#[test]
fn plain_patterns() {
    for pattern in [
        PATTERN,
        "",
        r"'(?i:[sdmt]|ll|ve|re)|[^\r\n\p{L}\p{N}]?+\p{L}+|\p{N}{1,2}|\s+(?!\S)|\s+",
        r"(?:a ?(b)|[0-9]\u4e00-\u9fff){0,99}",
        r"\\1|\\k|\\g",
        r"a?(b)",
        r"(?#two)b{1,2}",
    ] {
        assert!(is_plain(pattern), "{pattern}");
    }
    for pattern in [
        r"(a)\1",
        r"(?<n>a)\k<n>",
        "(?P<n>a)(?P=n)",
        "(a)(?(1)b|c)",
        "(?x)(a)( ?(1)b|c)",
        "(?:a){100000000}",
        "(?:(?:a{999}){999}){999}",
        "(?x)(?:a){ #\n100000000}",
        "((?#)?(18446744073709551615)a|b)",
        r"\g<-9223372036854775808>",
        "(?:a{(?#)4294967296}){(?#)4294967296}",
        "((?=a)){(?#)999999999999999999}",
        r"\p\\k<18446744073709551615>",
        r"\\\1",
    ] {
        assert!(!is_plain(pattern), "{pattern}");
    }
}

#[test]
fn bytes_of_neighbouring_tokens_are_decoded_together() {
    let tokenizer = tokenizer();
    assert_eq!(tokenizer.decode(&[0xC3, 0xA9]).unwrap(), "é");
    assert_eq!(tokenizer.decode(&[0xC3]).unwrap(), "\u{FFFD}");
    assert_eq!(
        tokenizer.decode(&[0xC3, 1000, 0xA9]).unwrap(),
        "\u{FFFD}<|bos|>\u{FFFD}"
    );
    assert_eq!(tokenizer.decode(&[0xC3, 999999, 0xA9]).unwrap(), "é");
    assert_eq!(tokenizer.decode(&[1000, 259]).unwrap(), "<|bos|>hello");
}

#[test]
fn text_that_the_pattern_skips_is_left_out() {
    let tokenizer = Tokenizer::from_encoding(encoding_with("b+", vec![])).unwrap();
    assert_eq!(tokenizer.encode("abbc").unwrap(), vec![98, 98]);
    assert_eq!(tokenizer.encode("xyz").unwrap(), Vec::<u32>::new());
}

#[test]
fn endless_encoding_is_reported() {
    let tokenizer = Tokenizer::from_encoding(encoding_with("x*", vec![])).unwrap();
    assert!(tokenizer.try_encode("abc").is_none());
    assert_eq!(tokenizer.try_encode("xx").unwrap(), vec![120, 120]);
    let empty = Tokenizer::from_encoding(encoding_with(PATTERN, vec![("", 5)])).unwrap();
    assert!(empty.try_encode("abc").is_none());
    assert!(empty.try_encode("").is_some());
}

#[test]
fn later_pairs_replace_earlier_ones() {
    let mut encoding = encoding();
    encoding.mergeable_ranks.push((b"aa".to_vec(), 500));
    let tokenizer = Tokenizer::from_encoding(encoding).unwrap();
    assert_eq!(tokenizer.encode("aa").unwrap(), vec![500]);
    assert_eq!(tokenizer.vocab_size(), 266);
}

#[test]
fn stored_tokenizers_are_pickles() {
    assert!(TiktokenEncoding::is_stored_as("pkl"));
    assert!(!TiktokenEncoding::is_stored_as("PKL"));
    assert!(!TiktokenEncoding::is_stored_as("json"));
}

#[test]
fn order_of_special_tokens_does_not_matter() {
    let specials = vec![("<|a|>", 1000), ("<|b|>", 1001)];
    let turned = vec![("<|b|>", 1001), ("<|a|>", 1000)];
    let one = Tokenizer::from_encoding(encoding_with(PATTERN, specials)).unwrap();
    let two = Tokenizer::from_encoding(encoding_with(PATTERN, turned)).unwrap();
    let text = "hello<|b|> <|a|>";
    assert_eq!(one.encode(text).unwrap(), two.encode(text).unwrap());
    assert_eq!(
        one.encode_with_special_tokens(text, &vec!["<|a|>", "<|b|>"])
            .unwrap(),
        one.encode_with_special_tokens(text, &vec!["<|b|>", "<|a|>"])
            .unwrap()
    );
}
