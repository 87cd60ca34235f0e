use zero_tokenizer::bbpe::BBPETokenizer;
use zero_tokenizer::pattern::{pre_tokenize, try_pre_tokenize};

use zero_tokenizer::bpe::Tokenizer;

#[test]
fn test_bpe_custom_pattern_word_only() {
    let pattern = r"\w+".to_string();
    let mut tokenizer = Tokenizer::with_pattern(pattern).unwrap();

    let text = "Hello, world!";
    tokenizer.train(vec![text.to_string()], 300).unwrap();

    let tokens = tokenizer.encode(text).unwrap();
    assert!(!tokens.is_empty());

    let decoded = tokenizer.decode(&tokens).unwrap();
    assert!(!decoded.is_empty());
}

#[test]
fn test_bbpe_custom_pattern_chinese() {
    let pattern = r"[\u4e00-\u9fa5]+".to_string();
    let mut tokenizer = BBPETokenizer::with_pattern(pattern).unwrap();

    let text = "你好世界Hello";
    tokenizer.train(vec![text.to_string()], 300).unwrap();

    let tokens = tokenizer.encode(text).unwrap();
    assert!(!tokens.is_empty());

    let decoded = tokenizer.decode(&tokens).unwrap();
    assert!(!decoded.is_empty());
}

#[test]
fn test_bbpe_custom_pattern_digits() {
    let pattern = r"\d+".to_string();
    let mut tokenizer = BBPETokenizer::with_pattern(pattern).unwrap();

    let text = "123 456 789";
    tokenizer.train(vec![text.to_string()], 300).unwrap();

    let tokens = tokenizer.encode(text).unwrap();
    assert!(!tokens.is_empty());
}

#[test]
fn test_bbpe_custom_pattern_alphanumeric() {
    let pattern = r"[a-zA-Z0-9]+".to_string();
    let mut tokenizer = BBPETokenizer::with_pattern(pattern).unwrap();

    let text = "Test123 Hello456";
    tokenizer.train(vec![text.to_string()], 300).unwrap();

    let tokens = tokenizer.encode(text).unwrap();
    let decoded = tokenizer.decode(&tokens).unwrap();

    assert!(!decoded.is_empty());
}

#[test]
fn test_bpe_invalid_regex_pattern() {
    let pattern = "[invalid(".to_string();
    let result = Tokenizer::with_pattern(pattern);
    assert!(result.is_err());
}

#[test]
fn test_bbpe_invalid_regex_pattern() {
    let pattern = "[unclosed(".to_string();
    let result = BBPETokenizer::with_pattern(pattern);
    assert!(result.is_err());
}

#[test]
fn test_bbpe_empty_pattern() {
    let pattern = "".to_string();
    let result = BBPETokenizer::with_pattern(pattern);

    match result {
        Ok(_) => {}
        Err(_) => {}
    }
}

#[test]
fn test_bbpe_whitespace_pattern() {
    let pattern = r"\s+".to_string();
    let mut tokenizer = BBPETokenizer::with_pattern(pattern).unwrap();

    let text = "   \t\n  ";
    tokenizer.train(vec![text.to_string()], 300).unwrap();

    let tokens = tokenizer.encode(text).unwrap();
    assert!(!tokens.is_empty());
}

#[test]
fn test_bbpe_mixed_pattern() {
    let pattern = r"\w+|\d+".to_string();
    let mut tokenizer = BBPETokenizer::with_pattern(pattern).unwrap();

    let text = "Hello 123 World 456";
    tokenizer.train(vec![text.to_string()], 300).unwrap();

    let tokens = tokenizer.encode(text).unwrap();
    assert!(!tokens.is_empty());
}

#[test]
fn test_bbpe_pattern_with_unicode() {
    let pattern = r"[\p{L}\p{N}]+".to_string();

    match BBPETokenizer::with_pattern(pattern) {
        Ok(mut tokenizer) => {
            let text = "Hello你好123";
            tokenizer.train(vec![text.to_string()], 300).unwrap();

            let tokens = tokenizer.encode(text).unwrap();
            assert!(!tokens.is_empty());
        }
        Err(_) => {
        }
    }
}

#[test]
fn test_bbpe_default_pattern() {
    let tokenizer1 = BBPETokenizer::new_internal().unwrap();
    let tokenizer2 = BBPETokenizer::new_internal().unwrap();

    let text = "Hello, world! 你好世界！123";

    let tokens1 = tokenizer1.encode(text).unwrap();
    let tokens2 = tokenizer2.encode(text).unwrap();

    assert_eq!(tokens1, tokens2);
}

#[test]
fn test_pattern_persistence() {
    let pattern = r"\w+".to_string();
    let mut tokenizer = BBPETokenizer::with_pattern(pattern.clone()).unwrap();

    tokenizer.train(vec!["test".to_string()], 300).unwrap();

    let text = "Hello World";
    let tokens = tokenizer.encode(text).unwrap();
    assert!(!tokens.is_empty());
}

#[test]
fn pre_tokens_hold_no_more_characters_than_the_text() {
    let pattern = zero_tokenizer::tokenizer_base::compile_pattern("\\w+".to_string()).unwrap();
    let text = "one, two;  three";
    let tokens = pre_tokenize(&pattern, text);
    assert_eq!(tokens, vec!["one", "two", "three"]);
    let total: usize = tokens.iter().map(|t| t.chars().count()).sum();
    assert!(total <= text.chars().count());
    assert_eq!(try_pre_tokenize(&pattern, text), Some(tokens));
    assert_eq!(try_pre_tokenize(&pattern, ""), Some(Vec::new()));
}
