use zero_tokenizer::bbpe::BBPETokenizer;
use zero_tokenizer::bpe::Tokenizer;
use zero_tokenizer::error::{
    decoding_error, encoding_error, input_validation_error, model_load_error, model_save_error,
    training_error, vocab_error, TokenizerError,
};
use zero_tokenizer::prelude::bbpe;

#[test]
fn test_decode_invalid_token_id() {
    let tokenizer = bbpe().unwrap();

    let invalid_tokens = vec![999999];
    let result = tokenizer.decode(&invalid_tokens);

    assert!(result.is_err());
    if let Err(e) = result {
        assert!(e.contains("未找到") || e.contains("not found") || e.contains("ID"));
    }
}

#[test]
fn test_train_with_invalid_vocab_size() {
    let mut tokenizer = bbpe().unwrap();

    let result = tokenizer.train(vec!["test".to_string()], 100);
    assert!(result.is_err());

    if let Err(e) = result {
        assert!(e.contains("256") || e.contains("至少") || e.contains("vocab"));
    }
}

#[test]
fn test_train_with_empty_texts() {
    let mut tokenizer = bbpe().unwrap();

    let result = tokenizer.train(vec![], 300);

    match result {
        Ok(_) => {
            assert_eq!(tokenizer.vocab_size(), 256);
        }
        Err(_) => {}
    }
}

#[test]
fn test_encode_empty_string() {
    let tokenizer = bbpe().unwrap();
    let result = tokenizer.encode("");

    assert!(result.is_ok());
    let tokens = result.unwrap();
    assert!(tokens.is_empty());
}

#[test]
fn test_decode_empty_tokens() {
    let tokenizer = bbpe().unwrap();
    let result = tokenizer.decode(&[]);

    assert!(result.is_ok());
    let text = result.unwrap();
    assert_eq!(text, "");
}

#[test]
fn test_bpe_invalid_pattern() {
    let result = Tokenizer::with_pattern("[invalid(".to_string());
    assert!(result.is_err());

    if let Err(e) = result {
        assert!(e.contains("正则") || e.contains("regex") || e.contains("pattern"));
    }
}

#[test]
fn test_bbpe_invalid_pattern() {
    let result = BBPETokenizer::with_pattern("[unclosed(".to_string());
    assert!(result.is_err());
}

#[test]
fn test_decode_partially_invalid_tokens() {
    let mut tokenizer = bbpe().unwrap();
    tokenizer.train(vec!["test".to_string()], 300).unwrap();

    let mixed_tokens = vec![0, 1, 999999, 2];
    let result = tokenizer.decode(&mixed_tokens);

    assert!(result.is_err());
}

#[test]
fn test_train_with_single_empty_string() {
    let mut tokenizer = bbpe().unwrap();

    let result = tokenizer.train(vec!["".to_string()], 300);

    match result {
        Ok(_) => {
            assert_eq!(tokenizer.vocab_size(), 256);
        }
        Err(_) => {}
    }
}

#[test]
fn test_train_with_very_small_vocab_size() {
    let mut tokenizer = bbpe().unwrap();

    let result = tokenizer.train(vec!["test".to_string()], 1);
    assert!(result.is_err());
}

#[test]
fn test_encode_after_failed_training() {
    let mut tokenizer = bbpe().unwrap();

    let _ = tokenizer.train(vec!["test".to_string()], 100);

    let result = tokenizer.encode("test");
    assert!(result.is_ok());
    assert!(!result.unwrap().is_empty());
}

#[test]
fn failed_training_changes_nothing() {
    let mut tokenizer = bbpe().unwrap();
    tokenizer.train(vec!["abab".to_string()], 300).unwrap();
    let before = tokenizer.get_merges().clone();
    let failure = tokenizer.train(vec!["cdcd".to_string()], 255).unwrap_err();
    assert_eq!(failure, "vocabulary size must be at least 256");
    assert_eq!(tokenizer.get_merges(), &before);
    assert_eq!(tokenizer.vocab_size(), 258);
}

#[test]
fn invalid_pattern_message_names_the_pattern_error() {
    let failure = match BBPETokenizer::with_pattern("(".to_string()) {
        Ok(_) => panic!("the pattern should not compile"),
        Err(message) => message,
    };
    assert!(failure.starts_with("invalid regex pattern: "));
    assert!(failure.len() > "invalid regex pattern: ".len());
}

#[test]
fn error_kinds_have_their_labels() {
    let message = "m".to_string();
    assert_eq!(encoding_error(message.clone()).to_text(), "encoding error: m");
    assert_eq!(decoding_error(message.clone()).to_text(), "decoding error: m");
    assert_eq!(training_error(message.clone()).to_text(), "training error: m");
    assert_eq!(model_load_error(message.clone()).to_text(), "model load error: m");
    assert_eq!(model_save_error(message.clone()).to_text(), "model save error: m");
    assert_eq!(vocab_error(message.clone()).to_text(), "vocabulary error: m");
    assert_eq!(
        input_validation_error(message.clone()).to_text(),
        "input validation error: m"
    );
    let error = TokenizerError::InvalidRegex { message: "bad".to_string() };
    assert_eq!(error.message(), "bad");
    assert_eq!(error.to_text(), "invalid regular expression: bad");
    assert!(matches!(
        training_error("t".to_string()),
        TokenizerError::TrainingError { .. }
    ));
}
