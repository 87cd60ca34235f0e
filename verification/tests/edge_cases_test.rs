use zero_tokenizer::prelude::bbpe;

#[test]
fn test_single_character() {
    let mut tokenizer = bbpe().unwrap();
    tokenizer.train(vec!["a".to_string()], 300).unwrap();

    let tokens = tokenizer.encode("a").unwrap();
    let decoded = tokenizer.decode(&tokens).unwrap();
    assert_eq!(decoded, "a");
}

#[test]
fn test_single_byte() {
    let tokenizer = bbpe().unwrap();

    let tokens = tokenizer.encode("x").unwrap();
    assert_eq!(tokens.len(), 1);

    let decoded = tokenizer.decode(&tokens).unwrap();
    assert_eq!(decoded, "x");
}

#[test]
fn test_very_long_text() {
    let mut tokenizer = bbpe().unwrap();

    let long_text = "a".repeat(10_000);
    tokenizer.train(vec![long_text.clone()], 300).unwrap();

    let tokens = tokenizer.encode(&long_text).unwrap();
    let decoded = tokenizer.decode(&tokens).unwrap();
    assert_eq!(decoded, long_text);
}

#[test]
fn test_repeated_training() {
    let mut tokenizer = bbpe().unwrap();

    tokenizer.train(vec!["Hello".to_string()], 300).unwrap();
    let vocab_size_1 = tokenizer.vocab_size();
    assert!(vocab_size_1 >= 256);

    tokenizer.train(vec!["World".to_string()], 300).unwrap();
    let vocab_size_2 = tokenizer.vocab_size();

    assert!(vocab_size_2 >= 256);

    let tokens = tokenizer.encode("World").unwrap();
    assert!(!tokens.is_empty());
}

#[test]
fn test_whitespace_only() {
    let mut tokenizer = bbpe().unwrap();

    let text = "   \t\n  ";
    tokenizer.train(vec![text.to_string()], 300).unwrap();

    let tokens = tokenizer.encode(text).unwrap();
    let decoded = tokenizer.decode(&tokens).unwrap();
    assert_eq!(decoded, text);
}

#[test]
fn test_numbers_and_symbols() {
    let mut tokenizer = bbpe().unwrap();

    let text = "12345 + 67890 = 80235 @#$%^&*()";
    tokenizer.train(vec![text.to_string()], 300).unwrap();

    let tokens = tokenizer.encode(text).unwrap();
    let decoded = tokenizer.decode(&tokens).unwrap();
    assert_eq!(decoded, text);
}

#[test]
fn test_repeated_characters() {
    let mut tokenizer = bbpe().unwrap();

    let text = "aaaaaaaaaa bbbbbbbbb cccccccc";
    tokenizer.train(vec![text.to_string()], 300).unwrap();

    let tokens = tokenizer.encode(text).unwrap();
    let decoded = tokenizer.decode(&tokens).unwrap();
    assert_eq!(decoded, text);
}

#[test]
fn test_minimum_vocab_size() {
    let mut tokenizer = bbpe().unwrap();

    tokenizer.train(vec!["test".to_string()], 256).unwrap();

    assert_eq!(tokenizer.vocab_size(), 256);

    let tokens = tokenizer.encode("test").unwrap();
    let decoded = tokenizer.decode(&tokens).unwrap();
    assert_eq!(decoded, "test");
}

#[test]
fn test_large_vocab_size() {
    let mut tokenizer = bbpe().unwrap();

    tokenizer
        .train(vec!["test text".to_string()], 1000)
        .unwrap();

    assert!(tokenizer.vocab_size() >= 256);
    assert!(tokenizer.vocab_size() <= 1000);
}

#[test]
fn test_all_punctuation() {
    let mut tokenizer = bbpe().unwrap();

    let text = "!\"#$%&'()*+,-./:;<=>?@[\\]^_`{|}~";
    tokenizer.train(vec![text.to_string()], 300).unwrap();

    let tokens = tokenizer.encode(text).unwrap();
    let decoded = tokenizer.decode(&tokens).unwrap();
    assert_eq!(decoded, text);
}

#[test]
fn test_mixed_case() {
    let mut tokenizer = bbpe().unwrap();

    let text = "HeLLo WoRLd TeST";
    tokenizer.train(vec![text.to_string()], 300).unwrap();

    let tokens = tokenizer.encode(text).unwrap();
    let decoded = tokenizer.decode(&tokens).unwrap();
    assert_eq!(decoded, text);
}

#[test]
fn test_newlines_and_tabs() {
    let mut tokenizer = bbpe().unwrap();

    let text = "line1\nline2\tline3\r\nline4";
    tokenizer.train(vec![text.to_string()], 300).unwrap();

    let tokens = tokenizer.encode(text).unwrap();
    let decoded = tokenizer.decode(&tokens).unwrap();
    assert_eq!(decoded, text);
}

#[test]
fn test_encode_decode_consistency() {
    let mut tokenizer = bbpe().unwrap();

    let texts = vec![
        "a",
        "ab",
        "abc",
        "Hello",
        "Hello World",
        "测试",
        "123",
        "!@#",
        "",
    ];

    for text in texts {
        tokenizer.train(vec![text.to_string()], 300).unwrap();

        let tokens = tokenizer.encode(text).unwrap();
        let decoded = tokenizer.decode(&tokens).unwrap();

        assert_eq!(decoded, text);
    }
}

#[test]
fn test_binary_like_text() {
    let mut tokenizer = bbpe().unwrap();

    let text = "\0\x01\x02\x03\x04\x05";
    tokenizer.train(vec![text.to_string()], 300).unwrap();

    let tokens = tokenizer.encode(text).unwrap();
    let decoded = tokenizer.decode(&tokens).unwrap();
    assert_eq!(decoded, text);
}
