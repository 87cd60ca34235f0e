use rayon::iter::{IntoParallelRefIterator, ParallelIterator};
use zero_tokenizer::prelude::{bbpe, bpe};

#[test]
fn test_bbpe_parallel_encode() {
    let mut tokenizer = bbpe().unwrap();
    let texts = vec![
        "Hello world!".to_string(),
        "你好世界！".to_string(),
        "Test text".to_string(),
        "Another test".to_string(),
    ];

    tokenizer.train(texts.clone(), 300).unwrap();

    let batch_results: Vec<Vec<u32>> = texts
        .par_iter()
        .map(|text| tokenizer.encode(text).unwrap())
        .collect();

    assert_eq!(batch_results.len(), texts.len());

    for (text, tokens) in texts.iter().zip(batch_results.iter()) {
        let decoded = tokenizer.decode(tokens).unwrap();
        assert_eq!(*text, decoded);
    }
}

#[test]
fn test_bbpe_parallel_decode() {
    let mut tokenizer = bbpe().unwrap();
    let texts = vec!["Hello world!".to_string(), "你好世界！".to_string()];

    tokenizer.train(texts.clone(), 300).unwrap();

    let token_lists: Vec<Vec<u32>> = texts
        .iter()
        .map(|text| tokenizer.encode(text).unwrap())
        .collect();

    let batch_results: Vec<String> = token_lists
        .par_iter()
        .map(|tokens| tokenizer.decode(tokens).unwrap())
        .collect();

    assert_eq!(batch_results, texts);
}

#[test]
fn test_large_batch_encode() {
    let mut tokenizer = bbpe().unwrap();
    tokenizer.train(vec!["test".to_string()], 300).unwrap();

    let texts: Vec<String> = (0..100)
        .map(|i| format!("Test text number {}", i))
        .collect();

    let results: Vec<Vec<u32>> = texts
        .par_iter()
        .map(|text| tokenizer.encode(text).unwrap())
        .collect();

    assert_eq!(results.len(), 100);

    for tokens in &results {
        assert!(!tokens.is_empty());
    }
}

#[test]
fn test_bpe_parallel_encode() {
    let mut tokenizer = bpe().unwrap();
    let texts = vec![
        "Hello world!".to_string(),
        "Test text".to_string(),
        "Another example".to_string(),
    ];

    tokenizer.train(texts.clone(), 300).unwrap();

    let batch_results: Vec<Vec<u32>> = texts
        .par_iter()
        .map(|text| tokenizer.encode(text).unwrap())
        .collect();

    assert_eq!(batch_results.len(), texts.len());
}

#[test]
fn test_mixed_length_texts() {
    let mut tokenizer = bbpe().unwrap();

    let texts = vec![
        "a".to_string(),
        "ab".to_string(),
        "abc def".to_string(),
        "This is a much longer text for testing".to_string(),
        "x".repeat(1000),
    ];

    tokenizer.train(texts.clone(), 300).unwrap();

    let batch_results: Vec<Vec<u32>> = texts
        .par_iter()
        .map(|text| tokenizer.encode(text).unwrap())
        .collect();

    for (original, tokens) in texts.iter().zip(batch_results.iter()) {
        let decoded = tokenizer.decode(tokens).unwrap();
        assert_eq!(*original, decoded);
    }
}

#[test]
fn test_empty_texts_in_batch() {
    let mut tokenizer = bbpe().unwrap();
    tokenizer.train(vec!["test".to_string()], 300).unwrap();

    let texts = vec![
        "Hello".to_string(),
        "".to_string(),
        "World".to_string(),
        "".to_string(),
    ];

    let batch_results: Vec<Vec<u32>> = texts
        .par_iter()
        .map(|text| tokenizer.encode(text).unwrap())
        .collect();

    assert!(!batch_results[0].is_empty());
    assert!(batch_results[1].is_empty());
    assert!(!batch_results[2].is_empty());
    assert!(batch_results[3].is_empty());
}
