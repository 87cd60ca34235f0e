use zero_tokenizer::prelude::bbpe;

#[test]
fn test_emoji_encoding() {
    let mut tokenizer = bbpe().unwrap();
    let text = "Hello 👋 World 🌍 Test 🎉";

    tokenizer.train(vec![text.to_string()], 300).unwrap();

    let tokens = tokenizer.encode(text).unwrap();
    let decoded = tokenizer.decode(&tokens).unwrap();

    assert_eq!(text, decoded);
}

#[test]
fn test_multiple_emojis() {
    let mut tokenizer = bbpe().unwrap();
    let text = "😀😃😄😁😆😅🤣😂🙂🙃😉😊😇🥰😍🤩😘";

    tokenizer.train(vec![text.to_string()], 300).unwrap();

    let tokens = tokenizer.encode(text).unwrap();
    let decoded = tokenizer.decode(&tokens).unwrap();

    assert_eq!(text, decoded);
}

#[test]
fn test_combining_characters() {
    let mut tokenizer = bbpe().unwrap();

    let text = "café naïve";
    tokenizer.train(vec![text.to_string()], 300).unwrap();

    let tokens = tokenizer.encode(text).unwrap();
    let decoded = tokenizer.decode(&tokens).unwrap();

    assert_eq!(text, decoded);
}

#[test]
fn test_zero_width_characters() {
    let mut tokenizer = bbpe().unwrap();

    let text = "Hello\u{200B}World\u{FEFF}Test";    tokenizer.train(vec![text.to_string()], 300).unwrap();

    let tokens = tokenizer.encode(text).unwrap();
    let decoded = tokenizer.decode(&tokens).unwrap();

    assert_eq!(text, decoded);
}

#[test]
fn test_rtl_text_arabic() {
    let mut tokenizer = bbpe().unwrap();

    let text = "مرحبا بالعالم";
    tokenizer.train(vec![text.to_string()], 300).unwrap();

    let tokens = tokenizer.encode(text).unwrap();
    let decoded = tokenizer.decode(&tokens).unwrap();

    assert_eq!(text, decoded);
}

#[test]
fn test_rtl_text_hebrew() {
    let mut tokenizer = bbpe().unwrap();

    let text = "שלום עולם";
    tokenizer.train(vec![text.to_string()], 300).unwrap();

    let tokens = tokenizer.encode(text).unwrap();
    let decoded = tokenizer.decode(&tokens).unwrap();

    assert_eq!(text, decoded);
}

#[test]
fn test_mixed_scripts() {
    let mut tokenizer = bbpe().unwrap();

    let text = "Hello 你好 مرحبا こんにちは 안녕하세요";
    tokenizer.train(vec![text.to_string()], 500).unwrap();

    let tokens = tokenizer.encode(text).unwrap();
    let decoded = tokenizer.decode(&tokens).unwrap();

    assert_eq!(text, decoded);
}

#[test]
fn test_control_characters() {
    let mut tokenizer = bbpe().unwrap();

    let text = "Hello\nWorld\tTest\r\nDone";
    tokenizer.train(vec![text.to_string()], 300).unwrap();

    let tokens = tokenizer.encode(text).unwrap();
    let decoded = tokenizer.decode(&tokens).unwrap();

    assert_eq!(text, decoded);
}

#[test]
fn test_surrogate_pairs() {
    let mut tokenizer = bbpe().unwrap();

    let text = "𝕳𝖊𝖑𝖑𝖔 𝖂𝖔𝖗𝖑𝖉";
    tokenizer.train(vec![text.to_string()], 300).unwrap();

    let tokens = tokenizer.encode(text).unwrap();
    let decoded = tokenizer.decode(&tokens).unwrap();

    assert_eq!(text, decoded);
}

#[test]
fn test_cjk_unified_ideographs() {
    let mut tokenizer = bbpe().unwrap();

    let text = "中文测试 日本語テスト 한국어테스트";
    tokenizer.train(vec![text.to_string()], 400).unwrap();

    let tokens = tokenizer.encode(text).unwrap();
    let decoded = tokenizer.decode(&tokens).unwrap();

    assert_eq!(text, decoded);
}

#[test]
fn test_special_punctuation() {
    let mut tokenizer = bbpe().unwrap();

    let text = r#"‹›«»‚„''""…–—"#;    tokenizer.train(vec![text.to_string()], 300).unwrap();

    let tokens = tokenizer.encode(text).unwrap();
    let decoded = tokenizer.decode(&tokens).unwrap();

    assert_eq!(text, decoded);
}

#[test]
fn test_mathematical_symbols() {
    let mut tokenizer = bbpe().unwrap();

    let text = "∑∫√∞≠≤≥±×÷";
    tokenizer.train(vec![text.to_string()], 300).unwrap();

    let tokens = tokenizer.encode(text).unwrap();
    let decoded = tokenizer.decode(&tokens).unwrap();

    assert_eq!(text, decoded);
}

#[test]
fn test_currency_symbols() {
    let mut tokenizer = bbpe().unwrap();

    let text = "$€£¥₹₽₩¢";
    tokenizer.train(vec![text.to_string()], 300).unwrap();

    let tokens = tokenizer.encode(text).unwrap();
    let decoded = tokenizer.decode(&tokens).unwrap();

    assert_eq!(text, decoded);
}

#[test]
fn test_emoji_with_skin_tone() {
    let mut tokenizer = bbpe().unwrap();

    let text = "👋🏻👋🏼👋🏽👋🏾👋🏿";
    tokenizer.train(vec![text.to_string()], 300).unwrap();

    let tokens = tokenizer.encode(text).unwrap();
    let decoded = tokenizer.decode(&tokens).unwrap();

    assert_eq!(text, decoded);
}

