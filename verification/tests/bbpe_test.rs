use zero_tokenizer::bbpe::BBPETokenizer;
use zero_tokenizer::pairs::MergeRule;
use zero_tokenizer::prelude::bbpe;

fn check_training(tokenizer: &mut BBPETokenizer, test_text: &str, vocab_size: u32) {
    let tokens = tokenizer.encode("Hello world").unwrap();
    assert_eq!(tokens.len(), 11);

    tokenizer.train(vec![test_text.to_string()], vocab_size).unwrap();

    assert!(tokenizer.vocab_size() > 0);

    let tokens = tokenizer.encode(test_text).unwrap();
    assert!(!tokens.is_empty());

    let decoded = tokenizer.decode(&tokens).unwrap();
    assert_eq!(decoded, test_text);
}

fn check_round_trip(tokenizer: &mut BBPETokenizer, test_text: &str, vocab_size: u32) {
    tokenizer.train(vec![test_text.to_string()], vocab_size).unwrap();

    let tokens = tokenizer.encode(test_text).unwrap();
    assert!(!tokens.is_empty());

    let decoded = tokenizer.decode(&tokens).unwrap();
    assert_eq!(decoded, test_text);

    let empty_tokens = tokenizer.encode("").unwrap();
    assert!(empty_tokens.is_empty());

    let empty_decoded = tokenizer.decode(&empty_tokens).unwrap();
    assert_eq!(empty_decoded, "");
}

#[test]
fn test_bbpe_tokenizer() {
    let mut tokenizer = bbpe().unwrap();
    let text = "Hello world, this is a test sentence for BBPE tokenizer.";

    check_training(&mut tokenizer, text, 300);

    assert!(tokenizer.vocab_size() >= 256 && tokenizer.vocab_size() <= 300);
}

#[test]
fn test_bbpe_encode_decode() {
    let mut tokenizer = bbpe().unwrap();
    let text = "This is a test sentence for BBPE tokenizer.";

    check_round_trip(&mut tokenizer, text, 300);
}

#[test]
fn test_bbpe_default() {
    let tokenizer = bbpe().unwrap();

    assert_eq!(tokenizer.vocab_size(), 256);

    let tokens = tokenizer.encode("Hello").unwrap();
    assert!(!tokens.is_empty());
}

#[test]
fn bbpe_learns_the_expected_rules() {
    let mut tokenizer = bbpe().unwrap();
    tokenizer.train(vec!["abab".to_string()], 300).unwrap();

    let rules = tokenizer.get_merges().clone();
    assert_eq!(
        rules,
        vec![
            MergeRule { left: 97, right: 98, new_id: 256 },
            MergeRule { left: 256, right: 256, new_id: 257 },
        ]
    );
    assert_eq!(tokenizer.vocab_size(), 258);
    assert_eq!(tokenizer.get_token(256), Some(&b"ab".to_vec()));
    assert_eq!(tokenizer.get_token(257), Some(&b"abab".to_vec()));
    assert_eq!(tokenizer.encode("abab").unwrap(), vec![257]);
    assert_eq!(tokenizer.encode("ab").unwrap(), vec![256]);
    assert_eq!(tokenizer.encode("aba").unwrap(), vec![256, 97]);
    assert_eq!(tokenizer.decode(&[257]).unwrap(), "abab");
    assert_eq!(
        tokenizer.get_mergeable_ranks(),
        vec![((97, 98), 256), ((256, 256), 257)]
    );
}

#[test]
fn bbpe_counts_equal_pre_tokens_once() {
    let mut tokenizer = bbpe().unwrap();
    // " ab" occurs three times and "xy" once: the pair of " ab" with the higher
    // count and the smaller ids goes first.
    tokenizer.train(vec!["xy ab ab ab".to_string()], 258).unwrap();
    let rules = tokenizer.get_merges().clone();
    assert_eq!(rules.len(), 2);
    assert_eq!(rules[0], MergeRule { left: 32, right: 97, new_id: 256 });
    assert_eq!(rules[1], MergeRule { left: 256, right: 98, new_id: 257 });
}

#[test]
fn bbpe_ties_go_to_the_smaller_pair() {
    let mut tokenizer = bbpe().unwrap();
    tokenizer.train(vec!["ba".to_string(), "ab".to_string()], 257).unwrap();
    let rules = tokenizer.get_merges().clone();
    assert_eq!(rules, vec![MergeRule { left: 97, right: 98, new_id: 256 }]);
}

#[test]
fn bbpe_training_is_deterministic() {
    let text = "the quick brown fox jumps over the lazy dog and the quick cat";
    let mut first = bbpe().unwrap();
    let mut second = bbpe().unwrap();
    first.train(vec![text.to_string()], 300).unwrap();
    second.train(vec![text.to_string()], 300).unwrap();
    assert_eq!(first.get_merges(), second.get_merges());
    assert_eq!(first.encode(text).unwrap(), second.encode(text).unwrap());
}

#[test]
fn bbpe_rules_spell_their_tokens() {
    let mut tokenizer = bbpe().unwrap();
    tokenizer
        .train(vec!["low lower lowest newer newest wider".to_string()], 300)
        .unwrap();
    for rule in tokenizer.get_merges() {
        let mut joined = tokenizer.get_token(rule.left).unwrap().clone();
        joined.extend_from_slice(tokenizer.get_token(rule.right).unwrap());
        assert_eq!(tokenizer.get_token(rule.new_id).unwrap(), &joined);
    }
}

#[test]
fn bbpe_target_of_initial_size_learns_nothing() {
    let mut tokenizer = bbpe().unwrap();
    tokenizer.train(vec!["abababab".to_string()], 256).unwrap();
    assert!(tokenizer.get_merges().is_empty());
    assert_eq!(tokenizer.vocab_size(), 256);
}

#[test]
fn bbpe_single_character_corpus_learns_nothing() {
    let mut tokenizer = bbpe().unwrap();
    tokenizer.train(vec!["a".to_string()], 300).unwrap();
    assert!(tokenizer.get_merges().is_empty());
    assert_eq!(tokenizer.vocab_size(), 256);
}

#[test]
fn bbpe_encodes_a_byte_as_its_value() {
    let mut tokenizer = bbpe().unwrap();
    tokenizer.train(vec!["x".to_string()], 256).unwrap();
    assert_eq!(tokenizer.encode("x").unwrap(), vec![0x78]);
    assert_eq!(tokenizer.decode(&[0x78]).unwrap(), "x");
}

#[test]
fn bbpe_decode_names_the_unknown_id() {
    let mut tokenizer = bbpe().unwrap();
    tokenizer.train(vec!["Hello world".to_string()], 300).unwrap();
    let failure = tokenizer.decode(&[9_999_999]).unwrap_err();
    assert_eq!(failure, "token ID 9999999 not found in the vocabulary");
}

#[test]
fn bbpe_decode_refuses_bytes_that_are_no_text() {
    let tokenizer = bbpe().unwrap();
    let failure = tokenizer.decode(&[0xff]).unwrap_err();
    assert_eq!(failure, "the decoded bytes are not valid UTF-8: 255");
    let failure = tokenizer.decode(&[0x41, 0xe4, 0xbd, 0x0a]).unwrap_err();
    assert_eq!(failure, "the decoded bytes are not valid UTF-8: 65 228 189 10");
    assert_eq!(tokenizer.decode_bytes(&[0xff, 0x41]).unwrap(), vec![0xff, 0x41]);
}

#[test]
fn bbpe_greedy_merges_do_not_overlap() {
    let mut tokenizer = bbpe().unwrap();
    tokenizer.train(vec!["aa".to_string()], 257).unwrap();
    assert_eq!(
        tokenizer.get_merges().clone(),
        vec![MergeRule { left: 97, right: 97, new_id: 256 }]
    );
    let mut ids = vec![97, 97, 97, 97, 97];
    tokenizer.apply_merges(&mut ids);
    assert_eq!(ids, vec![256, 256, 97]);
}

#[test]
fn bbpe_scenario_hello_world() {
    let mut tokenizer = bbpe().unwrap();
    tokenizer.train(vec!["Hello world".to_string()], 300).unwrap();
    let ids = tokenizer.encode("Hello world").unwrap();
    assert_eq!(tokenizer.decode(&ids).unwrap(), "Hello world");
    assert!(tokenizer.vocab_size() >= 256 && tokenizer.vocab_size() <= 300);
}

#[test]
fn bbpe_scenario_emoji() {
    let mut tokenizer = bbpe().unwrap();
    let text = "Hello 👋 World 🌍";
    tokenizer.train(vec![text.to_string()], 300).unwrap();
    let ids = tokenizer.encode(text).unwrap();
    assert_eq!(tokenizer.decode(&ids).unwrap(), text);
}

#[test]
fn bbpe_base_characters_follow_the_bytes() {
    let mut tokenizer = bbpe().unwrap();
    tokenizer.load_base_chars("你\n好\n\n a \n你\n");
    assert_eq!(tokenizer.base_chars(), &vec!["你".to_string(), "好".to_string(), "a".to_string()]);
    tokenizer.init_vocab();
    assert_eq!(tokenizer.vocab_size(), 258);
    assert_eq!(tokenizer.get_token(256), Some(&"你".as_bytes().to_vec()));
    assert_eq!(tokenizer.get_token(257), Some(&"好".as_bytes().to_vec()));
    assert_eq!(tokenizer.get_token(97), Some(&vec![97u8]));
}

#[test]
fn bbpe_words_of_a_list_get_the_next_ids() {
    let mut tokenizer = bbpe().unwrap();
    tokenizer.load_vocab_from_dict("hello\n\n world \n").unwrap();
    assert_eq!(tokenizer.vocab_size(), 258);
    assert_eq!(tokenizer.get_token(256), Some(&b"hello".to_vec()));
    assert_eq!(tokenizer.get_token(257), Some(&b"world".to_vec()));
    assert_eq!(tokenizer.decode(&[256, 32, 257]).unwrap(), "hello world");
}

#[test]
fn bbpe_vocabulary_is_listed_by_rising_ids() {
    let mut tokenizer = bbpe().unwrap();
    tokenizer.train(vec!["abab".to_string()], 258).unwrap();
    let listing = tokenizer.get_vocab();
    assert_eq!(listing.len(), 258);
    for (place, (id, token)) in listing.iter().enumerate() {
        assert_eq!(*id as usize, place);
        if place < 256 {
            assert_eq!(token, &vec![place as u8]);
        }
    }
    assert_eq!(listing[256], (256, b"ab".to_vec()));
    assert_eq!(listing[257], (257, b"abab".to_vec()));
}

#[test]
fn bbpe_training_below_the_present_size_is_refused() {
    let mut tokenizer = bbpe().unwrap();
    tokenizer.train(vec!["abab abab".to_string()], 258).unwrap();
    assert_eq!(tokenizer.vocab_size(), 258);
    let before = tokenizer.get_merges().clone();
    let failure = tokenizer.train(vec!["cdcd".to_string()], 257).unwrap_err();
    assert_eq!(failure, "vocabulary size is below the present size of the vocabulary");
    let failure = tokenizer.train(Vec::new(), 256).unwrap_err();
    assert_eq!(failure, "vocabulary size is below the present size of the vocabulary");
    assert_eq!(tokenizer.get_merges(), &before);
    assert_eq!(tokenizer.vocab_size(), 258);
    // The present size itself is accepted, and nothing is learned.
    tokenizer.train(vec!["cdcd".to_string()], 258).unwrap();
    assert_eq!(tokenizer.get_merges().len(), 0);
    assert_eq!(tokenizer.vocab_size(), 258);
    assert_eq!(tokenizer.decode(&[256, 257]).unwrap(), "ababab");

    let mut listed = bbpe().unwrap();
    listed.load_vocab_from_dict("one\ntwo\n").unwrap();
    assert_eq!(listed.vocab_size(), 258);
    assert!(listed.train(Vec::new(), 256).is_err());
    assert!(listed.train(Vec::new(), 258).is_ok());
}
