use zero_tokenizer::bpe::{stream_step, StreamAction, Tokenizer, FIRST_MERGE_ID};
use zero_tokenizer::pairs::MergeRule;
use zero_tokenizer::prelude::bpe;

#[test]
fn test_bpe_encode_decode() {
    let mut tokenizer = bpe().unwrap();
    let text = "This is a test sentence for BPE tokenizer.";

    tokenizer.train(vec![text.to_string()], 1000).unwrap();

    let tokens = tokenizer.encode(text).unwrap();
    assert!(!tokens.is_empty());

    let decoded = tokenizer.decode(&tokens).unwrap();
    assert_eq!(decoded, text);

    let empty_tokens = tokenizer.encode("").unwrap();
    assert!(empty_tokens.is_empty());

    let empty_decoded = tokenizer.decode(&empty_tokens).unwrap();
    assert_eq!(empty_decoded, "");
}

#[test]
fn test_word_pairs() {
    let mut tokenizer = bpe().unwrap();

    let text = "hello world";
    tokenizer.train(vec![text.to_string()], 100).unwrap();

    let word = tokenizer.encode(text).unwrap();
    assert!(!word.is_empty());
}

#[test]
fn test_word_merge_pair() {
    let mut tokenizer = bpe().unwrap();

    let text = "hello world";
    tokenizer.train(vec![text.to_string()], 100).unwrap();

    let word = tokenizer.encode(text).unwrap();
    assert!(!word.is_empty());
}

#[test]
fn bpe_ids_are_scalar_values() {
    let mut tokenizer = bpe().unwrap();
    assert_eq!(tokenizer.vocab_size(), 0);
    assert_eq!(tokenizer.encode("Hello world").unwrap().len(), 11);
    tokenizer.train(vec!["héllo 你".to_string()], 0).unwrap();
    assert_eq!(
        tokenizer.encode("héllo 你").unwrap(),
        vec![104, 233, 108, 108, 111, 32, 0x4f60]
    );
    assert_eq!(tokenizer.vocab_size(), 6);
    assert_eq!(tokenizer.get_token(233), Some(&vec!['é']));
    assert!(tokenizer.get_merges().is_empty());
    assert_eq!(tokenizer.decode(&[0x4f60, 104]).unwrap(), "你h");
}

#[test]
fn bpe_merges_start_behind_the_code_points() {
    let mut tokenizer = bpe().unwrap();
    tokenizer
        .train(vec!["abab".to_string()], FIRST_MERGE_ID + 5)
        .unwrap();
    assert_eq!(
        tokenizer.get_merges().clone(),
        vec![
            MergeRule { left: 97, right: 98, new_id: 0x110000 },
            MergeRule { left: 0x110000, right: 0x110000, new_id: 0x110001 },
        ]
    );
    assert_eq!(tokenizer.encode("abab").unwrap(), vec![0x110001]);
    assert_eq!(tokenizer.decode(&[0x110001, 0x110000]).unwrap(), "ababab");
    assert_eq!(tokenizer.vocab_size(), 4);
    assert_eq!(tokenizer.get_token(0x110001), Some(&vec!['a', 'b', 'a', 'b']));
}

#[test]
fn bpe_decode_names_the_unknown_id() {
    let mut tokenizer = bpe().unwrap();
    tokenizer.train(vec!["ab".to_string()], 0).unwrap();
    assert_eq!(
        tokenizer.decode(&[97, 120]).unwrap_err(),
        "token ID 120 not found in the vocabulary"
    );
}

#[test]
fn bpe_streamed_training_equals_training_at_once() {
    let texts = vec![
        "low lower lowest".to_string(),
        "newer newest".to_string(),
        "wider low".to_string(),
    ];
    let mut at_once = bpe().unwrap();
    at_once.train(texts.clone(), FIRST_MERGE_ID + 10).unwrap();

    let mut streamed = bpe().unwrap();
    let mut gatherer = streamed.begin_stream(None).unwrap();
    streamed.feed_stream(&mut gatherer, &texts[..2].to_vec());
    streamed.feed_stream(&mut gatherer, &texts[2..].to_vec());
    streamed.end_stream(gatherer, FIRST_MERGE_ID + 10).unwrap();

    assert_eq!(streamed.get_merges(), at_once.get_merges());
    assert_eq!(streamed.get_merges().len(), 10);
    assert_eq!(
        streamed.encode("lowest newest").unwrap(),
        at_once.encode("lowest newest").unwrap()
    );
}

#[test]
fn bpe_stream_sets_the_pattern() {
    let mut tokenizer = bpe().unwrap();
    let gatherer = tokenizer.begin_stream(Some("\\d+".to_string())).unwrap();
    assert_eq!(tokenizer.get_pattern(), "\\d+");
    tokenizer.end_stream(gatherer, 0).unwrap();
    assert_eq!(tokenizer.encode("ab 12 cd 345").unwrap(), vec![49, 50, 51, 52, 53]);
    let failure = match tokenizer.begin_stream(Some("(".to_string())) {
        Ok(_) => panic!("the pattern should not compile"),
        Err(message) => message,
    };
    assert!(failure.starts_with("invalid regex pattern: "));
    assert_eq!(tokenizer.get_pattern(), "\\d+");
}

#[test]
fn stream_steps() {
    assert_eq!(stream_step(0, true), StreamAction::Train);
    assert_eq!(stream_step(3, true), StreamAction::CountAndTrain);
    assert_eq!(stream_step(3, false), StreamAction::CountAndRefill);
    assert_eq!(stream_step(0, false), StreamAction::CountAndRefill);
}

#[test]
fn bpe_model_file_round_trip_is_exact() {
    let mut tokenizer = Tokenizer::with_pattern("\\w+".to_string()).unwrap();
    tokenizer
        .train(vec!["abab é".to_string()], FIRST_MERGE_ID + 1)
        .unwrap();
    let saved = tokenizer.save_model().unwrap();
    assert_eq!(
        saved,
        "pattern: \\w+\nvocab_size: 0\nbase_chars: 0\nvocab: 4\nvocab_entry: 97 97\nvocab_entry: 98 98\nvocab_entry: 233 233\nvocab_entry: 1114112 97 98\nmerges: 1\nmerge: 97 98 1114112\nnext_token_id: 1114113\n"
    );
    let mut loaded = bpe().unwrap();
    loaded.load_model(&saved).unwrap();
    assert_eq!(loaded.save_model().unwrap(), saved);
    assert_eq!(loaded.encode("abab").unwrap(), vec![0x110000, 0x110000]);
    assert_eq!(
        loaded
            .load_model("pattern: a\nvocab: 1\nvocab_entry: 97 98\nmerges: 0\n")
            .unwrap_err(),
        "entry 0 of the section 'vocab' is not in order"
    );
}

#[test]
fn bpe_vocabulary_is_listed_by_rising_ids() {
    let mut tokenizer = bpe().unwrap();
    tokenizer.train(vec!["abab".to_string()], 0x110002).unwrap();
    let listing = tokenizer.get_vocab();
    assert_eq!(
        listing,
        vec![
            (97, "a".to_string()),
            (98, "b".to_string()),
            (0x110000, "ab".to_string()),
            (0x110001, "abab".to_string()),
        ]
    );
    assert_eq!(tokenizer.get_vocab_size(), 4);
}

#[test]
fn bpe_ranks_are_the_ids_of_the_rules() {
    let mut tokenizer = bpe().unwrap();
    assert_eq!(tokenizer.get_mergeable_ranks(), vec![]);
    tokenizer.train(vec!["abab".to_string()], 0x110002).unwrap();
    assert_eq!(
        tokenizer.get_mergeable_ranks(),
        vec![((97, 98), 0x110000), ((0x110000, 0x110000), 0x110001)]
    );
}

#[test]
fn a_stream_without_a_pattern_uses_the_default_pattern() {
    let mut tokenizer = Tokenizer::with_pattern("\\d+".to_string()).unwrap();
    let gatherer = tokenizer.begin_stream(None).unwrap();
    assert_eq!(tokenizer.get_pattern(), zero_tokenizer::pattern::GPT4_PATTERN);
    tokenizer.end_stream(gatherer, 0).unwrap();
    assert_eq!(tokenizer.vocab_size(), 0);
}

#[test]
fn bpe_base_characters_become_known() {
    let mut tokenizer = bpe().unwrap();
    tokenizer.load_base_chars(" \u{6c49}\n\n\u{5b57}a \n");
    assert_eq!(
        tokenizer.get_vocab(),
        vec![
            (0x61, "a".to_string()),
            (0x5b57, "\u{5b57}".to_string()),
            (0x6c49, "\u{6c49}".to_string()),
        ]
    );
    assert_eq!(tokenizer.get_merges().len(), 0);
    let ids = tokenizer.encode("\u{6c49}\u{5b57}").unwrap();
    assert_eq!(ids, vec![0x6c49, 0x5b57]);
    assert_eq!(tokenizer.decode(&ids).unwrap(), "\u{6c49}\u{5b57}");
    // A character that is known already keeps its token.
    tokenizer.load_base_chars("a");
    assert_eq!(tokenizer.vocab_size(), 3);
}

#[test]
fn bpe_word_list_gets_the_next_free_ids() {
    let mut tokenizer = bpe().unwrap();
    tokenizer.train(vec!["abab".to_string()], FIRST_MERGE_ID + 1).unwrap();
    tokenizer.load_vocab_from_dict(" hello \n\nab\nx\n").unwrap();
    assert_eq!(
        tokenizer.get_vocab(),
        vec![
            (97, "a".to_string()),
            (98, "b".to_string()),
            (FIRST_MERGE_ID, "ab".to_string()),
            (FIRST_MERGE_ID + 1, "hello".to_string()),
            (FIRST_MERGE_ID + 2, "ab".to_string()),
            (FIRST_MERGE_ID + 3, "x".to_string()),
        ]
    );
    assert_eq!(tokenizer.get_merges().len(), 1);
    assert_eq!(
        tokenizer.decode(&[FIRST_MERGE_ID + 1, FIRST_MERGE_ID]).unwrap(),
        "helloab"
    );
    assert_eq!(tokenizer.encode("abab").unwrap(), vec![FIRST_MERGE_ID, FIRST_MERGE_ID]);
    let saved = tokenizer.save_model().unwrap();
    let mut loaded = bpe().unwrap();
    loaded.load_model(&saved).unwrap();
    assert_eq!(loaded.get_vocab(), tokenizer.get_vocab());
}

#[test]
fn bpe_encode_fails_where_the_engine_gives_up() {
    // A pattern that makes the engine try more paths than it allows itself on
    // a long run of one letter.
    let pattern = "(?:(?=a)a|(?=a)a)*b".to_string();
    let text = "a".repeat(64);
    let chars = Tokenizer::with_pattern(pattern.clone()).unwrap();
    assert_eq!(
        chars.encode(&text).unwrap_err(),
        "the regular expression gave up on the text"
    );
    assert_eq!(chars.encode("").unwrap(), Vec::<u32>::new());
    // The byte-level tokenizer takes what was found before.
    let bytes = zero_tokenizer::bbpe::BBPETokenizer::with_pattern(pattern).unwrap();
    assert!(bytes.encode(&text).is_ok());
}
