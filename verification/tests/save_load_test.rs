use zero_tokenizer::bbpe_file::ModelFault;
use zero_tokenizer::model_file::{parse_model, render_model, LoadFailure};
use zero_tokenizer::prelude::{bbpe, bpe};

#[test]
fn test_bpe_save_load_roundtrip() {
    let mut tokenizer = bpe().unwrap();
    let training_text = "Hello world! This is a test.";
    tokenizer
        .train(vec![training_text.to_string()], 300)
        .unwrap();

    let original_vocab_size = tokenizer.vocab_size();
    let original_tokens = tokenizer.encode(training_text).unwrap();

    let saved = tokenizer.save_model().unwrap();

    let mut loaded = bpe().unwrap();
    loaded.load_model(&saved).unwrap();

    assert_eq!(loaded.vocab_size(), original_vocab_size);

    let loaded_tokens = loaded.encode(training_text).unwrap();
    assert_eq!(loaded_tokens, original_tokens);

    let decoded = loaded.decode(&loaded_tokens).unwrap();
    assert_eq!(decoded, training_text);
}

#[test]
fn test_bbpe_save_load_roundtrip() {
    let mut tokenizer = bbpe().unwrap();
    let training_text = "Hello world! 你好世界！";
    tokenizer
        .train(vec![training_text.to_string()], 300)
        .unwrap();

    let original_vocab_size = tokenizer.vocab_size();
    let original_tokens = tokenizer.encode(training_text).unwrap();

    let saved = tokenizer.save_model().unwrap();

    let mut loaded = bbpe().unwrap();
    loaded.load_model(&saved).unwrap();

    assert_eq!(loaded.vocab_size(), original_vocab_size);

    let loaded_tokens = loaded.encode(training_text).unwrap();
    assert_eq!(loaded_tokens, original_tokens);

    let decoded = loaded.decode(&loaded_tokens).unwrap();
    assert_eq!(decoded, training_text);
}

#[test]
fn test_load_corrupted_file() {
    let mut tokenizer = bbpe().unwrap();
    let result = tokenizer.load_model("invalid corrupted data");

    assert!(result.is_err());
}

#[test]
fn test_save_multiple_times() {
    let mut tokenizer = bbpe().unwrap();
    tokenizer.train(vec!["test".to_string()], 300).unwrap();

    let first = tokenizer.save_model().unwrap();

    tokenizer
        .train(vec!["another test".to_string()], 300)
        .unwrap();

    let second = tokenizer.save_model().unwrap();
    assert_ne!(first, second);

    let mut loaded = bbpe().unwrap();
    loaded.load_model(&second).unwrap();

    assert_eq!(loaded.vocab_size(), tokenizer.vocab_size());
}

#[test]
fn saved_model_has_the_documented_layout() {
    let mut tokenizer = zero_tokenizer::bbpe::BBPETokenizer::with_pattern("\\w+".to_string()).unwrap();
    tokenizer.train(vec!["abab".to_string()], 300).unwrap();
    let saved = tokenizer.save_model().unwrap();
    let lines: Vec<&str> = saved.lines().collect();
    assert_eq!(lines[0], "pattern: \\w+");
    assert_eq!(lines[1], "vocab_size: 0");
    assert_eq!(lines[2], "base_chars: 0");
    assert_eq!(lines[3], "vocab: 258");
    assert_eq!(lines[4], "vocab_entry: 0 0");
    assert_eq!(lines[4 + 97], "vocab_entry: 97 97");
    assert_eq!(lines[4 + 256], "vocab_entry: 256 97 98");
    assert_eq!(lines[4 + 257], "vocab_entry: 257 97 98 97 98");
    assert_eq!(lines[262], "merges: 2");
    assert_eq!(lines[263], "merge: 97 98 256");
    assert_eq!(lines[264], "merge: 256 256 257");
    assert_eq!(lines[265], "next_token_id: 258");
    assert_eq!(lines.len(), 266);
    assert!(saved.ends_with("next_token_id: 258\n"));
}

#[test]
fn loaded_model_equals_the_saved_one() {
    let mut tokenizer = bbpe().unwrap();
    tokenizer.load_base_chars("你\n好\n");
    tokenizer
        .train(vec!["low lower lowest newer newest".to_string()], 280)
        .unwrap();
    let saved = tokenizer.save_model().unwrap();
    let mut loaded = zero_tokenizer::bbpe::BBPETokenizer::with_pattern("x".to_string()).unwrap();
    loaded.load_model(&saved).unwrap();
    assert_eq!(loaded.get_pattern(), tokenizer.get_pattern());
    assert_eq!(loaded.get_merges(), tokenizer.get_merges());
    assert_eq!(loaded.base_chars(), tokenizer.base_chars());
    assert_eq!(loaded.vocab_size(), tokenizer.vocab_size());
    for id in 0..tokenizer.vocab_size() as u32 {
        assert_eq!(loaded.get_token(id), tokenizer.get_token(id));
    }
    assert_eq!(loaded.save_model().unwrap(), saved);
    for text in ["lowest", "newer low", "", "wider 你好"] {
        assert_eq!(loaded.encode(text).unwrap(), tokenizer.encode(text).unwrap());
    }
}

fn minimal_model() -> String {
    let tokenizer = bbpe().unwrap();
    tokenizer.save_model().unwrap()
}

#[test]
fn load_tolerates_missing_optional_sections() {
    let saved = minimal_model();
    let trimmed: String = saved
        .lines()
        .filter(|line| {
            !line.starts_with("vocab_size: ")
                && !line.starts_with("base_chars: ")
                && !line.starts_with("next_token_id: ")
        })
        .map(|line| format!("{}\n", line))
        .collect();
    let mut loaded = bbpe().unwrap();
    loaded.load_model(&trimmed).unwrap();
    assert_eq!(loaded.vocab_size(), 256);
    assert_eq!(loaded.encode("x").unwrap(), vec![0x78]);
}

#[test]
fn load_names_what_is_wrong() {
    let saved = minimal_model();
    let mut tokenizer = bbpe().unwrap();

    assert_eq!(
        tokenizer.load_model("").unwrap_err(),
        "the first line does not give the pattern"
    );
    assert_eq!(
        tokenizer.load_model("pattern: a\nmerges: 0\n").unwrap_err(),
        "the section 'vocab' is missing"
    );
    let without_merges: String = saved
        .lines()
        .filter(|line| !line.starts_with("merges: ") && !line.starts_with("next_token_id: "))
        .map(|line| format!("{}\n", line))
        .collect();
    assert_eq!(
        tokenizer.load_model(&without_merges).unwrap_err(),
        "the section 'merges' is missing"
    );
    assert_eq!(
        tokenizer.load_model("pattern: a\nvocab: 3\nvocab_entry: 0 0\n").unwrap_err(),
        "the file ends inside a section"
    );
    assert_eq!(
        tokenizer.load_model("pattern: a\nvocab: 1\nvocab_entry: 0 x\nmerges: 0\n").unwrap_err(),
        "line 3 cannot be read"
    );
    assert_eq!(
        tokenizer.load_model("pattern: a\nvocab: one\n").unwrap_err(),
        "line 2 cannot be read"
    );
    assert_eq!(
        tokenizer.load_model("pattern: (\nvocab: 0\nmerges: 0\n").unwrap_err(),
        "the pattern of the file does not compile"
    );
    assert_eq!(
        tokenizer.load_model("pattern: a\nvocab: 1\nvocab_entry: 5 0\nmerges: 0\n").unwrap_err(),
        "entry 0 of the section 'vocab' is not in order"
    );
    assert_eq!(
        tokenizer.load_model("pattern: a\nvocab: 1\nvocab_entry: 0 0\nmerges: 0\n").unwrap_err(),
        "the section 'vocab' does not begin with the 256 bytes"
    );
    let bad_rule = saved.replace("merges: 0\n", "merges: 1\nmerge: 1 2 3\n");
    assert_eq!(
        tokenizer.load_model(&bad_rule).unwrap_err(),
        "rule 0 of the section 'merges' does not fit the vocabulary"
    );
    let bad_next = saved.replace("next_token_id: 256", "next_token_id: 300");
    assert_eq!(
        tokenizer.load_model(&bad_next).unwrap_err(),
        "the next free id is not the number of entries"
    );
    let trailing = format!("{}more\n", saved);
    assert_eq!(tokenizer.load_model(&trailing).unwrap_err(), "line 263 cannot be read");

    // Nothing of this has changed the tokenizer.
    assert_eq!(tokenizer.vocab_size(), 256);
    assert_eq!(tokenizer.save_model().unwrap(), saved);
}

#[test]
fn model_file_reads_what_it_wrote() {
    let text = "pattern: a b\nvocab_size: 2\nhello 1\nwide world 2\nbase_chars: 1\nbase_char: 你\nvocab: 1\nvocab_entry: 7 1 2 3\nmerges: 1\nmerge: 1 2 3\nnext_token_id: 9\n";
    let chars: Vec<char> = text.chars().collect();
    let file = parse_model(&chars).unwrap();
    assert_eq!(file.pattern, "a b".chars().collect::<Vec<char>>());
    assert_eq!(
        file.tokens,
        vec!["hello 1".chars().collect::<Vec<char>>(), "wide world 2".chars().collect()]
    );
    assert_eq!(file.base_chars, vec![vec!['你']]);
    assert_eq!(file.vocab, vec![vec![7, 1, 2, 3]]);
    assert_eq!(file.merges, vec![vec![1, 2, 3]]);
    assert_eq!(file.next_token_id, Some(9));
    let written: String = render_model(&file).into_iter().collect();
    assert_eq!(written, text);

    let without_end: Vec<char> = text.trim_end().chars().collect();
    assert_eq!(parse_model(&without_end).unwrap().next_token_id, Some(9));
    let cut: Vec<char> = "pattern: a\nvocab: 2\nvocab_entry: 1 2\n\n".chars().collect();
    assert_eq!(parse_model(&cut).unwrap_err(), LoadFailure::BadLine { line: 4 });
    let short: Vec<char> = "pattern: a\nvocab: 2\nvocab_entry: 1 2\n".chars().collect();
    assert_eq!(parse_model(&short).unwrap_err(), LoadFailure::Truncated);
    let broken: Vec<char> = "pattern: a\nvocab: 1\nvocab_entry: 1  2\n".chars().collect();
    assert_eq!(parse_model(&broken).unwrap_err(), LoadFailure::BadLine { line: 3 });
    let huge: Vec<char> = "pattern: a\nvocab: 99999999999999999999\n".chars().collect();
    assert_eq!(parse_model(&huge).unwrap_err(), LoadFailure::BadLine { line: 2 });
    let none: Vec<char> = "no pattern".chars().collect();
    assert_eq!(parse_model(&none).unwrap_err(), LoadFailure::MissingPattern);
    assert_ne!(ModelFault::BadPattern, ModelFault::BadNextId);
}

#[test]
fn a_pattern_with_a_line_feed_is_not_saved() {
    let tokenizer = zero_tokenizer::bbpe::BBPETokenizer::with_pattern("a\nb".to_string()).unwrap();
    assert_eq!(
        tokenizer.save_model().unwrap_err(),
        "the pattern or a base character holds a line feed"
    );
    let tokenizer = zero_tokenizer::bpe::Tokenizer::with_pattern("a\nb".to_string()).unwrap();
    assert!(tokenizer.save_model().is_err());
}

fn with_entries_reversed(saved: &str) -> String {
    let lines: Vec<&str> = saved.lines().collect();
    let first = lines.iter().position(|l| l.starts_with("vocab_entry: ")).unwrap();
    let last = lines.iter().rposition(|l| l.starts_with("vocab_entry: ")).unwrap();
    let mut shuffled: Vec<&str> = lines[..first].to_vec();
    shuffled.extend(lines[first..=last].iter().rev());
    shuffled.extend(&lines[last + 1..]);
    let mut text = shuffled.join("\n");
    text.push('\n');
    text
}

#[test]
fn entries_of_the_vocabulary_may_stand_in_any_order() {
    let mut tokenizer = bbpe().unwrap();
    tokenizer.train(vec!["abab abab".to_string()], 258).unwrap();
    let saved = tokenizer.save_model().unwrap();
    let shuffled = with_entries_reversed(&saved);
    assert_ne!(shuffled, saved);
    let mut loaded = bbpe().unwrap();
    loaded.load_model(&shuffled).unwrap();
    assert_eq!(loaded.save_model().unwrap(), saved);
    assert_eq!(loaded.encode("abab").unwrap(), tokenizer.encode("abab").unwrap());

    let mut chars = bpe().unwrap();
    chars.train(vec!["abab é".to_string()], 0x110002).unwrap();
    let saved = chars.save_model().unwrap();
    let shuffled = with_entries_reversed(&saved);
    assert_ne!(shuffled, saved);
    let mut loaded = bpe().unwrap();
    loaded.load_model(&shuffled).unwrap();
    assert_eq!(loaded.save_model().unwrap(), saved);
}

#[test]
fn an_id_that_stands_twice_is_refused() {
    let mut tokenizer = bbpe().unwrap();
    let saved = minimal_model();
    let twice = saved.replace("vocab_entry: 7 7\n", "vocab_entry: 6 7\n");
    assert_ne!(twice, saved);
    assert_eq!(
        tokenizer.load_model(&twice).unwrap_err(),
        "entry 7 of the section 'vocab' has no id or repeats one"
    );
    let mut chars = bpe().unwrap();
    let text = "pattern: a\nvocab: 2\nvocab_entry: 98 98\nvocab_entry: 98 98\nmerges: 0\n";
    assert_eq!(
        chars.load_model(text).unwrap_err(),
        "entry 1 of the section 'vocab' has no id or repeats one"
    );
    let text = "pattern: a\nvocab: 2\nvocab_entry: 98 98\nvocab_entry:\nmerges: 0\n";
    assert!(chars.load_model(text).is_err());
    let text = "pattern: a\nvocab: 2\nvocab_entry: 98 98\nvocab_entry: 97 97\nmerges: 0\n";
    chars.load_model(text).unwrap();
    assert_eq!(chars.vocab_size(), 2);
}
