use zero_tokenizer::base_file::{read_entry, read_tokens};
use zero_tokenizer::text::chars_of;
use zero_tokenizer::tokenizer_base::TokenizerBase;

#[test]
fn base_is_written_with_one_line_for_each_token() {
    let mut base = TokenizerBase::<u32>::with_pattern("\\w+".to_string()).unwrap();
    base.add_token("hello", 7).unwrap();
    base.add_token("wide world", 12).unwrap();
    let saved = base.save().unwrap();
    assert_eq!(
        saved,
        "pattern: \\w+\nvocab_size: 2\nhello 7\nwide world 12\nbase_chars: 0\nvocab: 0\nmerges: 0\n"
    );
}

#[test]
fn base_is_read_back_as_it_was_written() {
    let mut base = TokenizerBase::<u32>::with_pattern("\\w+|\\s+".to_string()).unwrap();
    base.add_token("a", 1).unwrap();
    base.add_token("b c", 2).unwrap();
    base.add_token("", 3).unwrap();
    let saved = base.save().unwrap();
    let mut loaded = TokenizerBase::<u32>::new().unwrap();
    loaded.load(&saved).unwrap();
    assert_eq!(loaded.pattern().source(), "\\w+|\\s+");
    assert_eq!(loaded.vocab_size(), 3);
    assert_eq!(loaded.get_token(&1), Some(&"a".to_string()));
    assert_eq!(loaded.get_token(&2), Some(&"b c".to_string()));
    assert_eq!(loaded.get_token(&3), Some(&"".to_string()));
    assert_eq!(loaded.get_token_id("b c"), Some(&2));
    assert_eq!(loaded.save().unwrap(), saved);
}

#[test]
fn base_with_a_line_feed_is_not_written() {
    let mut base = TokenizerBase::<u32>::new().unwrap();
    base.add_token("two\nlines", 1).unwrap();
    assert_eq!(
        base.save().unwrap_err(),
        "the pattern or a token holds a line feed"
    );
}

#[test]
fn base_load_names_the_line_at_fault_and_changes_nothing() {
    let mut base = TokenizerBase::<u32>::with_pattern("\\d+".to_string()).unwrap();
    base.add_token("kept", 5).unwrap();
    let no_id = "pattern: \\w+\nvocab_size: 2\nhello 7\nworld\nvocab: 0\nmerges: 0\n";
    assert_eq!(
        base.load(no_id).unwrap_err(),
        "token line 1 is not a token and an id"
    );
    let bad_id = "pattern: \\w+\nvocab_size: 2\nhello 7\nworld x\nvocab: 0\nmerges: 0\n";
    assert!(base.load(bad_id).is_err());
    let negative = "pattern: \\w+\nvocab_size: 1\nhello -7\nvocab: 0\nmerges: 0\n";
    assert!(base.load(negative).is_err());
    let bad_pattern = "pattern: (\nvocab_size: 0\nvocab: 0\nmerges: 0\n";
    assert!(base.load(bad_pattern).is_err());
    assert!(base.load("").is_err());
    assert_eq!(base.pattern().source(), "\\d+");
    assert_eq!(base.vocab_size(), 1);
    assert_eq!(base.get_token(&5), Some(&"kept".to_string()));
}

#[test]
fn later_lines_replace_earlier_ones() {
    let text = "pattern: \\w+\nvocab_size: 3\nhello 7\nhello 8\nworld 8\nvocab: 0\nmerges: 0\n";
    let mut base = TokenizerBase::<u32>::new().unwrap();
    base.load(text).unwrap();
    assert_eq!(base.vocab_size(), 1);
    assert_eq!(base.get_token(&8), Some(&"world".to_string()));
    assert_eq!(base.get_token_id("hello"), None);
    assert!(base.vocab().validate().is_ok());
}

#[test]
fn token_lines_split_at_the_last_space() {
    assert_eq!(
        read_entry(&chars_of("a b 12")),
        Some((12, "a b".to_string()))
    );
    assert_eq!(read_entry(&chars_of(" 0")), Some((0, "".to_string())));
    assert_eq!(read_entry(&chars_of("12")), None);
    assert_eq!(read_entry(&chars_of("a ")), None);
    assert_eq!(read_entry(&chars_of("a 4294967296")), None);
    assert_eq!(
        read_entry(&chars_of("a 4294967295")),
        Some((4294967295, "a".to_string()))
    );
    let lines = vec![chars_of("a 1"), chars_of("b"), chars_of("c")];
    assert_eq!(read_tokens(&lines).unwrap_err(), 1);
}
