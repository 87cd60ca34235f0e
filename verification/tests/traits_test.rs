use zero_tokenizer::pairs::MergeRule;
use zero_tokenizer::prelude::{bbpe, bpe, MergeBasedTokenizer, Tokenizer, BBPE, BPE};

fn encode_with<T: Tokenizer<TokenId = u32>>(tokenizer: &T, text: &str) -> Vec<u32> {
    tokenizer.encode(text).unwrap()
}

fn retrain<T: MergeBasedTokenizer>(tokenizer: &mut T, texts: &[&str], size: u32) -> usize {
    let texts: Vec<String> = texts.iter().map(|t| t.to_string()).collect();
    Tokenizer::train(tokenizer, texts, size).unwrap();
    MergeBasedTokenizer::get_merges(tokenizer).len()
}

#[test]
fn tokenizers_work_through_the_common_trait() {
    let mut bytes: BBPE = bbpe().unwrap();
    let mut chars: BPE = bpe().unwrap();
    assert_eq!(retrain(&mut bytes, &["abab abab"], 258), 2);
    assert!(retrain(&mut chars, &["abab abab"], 4) <= 4);
    let ids = encode_with(&bytes, "abab");
    assert_eq!(Tokenizer::decode(&bytes, &ids).unwrap(), "abab");
    let ids = encode_with(&chars, "abab");
    assert_eq!(Tokenizer::decode(&chars, &ids).unwrap(), "abab");
    assert_eq!(encode_with(&bytes, ""), Vec::<u32>::new());
    assert_eq!(Tokenizer::decode(&chars, &[]).unwrap(), "");
    let saved = Tokenizer::save(&bytes).unwrap();
    let mut other = bbpe().unwrap();
    Tokenizer::load(&mut other, &saved).unwrap();
    assert_eq!(Tokenizer::vocab_size(&other), Tokenizer::vocab_size(&bytes));
    assert_eq!(encode_with(&other, "abab abab"), encode_with(&bytes, "abab abab"));
}

#[test]
fn merges_are_applied_through_the_trait() {
    let mut tokenizer = bbpe().unwrap();
    Tokenizer::train(&mut tokenizer, vec!["abab abab".to_string()], 258).unwrap();
    let mut ids: Vec<u32> = vec![97, 98, 97, 98, 97];
    MergeBasedTokenizer::apply_merges(&mut tokenizer, &mut ids).unwrap();
    assert_eq!(ids, vec![257, 97]);
}

#[test]
fn set_merges_takes_rules_that_fit_the_vocabulary() {
    let mut tokenizer = bbpe().unwrap();
    tokenizer
        .train(vec!["abab abab".to_string()], 258)
        .unwrap();
    let learned = tokenizer.get_merges().clone();
    assert_eq!(learned.len(), 2);
    let first = vec![learned[0]];
    tokenizer.set_merges(first.clone()).unwrap();
    assert_eq!(tokenizer.get_merges(), &first);
    let mut ids: Vec<u32> = vec![97, 98, 97, 98];
    tokenizer.apply_merges(&mut ids);
    assert_eq!(ids, vec![256, 256]);
    tokenizer.set_merges(Vec::new()).unwrap();
    assert_eq!(tokenizer.encode("ab").unwrap(), vec![97, 98]);
}

#[test]
fn set_merges_refuses_rules_that_do_not_fit() {
    let mut tokenizer = bbpe().unwrap();
    tokenizer
        .train(vec!["abab abab".to_string()], 258)
        .unwrap();
    let learned = tokenizer.get_merges().clone();
    let unknown = vec![MergeRule { left: 97, right: 98, new_id: 999 }];
    assert_eq!(
        tokenizer.set_merges(unknown).unwrap_err(),
        "the rules do not fit the vocabulary"
    );
    let wrong_parts = vec![MergeRule { left: 98, right: 97, new_id: 256 }];
    assert!(tokenizer.set_merges(wrong_parts).is_err());
    assert_eq!(tokenizer.get_merges(), &learned);
    let mut chars = bpe().unwrap();
    let rule = vec![MergeRule { left: 97, right: 98, new_id: 0x110000 }];
    assert!(MergeBasedTokenizer::set_merges(&mut chars, rule).is_err());
}
