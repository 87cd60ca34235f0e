use std::collections::HashSet;
use zero_tokenizer::entry_order::arrange;
use zero_tokenizer::learner::{count_pairs, MergeLearner};
use zero_tokenizer::merge_job::{rising, MergeJob};
use zero_tokenizer::merges::MergeTable;
use zero_tokenizer::pair_counts::PairCounts;
use zero_tokenizer::pairs::{pack_pair, unpack_pair, MergeRule};
use zero_tokenizer::text::{
    chars_of, decimal_string, parse_number, read_list, split_chars, trim_chars,
};
use zero_tokenizer::tokenizer_base::TokenizerBase;
use zero_tokenizer::word::Word;

fn same(a: &u32, b: &u32) -> bool {
    a == b
}

#[test]
fn word_pairs_are_the_adjacent_ids() {
    let word = Word::new(vec![1u32, 2, 3, 2]);
    assert_eq!(word.pairs(), vec![(1, 2), (2, 3), (3, 2)]);
    assert_eq!(word.ids(), &[1, 2, 3, 2]);
    assert_eq!(Word::new(vec![7u32]).pairs(), vec![]);
    assert_eq!(Word::<u32>::new(vec![]).pairs(), vec![]);
}

#[test]
fn word_merge_reports_the_neighbours() {
    let mut word = Word::new(vec![5u32, 1, 2, 6, 1, 2]);
    let deltas = word.merge_pair((1, 2), 9, same);
    assert_eq!(word.ids, vec![5, 9, 6, 9]);
    assert_eq!(
        deltas,
        vec![
            ((5, 1), -1),
            ((2, 6), -1),
            ((5, 9), 1),
            ((9, 6), 1),
            ((6, 1), -1),
            ((6, 9), 1),
        ]
    );
}

#[test]
fn word_merge_of_a_run_takes_pairs_from_the_left() {
    let mut word = Word::new(vec![1u32, 1, 1, 1]);
    let deltas = word.merge_pair((1, 1), 7, same);
    assert_eq!(word.ids, vec![7, 7]);
    assert_eq!(
        deltas,
        vec![((1, 1), -1), ((7, 1), 1), ((7, 1), -1), ((7, 7), 1)]
    );

    let mut odd = Word::new(vec![1u32, 1, 1, 1, 1]);
    odd.merge_pair((1, 1), 7, same);
    assert_eq!(odd.ids, vec![7, 7, 1]);
}

#[test]
fn word_merge_leaves_short_words_alone() {
    let mut empty = Word::<u32>::new(vec![]);
    assert_eq!(empty.merge_pair((1, 2), 3, same), vec![]);
    assert_eq!(empty.ids, Vec::<u32>::new());
    let mut single = Word::new(vec![1u32]);
    assert_eq!(single.merge_pair((1, 2), 3, same), vec![]);
    assert_eq!(single.ids, vec![1]);
    let mut word = Word::new(vec![1u32, 2]);
    word.ids_mut().push(3);
    assert_eq!(word.ids, vec![1, 2, 3]);
}

#[test]
fn merge_job_collects_positions() {
    let mut job = MergeJob::new((1u32, 2u32), 5);
    assert_eq!(job.pair, (1, 2));
    assert_eq!(job.count, 5);
    assert!(job.pos.is_empty());
    job.add_position(9);
    job.add_positions(&[3, 9, 1, 3]);
    assert_eq!(job.pos.len(), 3);
    assert_eq!(job.sorted_positions(), vec![1, 3, 9]);
}

#[test]
fn pair_keys_lose_nothing() {
    assert_eq!(pack_pair((1, 2)), 0x1_0000_0002);
    assert_eq!(pack_pair((u32::MAX, 0)), 0xffff_ffff_0000_0000);
    assert_eq!(unpack_pair(0x1_0000_0002), (1, 2));
    assert_eq!(unpack_pair(pack_pair((77, u32::MAX))), (77, u32::MAX));
}

#[test]
fn pair_counts_drop_what_is_not_positive() {
    let mut counts = PairCounts::new();
    assert_eq!(counts.add((1, 2), 3), 3);
    assert_eq!(counts.add((1, 2), -1), 2);
    assert_eq!(counts.get((1, 2)), Some(2));
    assert_eq!(counts.len(), 1);
    assert_eq!(counts.add((1, 2), -2), 0);
    assert_eq!(counts.get((1, 2)), None);
    assert_eq!(counts.add((3, 4), -5), -5);
    assert_eq!(counts.get((3, 4)), None);
    assert_eq!(counts.len(), 0);
}

#[test]
fn first_sweep_counts_weighted_pairs() {
    let words = vec![Word::new(vec![1u32, 2, 1, 2]), Word::new(vec![2u32, 1]), Word::new(vec![3u32])];
    let counts = vec![2, 5, 9];
    let tally = count_pairs(&words, &counts);
    assert_eq!(tally.len(), 2);
    assert_eq!(tally.entry(0).pair, (1, 2));
    assert_eq!(tally.entry(0).delta, 4);
    assert_eq!(tally.entry(0).positions, vec![0]);
    assert_eq!(tally.entry(1).pair, (2, 1));
    assert_eq!(tally.entry(1).delta, 7);
    assert_eq!(tally.entry(1).positions, vec![0, 1]);
}

#[test]
fn learner_merges_by_count_then_pair() {
    let words = vec![Word::new(vec![1u32, 2, 1, 2]), Word::new(vec![2u32, 1]), Word::new(vec![3u32])];
    let mut learner = MergeLearner::new(words, vec![2, 5, 9], 10);
    assert_eq!(learner.live_count((1, 2)), Some(4));
    assert_eq!(learner.live_count((2, 1)), Some(7));
    // (2, 1) has the higher count: it goes first, in both words that hold it.
    assert_eq!(
        learner.next_merge(),
        Some(MergeRule { left: 2, right: 1, new_id: 10 })
    );
    assert_eq!(learner.words()[0].ids, vec![1, 10, 2]);
    assert_eq!(learner.words()[1].ids, vec![10]);
    assert_eq!(learner.live_count((1, 2)), None);
    assert_eq!(learner.live_count((1, 10)), Some(2));
    assert_eq!(learner.live_count((10, 2)), Some(2));
    // The merged pair keeps its count: nothing reports its own loss.
    assert_eq!(learner.live_count((2, 1)), Some(7));
    assert_eq!(learner.merges_done(), 1);
    // Of two pairs with the same count the smaller goes first.
    assert_eq!(
        learner.next_merge(),
        Some(MergeRule { left: 1, right: 10, new_id: 11 })
    );
    assert_eq!(learner.words()[0].ids, vec![11, 2]);
    assert_eq!(
        learner.next_merge(),
        Some(MergeRule { left: 11, right: 2, new_id: 12 })
    );
    assert_eq!(learner.words()[0].ids, vec![12]);
    assert_eq!(learner.next_merge(), None);
    assert_eq!(learner.merges_done(), 3);
}

#[test]
fn learner_run_stops_at_the_budget_or_the_empty_queue() {
    let words = vec![Word::new(vec![1u32, 2, 1, 2])];
    let mut learner = MergeLearner::new(words, vec![1], 5);
    assert_eq!(learner.run(1), vec![MergeRule { left: 1, right: 2, new_id: 5 }]);
    assert_eq!(learner.run(0), vec![]);
    assert_eq!(learner.run(9), vec![MergeRule { left: 5, right: 5, new_id: 6 }]);
    assert_eq!(learner.run(9), vec![]);

    let mut nothing = MergeLearner::new(vec![Word::new(vec![1u32]), Word::new(vec![])], vec![3, 4], 5);
    assert_eq!(nothing.run(10), vec![]);
}

#[test]
fn merge_table_applies_rules_greedily() {
    let mut table = MergeTable::new();
    table.push(MergeRule { left: 1, right: 2, new_id: 10 });
    table.push(MergeRule { left: 10, right: 3, new_id: 11 });
    table.push(MergeRule { left: 1, right: 2, new_id: 12 });
    assert_eq!(table.len(), 3);
    assert_eq!(table.lookup((1, 2)), Some(12));
    assert_eq!(table.lookup((2, 1)), None);
    assert_eq!(table.pass(&vec![1, 2, 3, 1, 2]), vec![12, 3, 12]);
    let mut ids = vec![10, 3, 1, 2, 2];
    table.apply(&mut ids);
    assert_eq!(ids, vec![11, 12, 2]);
    let mut empty: Vec<u32> = vec![];
    table.apply(&mut empty);
    assert!(empty.is_empty());
    table.clear();
    assert_eq!(table.len(), 0);
    assert_eq!(table.lookup((1, 2)), None);
}

#[test]
fn numbers_are_written_and_read() {
    assert_eq!(decimal_string(0), "0");
    assert_eq!(decimal_string(7), "7");
    assert_eq!(decimal_string(1234567890), "1234567890");
    assert_eq!(decimal_string(u64::MAX), "18446744073709551615");
    assert_eq!(parse_number(&chars_of("18446744073709551615")), Some(u64::MAX));
    assert_eq!(parse_number(&chars_of("18446744073709551616")), None);
    assert_eq!(parse_number(&chars_of("007")), Some(7));
    assert_eq!(parse_number(&chars_of("")), None);
    assert_eq!(parse_number(&chars_of("1 2")), None);
    assert_eq!(parse_number(&chars_of("-1")), None);
}

#[test]
fn texts_are_split_and_trimmed() {
    let pieces = split_chars(&chars_of("a,,b,"), ',');
    assert_eq!(pieces, vec![vec!['a'], vec![], vec!['b'], vec![]]);
    assert_eq!(split_chars(&chars_of(""), ','), vec![Vec::<char>::new()]);
    assert_eq!(trim_chars(&chars_of(" \t a b \r\n")), vec!['a', ' ', 'b']);
    assert_eq!(trim_chars(&chars_of("   ")), Vec::<char>::new());
    assert_eq!(
        read_list("one\n\n  two words \r\n\t\nthree"),
        vec![chars_of("one"), chars_of("two words"), chars_of("three")]
    );
}

#[test]
fn tokenizer_base_keeps_tokens_and_ids_apart() {
    let mut base = TokenizerBase::<u32>::with_pattern("\\w+".to_string()).unwrap();
    assert_eq!(base.vocab_size(), 0);
    base.add_token("hello", 1).unwrap();
    assert_eq!(
        base.add_token("hello", 2).unwrap_err(),
        "token 'hello' is already in the vocabulary"
    );
    assert_eq!(
        base.add_token("world", 1).unwrap_err(),
        "id 1 is already in the vocabulary"
    );
    base.add_token("world", 2).unwrap();
    assert_eq!(base.get_token_id("world"), Some(&2));
    assert_eq!(base.get_token_id("none"), None);
    assert_eq!(base.get_token(&1), Some(&"hello".to_string()));
    assert_eq!(base.get_token(&3), None);
    assert_eq!(base.vocab_size(), 2);
    assert!(base.vocab().validate().is_ok());
    assert_eq!(
        base.split_text("hello, wide world").unwrap(),
        vec!["hello", "wide", "world"]
    );
    assert_eq!(base.pattern().source(), "\\w+");
}

#[test]
fn splitting_falls_back_to_whitespace() {
    let base = TokenizerBase::<u32>::with_pattern("\\d+".to_string()).unwrap();
    assert_eq!(base.split_text("ab  cd\tef").unwrap(), vec!["ab", "cd", "ef"]);
    assert_eq!(base.split_text("ab 12").unwrap(), vec!["12"]);
    assert_eq!(base.split_text("").unwrap(), Vec::<String>::new());
    let default = TokenizerBase::<u32>::new().unwrap();
    assert_eq!(
        default.split_text("Hello world's 1234!").unwrap(),
        vec!["Hello", " world", "'s", " ", "123", "4", "!"]
    );
}

#[test]
fn merge_jobs_rank_by_count_then_pair() {
    let high = MergeJob::new((5u32, 6u32), 9);
    let low = MergeJob::new((1u32, 2u32), 3);
    let low_later = MergeJob::new((1u32, 3u32), 3);
    let mut low_again = MergeJob::new((1u32, 2u32), 3);
    low_again.add_position(4);
    assert!(high.goes_before(&low));
    assert!(!low.goes_before(&high));
    assert!(low.goes_before(&low_later));
    assert!(!low_later.goes_before(&low));
    assert!(!low.goes_before(&low_again));
    assert!(low.same_rank(&low_again));
    assert!(!low.same_rank(&low_later));
    assert!(!low.same_rank(&high));
}

#[test]
fn trimming_takes_every_kind_of_white_space() {
    assert_eq!(trim_chars(&chars_of("\u{3000}汉 字\u{a0}\u{2003}")), chars_of("汉 字"));
    assert_eq!(trim_chars(&chars_of("\u{200b}a")), chars_of("\u{200b}a"));
    assert_eq!(
        read_list("\u{3000}汉\n\u{2028}\n字\u{85}\n"),
        vec![chars_of("汉"), chars_of("字")]
    );
}

#[test]
fn a_base_without_tokens_is_an_empty_vocabulary() {
    let mut base = TokenizerBase::<u32>::new().unwrap();
    base.add_token("a", 1).unwrap();
    base.add_token("b", 2).unwrap();
    base.clear_vocab();
    assert_eq!(base.vocab_size(), 0);
    assert_eq!(base.get_token(&1), None);
    base.add_token("a", 2).unwrap();
    assert_eq!(base.get_token_id("a"), Some(&2));
}

#[test]
fn learner_takes_ids_above_the_first_free_id() {
    let words = vec![Word::new(vec![300u32, 301, 300, 301])];
    let mut learner = MergeLearner::new(words, vec![2], 10);
    assert_eq!(
        learner.run(3),
        vec![
            MergeRule { left: 300, right: 301, new_id: 10 },
            MergeRule { left: 10, right: 10, new_id: 11 },
        ]
    );
    assert_eq!(learner.words()[0].ids, vec![11]);
    assert_eq!(learner.merges_done(), 2);
}

#[test]
fn rows_are_arranged_by_rising_ids() {
    let rows = vec![vec![7, 1, 2], vec![3], vec![5, 9]];
    assert_eq!(
        arrange(&rows).unwrap(),
        vec![vec![3], vec![5, 9], vec![7, 1, 2]]
    );
    assert_eq!(arrange(&Vec::new()).unwrap(), Vec::<Vec<u64>>::new());
    assert_eq!(arrange(&vec![vec![1], vec![2], vec![1, 5]]).unwrap_err(), 2);
    assert_eq!(arrange(&vec![vec![1], vec![]]).unwrap_err(), 1);
    assert_eq!(arrange(&vec![vec![4294967296]]).unwrap_err(), 0);
    assert_eq!(arrange(&vec![vec![4294967295]]).unwrap(), vec![vec![4294967295]]);
}

#[test]
fn numbers_of_a_set_are_listed_rising() {
    let set: HashSet<usize> = [9, 2, 7, 0, 2].into_iter().collect();
    assert_eq!(rising(&set), vec![0, 2, 7, 9]);
    assert_eq!(rising(&HashSet::new()), Vec::<usize>::new());
}
