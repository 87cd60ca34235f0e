use std::collections::HashMap;
use zero_tokenizer::vocab_manager::VocabManager;

#[test]
fn test_basic_operations() {
    let mut vocab = VocabManager::<u32, String>::new();

    assert_eq!(vocab.insert(0, "hello".to_string()), None);
    assert_eq!(vocab.insert(1, "world".to_string()), None);

    assert_eq!(vocab.get_by_id(&0), Some(&"hello".to_string()));
    assert_eq!(vocab.get_by_value(&"hello".to_string()), Some(&0));

    assert_eq!(vocab.len(), 2);
    assert!(!vocab.is_empty());
}

#[test]
fn test_overwrite() {
    let mut vocab = VocabManager::<u32, String>::new();

    vocab.insert(0, "hello".to_string());
    vocab.insert(0, "world".to_string());

    assert_eq!(vocab.get_by_id(&0), Some(&"world".to_string()));
    assert_eq!(vocab.get_by_value(&"world".to_string()), Some(&0));
    assert_eq!(vocab.get_by_value(&"hello".to_string()), None);
    assert_eq!(vocab.len(), 1);
}

#[test]
fn test_remove() {
    let mut vocab = VocabManager::<u32, String>::new();

    vocab.insert(0, "hello".to_string());
    vocab.insert(1, "world".to_string());

    assert_eq!(vocab.remove_by_id(&0), Some("hello".to_string()));
    assert_eq!(vocab.get_by_id(&0), None);
    assert_eq!(vocab.get_by_value(&"hello".to_string()), None);

    assert_eq!(vocab.remove_by_value(&"world".to_string()), Some(1));
    assert_eq!(vocab.len(), 0);
}

#[test]
fn test_validation() {
    let mut vocab = VocabManager::<u32, String>::new();

    vocab.insert(0, "hello".to_string());
    vocab.insert(1, "world".to_string());

    assert!(vocab.validate().is_ok());
}

#[test]
fn test_from_id_map() {
    let mut map = HashMap::new();
    map.insert(0u32, "hello".to_string());
    map.insert(1u32, "world".to_string());

    let vocab = VocabManager::from_id_map(map);

    assert_eq!(vocab.len(), 2);
    assert_eq!(vocab.get_by_id(&0), Some(&"hello".to_string()));
    assert_eq!(vocab.get_by_value(&"world".to_string()), Some(&1));
    assert!(vocab.validate().is_ok());
}

#[test]
fn test_with_vec_u8() {
    let mut vocab = VocabManager::<u32, Vec<u8>>::new();

    vocab.insert(0, vec![72, 105]);
    vocab.insert(1, vec![66, 121]);

    assert_eq!(vocab.get_by_id(&0), Some(&vec![72, 105]));
    assert_eq!(vocab.get_by_value(&vec![66, 121]), Some(&1));
    assert!(vocab.validate().is_ok());
}

#[test]
fn insert_removes_what_stands_in_the_way() {
    let mut vocab = VocabManager::<u32, String>::new();
    vocab.insert(0, "a".to_string());
    vocab.insert(1, "b".to_string());
    vocab.insert(2, "c".to_string());
    // Id 0 takes the token of id 1: the old token of 0 and the old id of "b" go.
    assert_eq!(vocab.insert(0, "b".to_string()), Some("a".to_string()));
    assert_eq!(vocab.len(), 2);
    assert_eq!(vocab.get_by_id(&0), Some(&"b".to_string()));
    assert_eq!(vocab.get_by_id(&1), None);
    assert_eq!(vocab.get_by_value(&"a".to_string()), None);
    assert_eq!(vocab.get_by_value(&"b".to_string()), Some(&0));
    assert!(vocab.validate().is_ok());
    // The same pair again changes nothing.
    assert_eq!(vocab.insert(0, "b".to_string()), Some("b".to_string()));
    assert_eq!(vocab.len(), 2);
    // A fresh id for a token that is taken moves the token.
    assert_eq!(vocab.insert(9, "c".to_string()), None);
    assert_eq!(vocab.get_by_id(&2), None);
    assert_eq!(vocab.get_by_value(&"c".to_string()), Some(&9));
    assert_eq!(vocab.len(), 2);
    assert!(vocab.validate().is_ok());
}

#[test]
fn vocabulary_lists_and_clears() {
    let mut vocab = VocabManager::<u32, Vec<u8>>::with_capacity(4);
    assert!(vocab.is_empty());
    vocab.insert(3, vec![1]);
    vocab.insert(1, vec![2, 3]);
    assert!(vocab.contains_id(&3));
    assert!(!vocab.contains_id(&2));
    assert!(vocab.contains_value(&vec![2, 3]));
    assert!(!vocab.contains_value(&vec![2]));
    assert_eq!(vocab.ids(), vec![3, 1]);
    assert_eq!(vocab.values(), vec![vec![1], vec![2, 3]]);
    assert_eq!(vocab.iter(), vec![(3, vec![1]), (1, vec![2, 3])]);
    assert_eq!(vocab.remove_by_id(&7), None);
    assert_eq!(vocab.remove_by_value(&vec![9]), None);
    assert_eq!(vocab.remove_by_value(&vec![1]), Some(3));
    assert_eq!(vocab.ids(), vec![1]);
    assert!(vocab.validate().is_ok());
    vocab.clear();
    assert!(vocab.is_empty());
    assert_eq!(vocab.len(), 0);
    assert!(vocab.validate().is_ok());
    let fresh: VocabManager<u32, String> = VocabManager::default();
    assert!(fresh.is_empty());
}

#[test]
fn from_id_map_keeps_one_id_for_each_token() {
    let mut map = HashMap::new();
    map.insert(0u32, "same".to_string());
    map.insert(1u32, "same".to_string());
    map.insert(2u32, "other".to_string());
    let vocab = VocabManager::from_id_map(map);
    assert_eq!(vocab.len(), 2);
    assert!(vocab.validate().is_ok());
    assert_eq!(vocab.get_by_id(&2), Some(&"other".to_string()));
    let id = *vocab.get_by_value(&"same".to_string()).unwrap();
    assert!(id == 0 || id == 1);
}

#[test]
fn maps_of_a_vocabulary_hold_every_pair() {
    let mut vocab: VocabManager<u32, String> = VocabManager::new();
    vocab.insert(3, "c".to_string());
    vocab.insert(1, "a".to_string());
    vocab.insert(2, "b".to_string());
    vocab.insert(3, "a".to_string());
    let by_id = vocab.id_map();
    assert_eq!(by_id.len(), 2);
    assert_eq!(by_id.get(&2), Some(&"b".to_string()));
    assert_eq!(by_id.get(&3), Some(&"a".to_string()));
    assert_eq!(by_id.get(&1), None);
    let mut by_value = vocab.value_map();
    by_value.sort();
    assert_eq!(by_value, vec![("a".to_string(), 3), ("b".to_string(), 2)]);
}
