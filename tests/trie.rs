use word_unscrambler::trie::{build_dictionary, DictionaryError, Trie};

#[test]
fn test_insert_into_trie() {
    let mut trie = Trie::new();
    let words = ["apple", "app", "banana", "bat", "ball"];

    for word in words {
        trie.insert(word).unwrap();
    }

    assert!(trie.search("apple").unwrap());
    assert!(trie.search("app").unwrap());
    assert!(trie.search("banana").unwrap());
    assert!(!trie.search("ban").unwrap());
    assert!(!trie.search("b").unwrap());
    assert!(trie.search("ball").unwrap());
    assert!(trie.starts_with("b").unwrap());
    assert!(trie.starts_with("ba").unwrap());
    assert!(trie.starts_with("ball").unwrap());
    assert!(!trie.starts_with("ballistic").unwrap());
    assert!(!trie.starts_with("cackle").unwrap());
}

#[test]
fn insert_folds_case() {
    let mut trie = Trie::new();
    trie.insert("Apple").unwrap();
    assert_eq!(trie.search("apple"), Ok(true));
    assert_eq!(trie.search("APPLE"), Ok(true));
    assert_eq!(trie.starts_with("aPp"), Ok(true));
}

#[test]
fn empty_prefix_always_counts() {
    let mut trie = Trie::new();
    assert_eq!(trie.starts_with(""), Ok(true));
    assert_eq!(trie.search(""), Ok(false));
    trie.insert("cat").unwrap();
    assert_eq!(trie.starts_with(""), Ok(true));
}

#[test]
fn every_prefix_of_an_inserted_word_is_a_prefix() {
    let mut trie = Trie::new();
    trie.insert("electric").unwrap();
    let word = "electric";
    for k in 0..=word.len() {
        assert_eq!(trie.starts_with(&word[..k]), Ok(true));
    }
    assert_eq!(trie.search(word), Ok(true));
}

#[test]
fn prefix_need_not_be_a_word() {
    let mut trie = Trie::new();
    trie.insert("banana").unwrap();
    assert_eq!(trie.starts_with("ban"), Ok(true));
    assert_eq!(trie.search("ban"), Ok(false));
    assert_eq!(trie.search("banana"), Ok(true));
    assert_eq!(trie.starts_with("banana"), Ok(true));
}

#[test]
fn non_letters_are_refused() {
    let mut trie = Trie::new();
    assert_eq!(trie.insert("ab1"), Err(DictionaryError::InvalidCharacter));
    assert_eq!(trie.insert("caf\u{e9}"), Err(DictionaryError::InvalidCharacter));
    assert_eq!(trie.search("a-b"), Err(DictionaryError::InvalidCharacter));
    assert_eq!(trie.starts_with("x "), Err(DictionaryError::InvalidCharacter));
    assert_eq!(trie.starts_with(""), Ok(true));
    assert_eq!(trie.search("ab"), Ok(false));
}

#[test]
fn build_dictionary_from_lines() {
    let lines = vec!["Cat".to_string(), "car".to_string(), "at".to_string()];
    let trie = build_dictionary(&lines).unwrap();
    assert_eq!(trie.search("cat"), Ok(true));
    assert_eq!(trie.search("car"), Ok(true));
    assert_eq!(trie.search("at"), Ok(true));
    assert_eq!(trie.search("a"), Ok(false));
    assert_eq!(trie.starts_with("ca"), Ok(true));
}

#[test]
fn build_dictionary_fails_on_a_bad_line() {
    let lines = vec!["cat".to_string(), "don't".to_string(), "at".to_string()];
    assert!(matches!(build_dictionary(&lines), Err(DictionaryError::InvalidCharacter)));
}
