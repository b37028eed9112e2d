use word_unscrambler::filters::BasicWordFilters;
use word_unscrambler::grid::GridError;
use word_unscrambler::trie::DictionaryError;
use word_unscrambler::{SearchError, WordService};

fn lines(words: &[&str]) -> Vec<String> {
    words.iter().map(|w| w.to_string()).collect()
}

#[test]
fn test_new_word_service() {
    WordService::new(&lines(&["apple", "wizard", "zzz"])).unwrap();
}

#[test]
fn service_refuses_a_bad_word_list() {
    let r = WordService::new(&lines(&["apple", "wiz ard"]));
    assert!(matches!(r, Err(DictionaryError::InvalidCharacter)));
}

#[test]
fn service_finds_anagrams() {
    let service = WordService::new(&lines(&["pope", "peep", "people", "pepper"])).unwrap();
    let words = service.find_anagrams("people").unwrap();
    assert!(words.contains("pope"));
    assert!(words.contains("peep"));
    assert!(words.contains("people"));
    assert!(!words.contains("pepper"));
    assert_eq!(words.len(), 3);
}

#[test]
fn service_finds_filtered_anagrams() {
    let service = WordService::new(&lines(&["pope", "peep", "people"])).unwrap();
    let filters = BasicWordFilters::new("", "ep", "");
    let words = service.find_anagrams_with_filters("people", &filters).unwrap();
    assert_eq!(words.len(), 1);
    assert!(words.contains("peep"));
}

#[test]
fn service_finds_words_in_matrix() {
    let service = WordService::new(&lines(&["cat", "car", "at", "rat"])).unwrap();
    let rows: &[&[char]] = &[&['c', 'a'], &['t', 'r']];
    let words = service.find_words_in_matrix(rows).unwrap();
    assert_eq!(words.len(), 4);
    assert!(words.contains("cat"));
    assert!(words.contains("car"));
    assert!(words.contains("at"));
    assert!(words.contains("rat"));
}

#[test]
fn service_refuses_jagged_rows() {
    let service = WordService::new(&lines(&["cat"])).unwrap();
    let rows: &[&[char]] = &[&['a', 'b'], &['c']];
    let r = service.find_words_in_matrix(rows);
    assert!(matches!(r, Err(SearchError::Grid(GridError::RowsSizeMismatch))));
}

#[test]
fn service_refuses_no_rows() {
    let service = WordService::new(&lines(&["cat"])).unwrap();
    let rows: &[&[char]] = &[];
    assert!(matches!(service.find_words_in_matrix(rows), Err(SearchError::Grid(GridError::NoRows))));
}

#[test]
fn service_refuses_non_letter_cells() {
    let service = WordService::new(&lines(&["cat"])).unwrap();
    let rows: &[&[char]] = &[&['c', 'a'], &['t', '?']];
    let r = service.find_words_in_matrix(rows);
    assert!(matches!(r, Err(SearchError::Dictionary(DictionaryError::InvalidCharacter))));
}

#[test]
fn service_refuses_non_letter_anagram_input() {
    let service = WordService::new(&lines(&["cat"])).unwrap();
    assert!(matches!(service.find_anagrams("c4t"), Err(DictionaryError::InvalidCharacter)));
}
