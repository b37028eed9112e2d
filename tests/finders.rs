use word_unscrambler::anagram::AnagramWordFinder;
use word_unscrambler::filters::BasicWordFilters;
use word_unscrambler::grid::Grid;
use word_unscrambler::grid_finder::GridWordFinder;
use word_unscrambler::trie::{build_dictionary, DictionaryError, Trie};
use word_unscrambler::word_set::WordSet;

fn dictionary(words: &[&str]) -> Trie {
    let lines: Vec<String> = words.iter().map(|w| w.to_string()).collect();
    build_dictionary(&lines).unwrap()
}

fn sorted(words: &WordSet) -> Vec<String> {
    let mut v = words.to_vec();
    v.sort();
    v
}

#[test]
fn test_matrix_word_finder_search() {
    let dictionary = dictionary(&["orals", "clans", "blair", "scan", "barons", "poor", "sabir", "ribs"]);

    let matrix = Grid::new(&[
        &['p', 'i', 'i', 'e'],
        &['r', 'b', 'a', 'o'],
        &['n', 'l', 's', 'r'],
        &['c', 'a', 'n', 'o'],
    ])
    .unwrap();
    let matrix_word_finder = GridWordFinder::new(&dictionary, true);

    let words = matrix_word_finder.search(&matrix).unwrap();

    assert_eq!(words.len(), 6);
    assert!(words.contains("sabir"));
    assert!(words.contains("orals"));
    assert!(!words.contains("scan"));
    assert!(!words.contains("poor"));
}

#[test]
fn test_anagram_word_finder_search() {
    let dictionary = dictionary(&[
        "traction",
        "electricity",
        "cat",
        "fear",
        "apple",
        "electric",
        "craft",
        "possible",
    ]);

    let string = String::from("electrification");
    let anagram_word_finder = AnagramWordFinder::new(&dictionary);
    let filters: BasicWordFilters = Default::default();

    let words = anagram_word_finder.search(&string, &filters).unwrap();

    assert_eq!(words.len(), 5);
    assert!(words.contains("fear"));
    assert!(words.contains("traction"));
    assert!(!words.contains("electricity"));
}

#[test]
fn two_by_two_grid_with_diagonals() {
    let dictionary = dictionary(&["cat", "car", "at"]);
    let grid = Grid::new(&[&['c', 'a'], &['t', 'r']]).unwrap();
    let words = GridWordFinder::new(&dictionary, true).search(&grid).unwrap();
    assert_eq!(sorted(&words), vec!["at".to_string(), "car".to_string(), "cat".to_string()]);
}

#[test]
fn orthogonal_moves_only() {
    let dictionary = dictionary(&["cat", "car", "at"]);
    let grid = Grid::new(&[&['c', 'a'], &['t', 'r']]).unwrap();
    let words = GridWordFinder::new(&dictionary, false).search(&grid).unwrap();
    // "cat" needs the diagonal move from 'a' to 't'; "at" needs it too.
    assert_eq!(sorted(&words), vec!["car".to_string()]);
}

#[test]
fn a_word_is_read_only_where_its_trail_goes_on() {
    let dictionary = dictionary(&["a", "at"]);
    let grid = Grid::new(&[&['a', 't']]).unwrap();
    let words = GridWordFinder::new(&dictionary, true).search(&grid).unwrap();
    assert_eq!(sorted(&words), vec!["a".to_string()]);
}

#[test]
fn cells_are_not_reused_on_one_trail() {
    let dictionary = dictionary(&["aba", "ab"]);
    let grid = Grid::new(&[&['a', 'b', 'x']]).unwrap();
    let words = GridWordFinder::new(&dictionary, true).search(&grid).unwrap();
    assert_eq!(sorted(&words), vec!["ab".to_string()]);
}

#[test]
fn grid_letters_are_reported_as_written() {
    let dictionary = dictionary(&["cat"]);
    let grid = Grid::new(&[&['C', 'A'], &['T', 'R']]).unwrap();
    let words = GridWordFinder::new(&dictionary, true).search(&grid).unwrap();
    assert_eq!(words.len(), 1);
    assert!(words.contains("CAT"));
    assert!(!words.contains("cat"));
}

#[test]
fn grid_with_a_non_letter_is_refused() {
    let dictionary = dictionary(&["cat"]);
    let grid = Grid::new(&[&['c', '1'], &['t', 'r']]).unwrap();
    let r = GridWordFinder::new(&dictionary, true).search(&grid);
    assert!(matches!(r, Err(DictionaryError::InvalidCharacter)));
}

#[test]
fn single_cell_grid_is_never_refused() {
    let dictionary = dictionary(&["cat"]);
    let grid = Grid::new(&[&['1']]).unwrap();
    let words = GridWordFinder::new(&dictionary, true).search(&grid).unwrap();
    assert_eq!(words.len(), 0);
}

#[test]
fn grid_search_is_repeatable() {
    let dictionary = dictionary(&["orals", "clans", "blair", "scan", "barons", "poor", "sabir", "ribs"]);
    let grid = Grid::new(&[
        &['p', 'i', 'i', 'e'],
        &['r', 'b', 'a', 'o'],
        &['n', 'l', 's', 'r'],
        &['c', 'a', 'n', 'o'],
    ])
    .unwrap();
    let finder = GridWordFinder::new(&dictionary, true);
    let first = finder.search(&grid).unwrap();
    let second = finder.search(&grid).unwrap();
    assert_eq!(sorted(&first), sorted(&second));
    assert_eq!(
        sorted(&first),
        vec!["barons", "blair", "clans", "orals", "ribs", "sabir"]
            .into_iter()
            .map(String::from)
            .collect::<Vec<_>>()
    );
}

#[test]
fn unscramble_respects_letter_counts() {
    let dictionary = dictionary(&["pope", "peep", "people", "pepper", "pool", "lee"]);
    let finder = AnagramWordFinder::new(&dictionary);
    let words = finder.search("people", &BasicWordFilters::default()).unwrap();
    assert_eq!(
        sorted(&words),
        vec!["lee", "peep", "people", "pope"].into_iter().map(String::from).collect::<Vec<_>>()
    );
}

#[test]
fn unscramble_with_filters() {
    let dictionary = dictionary(&["pope", "peep", "people", "lee"]);
    let finder = AnagramWordFinder::new(&dictionary);
    let filters = BasicWordFilters::new("p", "e", "o");
    let words = finder.search("people", &filters).unwrap();
    assert_eq!(sorted(&words), vec!["people".to_string(), "pope".to_string()]);
}

#[test]
fn unscramble_folds_case_and_keeps_input_letters() {
    let dictionary = dictionary(&["cat"]);
    let finder = AnagramWordFinder::new(&dictionary);
    let words = finder.search("TaC", &BasicWordFilters::default()).unwrap();
    assert_eq!(sorted(&words), vec!["CaT".to_string()]);
}

#[test]
fn unscramble_refuses_non_letters() {
    let dictionary = dictionary(&["cat"]);
    let finder = AnagramWordFinder::new(&dictionary);
    let r = finder.search("ca t", &BasicWordFilters::default());
    assert!(matches!(r, Err(DictionaryError::InvalidCharacter)));
}

#[test]
fn unscramble_of_nothing_is_empty() {
    let dictionary = dictionary(&["", "a"]);
    let finder = AnagramWordFinder::new(&dictionary);
    let words = finder.search("", &BasicWordFilters::default()).unwrap();
    assert_eq!(words.len(), 0);
}

#[test]
fn unscramble_is_repeatable() {
    let dictionary = dictionary(&["traction", "cat", "fear", "craft", "act", "tact"]);
    let finder = AnagramWordFinder::new(&dictionary);
    let first = finder.search("electrification", &BasicWordFilters::default()).unwrap();
    let second = finder.search("electrification", &BasicWordFilters::default()).unwrap();
    assert_eq!(sorted(&first), sorted(&second));
}

#[test]
fn word_set_keeps_each_word_once() {
    let mut set = WordSet::new();
    set.insert("cat".to_string());
    set.insert("dog".to_string());
    set.insert("cat".to_string());
    assert_eq!(set.len(), 2);
    assert!(set.contains("cat"));
    assert!(set.contains("dog"));
    assert!(!set.contains("ca"));
    set.insert_chars(&['o', 'w', 'l']);
    assert!(set.contains("owl"));
    assert_eq!(set.len(), 3);
}
