pub mod anagram;
pub mod filters;
pub mod grid;
pub mod grid_finder;
pub mod text;
pub mod trie;
pub mod word_set;

use vstd::prelude::*;
use crate::anagram::{anagram_words, lemma_empty_filters, unscramble_words, AnagramWordFinder};
use crate::filters::BasicWordFilters;
use crate::grid::{rows_even, Grid, GridError};
use crate::grid_finder::{direction_set, grid_words, lemma_grid_words_by_letters, GridWordFinder};
use crate::text::{all_letters, is_letter};
use crate::trie::{build_dictionary, lines_are_words, words_of, DictionaryError, Trie};
use crate::word_set::WordSet;

verus! {

/// Why a grid search gave no words.
#[derive(Debug, PartialEq, Eq, Clone, Copy, Structural)]
pub enum SearchError {
    /// The rows do not make a grid.
    Grid(GridError),
    /// A cell holds a character the dictionary cannot take.
    Dictionary(DictionaryError),
}

/// One dictionary, built once, serving both word searches.
pub struct WordService {
    dictionary: Trie,
}

impl WordService {
    pub closed spec fn dictionary(self) -> Trie {
        self.dictionary
    }

    /// A service over the words of `lines`, one word per line.
    pub fn new(lines: &[String]) -> (r: Result<WordService, DictionaryError>)
        ensures
            lines_are_words(lines@) ==> (r matches Ok(s) && s.dictionary().wf() && s.dictionary()@
                == words_of(lines@, lines@.len() as int)),
            !lines_are_words(lines@) ==> r == Err::<WordService, _>(
                DictionaryError::InvalidCharacter,
            ),
    {
        match build_dictionary(lines) {
            Ok(dictionary) => Ok(WordService { dictionary }),
            Err(e) => Err(e),
        }
    }

    /// Every dictionary word spelled with letters of `word`, each occurrence
    /// used at most once.
    pub fn find_anagrams(&self, word: &str) -> (r: Result<WordSet, DictionaryError>)
        requires
            self.dictionary().wf(),
        ensures
            all_letters(word@) ==> (r matches Ok(ws) && ws.wf() && ws@ == unscramble_words(
                self.dictionary()@,
                word@,
            )),
            !all_letters(word@) ==> r == Err::<WordSet, _>(DictionaryError::InvalidCharacter),
    {
        let filters = BasicWordFilters::default();
        proof {
            lemma_empty_filters(self.dictionary()@, filters, word@);
        }
        self.find_anagrams_with_filters(word, &filters)
    }

    /// Every dictionary word that meets `filters` and is spelled with letters
    /// of `word`, each occurrence used at most once.
    pub fn find_anagrams_with_filters(&self, word: &str, filters: &BasicWordFilters) -> (r:
        Result<WordSet, DictionaryError>)
        requires
            self.dictionary().wf(),
        ensures
            all_letters(word@) ==> (r matches Ok(ws) && ws.wf() && ws@ == anagram_words(
                self.dictionary()@,
                *filters,
                word@,
            )),
            !all_letters(word@) ==> r == Err::<WordSet, _>(DictionaryError::InvalidCharacter),
    {
        let finder = AnagramWordFinder::new(&self.dictionary);
        finder.search(word, filters)
    }

    /// Every dictionary word traced through the grid of `rows`, moving in all
    /// eight directions.
    pub fn find_words_in_matrix(&self, rows: &[&[char]]) -> (r: Result<WordSet, SearchError>)
        requires
            self.dictionary().wf(),
        ensures
            rows@.len() == 0 ==> r == Err::<WordSet, _>(SearchError::Grid(GridError::NoRows)),
            rows@.len() > 0 && !rows_even(rows@) ==> r == Err::<WordSet, _>(
                SearchError::Grid(GridError::RowsSizeMismatch),
            ),
            rows@.len() > 0 && rows_even(rows@) ==> forall|g: Grid|
                #[trigger] g.holds_rows(rows@) ==> (g.capacity() >= 2 && !g.letters_only() ==> r
                    == Err::<WordSet, _>(SearchError::Dictionary(DictionaryError::InvalidCharacter)))
                    && (g.capacity() <= 1 || g.letters_only() ==> (r matches Ok(ws) && ws.wf()
                    && ws@ == grid_words(self.dictionary()@, g, direction_set(true)))),
    {
        let grid = match Grid::new(rows) {
            Ok(g) => g,
            Err(e) => {
                return Err(SearchError::Grid(e));
            },
        };
        let finder = GridWordFinder::new(&self.dictionary, true);
        let r = match finder.search(&grid) {
            Ok(ws) => Ok(ws),
            Err(e) => Err(SearchError::Dictionary(e)),
        };
        proof {
            assert forall|g: Grid| #[trigger] g.holds_rows(rows@) implies g.capacity()
                == grid.capacity() && g.letters_only() == grid.letters_only() && grid_words(
                self.dictionary()@,
                g,
                direction_set(true),
            ) == grid_words(self.dictionary()@, grid, direction_set(true)) by {
                assert forall|p: (int, int)| grid.in_bounds(p) implies #[trigger] grid.letter(p)
                    == g.letter(p) by {
                    assert(grid.letter((p.0, p.1)) == rows@[p.0]@[p.1]);
                }
                lemma_grid_words_by_letters(self.dictionary()@, grid, g, direction_set(true));
                assert(g.letters_only() == grid.letters_only()) by {
                    if g.letters_only() {
                        assert forall|p: (int, int)| grid.in_bounds(p) implies is_letter(
                            #[trigger] grid.letter(p),
                        ) by {
                            assert(g.letter(p) == grid.letter(p));
                        }
                    }
                    if grid.letters_only() {
                        assert forall|p: (int, int)| g.in_bounds(p) implies is_letter(
                            #[trigger] g.letter(p),
                        ) by {
                            assert(g.letter(p) == grid.letter(p));
                        }
                    }
                }
            }
        }
        r
    }
}

} // verus!
