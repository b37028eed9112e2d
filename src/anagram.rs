use vstd::prelude::*;
use vstd::seq_lib::{to_multiset_contains, to_multiset_insert, to_multiset_remove};
use crate::filters::BasicWordFilters;
use crate::text::{all_letters, chars_of, fold_word, is_all_letters};
use crate::trie::{DictionaryError, Trie};
use crate::word_set::WordSet;

verus! {

/// `v` can be spelled with letters of `s`, each occurrence used at most once.
pub open spec fn spelled_from(v: Seq<char>, s: Seq<char>) -> bool {
    v.to_multiset().subset_of(s.to_multiset())
}

/// `w` meets the filters and, folded to lower case, is a dictionary word.
pub open spec fn accepted(dict: Set<Seq<char>>, filters: BasicWordFilters, w: Seq<char>) -> bool {
    filters.passes(w) && dict.contains(fold_word(w))
}

/// The words an unscramble of `letters` reports: every accepted non-empty
/// word spelled with letters of `letters`.
pub open spec fn anagram_words(
    dict: Set<Seq<char>>,
    filters: BasicWordFilters,
    letters: Seq<char>,
) -> Set<Seq<char>> {
    Set::new(|w: Seq<char>| w.len() > 0 && spelled_from(w, letters) && accepted(dict, filters, w))
}

/// The words an unscramble of `letters` reports when no filter is set.
pub open spec fn unscramble_words(dict: Set<Seq<char>>, letters: Seq<char>) -> Set<Seq<char>> {
    Set::new(
        |w: Seq<char>| w.len() > 0 && spelled_from(w, letters) && dict.contains(fold_word(w)),
    )
}

/// Empty filters let every word through.
pub proof fn lemma_empty_filters(
    dict: Set<Seq<char>>,
    filters: BasicWordFilters,
    letters: Seq<char>,
)
    requires
        filters.starts_with@.len() == 0,
        filters.ends_with@.len() == 0,
        filters.contains@.len() == 0,
    ensures
        anagram_words(dict, filters, letters) == unscramble_words(dict, letters),
{
    assert forall|w: Seq<char>| filters.passes(w) by {
        assert(filters.starts_with@ =~= w.subrange(0, 0));
        assert(filters.ends_with@ =~= w.subrange(w.len() as int, w.len() as int));
        assert(w.subrange(0, 0 + filters.contains@.len() as int) =~= filters.contains@);
    }
    assert(anagram_words(dict, filters, letters) =~= unscramble_words(dict, letters));
}

/// Every word an unscramble reports is spelled with letters of the input,
/// each occurrence used at most once, and is a dictionary word once folded
/// to lower case.
pub proof fn lemma_unscrambled_words_sound(
    dict: Set<Seq<char>>,
    filters: BasicWordFilters,
    letters: Seq<char>,
    w: Seq<char>,
)
    requires
        anagram_words(dict, filters, letters).contains(w),
    ensures
        w.to_multiset().subset_of(letters.to_multiset()),
        dict.contains(fold_word(w)),
{
}

/// Unscrambling the same letters with the same dictionary and filters twice
/// gives the same words.
pub proof fn lemma_unscramble_deterministic(
    dict: Set<Seq<char>>,
    filters: BasicWordFilters,
    letters: Seq<char>,
    first: WordSet,
    second: WordSet,
)
    requires
        first@ == anagram_words(dict, filters, letters),
        second@ == anagram_words(dict, filters, letters),
    ensures
        first@ == second@,
{
}

/// `w` is accepted and is `p` followed by letters of `s`.
pub open spec fn extends(
    dict: Set<Seq<char>>,
    filters: BasicWordFilters,
    p: Seq<char>,
    s: Seq<char>,
    w: Seq<char>,
) -> bool {
    &&& p.is_prefix_of(w)
    &&& spelled_from(w.subrange(p.len() as int, w.len() as int), s)
    &&& accepted(dict, filters, w)
}

/// `w` extends `p` by at least one letter taken from `s`.
pub open spec fn extends_strictly(
    dict: Set<Seq<char>>,
    filters: BasicWordFilters,
    p: Seq<char>,
    s: Seq<char>,
    w: Seq<char>,
) -> bool {
    extends(dict, filters, p, s, w) && w.len() > p.len()
}

/// `w` extends `p` followed by one of the first `k` letters of `s`, with the
/// rest of `s` left to draw on.
pub open spec fn extends_via(
    dict: Set<Seq<char>>,
    filters: BasicWordFilters,
    p: Seq<char>,
    s: Seq<char>,
    k: int,
    w: Seq<char>,
) -> bool {
    exists|j: int| 0 <= j < k && #[trigger] extends(dict, filters, p.push(s[j]), s.remove(j), w)
}

proof fn lemma_fold_prefix(p: Seq<char>, w: Seq<char>)
    requires
        p.is_prefix_of(w),
    ensures
        fold_word(p).is_prefix_of(fold_word(w)),
{
    assert(fold_word(p) =~= fold_word(w).subrange(0, p.len() as int));
}

/// Taking one letter of `s` first and the rest from what remains covers
/// exactly the strict extensions.
proof fn lemma_extends_split(
    dict: Set<Seq<char>>,
    filters: BasicWordFilters,
    p: Seq<char>,
    s: Seq<char>,
    w: Seq<char>,
)
    ensures
        extends_strictly(dict, filters, p, s, w) <==> extends_via(
            dict,
            filters,
            p,
            s,
            s.len() as int,
            w,
        ),
{
    broadcast use vstd::multiset::group_multiset_axioms;

    let rest = w.subrange(p.len() as int, w.len() as int);
    if extends_strictly(dict, filters, p, s, w) {
        let c = rest[0];
        let tail = rest.drop_first();
        assert(rest =~= tail.insert(0, c));
        to_multiset_insert(tail, 0, c);
        assert(rest.to_multiset().count(c) > 0);
        assert(s.to_multiset().count(c) > 0);
        to_multiset_contains(s, c);
        let j = choose|j: int| 0 <= j < s.len() && s[j] == c;
        to_multiset_remove(s, j);
        assert(tail.to_multiset().subset_of(s.remove(j).to_multiset()));
        assert(p.push(c).is_prefix_of(w)) by {
            assert(w.subrange(0, p.len() as int + 1) =~= p.push(c));
        }
        assert(w.subrange(p.len() as int + 1, w.len() as int) =~= tail);
        assert(extends(dict, filters, p.push(s[j]), s.remove(j), w));
    }
    if extends_via(dict, filters, p, s, s.len() as int, w) {
        let j = choose|j: int|
            0 <= j < s.len() && #[trigger] extends(dict, filters, p.push(s[j]), s.remove(j), w);
        let c = s[j];
        let tail = w.subrange(p.len() as int + 1, w.len() as int);
        assert(rest =~= tail.insert(0, c)) by {
            assert(w.subrange(0, p.len() as int + 1)[p.len() as int] == c);
        }
        to_multiset_insert(tail, 0, c);
        to_multiset_remove(s, j);
        assert(s.contains(c));
        to_multiset_contains(s, c);
        assert forall|x: char| rest.to_multiset().count(x) <= s.to_multiset().count(x) by {
            assert(tail.to_multiset().count(x) <= s.remove(j).to_multiset().count(x));
        }
        assert(w.subrange(0, p.len() as int) =~= p) by {
            assert(w.subrange(0, p.len() as int) =~= w.subrange(0, p.len() as int + 1).subrange(
                0,
                p.len() as int,
            ));
        }
        assert(rest.to_multiset().subset_of(s.to_multiset()));
    }
}

proof fn lemma_nothing_spelled_from(s: Seq<char>)
    ensures
        spelled_from(Seq::<char>::empty(), s),
{
    assert forall|x: char|
        Seq::<char>::empty().to_multiset().count(x) <= s.to_multiset().count(x) by {
        to_multiset_contains(Seq::<char>::empty(), x);
    }
}

/// Finds dictionary words made of letters of a given string.
pub struct AnagramWordFinder<'a> {
    dictionary: &'a Trie,
}

impl<'a> AnagramWordFinder<'a> {
    pub closed spec fn dictionary(self) -> Trie {
        *self.dictionary
    }

    pub fn new(dictionary: &'a Trie) -> (r: AnagramWordFinder<'a>)
        ensures
            r.dictionary() == *dictionary,
    {
        AnagramWordFinder { dictionary }
    }

    /// Records every accepted word that is `prefix` followed by at least one
    /// letter of `suffix`, each letter occurrence used at most once.
    fn find_permutations(
        &self,
        prefix: &mut Vec<char>,
        suffix: &Vec<char>,
        words: &mut WordSet,
        filters: &BasicWordFilters,
    )
        requires
            self.dictionary().wf(),
            all_letters(old(prefix)@),
            all_letters(suffix@),
            old(words).wf(),
        ensures
            final(prefix)@ == old(prefix)@,
            final(words).wf(),
            forall|w: Seq<char>|
                #[trigger] final(words)@.contains(w) <==> old(words)@.contains(w)
                    || extends_strictly(self.dictionary()@, *filters, old(prefix)@, suffix@, w),
        decreases suffix@.len(),
    {
        let ghost dict = self.dictionary()@;
        let ghost p = prefix@;
        let ghost s = suffix@;
        let ghost start = words@;
        let mut i: usize = 0;
        while i < suffix.len()
            invariant
                self.dictionary().wf(),
                dict == self.dictionary()@,
                prefix@ == p,
                s == suffix@,
                all_letters(p),
                all_letters(s),
                i <= s.len(),
                words.wf(),
                forall|w: Seq<char>|
                    #[trigger] words@.contains(w) <==> start.contains(w) || extends_via(
                        dict,
                        *filters,
                        p,
                        s,
                        i as int,
                        w,
                    ),
            decreases s.len() - i,
        {
            let c = suffix[i];
            let rest = without(suffix, i);
            let ghost before = words@;
            let ghost np = p.push(c);
            let ghost ns = s.remove(i as int);
            prefix.push(c);
            assert(all_letters(prefix@)) by {
                assert forall|k: int| 0 <= k < prefix@.len() implies crate::text::is_letter(
                    #[trigger] prefix@[k],
                ) by {
                    if k < p.len() {
                        assert(prefix@[k] == p[k]);
                    }
                }
            }
            assert(all_letters(rest@)) by {
                assert forall|k: int| 0 <= k < rest@.len() implies crate::text::is_letter(
                    #[trigger] rest@[k],
                ) by {
                    if k < i {
                        assert(rest@[k] == s[k]);
                    } else {
                        assert(rest@[k] == s[k + 1]);
                    }
                }
            }
            if self.dictionary.has_prefix_letters(prefix.as_slice()) {
                if filters.passes_chars(prefix.as_slice()) && self.dictionary.contains_letters(
                    prefix.as_slice(),
                ) {
                    words.insert_chars(prefix.as_slice());
                }
                let ghost mid = words@;
                assert(forall|w: Seq<char>|
                    #[trigger] mid.contains(w) <==> before.contains(w) || (w == np && accepted(
                        dict,
                        *filters,
                        w,
                    )));
                self.find_permutations(prefix, &rest, words, filters);
                proof {
                    assert forall|w: Seq<char>|
                        extends(dict, *filters, np, ns, w) <==> (w == np && accepted(
                            dict,
                            *filters,
                            w,
                        )) || extends_strictly(dict, *filters, np, ns, w) by {
                        if w == np {
                            assert(w.subrange(np.len() as int, w.len() as int) =~= Seq::<
                                char,
                            >::empty());
                            lemma_nothing_spelled_from(ns);
                        }
                        if extends(dict, *filters, np, ns, w) && w.len() == np.len() {
                            assert(w =~= np);
                        }
                    }
                    assert(forall|w: Seq<char>|
                        #[trigger] words@.contains(w) <==> before.contains(w) || extends(
                            dict,
                            *filters,
                            np,
                            ns,
                            w,
                        ));
                }
            } else {
                proof {
                    assert forall|w: Seq<char>| !extends(dict, *filters, np, ns, w) by {
                        if extends(dict, *filters, np, ns, w) {
                            lemma_fold_prefix(np, w);
                            self.dictionary().lemma_prefix_of_word(fold_word(w), fold_word(np));
                        }
                    }
                    assert(forall|w: Seq<char>|
                        #[trigger] words@.contains(w) <==> before.contains(w) || extends(
                            dict,
                            *filters,
                            np,
                            ns,
                            w,
                        ));
                }
            }
            prefix.pop();
            proof {
                assert(prefix@ =~= p);
                assert forall|w: Seq<char>|
                    #[trigger] words@.contains(w) <==> start.contains(w) || extends_via(
                        dict,
                        *filters,
                        p,
                        s,
                        i + 1,
                        w,
                    ) by {
                    if extends(dict, *filters, np, ns, w) {
                        assert(s[i as int] == c);
                    }
                    if extends_via(dict, *filters, p, s, i + 1, w) {
                        let j = choose|j: int|
                            0 <= j < i + 1 && #[trigger] extends(
                                dict,
                                *filters,
                                p.push(s[j]),
                                s.remove(j),
                                w,
                            );
                        if j < i {
                            assert(extends_via(dict, *filters, p, s, i as int, w));
                        }
                    }
                    if extends_via(dict, *filters, p, s, i as int, w) {
                        let j = choose|j: int|
                            0 <= j < i && #[trigger] extends(
                                dict,
                                *filters,
                                p.push(s[j]),
                                s.remove(j),
                                w,
                            );
                        assert(extends_via(dict, *filters, p, s, i + 1, w));
                    }
                }
            }
            i = i + 1;
        }
        proof {
            assert forall|w: Seq<char>|
                #[trigger] words@.contains(w) <==> start.contains(w) || extends_strictly(
                    dict,
                    *filters,
                    p,
                    s,
                    w,
                ) by {
                lemma_extends_split(dict, *filters, p, s, w);
            }
        }
    }

    /// Every word of the dictionary that meets `filters` and can be spelled
    /// with letters of `word`, each occurrence used at most once. A `word`
    /// with a character other than an ASCII letter is refused.
    pub fn search(&self, word: &str, filters: &BasicWordFilters) -> (r: Result<
        WordSet,
        DictionaryError,
    >)
        requires
            self.dictionary().wf(),
        ensures
            all_letters(word@) ==> (r matches Ok(ws) && ws.wf() && ws@ == anagram_words(
                self.dictionary()@,
                *filters,
                word@,
            )),
            !all_letters(word@) ==> r == Err::<WordSet, _>(DictionaryError::InvalidCharacter),
    {
        let letters = chars_of(word);
        if !is_all_letters(letters.as_slice()) {
            return Err(DictionaryError::InvalidCharacter);
        }
        let mut words = WordSet::new();
        let mut prefix: Vec<char> = Vec::new();
        self.find_permutations(&mut prefix, &letters, &mut words, filters);
        proof {
            let dict = self.dictionary()@;
            assert forall|w: Seq<char>| #[trigger]
                words@.contains(w) <== anagram_words(dict, *filters, word@).contains(w) by {
                assert(w.subrange(0, w.len() as int) =~= w);
            }
            assert forall|w: Seq<char>| #[trigger]
                words@.contains(w) ==> anagram_words(dict, *filters, word@).contains(w) by {
                assert(w.subrange(0, w.len() as int) =~= w);
            }
            assert(words@ =~= anagram_words(dict, *filters, word@));
        }
        Ok(words)
    }
}

/// `s` with the letter at position `i` left out.
fn without(s: &Vec<char>, i: usize) -> (r: Vec<char>)
    requires
        i < s@.len(),
    ensures
        r@ == s@.remove(i as int),
{
    let mut r: Vec<char> = Vec::new();
    let mut k: usize = 0;
    while k < s.len()
        invariant
            i < s@.len(),
            k <= s@.len(),
            k <= i ==> r@ == s@.subrange(0, k as int),
            k > i ==> r@ == s@.subrange(0, i as int) + s@.subrange(i + 1, k as int),
        decreases s@.len() - k,
    {
        if k != i {
            r.push(s[k]);
        }
        k = k + 1;
        assert(k <= i ==> r@ =~= s@.subrange(0, k as int));
        assert(k > i ==> r@ =~= s@.subrange(0, i as int) + s@.subrange(i + 1, k as int));
    }
    r
}

} // verus!
