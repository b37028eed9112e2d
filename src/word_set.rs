use vstd::prelude::*;
use crate::text::string_of;

verus! {

/// A set of words, each held once.
pub struct WordSet {
    words: Vec<String>,
}

impl WordSet {
    pub closed spec fn spelled(self) -> Seq<Seq<char>> {
        self.words@.map_values(|s: String| s@)
    }

    pub closed spec fn wf(self) -> bool {
        self.spelled().no_duplicates()
    }

    pub closed spec fn view(self) -> Set<Seq<char>> {
        self.spelled().to_set()
    }

    /// An empty set.
    pub fn new() -> (r: WordSet)
        ensures
            r.wf(),
            r@ == Set::<Seq<char>>::empty(),
    {
        let r = WordSet { words: Vec::new() };
        assert(r@ =~= Set::<Seq<char>>::empty());
        r
    }

    /// Adds `word`; a word already held is not added twice.
    pub fn insert(&mut self, word: String)
        requires
            old(self).wf(),
        ensures
            final(self).wf(),
            final(self)@ == old(self)@.insert(word@),
    {
        let mut i: usize = 0;
        while i < self.words.len()
            invariant
                self.wf(),
                i <= self.words@.len(),
                forall|j: int| 0 <= j < i ==> (#[trigger] self.words@[j])@ != word@,
            decreases self.words@.len() - i,
        {
            if self.words[i] == word {
                assert(self.spelled()[i as int] == word@);
                assert(self@ =~= self@.insert(word@));
                return;
            }
            i = i + 1;
        }
        let ghost before = self.spelled();
        self.words.push(word);
        assert(self.spelled() =~= before.push(word@));
        assert(!before.contains(word@)) by {
            if before.contains(word@) {
                let j = choose|j: int| 0 <= j < before.len() && before[j] == word@;
                assert(self.words@[j]@ == word@);
            }
        }
        assert forall|x: Seq<char>| #[trigger] self@.contains(x) == before.to_set().insert(
            word@,
        ).contains(x) by {
            vstd::seq_lib::lemma_seq_contains_after_push(before, word@, x);
        }
        assert(self@ =~= before.to_set().insert(word@));
    }

    /// Adds the word spelled by `w`.
    pub fn insert_chars(&mut self, w: &[char])
        requires
            old(self).wf(),
        ensures
            final(self).wf(),
            final(self)@ == old(self)@.insert(w@),
    {
        let s = string_of(w);
        self.insert(s);
    }

    /// Whether `word` is held.
    pub fn contains(&self, word: &str) -> (r: bool)
        ensures
            r == self@.contains(word@),
    {
        let target = word.to_owned();
        let mut i: usize = 0;
        while i < self.words.len()
            invariant
                i <= self.words@.len(),
                target@ == word@,
                forall|j: int| 0 <= j < i ==> (#[trigger] self.words@[j])@ != word@,
            decreases self.words@.len() - i,
        {
            if self.words[i] == target {
                assert(self.spelled()[i as int] == word@);
                return true;
            }
            i = i + 1;
        }
        assert(!self.spelled().contains(word@));
        false
    }

    /// The number of words held.
    pub fn len(&self) -> (r: usize)
        requires
            self.wf(),
        ensures
            r == self@.len(),
    {
        proof {
            self.spelled().unique_seq_to_set();
        }
        self.words.len()
    }

    /// The words held, in the order they were first added.
    pub fn to_vec(&self) -> (r: Vec<String>)
        requires
            self.wf(),
        ensures
            r@.map_values(|s: String| s@).to_set() == self@,
            r@.map_values(|s: String| s@).no_duplicates(),
    {
        let mut r: Vec<String> = Vec::new();
        let mut i: usize = 0;
        while i < self.words.len()
            invariant
                i <= self.words@.len(),
                r@ == self.words@.subrange(0, i as int),
            decreases self.words@.len() - i,
        {
            r.push(self.words[i].clone());
            i = i + 1;
            assert(r@ =~= self.words@.subrange(0, i as int));
        }
        assert(r@ =~= self.words@);
        assert(r@.map_values(|s: String| s@) =~= self.spelled());
        r
    }
}

} // verus!
