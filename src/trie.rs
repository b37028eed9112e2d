use vstd::prelude::*;
use crate::text::{
    all_letters, chars_of, fold_word, is_all_letters, is_lower, lemma_fold_push,
    letter_to_index, to_lower,
};

verus! {

/// Why a word was refused by the dictionary.
#[derive(Debug, PartialEq, Eq, Clone, Copy, Structural)]
pub enum DictionaryError {
    /// The word holds a character that is not an ASCII letter.
    InvalidCharacter,
}

pub open spec fn empty_slots() -> Seq<Option<usize>> {
    Seq::new(26, |i: int| None)
}

/// Child slots per node: one for each letter `a` to `z`.
pub const ALPHABET: usize = 26;

/// A prefix tree over lower-case letters.
///
/// Nodes are numbered from 0 (the root). Node `n` owns the slots
/// `children[26 * n .. 26 * n + 26]`, one per letter, each naming its child
/// node if there is one; `end_of_word[n]` marks the nodes where an inserted
/// word ends.
pub struct Trie {
    children: Vec<Option<usize>>,
    end_of_word: Vec<bool>,
    /// The word spelled on the way from the root to each node.
    paths: Ghost<Seq<Seq<char>>>,
}

impl Trie {
    pub closed spec fn node_count(self) -> int {
        self.end_of_word@.len() as int
    }

    /// The child of node `n` along the lower-case letter `c`.
    pub closed spec fn child(self, n: int, c: char) -> Option<int> {
        if is_lower(c) && 0 <= n < self.node_count() {
            match self.children@[26 * n + (c as int - 'a' as int)] {
                Some(m) => Some(m as int),
                None => None,
            }
        } else {
            None
        }
    }

    /// The node reached from the root by spelling `w`, if any.
    pub closed spec fn walk(self, w: Seq<char>) -> Option<int>
        decreases w.len(),
    {
        if w.len() == 0 {
            Some(0)
        } else {
            match self.walk(w.drop_last()) {
                Some(n) => self.child(n, w.last()),
                None => None,
            }
        }
    }

    pub closed spec fn is_word(self, w: Seq<char>) -> bool {
        match self.walk(w) {
            Some(n) => self.end_of_word@[n],
            None => false,
        }
    }

    /// Every node but the root lies on the way to some word.
    pub closed spec fn has_word_below(self, n: int) -> bool {
        exists|v: Seq<char>| #[trigger] self.is_word(v) && self.paths@[n].is_prefix_of(v)
    }

    /// Node numbering and child slots are consistent, and each node is
    /// reached by exactly one word.
    closed spec fn wf_shape(self) -> bool {
        &&& self.node_count() >= 1
        &&& self.children@.len() == 26 * self.node_count()
        &&& self.paths@.len() == self.node_count()
        &&& forall|i: int|
            0 <= i < self.children@.len() ==> (#[trigger] self.children@[i] matches Some(m) ==> 0
                < m < self.node_count())
        &&& forall|n: int|
            0 <= n < self.node_count() ==> self.walk(#[trigger] self.paths@[n]) == Some(n)
        &&& forall|w: Seq<char>|
            #[trigger] self.walk(w) is Some ==> 0 <= self.walk(w).unwrap() < self.node_count()
                && self.paths@[self.walk(w).unwrap()] == w
    }

    pub closed spec fn wf(self) -> bool {
        &&& self.wf_shape()
        &&& forall|n: int| 1 <= n < self.node_count() ==> #[trigger] self.has_word_below(n)
    }

    /// The words held, in lower case.
    pub closed spec fn view(self) -> Set<Seq<char>> {
        Set::new(|w: Seq<char>| self.is_word(w))
    }

    /// Whether some held word starts with `p`; the empty prefix always counts.
    pub open spec fn has_prefix(self, p: Seq<char>) -> bool {
        p.len() == 0 || exists|v: Seq<char>| #[trigger] self@.contains(v) && p.is_prefix_of(v)
    }

    proof fn lemma_walk_prefix(self, w: Seq<char>, k: int)
        requires
            self.walk(w) is Some,
            0 <= k <= w.len(),
        ensures
            self.walk(w.subrange(0, k)) is Some,
        decreases w.len(),
    {
        if k < w.len() {
            self.lemma_walk_prefix(w.drop_last(), k);
            assert(w.drop_last().subrange(0, k) =~= w.subrange(0, k));
        } else {
            assert(w.subrange(0, k) =~= w);
        }
    }

    /// A word's prefixes are all prefixes in the dictionary's sense.
    pub proof fn lemma_prefix_of_word(self, w: Seq<char>, p: Seq<char>)
        requires
            self@.contains(w),
            p.is_prefix_of(w),
        ensures
            self.has_prefix(p),
    {
        assert(self@.contains(w) && p.is_prefix_of(w));
    }

    pub proof fn lemma_has_prefix_walk(self, p: Seq<char>)
        requires
            self.wf(),
        ensures
            self.has_prefix(p) <==> self.walk(p) is Some,
    {
        if self.walk(p) is Some {
            let n = self.walk(p).unwrap();
            if n >= 1 {
                assert(self.has_word_below(n));
                let v = choose|v: Seq<char>| #[trigger] self.is_word(v) && self.paths@[n].is_prefix_of(v);
                assert(self@.contains(v));
            } else {
                if p.len() > 0 {
                    assert(self.paths@[0] == p);
                    assert(self.walk(Seq::<char>::empty()) == Some(0int));
                    assert(self.paths@[0] == Seq::<char>::empty());
                }
            }
        }
        if self.has_prefix(p) && p.len() > 0 {
            let v = choose|v: Seq<char>| #[trigger] self@.contains(v) && p.is_prefix_of(v);
            self.lemma_walk_prefix(v, p.len() as int);
            assert(v.subrange(0, p.len() as int) =~= p);
        }
    }

    /// Appending a fresh node `N` and linking it under the node of `p` along
    /// `c` adds the one word `p + c` to the walks and changes no other.
    proof fn lemma_link(old_t: Trie, new_t: Trie, p: Seq<char>, c: char, v: Seq<char>)
        requires
            old_t.wf_shape(),
            old_t.node_count() < usize::MAX,
            is_lower(c),
            old_t.walk(p) is Some,
            old_t.walk(p.push(c)) is None,
            new_t.end_of_word@ == old_t.end_of_word@.push(false),
            new_t.children@ == (old_t.children@ + empty_slots()).update(
                26 * old_t.walk(p).unwrap() + (c as int - 'a' as int),
                Some(old_t.node_count() as usize),
            ),
        ensures
            new_t.walk(v) == if v == p.push(c) {
                Some(old_t.node_count())
            } else {
                old_t.walk(v)
            },
        decreases v.len(),
    {
        let big_n = old_t.node_count();
        let cur = old_t.walk(p).unwrap();
        let slot = 26 * cur + (c as int - 'a' as int);
        assert(0 <= cur < big_n);
        assert(slot < 26 * big_n) by (nonlinear_arith)
            requires
                cur < big_n,
                0 <= (c as int - 'a' as int) < 26,
                slot == 26 * cur + (c as int - 'a' as int),
        ;
        if v.len() == 0 {
            assert(v != p.push(c));
        } else {
            let dl = v.drop_last();
            let l = v.last();
            Trie::lemma_link(old_t, new_t, p, c, dl);
            assert(v =~= dl.push(l));
            if dl == p.push(c) {
                assert(v.len() != p.push(c).len());
                assert(old_t.walk(v) is None);
                if is_lower(l) {
                    let i = 26 * big_n + (l as int - 'a' as int);
                    assert(26 * big_n <= i < 26 * big_n + 26);
                    assert(new_t.children@[i] is None);
                }
                assert(new_t.walk(v) is None);
            } else {
                match old_t.walk(dl) {
                    None => {
                        if v == p.push(c) {
                            assert(dl =~= p);
                        }
                    },
                    Some(m) => {
                        assert(0 <= m < big_n);
                        if is_lower(l) {
                            let i = 26 * m + (l as int - 'a' as int);
                            assert(0 <= i < 26 * big_n) by (nonlinear_arith)
                                requires
                                    0 <= m < big_n,
                                    0 <= (l as int - 'a' as int) < 26,
                                    i == 26 * m + (l as int - 'a' as int),
                            ;
                            if i == slot {
                                assert(m == cur && l == c) by (nonlinear_arith)
                                    requires
                                        i == slot,
                                        i == 26 * m + (l as int - 'a' as int),
                                        slot == 26 * cur + (c as int - 'a' as int),
                                        0 <= (l as int - 'a' as int) < 26,
                                        0 <= (c as int - 'a' as int) < 26,
                                ;
                                assert(old_t.paths@[m] == dl);
                                assert(old_t.paths@[cur] == p);
                                assert(v == p.push(c));
                                assert(new_t.children@[slot] == Some(big_n as usize));
                                assert(new_t.child(m, l) == Some(big_n));
                            } else {
                                assert(new_t.children@[i] == old_t.children@[i]);
                                if v == p.push(c) {
                                    assert(dl =~= p);
                                }
                            }
                        } else {
                            if v == p.push(c) {
                                assert(l == c);
                            }
                        }
                    },
                }
            }
        }
    }

    /// Walks depend on the child slots alone.
    proof fn lemma_walk_same(a: Trie, b: Trie, v: Seq<char>)
        requires
            a.children@ == b.children@,
            a.node_count() == b.node_count(),
        ensures
            a.walk(v) == b.walk(v),
        decreases v.len(),
    {
        if v.len() > 0 {
            Trie::lemma_walk_same(a, b, v.drop_last());
        }
    }

    /// What linking a fresh node keeps of the trie's consistency and words.
    proof fn lemma_link_wf(old_t: Trie, new_t: Trie, p: Seq<char>, c: char)
        requires
            old_t.wf_shape(),
            old_t.node_count() < usize::MAX,
            is_lower(c),
            old_t.walk(p) is Some,
            old_t.walk(p.push(c)) is None,
            new_t.end_of_word@ == old_t.end_of_word@.push(false),
            new_t.children@ == (old_t.children@ + empty_slots()).update(
                26 * old_t.walk(p).unwrap() + (c as int - 'a' as int),
                Some(old_t.node_count() as usize),
            ),
            new_t.paths@ == old_t.paths@.push(p.push(c)),
        ensures
            new_t.wf_shape(),
            new_t.walk(p.push(c)) == Some(old_t.node_count()),
            forall|v: Seq<char>| #[trigger] new_t.is_word(v) == old_t.is_word(v),
            forall|n: int|
                1 <= n < old_t.node_count() && #[trigger] old_t.has_word_below(n)
                    ==> new_t.has_word_below(n),
    {
        let big_n = old_t.node_count();
        let q = p.push(c);
        let cur = old_t.walk(p).unwrap();
        let slot = 26 * cur + (c as int - 'a' as int);
        assert(0 <= cur < big_n);
        assert(0 <= slot < 26 * big_n) by (nonlinear_arith)
            requires
                0 <= cur < big_n,
                0 <= (c as int - 'a' as int) < 26,
                slot == 26 * cur + (c as int - 'a' as int),
        ;
        assert forall|v: Seq<char>| #[trigger]
            new_t.walk(v) == if v == q {
                Some(big_n)
            } else {
                old_t.walk(v)
            } by {
            Trie::lemma_link(old_t, new_t, p, c, v);
        }
        assert forall|i: int|
            0 <= i < new_t.children@.len() implies (#[trigger] new_t.children@[i] matches Some(
            m) ==> 0 < m < new_t.node_count()) by {
            if i != slot && i < 26 * big_n {
                assert(new_t.children@[i] == old_t.children@[i]);
            }
        }
        assert forall|n: int|
            0 <= n < new_t.node_count() implies new_t.walk(#[trigger] new_t.paths@[n]) == Some(
            n) by {
            if n < big_n {
                assert(new_t.paths@[n] == old_t.paths@[n]);
                assert(old_t.walk(old_t.paths@[n]) == Some(n));
            }
        }
        assert forall|w: Seq<char>| #[trigger] new_t.walk(w) is Some implies 0
            <= new_t.walk(w).unwrap() < new_t.node_count() && new_t.paths@[new_t.walk(
            w).unwrap()] == w by {
            if w != q {
                assert(old_t.walk(w) is Some);
            }
        }
        assert forall|v: Seq<char>| #[trigger] new_t.is_word(v) == old_t.is_word(v) by {
            if v != q && old_t.walk(v) is Some {
                assert(new_t.end_of_word@[old_t.walk(v).unwrap()] == old_t.end_of_word@[old_t.walk(
                    v,
                ).unwrap()]);
            }
        }
        assert forall|n: int|
            1 <= n < big_n && #[trigger] old_t.has_word_below(n) implies new_t.has_word_below(
            n) by {
            let v = choose|v: Seq<char>| #[trigger]
                old_t.is_word(v) && old_t.paths@[n].is_prefix_of(v);
            assert(new_t.is_word(v));
            assert(new_t.paths@[n] == old_t.paths@[n]);
        }
    }

    /// Whether the letters `w`, folded to lower case, form a held word.
    pub fn contains_letters(&self, w: &[char]) -> (r: bool)
        requires
            self.wf(),
            all_letters(w@),
        ensures
            r == self@.contains(fold_word(w@)),
    {
        match self.find_node(w) {
            Some(n) => self.end_of_word[n],
            None => false,
        }
    }

    /// Whether some held word starts with the letters `w`, folded to lower case.
    pub fn has_prefix_letters(&self, w: &[char]) -> (r: bool)
        requires
            self.wf(),
            all_letters(w@),
        ensures
            r == self.has_prefix(fold_word(w@)),
    {
        proof {
            self.lemma_has_prefix_walk(fold_word(w@));
        }
        self.find_node(w).is_some()
    }

    /// Adds `word`, folded to lower case. A word with a character other than an
    /// ASCII letter is refused and the dictionary is left as it was.
    pub fn insert(&mut self, word: &str) -> (r: Result<(), DictionaryError>)
        requires
            old(self).wf(),
        ensures
            final(self).wf(),
            all_letters(word@) ==> r is Ok && final(self)@ == old(self)@.insert(fold_word(word@)),
            !all_letters(word@) ==> r == Err::<(), _>(DictionaryError::InvalidCharacter)
                && final(self)@ == old(self)@,
    {
        let w = chars_of(word);
        if !is_all_letters(w.as_slice()) {
            return Err(DictionaryError::InvalidCharacter);
        }
        self.insert_letters(w.as_slice());
        Ok(())
    }

    /// Whether `word`, folded to lower case, was inserted.
    pub fn search(&self, word: &str) -> (r: Result<bool, DictionaryError>)
        requires
            self.wf(),
        ensures
            all_letters(word@) ==> r == Ok::<bool, DictionaryError>(self@.contains(fold_word(word@))),
            !all_letters(word@) ==> r == Err::<bool, _>(DictionaryError::InvalidCharacter),
    {
        let w = chars_of(word);
        if !is_all_letters(w.as_slice()) {
            return Err(DictionaryError::InvalidCharacter);
        }
        Ok(self.contains_letters(w.as_slice()))
    }

    /// Whether some inserted word starts with `prefix`, folded to lower case;
    /// the empty prefix always does.
    pub fn starts_with(&self, prefix: &str) -> (r: Result<bool, DictionaryError>)
        requires
            self.wf(),
        ensures
            all_letters(prefix@) ==> r == Ok::<bool, DictionaryError>(self.has_prefix(fold_word(prefix@))),
            !all_letters(prefix@) ==> r == Err::<bool, _>(DictionaryError::InvalidCharacter),
    {
        let w = chars_of(prefix);
        if !is_all_letters(w.as_slice()) {
            return Err(DictionaryError::InvalidCharacter);
        }
        Ok(self.has_prefix_letters(w.as_slice()))
    }

    /// Adds the word spelled by the letters `w`.
    fn insert_letters(&mut self, w: &[char])
        requires
            old(self).wf(),
            all_letters(w@),
        ensures
            final(self).wf(),
            final(self)@ == old(self)@.insert(fold_word(w@)),
    {
        let ghost old_t = *self;
        let ghost fw = fold_word(w@);
        let mut cur: usize = 0;
        let mut i: usize = 0;
        assert(fold_word(w@.subrange(0, 0)) =~= Seq::<char>::empty());
        while i < w.len()
            invariant
                self.wf_shape(),
                all_letters(w@),
                i <= w@.len(),
                fw == fold_word(w@),
                self.walk(fold_word(w@.subrange(0, i as int))) == Some(cur as int),
                forall|v: Seq<char>| #[trigger] self.is_word(v) == old_t.is_word(v),
                forall|n: int|
                    1 <= n < self.node_count() ==> #[trigger] self.has_word_below(n)
                        || self.paths@[n].is_prefix_of(fw),
            decreases w@.len() - i,
        {
            let c = w[i];
            let idx = letter_to_index(c).unwrap();
            let ghost pre = fold_word(w@.subrange(0, i as int));
            let ghost lc = to_lower(c);
            proof {
                assert(w@.subrange(0, i + 1) =~= w@.subrange(0, i as int).push(c));
                lemma_fold_push(w@.subrange(0, i as int), c);
                assert(pre.push(lc).is_prefix_of(fw)) by {
                    assert(fw.subrange(0, i + 1) =~= pre.push(lc));
                }
                assert(pre.push(lc).drop_last() =~= pre);
                assert(fold_word(w@.subrange(0, i + 1)) == pre.push(lc));
            }
            assert(0 <= cur < self.node_count());
            let total = self.children.len();
            assert(cur * 26 + idx < total) by (nonlinear_arith)
                requires
                    cur < self.node_count(),
                    idx < 26,
                    total == 26 * self.node_count(),
            ;
            let slot = cur * ALPHABET + idx;
            match self.children[slot] {
                Some(m) => {
                    cur = m;
                },
                None => {
                    let ghost prev = *self;
                    let new_node = self.end_of_word.len();
                    self.push_empty_node();
                    let _ = self.end_of_word.len();
                    self.children[slot] = Some(new_node);
                    self.paths = Ghost(self.paths@.push(pre.push(lc)));
                    proof {
                        assert(self.children@ == (prev.children@ + empty_slots()).update(
                            26 * prev.walk(pre).unwrap() + (lc as int - 'a' as int),
                            Some(prev.node_count() as usize),
                        ));
                        Trie::lemma_link_wf(prev, *self, pre, lc);
                        assert forall|n: int|
                            1 <= n < self.node_count() implies #[trigger] self.has_word_below(n)
                            || self.paths@[n].is_prefix_of(fw) by {
                            if n < prev.node_count() {
                                assert(self.paths@[n] == prev.paths@[n]);
                                if prev.has_word_below(n) {
                                }
                            }
                        }
                    }
                    cur = new_node;
                },
            }
            i = i + 1;
        }
        assert(w@.subrange(0, w@.len() as int) =~= w@);
        let ghost prev = *self;
        self.end_of_word[cur] = true;
        proof {
            assert forall|v: Seq<char>| #[trigger] self.walk(v) == prev.walk(v) by {
                Trie::lemma_walk_same(*self, prev, v);
            }
            assert(prev.paths@[cur as int] == fw);
            assert(self.end_of_word@ == prev.end_of_word@.update(cur as int, true));
            assert forall|v: Seq<char>| #[trigger] self.is_word(v) == (old_t.is_word(v) || v == fw) by {
                assert(prev.is_word(v) == old_t.is_word(v));
                assert(self.walk(v) == prev.walk(v));
                if prev.walk(v) is Some && v != fw {
                    assert(prev.paths@[prev.walk(v).unwrap()] == v);
                }
            }
            assert(self.is_word(fw));
            assert forall|n: int| 1 <= n < self.node_count() implies #[trigger] self.has_word_below(
                n) by {
                if prev.has_word_below(n) {
                    let v = choose|v: Seq<char>| #[trigger]
                        prev.is_word(v) && prev.paths@[n].is_prefix_of(v);
                    assert(self.is_word(v));
                } else {
                    assert(self.paths@[n].is_prefix_of(fw));
                }
            }
            assert(self@ =~= old_t@.insert(fw));
        }
    }

    /// Appends a node with no children that ends no word.
    fn push_empty_node(&mut self)
        ensures
            final(self).children@ == old(self).children@ + empty_slots(),
            final(self).end_of_word@ == old(self).end_of_word@.push(false),
            final(self).paths == old(self).paths,
    {
        let mut i: usize = 0;
        let ghost start = self.children@;
        while i < ALPHABET
            invariant
                i <= ALPHABET,
                self.children@ == start + Seq::new(i as nat, |j: int| None::<usize>),
                self.end_of_word == old(self).end_of_word,
                self.paths == old(self).paths,
                start == old(self).children@,
            decreases ALPHABET - i,
        {
            self.children.push(None);
            i = i + 1;
            assert(self.children@ =~= start + Seq::new(i as nat, |j: int| None::<usize>));
        }
        assert(Seq::new(26, |j: int| None::<usize>) =~= empty_slots());
        self.end_of_word.push(false);
    }

    /// The node spelled by the letters `w`, if the trie has one.
    fn find_node(&self, w: &[char]) -> (r: Option<usize>)
        requires
            self.wf_shape(),
            all_letters(w@),
        ensures
            r matches Some(n) ==> self.walk(fold_word(w@)) == Some(n as int),
            r is None ==> self.walk(fold_word(w@)) is None,
    {
        let mut cur: usize = 0;
        let mut i: usize = 0;
        assert(fold_word(w@.subrange(0, 0)) =~= Seq::<char>::empty());
        while i < w.len()
            invariant
                self.wf_shape(),
                all_letters(w@),
                i <= w@.len(),
                self.walk(fold_word(w@.subrange(0, i as int))) == Some(cur as int),
            decreases w@.len() - i,
        {
            let c = w[i];
            let idx = letter_to_index(c).unwrap();
            let ghost pre = fold_word(w@.subrange(0, i as int));
            proof {
                assert(w@.subrange(0, i + 1) =~= w@.subrange(0, i as int).push(c));
                lemma_fold_push(w@.subrange(0, i as int), c);
                let next = fold_word(w@.subrange(0, i + 1));
                assert(next.drop_last() =~= pre);
                assert(next.last() == to_lower(c));
            }
            assert(0 <= cur < self.node_count());
            let total = self.children.len();
            assert(cur * 26 + idx < total) by (nonlinear_arith)
                requires
                    cur < self.node_count(),
                    idx < 26,
                    total == 26 * self.node_count(),
            ;
            match self.children[cur * ALPHABET + idx] {
                Some(m) => {
                    cur = m;
                },
                None => {
                    proof {
                        let c2 = to_lower(c);
                        lemma_fold_push(w@.subrange(0, i as int), c);
                        assert(w@.subrange(0, i + 1) =~= w@.subrange(0, i as int).push(c));
                        assert(self.walk(pre.push(c2)) is None);
                        self.lemma_walk_prefix_none(fold_word(w@), pre.push(c2));
                    }
                    return None;
                },
            }
            i = i + 1;
        }
        assert(w@.subrange(0, w@.len() as int) =~= w@);
        Some(cur)
    }

    /// Once a prefix has no node, no extension of it has one.
    proof fn lemma_walk_prefix_none(self, w: Seq<char>, p: Seq<char>)
        requires
            p.is_prefix_of(w),
            self.walk(p) is None,
        ensures
            self.walk(w) is None,
    {
        if self.walk(w) is Some {
            self.lemma_walk_prefix(w, p.len() as int);
            assert(w.subrange(0, p.len() as int) =~= p);
        }
    }

    /// An empty dictionary.
    pub fn new() -> (r: Trie)
        ensures
            r.wf(),
            r@ == Set::<Seq<char>>::empty(),
    {
        let mut children: Vec<Option<usize>> = Vec::new();
        let mut i: usize = 0;
        while i < ALPHABET
            invariant
                i <= ALPHABET,
                children@.len() == i,
                forall|j: int| 0 <= j < i ==> #[trigger] children@[j] is None,
            decreases ALPHABET - i,
        {
            children.push(None);
            i = i + 1;
        }
        let mut end_of_word: Vec<bool> = Vec::new();
        end_of_word.push(false);
        let r = Trie { children, end_of_word, paths: Ghost(Seq::<Seq<char>>::empty().push(Seq::<char>::empty())) };
        assert forall|w: Seq<char>| #[trigger] r.walk(w) is Some implies r.walk(w).unwrap()
            == 0 && w.len() == 0 by {
            if w.len() > 0 {
                let m = r.walk(w.drop_last()).unwrap();
                assert(r.child(m, w.last()) is None);
            }
        }
        assert forall|w: Seq<char>| #[trigger] r.walk(w) is Some implies 0 <= r.walk(w).unwrap()
            < r.node_count() && r.paths@[r.walk(w).unwrap()] == w by {
            assert(w =~= r.paths@[0]);
        }
        assert(r.walk(Seq::<char>::empty()) == Some(0int));
        assert(r@ =~= Set::<Seq<char>>::empty()) by {
            assert forall|w: Seq<char>| !r.is_word(w) by {
                if r.walk(w) is Some {
                    assert(r.walk(w).unwrap() == 0);
                }
            }
        }
        r
    }
}

/// Every line holds ASCII letters only.
pub open spec fn lines_are_words(lines: Seq<String>) -> bool {
    forall|i: int| 0 <= i < lines.len() ==> all_letters(#[trigger] lines[i]@)
}

/// The words of the first `n` lines, folded to lower case.
pub open spec fn words_of(lines: Seq<String>, n: int) -> Set<Seq<char>> {
    Set::new(|w: Seq<char>| exists|i: int| 0 <= i < n && w == fold_word(#[trigger] lines[i]@))
}

/// A dictionary holding one word per line. A line with a character other than
/// an ASCII letter fails the whole build.
pub fn build_dictionary(lines: &[String]) -> (r: Result<Trie, DictionaryError>)
    ensures
        lines_are_words(lines@) ==> (r matches Ok(t) && t.wf() && t@ == words_of(
            lines@,
            lines@.len() as int,
        )),
        !lines_are_words(lines@) ==> r == Err::<Trie, _>(DictionaryError::InvalidCharacter),
{
    let mut t = Trie::new();
    let mut i: usize = 0;
    assert(t@ =~= words_of(lines@, 0));
    while i < lines.len()
        invariant
            i <= lines@.len(),
            t.wf(),
            t@ == words_of(lines@, i as int),
            forall|k: int| 0 <= k < i ==> all_letters(#[trigger] lines@[k]@),
        decreases lines@.len() - i,
    {
        let line = lines[i].as_str();
        match t.insert(line) {
            Ok(()) => {},
            Err(e) => {
                return Err(e);
            },
        }
        proof {
            assert(t@ =~= words_of(lines@, i + 1)) by {
                assert forall|w: Seq<char>| #[trigger] words_of(lines@, i + 1).contains(w) implies t@.contains(w) by {
                    let k = choose|k: int| 0 <= k < i + 1 && w == fold_word(#[trigger] lines@[k]@);
                    if k < i {
                        assert(words_of(lines@, i as int).contains(w));
                    }
                }
                assert forall|w: Seq<char>| t@.contains(w) implies #[trigger] words_of(lines@, i + 1).contains(w) by {
                    if w != fold_word(lines@[i as int]@) {
                        let k = choose|k: int| 0 <= k < i && w == fold_word(#[trigger] lines@[k]@);
                        assert(0 <= k < i + 1);
                    }
                }
            }
        }
        i = i + 1;
    }
    Ok(t)
}

/// Once a word is inserted it is found, and every prefix of it, the empty one
/// included, is a prefix of the dictionary.
pub proof fn lemma_inserted_word_found(before: Trie, after: Trie, word: Seq<char>, p: Seq<char>)
    requires
        after@ == before@.insert(fold_word(word)),
        p.is_prefix_of(word),
    ensures
        after@.contains(fold_word(word)),
        after.has_prefix(fold_word(p)),
{
    assert(fold_word(p).is_prefix_of(fold_word(word)));
    after.lemma_prefix_of_word(fold_word(word), fold_word(p));
}

/// A word that is found is also a prefix of the dictionary.
pub proof fn lemma_word_is_prefix(t: Trie, w: Seq<char>)
    requires
        t@.contains(w),
    ensures
        t.has_prefix(w),
{
    t.lemma_prefix_of_word(w, w);
}

} // verus!
