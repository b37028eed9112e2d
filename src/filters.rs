use vstd::prelude::*;
use crate::text::chars_of;

verus! {

/// Whether `p` occurs in `w` as a run of consecutive characters.
pub open spec fn is_infix_of(p: Seq<char>, w: Seq<char>) -> bool {
    exists|i: int| 0 <= i && i + p.len() <= w.len() && #[trigger] w.subrange(i, i + p.len()) == p
}

/// Conditions a candidate word must meet to be reported: it starts with
/// `starts_with`, ends with `ends_with` and contains `contains`. An empty
/// condition is always met.
pub struct BasicWordFilters {
    pub starts_with: String,
    pub ends_with: String,
    pub contains: String,
}

impl BasicWordFilters {
    pub open spec fn passes(self, w: Seq<char>) -> bool {
        &&& self.starts_with@.is_prefix_of(w)
        &&& self.ends_with@.is_suffix_of(w)
        &&& is_infix_of(self.contains@, w)
    }

    pub fn new(starts_with: &str, ends_with: &str, contains: &str) -> (r: BasicWordFilters)
        ensures
            r.starts_with@ == starts_with@,
            r.ends_with@ == ends_with@,
            r.contains@ == contains@,
    {
        BasicWordFilters {
            starts_with: starts_with.to_owned(),
            ends_with: ends_with.to_owned(),
            contains: contains.to_owned(),
        }
    }

    /// Whether `word` meets all three conditions.
    pub fn passes_filters(&self, word: &str) -> (r: bool)
        ensures
            r == self.passes(word@),
    {
        let w = chars_of(word);
        self.passes_chars(w.as_slice())
    }

    /// Whether the word spelled by `w` meets all three conditions.
    pub fn passes_chars(&self, w: &[char]) -> (r: bool)
        ensures
            r == self.passes(w@),
    {
        let s = chars_of(self.starts_with.as_str());
        let e = chars_of(self.ends_with.as_str());
        let c = chars_of(self.contains.as_str());
        let n = w.len();
        if s.len() > n || e.len() > n {
            return false;
        }
        if !matches_at(w, s.as_slice(), 0) {
            return false;
        }
        if !matches_at(w, e.as_slice(), n - e.len()) {
            return false;
        }
        occurs_in(c.as_slice(), w)
    }
}

impl Default for BasicWordFilters {
    /// No conditions: every word passes.
    fn default() -> (r: BasicWordFilters)
        ensures
            r.starts_with@ == Seq::<char>::empty(),
            r.ends_with@ == Seq::<char>::empty(),
            r.contains@ == Seq::<char>::empty(),
    {
        BasicWordFilters { starts_with: String::new(), ends_with: String::new(), contains: String::new() }
    }
}

/// Whether `p` stands in `w` from position `start` on.
fn matches_at(w: &[char], p: &[char], start: usize) -> (r: bool)
    requires
        start + p@.len() <= w@.len(),
    ensures
        r == (w@.subrange(start as int, start + p@.len()) == p@),
{
    let wl = w.len();
    let mut i: usize = 0;
    while i < p.len()
        invariant
            wl == w@.len(),
            start + p@.len() <= w@.len(),
            i <= p@.len(),
            forall|j: int| 0 <= j < i ==> w@[start + j] == #[trigger] p@[j],
        decreases p@.len() - i,
    {
        if w[start + i] != p[i] {
            assert(w@.subrange(start as int, start + p@.len())[i as int] != p@[i as int]);
            return false;
        }
        i = i + 1;
    }
    assert(w@.subrange(start as int, start + p@.len()) =~= p@);
    true
}

/// Whether `p` occurs in `w` as a run of consecutive characters.
fn occurs_in(p: &[char], w: &[char]) -> (r: bool)
    ensures
        r == is_infix_of(p@, w@),
{
    if p.len() > w.len() {
        return false;
    }
    let last = w.len() - p.len();
    let mut i: usize = 0;
    while i <= last
        invariant
            last + p@.len() == w@.len(),
            forall|j: int| 0 <= j < i ==> #[trigger] w@.subrange(j, j + p@.len()) != p@,
        decreases last + 1 - i,
    {
        if matches_at(w, p, i) {
            return true;
        }
        if i == last {
            return false;
        }
        i = i + 1;
    }
    false
}

} // verus!
