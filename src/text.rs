use vstd::prelude::*;
use vstd::string::StrSliceExecFns;

verus! {

/// An ASCII letter, in either case.
pub open spec fn is_letter(c: char) -> bool {
    ('a' <= c && c <= 'z') || ('A' <= c && c <= 'Z')
}

pub open spec fn is_lower(c: char) -> bool {
    'a' <= c && c <= 'z'
}

pub open spec fn all_letters(w: Seq<char>) -> bool {
    forall|i: int| 0 <= i < w.len() ==> is_letter(#[trigger] w[i])
}

/// ASCII case folding of one character; anything but an upper-case letter is kept.
pub open spec fn to_lower(c: char) -> char {
    if 'A' <= c && c <= 'Z' {
        ((c as u32) + 32) as char
    } else {
        c
    }
}

/// A word with every character folded to lower case.
pub open spec fn fold_word(w: Seq<char>) -> Seq<char> {
    w.map_values(|c: char| to_lower(c))
}

/// Position of a letter in the alphabet, ignoring case.
pub open spec fn letter_index(c: char) -> int {
    to_lower(c) as int - 'a' as int
}

pub proof fn lemma_fold_push(w: Seq<char>, c: char)
    ensures
        fold_word(w.push(c)) == fold_word(w).push(to_lower(c)),
{
    assert(fold_word(w.push(c)) =~= fold_word(w).push(to_lower(c)));
}

/// The alphabet position of a letter, or `None` for any other character.
pub fn letter_to_index(c: char) -> (r: Option<usize>)
    ensures
        r is Some <==> is_letter(c),
        r matches Some(i) ==> i < 26 && i as int == letter_index(c) && is_lower(to_lower(c)),
{
    if 'a' <= c && c <= 'z' {
        Some(((c as u32) - ('a' as u32)) as usize)
    } else if 'A' <= c && c <= 'Z' {
        Some(((c as u32) - ('A' as u32)) as usize)
    } else {
        None
    }
}

/// The characters of a string, in order.
pub fn chars_of(s: &str) -> (r: Vec<char>)
    ensures
        r@ == s@,
{
    let n = s.unicode_len();
    let mut r: Vec<char> = Vec::new();
    let mut i: usize = 0;
    while i < n
        invariant
            n == s@.len(),
            i <= n,
            r@ == s@.subrange(0, i as int),
        decreases n - i,
    {
        r.push(s.get_char(i));
        i = i + 1;
        assert(r@ =~= s@.subrange(0, i as int));
    }
    assert(r@ =~= s@);
    r
}

/// Relies on String::push: the character is appended at the end.
#[verifier::external_body]
fn push_char(s: &mut String, c: char)
    ensures
        final(s)@ == old(s)@.push(c),
{
    s.push(c);
}

/// A string holding the given characters, in order.
pub fn string_of(w: &[char]) -> (r: String)
    ensures
        r@ == w@,
{
    let mut r = String::new();
    let mut i: usize = 0;
    while i < w.len()
        invariant
            i <= w@.len(),
            r@ == w@.subrange(0, i as int),
        decreases w@.len() - i,
    {
        push_char(&mut r, w[i]);
        i = i + 1;
        assert(r@ =~= w@.subrange(0, i as int));
    }
    assert(r@ =~= w@);
    r
}

/// Whether every character is an ASCII letter.
pub fn is_all_letters(w: &[char]) -> (r: bool)
    ensures
        r == all_letters(w@),
{
    let mut i: usize = 0;
    while i < w.len()
        invariant
            i <= w@.len(),
            forall|j: int| 0 <= j < i ==> is_letter(#[trigger] w@[j]),
        decreases w@.len() - i,
    {
        if letter_to_index(w[i]).is_none() {
            return false;
        }
        i = i + 1;
    }
    true
}

} // verus!
