//! Words: fixed-length sequences of lowercase letters, and counting over them.

use vstd::prelude::*;
use vstd::string::*;

verus! {

/// Number of letters in every word.
pub const WORD_LENGTH: usize = 5;

/// Number of letters in the alphabet.
pub const ALPHABET_SIZE: usize = 26;

/// A lowercase letter of the 26-letter alphabet.
pub open spec fn is_letter(c: char) -> bool {
    'a' <= c && c <= 'z'
}

/// A word is exactly `WORD_LENGTH` lowercase letters.
pub open spec fn is_word(w: Seq<char>) -> bool {
    &&& w.len() == WORD_LENGTH
    &&& forall|i: int| 0 <= i < w.len() ==> is_letter(#[trigger] w[i])
}

/// Every entry of a vocabulary is a word.
pub open spec fn all_words(ws: Seq<Seq<char>>) -> bool {
    forall|i: int| 0 <= i < ws.len() ==> is_word(#[trigger] ws[i])
}

/// The vocabulary that a list of string slices stands for.
pub open spec fn word_views(ws: Seq<&str>) -> Seq<Seq<char>> {
    Seq::new(ws.len(), |i: int| ws[i]@)
}

/// Position of a letter in the alphabet: `'a'` is 0 and `'z'` is 25.
pub open spec fn letter_index(c: char) -> int {
    c as int - 97
}

/// The letter at a position of the alphabet.
pub open spec fn nth_letter(k: int) -> char {
    (k + 97) as u8 as char
}

/// How often `c` occurs among the first `n` letters of `w`.
pub open spec fn occurrences_upto(w: Seq<char>, c: char, n: int) -> nat
    decreases n,
{
    if n <= 0 {
        0
    } else {
        occurrences_upto(w, c, n - 1) + if w[n - 1] == c { 1nat } else { 0nat }
    }
}

/// How often `c` occurs in `w`.
pub open spec fn occurrences(w: Seq<char>, c: char) -> nat {
    occurrences_upto(w, c, w.len() as int)
}

pub proof fn lemma_occurrences_bounded(w: Seq<char>, c: char, n: int)
    requires
        0 <= n,
    ensures
        occurrences_upto(w, c, n) <= n,
    decreases n,
{
    if n > 0 {
        lemma_occurrences_bounded(w, c, n - 1);
    }
}

/// The alphabet position of a letter.
pub fn index_of_letter(c: char) -> (k: usize)
    requires
        is_letter(c),
    ensures
        k == letter_index(c),
        k < ALPHABET_SIZE,
{
    (c as usize) - 97
}

/// The letter at an alphabet position.
pub fn letter_at(k: usize) -> (c: char)
    requires
        k < ALPHABET_SIZE,
    ensures
        c == nth_letter(k as int),
        is_letter(c),
{
    let b: u8 = (k as u8) + 97;
    b as char
}

/// Whether two strings hold the same characters.
pub fn same_text(a: &str, b: &str) -> (r: bool)
    ensures
        r == (a@ == b@),
{
    let n: usize = a.unicode_len();
    if n != b.unicode_len() {
        return false;
    }
    let mut i: usize = 0;
    while i < n
        invariant
            n == a@.len(),
            n == b@.len(),
            0 <= i <= n,
            forall|j: int| 0 <= j < i ==> a@[j] == b@[j],
        decreases n - i,
    {
        if a.get_char(i) != b.get_char(i) {
            return false;
        }
        i += 1;
    }
    assert(a@ =~= b@);
    true
}

/// Whether a string is a word: `WORD_LENGTH` lowercase letters.
pub fn is_valid_word(w: &str) -> (r: bool)
    ensures
        r == is_word(w@),
{
    if w.unicode_len() != WORD_LENGTH {
        return false;
    }
    let mut i: usize = 0;
    while i < WORD_LENGTH
        invariant
            w@.len() == WORD_LENGTH,
            0 <= i <= WORD_LENGTH,
            forall|j: int| 0 <= j < i ==> is_letter(#[trigger] w@[j]),
        decreases WORD_LENGTH - i,
    {
        let c: char = w.get_char(i);
        if c < 'a' || c > 'z' {
            return false;
        }
        i += 1;
    }
    true
}

/// How often the letter `c` occurs in the word `w`.
pub fn count_letter(w: &str, c: char) -> (n: u8)
    requires
        w@.len() == WORD_LENGTH,
    ensures
        n == occurrences(w@, c),
        n <= WORD_LENGTH,
{
    let mut n: u8 = 0;
    let mut i: usize = 0;
    while i < WORD_LENGTH
        invariant
            w@.len() == WORD_LENGTH,
            0 <= i <= WORD_LENGTH,
            n == occurrences_upto(w@, c, i as int),
            n <= i,
        decreases WORD_LENGTH - i,
    {
        if w.get_char(i) == c {
            n += 1;
        }
        i += 1;
    }
    n
}

/// Whether `w` occurs in `list`.
pub fn contains_word(list: &[&str], w: &str) -> (r: bool)
    ensures
        r == word_views(list@).contains(w@),
{
    let mut i: usize = 0;
    while i < list.len()
        invariant
            0 <= i <= list@.len(),
            forall|j: int| 0 <= j < i ==> word_views(list@)[j] != w@,
        decreases list@.len() - i,
    {
        if same_text(list[i], w) {
            assert(word_views(list@)[i as int] == w@);
            return true;
        }
        i += 1;
    }
    false
}

} // verus!
