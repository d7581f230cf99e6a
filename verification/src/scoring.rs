//! The scoring rule: how a guess is marked against a secret, and what
//! follows from the rule for repeated letters.

use vstd::prelude::*;
use crate::response::{all_correct, LetterResponse};
use crate::word::{occurrences, occurrences_upto};

verus! {

/// Among the first `n` positions, how many hold `c` in `a` and another letter in `b`.
pub open spec fn unmatched_upto(a: Seq<char>, b: Seq<char>, c: char, n: int) -> nat
    decreases n,
{
    if n <= 0 {
        0
    } else {
        unmatched_upto(a, b, c, n - 1) + if a[n - 1] == c && b[n - 1] != c {
            1nat
        } else {
            0nat
        }
    }
}

/// How many positions hold `c` in `a` and another letter in `b`.
pub open spec fn unmatched(a: Seq<char>, b: Seq<char>, c: char) -> nat {
    unmatched_upto(a, b, c, a.len() as int)
}

/// The mark of position `i` of the guess.
///
/// A letter that stands at the same position of the secret is `Correct`.
/// Any other letter is `Misplaced` as long as the secret still has an
/// occurrence of it that no `Correct` mark and no earlier `Misplaced` mark
/// has used up, and `Absent` after that.
pub open spec fn letter_score(guess: Seq<char>, secret: Seq<char>, i: int) -> LetterResponse {
    let c = guess[i];
    if c == secret[i] {
        LetterResponse::Correct
    } else if unmatched_upto(guess, secret, c, i) < unmatched(secret, guess, c) {
        LetterResponse::Misplaced
    } else {
        LetterResponse::Absent
    }
}

/// The response of the game to `guess` when the secret is `secret`.
pub open spec fn score(guess: Seq<char>, secret: Seq<char>) -> Seq<LetterResponse> {
    Seq::new(guess.len(), |i: int| letter_score(guess, secret, i))
}

/// Among the first `n` positions of the guess, how many hold `c` and are not marked `Absent`.
pub open spec fn present_upto(guess: Seq<char>, marks: Seq<LetterResponse>, c: char, n: int) -> nat
    decreases n,
{
    if n <= 0 {
        0
    } else {
        present_upto(guess, marks, c, n - 1) + if guess[n - 1] == c && marks[n - 1]
            != LetterResponse::Absent {
            1nat
        } else {
            0nat
        }
    }
}

/// How many positions of the guess hold `c` and are marked `Correct` or `Misplaced`.
pub open spec fn present(guess: Seq<char>, marks: Seq<LetterResponse>, c: char) -> nat {
    present_upto(guess, marks, c, guess.len() as int)
}

/// Some position of the guess holds `c` and is marked `Absent`.
pub open spec fn absent_marked(guess: Seq<char>, marks: Seq<LetterResponse>, c: char) -> bool {
    exists|i: int| 0 <= i < guess.len() && guess[i] == c && marks[i] == LetterResponse::Absent
}

/// No letter occurs twice.
pub open spec fn no_repeats(w: Seq<char>) -> bool {
    forall|i: int, j: int| 0 <= i < j < w.len() ==> w[i] != w[j]
}

pub open spec fn min_nat(a: nat, b: nat) -> nat {
    if a <= b {
        a
    } else {
        b
    }
}

pub open spec fn max_nat(a: nat, b: nat) -> nat {
    if a >= b {
        a
    } else {
        b
    }
}

pub proof fn lemma_present_bounded(guess: Seq<char>, marks: Seq<LetterResponse>, c: char, n: int)
    requires
        0 <= n,
    ensures
        present_upto(guess, marks, c, n) <= n,
    decreases n,
{
    if n > 0 {
        lemma_present_bounded(guess, marks, c, n - 1);
    }
}

pub proof fn lemma_unmatched_monotone(a: Seq<char>, b: Seq<char>, c: char, m: int, n: int)
    requires
        m <= n,
    ensures
        unmatched_upto(a, b, c, m) <= unmatched_upto(a, b, c, n),
    decreases n - m,
{
    if m < n {
        lemma_unmatched_monotone(a, b, c, m, n - 1);
    }
}

pub proof fn lemma_unmatched_zero(a: Seq<char>, b: Seq<char>, c: char, n: int)
    requires
        forall|k: int| 0 <= k < n ==> !(a[k] == c && b[k] != c),
    ensures
        unmatched_upto(a, b, c, n) == 0,
    decreases n,
{
    if n > 0 {
        lemma_unmatched_zero(a, b, c, n - 1);
    }
}

pub proof fn lemma_unmatched_positive(a: Seq<char>, b: Seq<char>, c: char, n: int, k: int)
    requires
        0 <= k < n,
        a[k] == c,
        b[k] != c,
    ensures
        unmatched_upto(a, b, c, n) > 0,
    decreases n,
{
    if k < n - 1 {
        lemma_unmatched_positive(a, b, c, n - 1, k);
    }
}

/// The marks that are not `Absent`, counted letter by letter: the exact
/// matches, and as many further positions as the guess and the secret both
/// have to offer.
pub proof fn lemma_present_count(guess: Seq<char>, secret: Seq<char>, c: char, n: int)
    requires
        guess.len() == secret.len(),
        0 <= n <= guess.len(),
    ensures
        present_upto(guess, score(guess, secret), c, n) == occurrences_upto(secret, c, n)
            - unmatched_upto(secret, guess, c, n) + min_nat(
            unmatched_upto(guess, secret, c, n),
            unmatched(secret, guess, c),
        ),
    decreases n,
{
    if n > 0 {
        lemma_present_count(guess, secret, c, n - 1);
        assert(score(guess, secret)[n - 1] == letter_score(guess, secret, n - 1));
    }
}

/// A guess that equals the secret is marked `Correct` at every position.
pub proof fn lemma_score_of_secret(word: Seq<char>)
    ensures
        score(word, word).len() == word.len(),
        all_correct(score(word, word)),
{
}

/// Only the secret itself is marked `Correct` at every position.
pub proof fn lemma_all_correct_is_secret(guess: Seq<char>, secret: Seq<char>)
    requires
        guess.len() == secret.len(),
        all_correct(score(guess, secret)),
    ensures
        guess == secret,
{
    assert forall|i: int| 0 <= i < guess.len() implies guess[i] == secret[i] by {
        assert(score(guess, secret)[i] == letter_score(guess, secret, i));
    }
    assert(guess =~= secret);
}

/// Between words without repeated letters, a position is `Correct` where the
/// two words agree, else `Misplaced` where the guessed letter occurs anywhere
/// in the secret, else `Absent`.
pub proof fn lemma_score_without_repeats(guess: Seq<char>, secret: Seq<char>, i: int)
    requires
        guess.len() == secret.len(),
        no_repeats(guess),
        no_repeats(secret),
        0 <= i < guess.len(),
    ensures
        score(guess, secret)[i] == (if guess[i] == secret[i] {
            LetterResponse::Correct
        } else if secret.contains(guess[i]) {
            LetterResponse::Misplaced
        } else {
            LetterResponse::Absent
        }),
{
    let c = guess[i];
    let n = guess.len() as int;
    if c != secret[i] {
        assert forall|j: int| 0 <= j < i implies !(guess[j] == c && secret[j] != c) by {}
        lemma_unmatched_zero(guess, secret, c, i);
        if secret.contains(c) {
            let k = choose|k: int| 0 <= k < secret.len() && secret[k] == c;
            assert(k != i);
            if guess[k] == c {
                assert(guess[k] == guess[i]);
                assert(false);
            }
            lemma_unmatched_positive(secret, guess, c, n, k);
        } else {
            assert forall|k: int| 0 <= k < n implies !(secret[k] == c && guess[k] != c) by {
                if secret[k] == c {
                    assert(secret.contains(c));
                }
            }
            lemma_unmatched_zero(secret, guess, c, n);
        }
    }
}

/// For every letter, the guess carries at most as many `Correct` and
/// `Misplaced` marks on that letter as the secret has occurrences of it.
pub proof fn lemma_marks_conserved(guess: Seq<char>, secret: Seq<char>, c: char)
    requires
        guess.len() == secret.len(),
    ensures
        present(guess, score(guess, secret), c) <= occurrences(secret, c),
{
    lemma_present_count(guess, secret, c, guess.len() as int);
}

/// Once a letter of the guess is marked `Absent`, the other marks on that
/// letter account for every occurrence of it in the secret.
pub proof fn lemma_absent_mark_is_exact(guess: Seq<char>, secret: Seq<char>, c: char)
    requires
        guess.len() == secret.len(),
        absent_marked(guess, score(guess, secret), c),
    ensures
        present(guess, score(guess, secret), c) == occurrences(secret, c),
{
    let n = guess.len() as int;
    let i = choose|i: int|
        0 <= i < guess.len() && guess[i] == c && score(guess, secret)[i] == LetterResponse::Absent;
    assert(score(guess, secret)[i] == letter_score(guess, secret, i));
    lemma_unmatched_monotone(guess, secret, c, i, n);
    lemma_present_count(guess, secret, c, n);
}

/// Where two secrets are matched exactly by the guess at the same positions,
/// the guess has the same letters left over against either, and either
/// secret has as many occurrences of a letter matched exactly as the other.
pub proof fn lemma_same_exact_matches(
    guess: Seq<char>,
    first: Seq<char>,
    second: Seq<char>,
    c: char,
    n: int,
)
    requires
        forall|k: int| 0 <= k < n ==> ((guess[k] == first[k]) <==> (guess[k] == second[k])),
    ensures
        unmatched_upto(guess, first, c, n) == unmatched_upto(guess, second, c, n),
        occurrences_upto(first, c, n) - unmatched_upto(first, guess, c, n) == occurrences_upto(
            second,
            c,
            n,
        ) - unmatched_upto(second, guess, c, n),
    decreases n,
{
    if n > 0 {
        lemma_same_exact_matches(guess, first, second, c, n - 1);
    }
}

/// A word draws the same response as the secret if the guess matches both
/// exactly at the same positions and the word has, of every guessed letter,
/// at least as many occurrences as the response to the secret shows, and no
/// more than that where the response marks the letter `Absent`.
pub proof fn lemma_same_response(guess: Seq<char>, secret: Seq<char>, word: Seq<char>)
    requires
        guess.len() == secret.len(),
        guess.len() == word.len(),
        forall|k: int|
            0 <= k < guess.len() ==> ((guess[k] == secret[k]) <==> (guess[k] == word[k])),
        forall|k: int|
            0 <= k < guess.len() ==> present(guess, score(guess, secret), #[trigger] guess[k])
                <= occurrences(word, guess[k]),
        forall|k: int|
            0 <= k < guess.len() && absent_marked(guess, score(guess, secret), #[trigger] guess[k])
                ==> occurrences(word, guess[k]) <= present(guess, score(guess, secret), guess[k]),
    ensures
        score(guess, word) == score(guess, secret),
{
    let n = guess.len() as int;
    let marks = score(guess, secret);
    assert forall|i: int| 0 <= i < n implies letter_score(guess, word, i) == letter_score(
        guess,
        secret,
        i,
    ) by {
        let c = guess[i];
        if c != secret[i] {
            lemma_same_exact_matches(guess, secret, word, c, i);
            lemma_same_exact_matches(guess, secret, word, c, n);
            lemma_present_count(guess, secret, c, n);
            lemma_unmatched_monotone(guess, secret, c, i + 1, n);
            assert(unmatched_upto(guess, secret, c, i + 1) == unmatched_upto(guess, secret, c, i)
                + 1);
            assert(present(guess, marks, guess[i]) <= occurrences(word, guess[i]));
            if !(unmatched_upto(guess, secret, c, i) < unmatched(secret, guess, c)) {
                assert(marks[i] == LetterResponse::Absent);
                assert(absent_marked(guess, marks, guess[i]));
            }
        }
    }
    assert(score(guess, word) =~= score(guess, secret));
}

} // verus!
