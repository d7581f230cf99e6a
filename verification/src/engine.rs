//! The game itself: one secret word, a vocabulary of permitted guesses, and
//! the response to each guess.

use vstd::prelude::*;
use vstd::string::*;
use rand::seq::SliceRandom;
use crate::response::{LetterResponse, WordleResponse};
use crate::scoring::{
    letter_score, lemma_score_of_secret, min_nat, score, unmatched, unmatched_upto,
};
use crate::word::{all_words, contains_word, is_word, same_text, word_views, WORD_LENGTH};

verus! {

/// An engine for playing Wordle.
pub struct WordleEngine {
    word_list: Vec<&'static str>,
    solution: &'static str,
    found: bool,
}

/// Among the first `n` positions of the secret, how many hold `c`, are not
/// matched exactly by the guess, and have been used for a `Misplaced` mark.
spec fn consumed_upto(taken: Seq<bool>, guess: Seq<char>, secret: Seq<char>, c: char, n: int) -> nat
    decreases n,
{
    if n <= 0 {
        0
    } else {
        consumed_upto(taken, guess, secret, c, n - 1) + if taken[n - 1] && secret[n - 1] == c
            && guess[n - 1] != c {
            1nat
        } else {
            0nat
        }
    }
}

proof fn lemma_consumed_none(taken: Seq<bool>, guess: Seq<char>, secret: Seq<char>, c: char, n: int)
    requires
        forall|k: int| 0 <= k < n && taken[k] ==> guess[k] == secret[k],
    ensures
        consumed_upto(taken, guess, secret, c, n) == 0,
    decreases n,
{
    if n > 0 {
        lemma_consumed_none(taken, guess, secret, c, n - 1);
    }
}

proof fn lemma_consumed_all(taken: Seq<bool>, guess: Seq<char>, secret: Seq<char>, c: char, n: int)
    requires
        forall|k: int| 0 <= k < n ==> taken[k] || secret[k] != c,
    ensures
        consumed_upto(taken, guess, secret, c, n) == unmatched_upto(secret, guess, c, n),
    decreases n,
{
    if n > 0 {
        lemma_consumed_all(taken, guess, secret, c, n - 1);
    }
}

proof fn lemma_consumed_some_left(
    taken: Seq<bool>,
    guess: Seq<char>,
    secret: Seq<char>,
    c: char,
    n: int,
    k: int,
)
    requires
        0 <= k < n <= taken.len(),
        !taken[k],
        secret[k] == c,
        guess[k] != c,
    ensures
        consumed_upto(taken, guess, secret, c, n) < unmatched_upto(secret, guess, c, n),
        consumed_upto(taken.update(k, true), guess, secret, c, n) == consumed_upto(
            taken,
            guess,
            secret,
            c,
            n,
        ) + 1,
    decreases n,
{
    if k < n - 1 {
        lemma_consumed_some_left(taken, guess, secret, c, n - 1, k);
    } else {
        lemma_consumed_at_most(taken, guess, secret, c, n - 1);
        lemma_consumed_unchanged(taken, guess, secret, c, n - 1, k, c);
    }
}

proof fn lemma_consumed_at_most(taken: Seq<bool>, guess: Seq<char>, secret: Seq<char>, c: char, n: int)
    ensures
        consumed_upto(taken, guess, secret, c, n) <= unmatched_upto(secret, guess, c, n),
    decreases n,
{
    if n > 0 {
        lemma_consumed_at_most(taken, guess, secret, c, n - 1);
    }
}

proof fn lemma_consumed_unchanged(
    taken: Seq<bool>,
    guess: Seq<char>,
    secret: Seq<char>,
    c: char,
    n: int,
    k: int,
    other: char,
)
    requires
        0 <= k < taken.len(),
        n <= taken.len(),
        k >= n || secret[k] != other,
    ensures
        consumed_upto(taken.update(k, true), guess, secret, other, n) == consumed_upto(
            taken,
            guess,
            secret,
            other,
            n,
        ),
    decreases n,
{
    if n > 0 {
        lemma_consumed_unchanged(taken, guess, secret, c, n - 1, k, other);
    }
}

/// The first position of the secret that holds `c` and has not been used yet.
fn first_free(taken: &[bool; 5], solution: &str, c: char) -> (found: Option<usize>)
    requires
        solution@.len() == WORD_LENGTH,
    ensures
        match found {
            Some(k) => k < WORD_LENGTH && !taken@[k as int] && solution@[k as int] == c,
            None => forall|k: int| 0 <= k < WORD_LENGTH ==> taken@[k] || solution@[k] != c,
        },
{
    let mut k: usize = 0;
    while k < WORD_LENGTH
        invariant
            solution@.len() == WORD_LENGTH,
            0 <= k <= WORD_LENGTH,
            forall|m: int| 0 <= m < k ==> taken@[m] || solution@[m] != c,
        decreases WORD_LENGTH - k,
    {
        if !taken[k] && solution.get_char(k) == c {
            return Some(k);
        }
        k += 1;
    }
    None
}

/// Draws one entry of the vocabulary at random.
///
/// Calls `SliceRandom::choose` of `rand` on the vocabulary, with the thread's
/// generator. Trusted: an empty vocabulary gives `None`; any other gives one
/// of its entries, and nothing is said about which.
#[verifier::external_body]
fn choose_word(word_list: &Vec<&'static str>) -> (picked: Option<&'static str>)
    ensures
        picked is None <==> word_list@.len() == 0,
        picked is Some ==> word_views(word_list@).contains(picked.unwrap()@),
{
    word_list.choose(&mut rand::thread_rng()).copied()
}

impl WordleEngine {
    #[verifier::type_invariant]
    spec fn well_formed(&self) -> bool {
        &&& is_word(self.solution@)
        &&& all_words(word_views(self.word_list@))
    }

    /// The words that may be guessed.
    pub closed spec fn vocabulary(&self) -> Seq<Seq<char>> {
        word_views(self.word_list@)
    }

    /// The word to be found.
    pub closed spec fn secret(&self) -> Seq<char> {
        self.solution@
    }

    /// Whether the secret has been found: some accepted guess was the secret itself.
    pub closed spec fn is_found(&self) -> bool {
        self.found
    }

    /// Whether the engine accepts `word` as a guess: it is a member of the vocabulary.
    pub open spec fn accepts(&self, word: Seq<char>) -> bool {
        self.vocabulary().contains(word)
    }

    /// Create a new WordleEngine instance from the given list, with a random word.
    pub fn new(word_list: Vec<&'static str>) -> (engine: Self)
        requires
            word_list@.len() > 0,
            all_words(word_views(word_list@)),
        ensures
            engine.vocabulary() == word_views(word_list@),
            engine.vocabulary().contains(engine.secret()),
            !engine.is_found(),
    {
        match choose_word(&word_list) {
            Some(solution) => {
                Self::with_answer(word_list, solution)
            },
            None => unreached(),
        }
    }

    /// Create a new WordleEngine instance with the given word list and given solution.
    pub fn with_answer(word_list: Vec<&'static str>, solution: &'static str) -> (engine: Self)
        requires
            all_words(word_views(word_list@)),
            is_word(solution@),
        ensures
            engine.vocabulary() == word_views(word_list@),
            engine.secret() == solution@,
            !engine.is_found(),
    {
        WordleEngine { word_list, solution, found: false }
    }

    /// Return the match between the guess and the answer.
    pub fn get_response(solution: &str, guess: &str) -> (response: WordleResponse)
        requires
            solution@.len() == WORD_LENGTH,
            guess@.len() == WORD_LENGTH,
        ensures
            response@ == score(guess@, solution@),
    {
        let ghost g = guess@;
        let ghost s = solution@;
        if same_text(guess, solution) {
            let all = WordleResponse::correct();
            proof {
                lemma_score_of_secret(g);
                assert(all@ =~= score(g, s));
            }
            return all;
        }
        let mut response = [LetterResponse::Absent; 5];
        let mut taken = [false; 5];
        let mut i: usize = 0;
        while i < WORD_LENGTH
            invariant
                g == guess@,
                s == solution@,
                g.len() == WORD_LENGTH,
                s.len() == WORD_LENGTH,
                0 <= i <= WORD_LENGTH,
                forall|j: int| 0 <= j < i ==> taken@[j] == (g[j] == s[j]),
                forall|j: int| i <= j < WORD_LENGTH ==> !taken@[j],
                forall|j: int|
                    0 <= j < WORD_LENGTH ==> #[trigger] response@[j] == (if j < i && g[j] == s[j] {
                        LetterResponse::Correct
                    } else {
                        LetterResponse::Absent
                    }),
            decreases WORD_LENGTH - i,
        {
            if guess.get_char(i) == solution.get_char(i) {
                response[i] = LetterResponse::Correct;
                taken[i] = true;
            }
            i += 1;
        }
        proof {
            assert forall|c: char| #[trigger] consumed_upto(taken@, g, s, c, 5) == 0 by {
                lemma_consumed_none(taken@, g, s, c, 5);
            }
        }
        let mut i: usize = 0;
        while i < WORD_LENGTH
            invariant
                g == guess@,
                s == solution@,
                g.len() == WORD_LENGTH,
                s.len() == WORD_LENGTH,
                0 <= i <= WORD_LENGTH,
                forall|k: int| 0 <= k < WORD_LENGTH && g[k] == s[k] ==> taken@[k],
                forall|j: int| 0 <= j < i ==> #[trigger] response@[j] == letter_score(g, s, j),
                forall|j: int|
                    i <= j < WORD_LENGTH ==> #[trigger] response@[j] == (if g[j] == s[j] {
                        LetterResponse::Correct
                    } else {
                        LetterResponse::Absent
                    }),
                forall|c: char| #[trigger]
                    consumed_upto(taken@, g, s, c, 5) == min_nat(
                        unmatched_upto(g, s, c, i as int),
                        unmatched(s, g, c),
                    ),
            decreases WORD_LENGTH - i,
        {
            if response[i] != LetterResponse::Correct {
                let c: char = guess.get_char(i);
                let ghost before = taken@;
                match first_free(&taken, solution, c) {
                    Some(k) => {
                        taken[k] = true;
                        response[i] = LetterResponse::Misplaced;
                        proof {
                            assert(taken@ == before.update(k as int, true));
                            lemma_consumed_some_left(before, g, s, c, 5, k as int);
                            assert forall|d: char| #[trigger]
                                consumed_upto(taken@, g, s, d, 5) == min_nat(
                                    unmatched_upto(g, s, d, i + 1),
                                    unmatched(s, g, d),
                                ) by {
                                if d != c {
                                    lemma_consumed_unchanged(before, g, s, c, 5, k as int, d);
                                }
                            }
                        }
                    },
                    None => {
                        proof {
                            lemma_consumed_all(taken@, g, s, c, 5);
                        }
                    },
                }
            }
            i += 1;
        }
        let r = WordleResponse(response);
        proof {
            assert(r@ =~= score(g, s));
        }
        r
    }

    /// Try to make a given guess. Returns:
    ///  - `None` if the guess is invalid: it is not in the vocabulary; then nothing changes
    ///  - `Some(response)` if the guess is valid
    ///
    /// The secret is found once an accepted guess is the secret itself.
    pub fn guess(&mut self, word: &str) -> (response: Option<WordleResponse>)
        ensures
            final(self).vocabulary() == old(self).vocabulary(),
            final(self).secret() == old(self).secret(),
            response is Some <==> old(self).vocabulary().contains(word@),
            response is Some ==> response.unwrap()@ == score(word@, old(self).secret()),
            final(self).is_found() == (old(self).is_found() || (response is Some && word@ == old(
                self,
            ).secret())),
    {
        proof {
            use_type_invariant(&*self);
        }
        if !self.can_guess(word) {
            return None;
        }
        let response = Self::get_response(self.solution, word);
        if same_text(word, self.solution) {
            self.found = true;
        }
        Some(response)
    }

    /// Whether the secret has been found.
    pub fn solved(&self) -> (done: bool)
        ensures
            done == self.is_found(),
    {
        self.found
    }

    /// The word to be found.
    pub fn get_solution(&self) -> (solution: &str)
        ensures
            solution@ == self.secret(),
            is_word(solution@),
    {
        proof {
            use_type_invariant(self);
        }
        self.solution
    }

    /// Returns true iff the word is legal to guess.
    pub fn can_guess(&self, word: &str) -> (legal: bool)
        ensures
            legal == self.vocabulary().contains(word@),
    {
        contains_word(self.word_list.as_slice(), word)
    }
}

} // verus!
