//! What the responses seen so far reveal about the secret.

use vstd::prelude::*;
use vstd::string::*;
use crate::response::{LetterResponse, WordleResponse};
use crate::scoring::{
    absent_marked, lemma_absent_mark_is_exact, lemma_marks_conserved, lemma_present_bounded,
    lemma_same_response, max_nat, min_nat, present, present_upto, score,
};
use crate::word::{
    all_words, count_letter, index_of_letter, is_letter, is_word, lemma_occurrences_bounded,
    letter_at, letter_index, nth_letter, occurrences, word_views, ALPHABET_SIZE, WORD_LENGTH,
};

verus! {

/// The mathematical content of an `Information`.
pub struct Knowledge {
    /// For each position and each letter of the alphabet: `Some(false)` where
    /// the letter is excluded at the position, `Some(true)` where it is
    /// forced there, `None` where nothing is known.
    pub marks: Seq<Seq<Option<bool>>>,
    /// For each letter of the alphabet, the least and the greatest number of
    /// times it may occur in the secret.
    pub bounds: Seq<(nat, nat)>,
}

/// What is known of one letter at one position after a guess was marked `mark`
/// there; `guessed` says whether the letter is the one that was guessed at the
/// position. An exclusion is never lifted.
pub open spec fn mark_after(before: Option<bool>, guessed: bool, mark: LetterResponse) -> Option<
    bool,
> {
    if mark == LetterResponse::Correct {
        if guessed && before != Some(false) {
            Some(true)
        } else {
            Some(false)
        }
    } else if guessed {
        Some(false)
    } else {
        before
    }
}

/// The bounds on a letter after a guess that carries `shown` marks other than
/// `Absent` on it, and, if `capped`, an `Absent` mark as well.
pub open spec fn bounds_after(before: (nat, nat), shown: nat, capped: bool) -> (nat, nat) {
    (
        max_nat(before.0, shown),
        if capped {
            min_nat(before.1, shown)
        } else {
            before.1
        },
    )
}

impl Knowledge {
    /// Nothing is known: no letter is excluded anywhere, and each letter may
    /// occur between 0 and `WORD_LENGTH` times.
    pub open spec fn fresh() -> Knowledge {
        Knowledge {
            marks: Seq::new(
                WORD_LENGTH as nat,
                |i: int| Seq::new(ALPHABET_SIZE as nat, |k: int| None::<bool>),
            ),
            bounds: Seq::new(ALPHABET_SIZE as nat, |k: int| (0nat, WORD_LENGTH as nat)),
        }
    }

    /// The letter `c` cannot stand at position `pos`.
    pub open spec fn excludes(self, pos: int, c: char) -> bool {
        self.marks[pos][letter_index(c)] == Some(false)
    }

    /// The letter `c` is known to stand at position `pos`.
    pub open spec fn forces(self, pos: int, c: char) -> bool {
        self.marks[pos][letter_index(c)] == Some(true)
    }

    /// The least number of times that `c` occurs in the secret.
    pub open spec fn lower(self, c: char) -> nat {
        self.bounds[letter_index(c)].0
    }

    /// The greatest number of times that `c` occurs in the secret.
    pub open spec fn upper(self, c: char) -> nat {
        self.bounds[letter_index(c)].1
    }

    /// The word is consistent with everything known: none of its letters is
    /// excluded where it stands, and every letter of the alphabet occurs in
    /// it a number of times within that letter's bounds.
    pub open spec fn allows(self, word: Seq<char>) -> bool {
        &&& forall|i: int| 0 <= i < WORD_LENGTH ==> !self.excludes(i, #[trigger] word[i])
        &&& forall|k: int|
            0 <= k < ALPHABET_SIZE ==> self.bounds[k].0 <= #[trigger] occurrences(
                word,
                nth_letter(k),
            ) <= self.bounds[k].1
    }

    /// The knowledge after the response `marks` to `guess` has been taken in.
    ///
    /// At a `Correct` position every letter but the guessed one is excluded,
    /// and the guessed one is forced unless it was excluded before. At any
    /// other position the guessed letter is excluded. The lower bound of each
    /// letter rises to the number of its marks that are not `Absent`; where
    /// the letter also carries an `Absent` mark, its upper bound falls to
    /// that number.
    pub open spec fn observe(self, guess: Seq<char>, marks: Seq<LetterResponse>) -> Knowledge {
        Knowledge {
            marks: Seq::new(
                WORD_LENGTH as nat,
                |i: int|
                    Seq::new(
                        ALPHABET_SIZE as nat,
                        |k: int|
                            mark_after(self.marks[i][k], k == letter_index(guess[i]), marks[i]),
                    ),
            ),
            bounds: Seq::new(
                ALPHABET_SIZE as nat,
                |k: int|
                    bounds_after(
                        self.bounds[k],
                        present(guess, marks, nth_letter(k)),
                        absent_marked(guess, marks, nth_letter(k)),
                    ),
            ),
        }
    }

    /// The table has one row of marks per position and one pair of bounds per
    /// letter, and no bound exceeds `WORD_LENGTH`.
    pub open spec fn well_formed(self) -> bool {
        &&& self.marks.len() == WORD_LENGTH
        &&& forall|i: int| 0 <= i < WORD_LENGTH ==> (#[trigger] self.marks[i]).len() == ALPHABET_SIZE
        &&& self.bounds.len() == ALPHABET_SIZE
        &&& forall|k: int|
            0 <= k < ALPHABET_SIZE ==> (#[trigger] self.bounds[k]).0 <= WORD_LENGTH
                && self.bounds[k].1 <= WORD_LENGTH
    }
}

/// The words that the knowledge allows.
pub open spec fn permits(known: Knowledge) -> spec_fn(Seq<char>) -> bool {
    |word: Seq<char>| known.allows(word)
}

/// A struct which encapsulates the guesser's knowledge.
#[derive(Debug, Clone, Copy)]
pub struct Information {
    counts: [(u8, u8); 26],
    exact: [[Option<bool>; 26]; 5],
}

impl View for Information {
    type V = Knowledge;

    closed spec fn view(&self) -> Knowledge {
        Knowledge {
            marks: Seq::new(WORD_LENGTH as nat, |i: int| self.exact@[i]@),
            bounds: Seq::new(
                ALPHABET_SIZE as nat,
                |k: int| (self.counts@[k].0 as nat, self.counts@[k].1 as nat),
            ),
        }
    }
}

/// Counts the marks other than `Absent` that the guess carries on `c`, and
/// tells whether it carries an `Absent` mark on `c`.
fn tally(guess: &str, response: &WordleResponse, c: char) -> (seen: (u8, bool))
    requires
        guess@.len() == WORD_LENGTH,
    ensures
        seen.0 == present(guess@, response@, c),
        seen.0 <= WORD_LENGTH,
        seen.1 == absent_marked(guess@, response@, c),
{
    let mut shown: u8 = 0;
    let mut capped = false;
    let mut i: usize = 0;
    while i < WORD_LENGTH
        invariant
            guess@.len() == WORD_LENGTH,
            0 <= i <= WORD_LENGTH,
            shown == present_upto(guess@, response@, c, i as int),
            shown <= i,
            capped == (exists|j: int|
                0 <= j < i && guess@[j] == c && response@[j] == LetterResponse::Absent),
        decreases WORD_LENGTH - i,
    {
        if guess.get_char(i) == c {
            if response.0[i] == LetterResponse::Absent {
                capped = true;
            } else {
                shown += 1;
            }
        }
        i += 1;
    }
    (shown, capped)
}

impl Information {
    /// Create a new struct representing no information.
    pub fn new() -> (info: Self)
        ensures
            info@ == Knowledge::fresh(),
    {
        let info = Information { counts: [(0, 5); 26], exact: [[None; 26]; 5] };
        assert(info@.marks =~~= Knowledge::fresh().marks);
        assert(info@.bounds =~= Knowledge::fresh().bounds);
        info
    }

    /// Update this to contain the information from the given guess.
    pub fn update(&mut self, guess: &str, response: WordleResponse)
        requires
            is_word(guess@),
        ensures
            final(self)@ == old(self)@.observe(guess@, response@),
    {
        let ghost before = self@;
        let ghost after = before.observe(guess@, response@);
        let mut i: usize = 0;
        while i < WORD_LENGTH
            invariant
                is_word(guess@),
                before == old(self)@,
                after == before.observe(guess@, response@),
                0 <= i <= WORD_LENGTH,
                self.counts == old(self).counts,
                forall|p: int| 0 <= p < i ==> (#[trigger] self.exact@[p])@ == after.marks[p],
                forall|p: int| i <= p < WORD_LENGTH ==> (#[trigger] self.exact@[p]) == old(self).exact@[p],
            decreases WORD_LENGTH - i,
        {
            let guessed: usize = index_of_letter(guess.get_char(i));
            let mark = response.0[i];
            let mut k: usize = 0;
            while k < ALPHABET_SIZE
                invariant
                    is_word(guess@),
                    before == old(self)@,
                    after == before.observe(guess@, response@),
                    0 <= i < WORD_LENGTH,
                    0 <= k <= ALPHABET_SIZE,
                    guessed == letter_index(guess@[i as int]),
                    mark == response@[i as int],
                    self.counts == old(self).counts,
                    forall|p: int| 0 <= p < i ==> (#[trigger] self.exact@[p])@ == after.marks[p],
                    forall|p: int|
                        i < p < WORD_LENGTH ==> (#[trigger] self.exact@[p]) == old(self).exact@[p],
                    forall|m: int|
                        0 <= m < k ==> #[trigger] self.exact@[i as int]@[m] == after.marks[i as int][m],
                    forall|m: int|
                        k <= m < ALPHABET_SIZE ==> #[trigger] self.exact@[i as int]@[m] == old(
                            self,
                        ).exact@[i as int]@[m],
                decreases ALPHABET_SIZE - k,
            {
                let known: Option<bool> = self.exact[i][k];
                let excluded: bool = match known {
                    Some(false) => true,
                    _ => false,
                };
                match mark {
                    LetterResponse::Correct => {
                        if k == guessed && !excluded {
                            self.exact[i][k] = Some(true);
                        } else {
                            self.exact[i][k] = Some(false);
                        }
                    },
                    _ => {
                        if k == guessed {
                            self.exact[i][k] = Some(false);
                        }
                    },
                }
                k += 1;
            }
            assert(self.exact@[i as int]@ =~= after.marks[i as int]);
            i += 1;
        }
        let mut k: usize = 0;
        while k < ALPHABET_SIZE
            invariant
                is_word(guess@),
                before == old(self)@,
                after == before.observe(guess@, response@),
                0 <= k <= ALPHABET_SIZE,
                forall|p: int| 0 <= p < WORD_LENGTH ==> (#[trigger] self.exact@[p])@ == after.marks[p],
                forall|m: int|
                    0 <= m < k ==> (#[trigger] self.counts@[m]).0 == after.bounds[m].0
                        && self.counts@[m].1 == after.bounds[m].1,
                forall|m: int| k <= m < ALPHABET_SIZE ==> #[trigger] self.counts@[m] == old(self).counts@[m],
            decreases ALPHABET_SIZE - k,
        {
            let seen = tally(guess, &response, letter_at(k));
            let bounds = self.counts[k];
            let low: u8 = if bounds.0 >= seen.0 {
                bounds.0
            } else {
                seen.0
            };
            let high: u8 = if seen.1 && seen.0 < bounds.1 {
                seen.0
            } else {
                bounds.1
            };
            self.counts[k] = (low, high);
            k += 1;
        }
        assert(self@.marks =~~= after.marks);
        assert(self@.bounds =~= after.bounds);
    }

    /// Returns whether or not this word is allowed by the current information.
    pub fn allows(&self, word: &str) -> (allowed: bool)
        requires
            is_word(word@),
        ensures
            allowed == self@.allows(word@),
    {
        let mut i: usize = 0;
        while i < WORD_LENGTH
            invariant
                is_word(word@),
                0 <= i <= WORD_LENGTH,
                forall|p: int| 0 <= p < i ==> !self@.excludes(p, #[trigger] word@[p]),
            decreases WORD_LENGTH - i,
        {
            let k: usize = index_of_letter(word.get_char(i));
            match self.exact[i][k] {
                Some(false) => {
                    assert(self@.excludes(i as int, word@[i as int]));
                    return false;
                },
                _ => {},
            }
            i += 1;
        }
        let mut k: usize = 0;
        while k < ALPHABET_SIZE
            invariant
                is_word(word@),
                0 <= k <= ALPHABET_SIZE,
                forall|m: int|
                    0 <= m < k ==> self@.bounds[m].0 <= #[trigger] occurrences(
                        word@,
                        nth_letter(m),
                    ) <= self@.bounds[m].1,
            decreases ALPHABET_SIZE - k,
        {
            let count: u8 = count_letter(word, letter_at(k));
            let bounds = self.counts[k];
            if count < bounds.0 || count > bounds.1 {
                return false;
            }
            k += 1;
        }
        true
    }

    /// Whether the letter is excluded at the position.
    pub fn excludes(&self, position: usize, letter: char) -> (excluded: bool)
        requires
            position < WORD_LENGTH,
            is_letter(letter),
        ensures
            excluded == self@.excludes(position as int, letter),
    {
        match self.exact[position][index_of_letter(letter)] {
            Some(false) => true,
            _ => false,
        }
    }

    /// The first letter of the alphabet that is known to stand at the position, if any is.
    pub fn forced_letter(&self, position: usize) -> (forced: Option<char>)
        requires
            position < WORD_LENGTH,
        ensures
            match forced {
                Some(c) => {
                    &&& is_letter(c)
                    &&& self@.forces(position as int, c)
                    &&& forall|d: char|
                        is_letter(d) && d < c ==> !self@.forces(position as int, d)
                },
                None => forall|d: char| is_letter(d) ==> !self@.forces(position as int, d),
            },
    {
        let mut k: usize = 0;
        while k < ALPHABET_SIZE
            invariant
                position < WORD_LENGTH,
                0 <= k <= ALPHABET_SIZE,
                forall|m: int| 0 <= m < k ==> self@.marks[position as int][m] != Some(true),
            decreases ALPHABET_SIZE - k,
        {
            match self.exact[position][k] {
                Some(true) => {
                    let c = letter_at(k);
                    assert(letter_index(c) == k);
                    assert forall|d: char| is_letter(d) && d < c implies !self@.forces(
                        position as int,
                        d,
                    ) by {
                        assert(0 <= letter_index(d) < k);
                    }
                    return Some(c);
                },
                _ => {},
            }
            k += 1;
        }
        assert forall|d: char| is_letter(d) implies !self@.forces(position as int, d) by {
            assert(0 <= letter_index(d) < ALPHABET_SIZE);
        }
        None
    }

    /// The least and the greatest number of times that the letter may occur.
    pub fn count_bounds(&self, letter: char) -> (bounds: (u8, u8))
        requires
            is_letter(letter),
        ensures
            bounds.0 == self@.lower(letter),
            bounds.1 == self@.upper(letter),
    {
        self.counts[index_of_letter(letter)]
    }

    /// The words of the list that are allowed by the current information, in their order.
    pub fn allowed_words<'a>(&self, word_list: &[&'a str]) -> (allowed: Vec<&'a str>)
        requires
            all_words(word_views(word_list@)),
        ensures
            word_views(allowed@) == word_views(word_list@).filter(permits(self@)),
            all_words(word_views(allowed@)),
    {
        let ghost all = word_views(word_list@);
        let mut allowed: Vec<&'a str> = Vec::new();
        let mut i: usize = 0;
        proof {
            assert(all.take(0) =~= Seq::<Seq<char>>::empty());
            assert(all.take(0).filter(permits(self@)) =~= Seq::<Seq<char>>::empty()) by {
                all.take(0).lemma_filter_len(permits(self@));
            }
            assert(word_views(allowed@) =~= Seq::<Seq<char>>::empty());
        }
        while i < word_list.len()
            invariant
                all == word_views(word_list@),
                all_words(all),
                0 <= i <= word_list@.len(),
                word_views(allowed@) == all.take(i as int).filter(permits(self@)),
                all_words(word_views(allowed@)),
            decreases word_list@.len() - i,
        {
            let word: &'a str = word_list[i];
            assert(all[i as int] == word@);
            let ghost kept = word_views(allowed@);
            proof {
                assert(all.take(i as int).push(word@) =~= all.take(i + 1));
                all.take(i as int).lemma_filter_push(word@, permits(self@));
            }
            if self.allows(word) {
                allowed.push(word);
                assert(word_views(allowed@) =~= kept.push(word@));
            }
            i += 1;
        }
        proof {
            assert(all.take(word_list@.len() as int) =~= all);
        }
        allowed
    }
}

impl Knowledge {
    /// The knowledge after a whole series of guesses and their responses, taken in order.
    pub open spec fn observe_all(
        self,
        guesses: Seq<Seq<char>>,
        responses: Seq<Seq<LetterResponse>>,
    ) -> Knowledge
        decreases guesses.len(),
    {
        if guesses.len() == 0 {
            self
        } else {
            self.observe_all(guesses.drop_last(), responses.drop_last()).observe(
                guesses.last(),
                responses.last(),
            )
        }
    }
}

/// The fresh table is well formed, and an observation keeps it so.
pub proof fn lemma_observe_well_formed(
    known: Knowledge,
    guess: Seq<char>,
    marks: Seq<LetterResponse>,
)
    requires
        known.well_formed(),
        guess.len() == WORD_LENGTH,
    ensures
        Knowledge::fresh().well_formed(),
        known.observe(guess, marks).well_formed(),
{
    let after = known.observe(guess, marks);
    assert forall|k: int| 0 <= k < ALPHABET_SIZE implies (#[trigger] after.bounds[k]).0
        <= WORD_LENGTH && after.bounds[k].1 <= WORD_LENGTH by {
        lemma_present_bounded(guess, marks, nth_letter(k), guess.len() as int);
        assert(known.bounds[k].0 <= WORD_LENGTH);
    }
}

/// With nothing known, every word is allowed.
pub proof fn lemma_fresh_allows_every_word(word: Seq<char>)
    requires
        is_word(word),
    ensures
        Knowledge::fresh().allows(word),
{
    let fresh = Knowledge::fresh();
    assert forall|k: int| 0 <= k < ALPHABET_SIZE implies fresh.bounds[k].0 <= #[trigger] occurrences(
        word,
        nth_letter(k),
    ) <= fresh.bounds[k].1 by {
        lemma_occurrences_bounded(word, nth_letter(k), word.len() as int);
    }
}

/// A state that allows any word at all has, for every letter, a lower bound
/// that does not exceed the upper bound.
pub proof fn lemma_bounds_ordered(known: Knowledge, word: Seq<char>, c: char)
    requires
        known.allows(word),
        is_letter(c),
    ensures
        known.lower(c) <= known.upper(c),
{
    let k = letter_index(c);
    assert(known.bounds[k].0 <= occurrences(word, nth_letter(k)) <= known.bounds[k].1);
}

/// An observation only ever excludes words: whatever is allowed after it was
/// allowed before it, whatever the guess and the response.
pub proof fn lemma_observe_only_excludes(
    known: Knowledge,
    guess: Seq<char>,
    marks: Seq<LetterResponse>,
    word: Seq<char>,
)
    requires
        is_word(word),
        known.observe(guess, marks).allows(word),
    ensures
        known.allows(word),
{
    let after = known.observe(guess, marks);
    assert forall|i: int| 0 <= i < WORD_LENGTH implies !known.excludes(i, #[trigger] word[i]) by {
        assert(!after.excludes(i, word[i]));
        assert(is_letter(word[i]));
    }
    assert forall|k: int| 0 <= k < ALPHABET_SIZE implies known.bounds[k].0 <= #[trigger] occurrences(
        word,
        nth_letter(k),
    ) <= known.bounds[k].1 by {
        assert(after.bounds[k].0 <= occurrences(word, nth_letter(k)) <= after.bounds[k].1);
    }
}

/// Over any series of observations the set of allowed words only shrinks: a
/// word that is allowed at the end was allowed after every earlier
/// observation, so a word once excluded is never admitted again.
pub proof fn lemma_allowed_words_only_shrink(
    known: Knowledge,
    guesses: Seq<Seq<char>>,
    responses: Seq<Seq<LetterResponse>>,
    earlier: int,
    word: Seq<char>,
)
    requires
        guesses.len() == responses.len(),
        0 <= earlier <= guesses.len(),
        is_word(word),
        known.observe_all(guesses, responses).allows(word),
    ensures
        known.observe_all(guesses.take(earlier), responses.take(earlier)).allows(word),
    decreases guesses.len(),
{
    if earlier == guesses.len() {
        assert(guesses.take(earlier) =~= guesses);
        assert(responses.take(earlier) =~= responses);
    } else {
        lemma_observe_only_excludes(
            known.observe_all(guesses.drop_last(), responses.drop_last()),
            guesses.last(),
            responses.last(),
            word,
        );
        lemma_allowed_words_only_shrink(
            known,
            guesses.drop_last(),
            responses.drop_last(),
            earlier,
            word,
        );
        assert(guesses.drop_last().take(earlier) =~= guesses.take(earlier));
        assert(responses.drop_last().take(earlier) =~= responses.take(earlier));
    }
}

/// The response that the secret itself gives never excludes the secret.
pub proof fn lemma_secret_stays_allowed(known: Knowledge, guess: Seq<char>, secret: Seq<char>)
    requires
        is_word(guess),
        is_word(secret),
        known.allows(secret),
    ensures
        known.observe(guess, score(guess, secret)).allows(secret),
{
    let marks = score(guess, secret);
    let after = known.observe(guess, marks);
    assert forall|i: int| 0 <= i < WORD_LENGTH implies !after.excludes(i, #[trigger] secret[i]) by {
        assert(!known.excludes(i, secret[i]));
        assert(is_letter(secret[i]));
        assert(is_letter(guess[i]));
    }
    assert forall|k: int| 0 <= k < ALPHABET_SIZE implies after.bounds[k].0 <= #[trigger] occurrences(
        secret,
        nth_letter(k),
    ) <= after.bounds[k].1 by {
        let c = nth_letter(k);
        lemma_marks_conserved(guess, secret, c);
        if absent_marked(guess, marks, c) {
            lemma_absent_mark_is_exact(guess, secret, c);
        }
    }
}

/// The response to a guess tells exactly as much as it should: after it is
/// taken in, the allowed words are those that were allowed before and that,
/// as the secret, would have drawn the same response.
pub proof fn lemma_observe_is_exact(
    known: Knowledge,
    guess: Seq<char>,
    secret: Seq<char>,
    word: Seq<char>,
)
    requires
        is_word(guess),
        is_word(secret),
        is_word(word),
    ensures
        known.observe(guess, score(guess, secret)).allows(word) <==> (known.allows(word) && score(
            guess,
            word,
        ) == score(guess, secret)),
{
    let marks = score(guess, secret);
    let after = known.observe(guess, marks);
    if known.allows(word) && score(guess, word) == marks {
        lemma_secret_stays_allowed(known, guess, word);
    }
    if after.allows(word) {
        lemma_observe_only_excludes(known, guess, marks, word);
        assert forall|k: int| 0 <= k < guess.len() implies ((guess[k] == secret[k]) <==> (guess[k]
            == word[k])) by {
            assert(!after.excludes(k, word[k]));
            assert(is_letter(word[k]));
            assert(is_letter(guess[k]));
            assert(marks[k] == crate::scoring::letter_score(guess, secret, k));
        }
        assert forall|k: int| 0 <= k < guess.len() implies present(guess, marks, #[trigger] guess[k])
            <= occurrences(word, guess[k]) by {
            let m = letter_index(guess[k]);
            assert(is_letter(guess[k]));
            assert(nth_letter(m) == guess[k]);
            assert(after.bounds[m].0 <= occurrences(word, nth_letter(m)));
        }
        assert forall|k: int|
            0 <= k < guess.len() && absent_marked(
                guess,
                marks,
                #[trigger] guess[k],
            ) implies occurrences(word, guess[k]) <= present(guess, marks, guess[k]) by {
            let m = letter_index(guess[k]);
            assert(is_letter(guess[k]));
            assert(nth_letter(m) == guess[k]);
            assert(occurrences(word, nth_letter(m)) <= after.bounds[m].1);
        }
        lemma_same_response(guess, secret, word);
    }
}

impl Default for Information {
    fn default() -> (info: Self)
        ensures
            info@ == Knowledge::fresh(),
    {
        Self::new()
    }
}

} // verus!
