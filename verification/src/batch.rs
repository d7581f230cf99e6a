//! Playing whole games: how many guesses the solver needs for a secret.

use vstd::prelude::*;
use vstd::multiset::Multiset;
use vstd::slice::slice_to_vec;
use vstd::string::*;
use crate::engine::WordleEngine;
use crate::filters::{
    lemma_filter_holds, lemma_filter_keeps_all, lemma_filter_no_duplicates, lemma_filter_part,
    lemma_filter_twice,
};
use crate::knowledge::{
    lemma_fresh_allows_every_word, lemma_observe_is_exact, lemma_secret_stays_allowed, permits,
    Information, Knowledge,
};
use crate::response::LetterResponse;
use crate::scorer::{bucket, draws, lemma_candidate_splits, lemma_split_shrinks};
use crate::scoring::score;
use crate::selector::{
    accepts_histograms, is_best, is_ideal_guess, is_ideal_guess_at, lemma_ideal_guess_splits, rates,
    rewards_splits, Rating,
};
use crate::tally::{lemma_nothing_stuck, Counts, Tally};
use crate::word::{all_words, is_word, same_text, word_views};

verus! {

/// The words of the vocabulary that the knowledge allows, in their order.
pub open spec fn candidates(vocabulary: Seq<Seq<char>>, known: Knowledge) -> Seq<Seq<char>> {
    vocabulary.filter(permits(known))
}

/// The candidates that are left after a guess are the candidates from before
/// that draw the same response to the guess as the secret.
pub proof fn lemma_candidates_after_guess(
    vocabulary: Seq<Seq<char>>,
    known: Knowledge,
    guess: Seq<char>,
    secret: Seq<char>,
)
    requires
        all_words(vocabulary),
        is_word(guess),
        is_word(secret),
    ensures
        candidates(vocabulary, known.observe(guess, score(guess, secret))) == bucket(
            candidates(vocabulary, known),
            guess,
            score(guess, secret),
        ),
{
    let marks = score(guess, secret);
    let after = known.observe(guess, marks);
    assert forall|x: Seq<char>| vocabulary.contains(x) implies (permits(after)(x) <==> (permits(
        known,
    )(x) && draws(guess, marks)(x))) by {
        let at = choose|at: int| 0 <= at < vocabulary.len() && vocabulary[at] == x;
        assert(is_word(vocabulary[at]));
        lemma_observe_is_exact(known, guess, secret, x);
    }
    lemma_filter_twice(vocabulary, permits(known), draws(guess, marks), permits(after));
}

/// The responses of the secret to a series of guesses.
pub open spec fn answers(made: Seq<Seq<char>>, secret: Seq<char>) -> Seq<Seq<LetterResponse>> {
    Seq::new(made.len(), |i: int| score(made[i], secret))
}

/// What the solver knows after a series of guesses at the secret.
pub open spec fn learned(made: Seq<Seq<char>>, secret: Seq<char>) -> Knowledge {
    Knowledge::fresh().observe_all(made, answers(made, secret))
}

/// The candidates that are left after a series of guesses at the secret.
pub open spec fn left_after(
    vocabulary: Seq<Seq<char>>,
    made: Seq<Seq<char>>,
    secret: Seq<char>,
) -> Seq<Seq<char>> {
    candidates(vocabulary, learned(made, secret))
}

/// The words that draw the same response as the secret to every guess made.
pub open spec fn agrees(made: Seq<Seq<char>>, secret: Seq<char>) -> spec_fn(Seq<char>) -> bool {
    |word: Seq<char>|
        forall|i: int| 0 <= i < made.len() ==> score(#[trigger] made[i], word) == score(made[i], secret)
}

/// Guess `k` of the series is a turn of the solver: more than one candidate
/// was left before it, it is the pick for those candidates, and fewer
/// candidates are left after it.
pub open spec fn is_turn<F: Fn(&Vec<usize>) -> u64>(
    gain: &F,
    vocabulary: Seq<Seq<char>>,
    secret: Seq<char>,
    made: Seq<Seq<char>>,
    k: int,
) -> bool {
    let before = left_after(vocabulary, made.take(k), secret);
    &&& before.len() > 1
    &&& is_ideal_guess(gain, before, vocabulary, made[k])
    &&& left_after(vocabulary, made.take(k + 1), secret).len() < before.len()
}

/// The series of guesses is a game of the solver for the secret, as far as it goes.
pub open spec fn is_game<F: Fn(&Vec<usize>) -> u64>(
    gain: &F,
    vocabulary: Seq<Seq<char>>,
    secret: Seq<char>,
    made: Seq<Seq<char>>,
) -> bool {
    forall|k: int| 0 <= k < made.len() ==> #[trigger] is_turn(gain, vocabulary, secret, made, k)
}

/// The game with the guesses `made` ends with the count `tries`.
///
/// The game is over when the secret is the only candidate left. Naming it
/// costs one more guess, unless the latest guess was the secret itself. The
/// game ends without a count where more candidates are left and the pick
/// for them rules none of them out: the solver is stuck.
pub open spec fn ends_with<F: Fn(&Vec<usize>) -> u64>(
    gain: &F,
    vocabulary: Seq<Seq<char>>,
    secret: Seq<char>,
    made: Seq<Seq<char>>,
    tries: Option<nat>,
) -> bool {
    let left = left_after(vocabulary, made, secret);
    &&& is_game(gain, vocabulary, secret, made)
    &&& match tries {
        Some(n) => {
            &&& left == seq![secret]
            &&& n == if made.len() > 0 && made.last() == secret {
                made.len()
            } else {
                made.len() + 1
            }
        },
        None => {
            &&& left.len() > 1
            &&& exists|guess: Seq<char>| #[trigger]
                is_ideal_guess(gain, left, vocabulary, guess) && left_after(
                    vocabulary,
                    made.push(guess),
                    secret,
                ).len() >= left.len()
        },
    }
}

/// A whole game for `secret`, from nothing known, ends with the count `tries`.
pub open spec fn solves_in<F: Fn(&Vec<usize>) -> u64>(
    gain: &F,
    vocabulary: Seq<Seq<char>>,
    secret: Seq<char>,
    tries: Option<nat>,
) -> bool {
    exists|made: Seq<Seq<char>>| #[trigger] ends_with(gain, vocabulary, secret, made, tries)
}

/// The count as a natural number.
pub open spec fn as_count(tries: Option<usize>) -> Option<nat> {
    match tries {
        Some(n) => Some(n as nat),
        None => None,
    }
}

/// One more guess adds the response of the secret to what is known.
pub proof fn lemma_learned_push(made: Seq<Seq<char>>, guess: Seq<char>, secret: Seq<char>)
    ensures
        learned(made.push(guess), secret) == learned(made, secret).observe(
            guess,
            score(guess, secret),
        ),
        learned(Seq::<Seq<char>>::empty(), secret) == Knowledge::fresh(),
{
    let longer = made.push(guess);
    assert(longer.drop_last() =~= made);
    assert(answers(longer, secret).drop_last() =~= answers(made, secret));
    assert(answers(longer, secret).last() == score(guess, secret));
}

/// After any series of guesses, the candidates are the words of the
/// vocabulary that draw the same response as the secret to every guess made.
pub proof fn lemma_candidates_agree(
    vocabulary: Seq<Seq<char>>,
    made: Seq<Seq<char>>,
    secret: Seq<char>,
)
    requires
        all_words(vocabulary),
        all_words(made),
        is_word(secret),
    ensures
        left_after(vocabulary, made, secret) == vocabulary.filter(agrees(made, secret)),
    decreases made.len(),
{
    if made.len() == 0 {
        lemma_learned_push(made, secret, secret);
        assert(made =~= Seq::<Seq<char>>::empty());
        assert forall|x: Seq<char>| vocabulary.contains(x) implies permits(Knowledge::fresh())(
            x,
        ) by {
            let at = choose|at: int| 0 <= at < vocabulary.len() && vocabulary[at] == x;
            assert(is_word(vocabulary[at]));
            lemma_fresh_allows_every_word(x);
        }
        lemma_filter_keeps_all(vocabulary, permits(Knowledge::fresh()));
        lemma_filter_keeps_all(vocabulary, agrees(made, secret));
    } else {
        let earlier = made.drop_last();
        let guess = made.last();
        assert(earlier.push(guess) =~= made);
        assert(is_word(made[made.len() - 1]));
        assert forall|i: int| 0 <= i < earlier.len() implies is_word(#[trigger] earlier[i]) by {
            assert(is_word(made[i]));
        }
        lemma_candidates_agree(vocabulary, earlier, secret);
        lemma_learned_push(earlier, guess, secret);
        lemma_candidates_after_guess(vocabulary, learned(earlier, secret), guess, secret);
        assert forall|x: Seq<char>| vocabulary.contains(x) implies (agrees(made, secret)(x) <==> (
        agrees(earlier, secret)(x) && draws(guess, score(guess, secret))(x))) by {
            if agrees(made, secret)(x) {
                assert(score(made[made.len() - 1], x) == score(made[made.len() - 1], secret));
                assert forall|i: int| 0 <= i < earlier.len() implies score(
                    #[trigger] earlier[i],
                    x,
                ) == score(earlier[i], secret) by {
                    assert(score(made[i], x) == score(made[i], secret));
                }
            }
            if agrees(earlier, secret)(x) && draws(guess, score(guess, secret))(x) {
                assert forall|i: int| 0 <= i < made.len() implies score(#[trigger] made[i], x)
                    == score(made[i], secret) by {
                    if i < earlier.len() {
                        assert(score(earlier[i], x) == score(earlier[i], secret));
                    }
                }
            }
        }
        lemma_filter_twice(
            vocabulary,
            agrees(earlier, secret),
            draws(guess, score(guess, secret)),
            agrees(made, secret),
        );
    }
}

/// A game that has gone on for some guesses has ruled out at least as many candidates.
pub proof fn lemma_game_length<F: Fn(&Vec<usize>) -> u64>(
    gain: &F,
    vocabulary: Seq<Seq<char>>,
    secret: Seq<char>,
    made: Seq<Seq<char>>,
)
    requires
        is_game(gain, vocabulary, secret, made),
    ensures
        made.len() + left_after(vocabulary, made, secret).len() <= vocabulary.len(),
    decreases made.len(),
{
    if made.len() == 0 {
        vocabulary.lemma_filter_len(permits(learned(made, secret)));
    } else {
        let earlier = made.drop_last();
        let last = made.len() - 1;
        assert forall|k: int| 0 <= k < earlier.len() implies #[trigger] is_turn(
            gain,
            vocabulary,
            secret,
            earlier,
            k,
        ) by {
            assert(is_turn(gain, vocabulary, secret, made, k));
            assert(earlier.take(k) =~= made.take(k));
            assert(earlier.take(k + 1) =~= made.take(k + 1));
        }
        lemma_game_length(gain, vocabulary, secret, earlier);
        assert(is_turn(gain, vocabulary, secret, made, last));
        assert(made.take(last) =~= earlier);
        assert(made.take(last + 1) =~= made);
    }
}

/// The guesses of a game are words of the vocabulary.
pub proof fn lemma_game_words<F: Fn(&Vec<usize>) -> u64>(
    gain: &F,
    vocabulary: Seq<Seq<char>>,
    secret: Seq<char>,
    made: Seq<Seq<char>>,
)
    requires
        all_words(vocabulary),
        is_game(gain, vocabulary, secret, made),
    ensures
        all_words(made),
{
    assert forall|k: int| 0 <= k < made.len() implies is_word(#[trigger] made[k]) by {
        assert(is_turn(gain, vocabulary, secret, made, k));
        let before = left_after(vocabulary, made.take(k), secret);
        let at = choose|at: int| #[trigger]
            is_ideal_guess_at(gain, before, vocabulary, made[k], at);
        let rated = choose|rated: Seq<Rating>| #[trigger]
            rates(gain, before, vocabulary, rated) && is_best(rated, at) && made[k]
                == vocabulary[at];
        assert(is_word(vocabulary[at]));
    }
}

/// A whole game that ends with a count took at least one guess and no more
/// guesses than the vocabulary has words. At its end, the secret is the only
/// word of the vocabulary that draws the same responses as the secret to
/// the guesses made.
pub proof fn lemma_solved_within_vocabulary<F: Fn(&Vec<usize>) -> u64>(
    gain: &F,
    vocabulary: Seq<Seq<char>>,
    secret: Seq<char>,
    made: Seq<Seq<char>>,
    tries: nat,
)
    requires
        all_words(vocabulary),
        is_word(secret),
        ends_with(gain, vocabulary, secret, made, Some(tries)),
    ensures
        1 <= tries <= vocabulary.len(),
        vocabulary.filter(agrees(made, secret)) == seq![secret],
{
    lemma_game_length(gain, vocabulary, secret, made);
    lemma_game_words(gain, vocabulary, secret, made);
    lemma_candidates_agree(vocabulary, made, secret);
}

/// With a measure that rewards splits and a vocabulary without repeated
/// words, the solver never gets stuck: every game ends with a count.
pub proof fn lemma_game_ends<F: Fn(&Vec<usize>) -> u64>(
    gain: &F,
    vocabulary: Seq<Seq<char>>,
    secret: Seq<char>,
    tries: Option<nat>,
)
    requires
        rewards_splits(gain),
        all_words(vocabulary),
        vocabulary.no_duplicates(),
        is_word(secret),
        solves_in(gain, vocabulary, secret, tries),
    ensures
        tries is Some,
{
    if tries is None {
        let made = choose|made: Seq<Seq<char>>| #[trigger]
            ends_with(gain, vocabulary, secret, made, tries);
        let left = left_after(vocabulary, made, secret);
        let known = learned(made, secret);
        let guess = choose|guess: Seq<char>| #[trigger]
            is_ideal_guess(gain, left, vocabulary, guess) && left_after(
                vocabulary,
                made.push(guess),
                secret,
            ).len() >= left.len();
        lemma_filter_no_duplicates(vocabulary, permits(known));
        lemma_filter_part(vocabulary, permits(known), 0);
        lemma_filter_part(vocabulary, permits(known), 1);
        let first = choose|at: int| 0 <= at < vocabulary.len() && vocabulary[at] == left[0];
        let second = choose|at: int| 0 <= at < vocabulary.len() && vocabulary[at] == left[1];
        assert(is_word(vocabulary[first]) && is_word(vocabulary[second]));
        lemma_candidate_splits(left, 0, 1);
        lemma_ideal_guess_splits(gain, left, vocabulary, guess, first);
        let picked = choose|at: int| 0 <= at < vocabulary.len() && vocabulary[at] == guess;
        assert(is_word(vocabulary[picked]));
        lemma_split_shrinks(left, guess, score(guess, secret));
        lemma_learned_push(made, guess, secret);
        lemma_candidates_after_guess(vocabulary, known, guess, secret);
    }
}

/// Plays a whole game against the engine and counts the guesses.
///
/// The solver starts with every word of the list as a candidate. Each turn
/// it guesses the ideal word for the candidates left, learns from the
/// engine's response, and keeps the candidates that are still allowed, until
/// one is left. `None` means that the solver got stuck: a guess that it
/// picked ruled out no candidate.
pub fn get_num_tries<F: Fn(&Vec<usize>) -> u64>(
    engine: WordleEngine,
    word_list: &[&str],
    gain: &F,
) -> (tries: Option<usize>)
    requires
        all_words(word_views(word_list@)),
        word_views(word_list@).contains(engine.secret()),
        forall|i: int|
            0 <= i < word_list@.len() ==> engine.accepts(#[trigger] word_views(word_list@)[i]),
        accepts_histograms(gain),
    ensures
        solves_in(gain, word_views(word_list@), engine.secret(), as_count(tries)),
        tries is Some ==> 1 <= tries.unwrap() <= word_list@.len(),
        rewards_splits(gain) && word_views(word_list@).no_duplicates() ==> tries is Some,
{
    let ghost vocabulary = word_views(word_list@);
    let ghost secret = engine.secret();
    let ghost mut made = Seq::<Seq<char>>::empty();
    let total: usize = word_list.len();
    let mut game = engine;
    let mut count: usize = 0;
    let mut info = Information::new();
    let mut guess: &str = "";
    let mut allowed: Vec<&str> = info.allowed_words(word_list);
    proof {
        reveal_strlit("");
        assert(guess@ =~= Seq::<char>::empty());
        let at = choose|at: int| 0 <= at < vocabulary.len() && vocabulary[at] == secret;
        assert(is_word(vocabulary[at]));
        lemma_fresh_allows_every_word(secret);
        lemma_learned_push(made, secret, secret);
        vocabulary.lemma_filter_len(permits(info@));
    }
    loop
        invariant
            vocabulary == word_views(word_list@),
            secret == engine.secret(),
            secret == game.secret(),
            all_words(vocabulary),
            is_word(secret),
            vocabulary.contains(secret),
            forall|i: int| 0 <= i < vocabulary.len() ==> game.accepts(#[trigger] vocabulary[i]),
            accepts_histograms(gain),
            is_game(gain, vocabulary, secret, made),
            info@ == learned(made, secret),
            info@.allows(secret),
            count == made.len(),
            made.len() == 0 ==> guess@.len() == 0,
            made.len() > 0 ==> guess@ == made.last(),
            word_views(allowed@) == left_after(vocabulary, made, secret),
            all_words(word_views(allowed@)),
            total == vocabulary.len(),
            count + allowed@.len() <= total,
        decreases allowed@.len(),
    {
        let ghost left = left_after(vocabulary, made, secret);
        proof {
            lemma_filter_holds(vocabulary, permits(info@), secret);
        }
        if allowed.len() == 1 {
            proof {
                let at = choose|at: int| 0 <= at < left.len() && left[at] == secret;
                assert(left =~= seq![secret]);
                assert(left[0] == allowed@[0]@);
            }
            let named = same_text(allowed[0], guess);
            let tries: usize = if named {
                count
            } else {
                count + 1
            };
            proof {
                assert(ends_with(gain, vocabulary, secret, made, Some(tries as nat)));
                lemma_solved_within_vocabulary(gain, vocabulary, secret, made, tries as nat);
            }
            return Some(tries);
        }
        let ghost known = info@;
        let next: &str = info.get_ideal_guess_from_allowed(allowed.as_slice(), word_list, gain);
        proof {
            let at = choose|at: int| 0 <= at < vocabulary.len() && vocabulary[at] == next@;
            assert(is_word(vocabulary[at]));
            assert(game.accepts(vocabulary[at]));
        }
        match game.guess(next) {
            Some(response) => {
                info.update(next, response);
            },
            None => {
                proof {
                    assert(false);
                }
            },
        }
        let fewer = info.allowed_words(allowed.as_slice());
        let ghost longer = made.push(next@);
        proof {
            lemma_learned_push(made, next@, secret);
            assert(info@ == learned(longer, secret));
            lemma_secret_stays_allowed(known, next@, secret);
            assert forall|x: Seq<char>| vocabulary.contains(x) implies (permits(info@)(x) <==> (
            permits(known)(x) && permits(info@)(x))) by {
                let at = choose|at: int| 0 <= at < vocabulary.len() && vocabulary[at] == x;
                assert(is_word(vocabulary[at]));
                lemma_observe_is_exact(known, next@, secret, x);
            }
            lemma_filter_twice(vocabulary, permits(known), permits(info@), permits(info@));
            assert(word_views(fewer@) == left_after(vocabulary, longer, secret));
        }
        if fewer.len() >= allowed.len() {
            proof {
                assert(ends_with(gain, vocabulary, secret, made, None));
                if rewards_splits(gain) && vocabulary.no_duplicates() {
                    lemma_game_ends(gain, vocabulary, secret, None);
                }
            }
            return None;
        }
        proof {
            assert forall|k: int| 0 <= k < longer.len() implies #[trigger] is_turn(
                gain,
                vocabulary,
                secret,
                longer,
                k,
            ) by {
                if k < made.len() {
                    assert(is_turn(gain, vocabulary, secret, made, k));
                    assert(longer.take(k) =~= made.take(k));
                    assert(longer.take(k + 1) =~= made.take(k + 1));
                } else {
                    assert(longer.take(k) =~= made);
                    assert(longer.take(k + 1) =~= longer);
                }
            }
            made = longer;
        }
        guess = next;
        allowed = fewer;
        count += 1;
    }
}

/// The games for `secrets`, one each and in order, end with `outcomes`.
pub open spec fn plays_all<F: Fn(&Vec<usize>) -> u64>(
    gain: &F,
    vocabulary: Seq<Seq<char>>,
    secrets: Seq<Seq<char>>,
    outcomes: Seq<Option<nat>>,
) -> bool {
    &&& outcomes.len() == secrets.len()
    &&& forall|i: int|
        0 <= i < secrets.len() ==> solves_in(gain, vocabulary, secrets[i], #[trigger] outcomes[i])
}

/// `counts` is what comes of playing one game for each of `secrets` and recording how it ends.
pub open spec fn is_evaluation<F: Fn(&Vec<usize>) -> u64>(
    gain: &F,
    vocabulary: Seq<Seq<char>>,
    secrets: Seq<Seq<char>>,
    counts: Counts,
) -> bool {
    exists|outcomes: Seq<Option<nat>>| #[trigger]
        plays_all(gain, vocabulary, secrets, outcomes) && counts == Counts::empty().record_all(
            outcomes,
            secrets,
        )
}

/// Plays one game for each of the secrets, with the word list as the
/// vocabulary of the engine and of the solver, and tallies how the games end.
pub fn evaluate_words<F: Fn(&Vec<usize>) -> u64>(
    word_list: &[&'static str],
    secrets: &[&'static str],
    gain: &F,
) -> (tally: Tally<'static>)
    requires
        all_words(word_views(word_list@)),
        forall|i: int|
            0 <= i < secrets@.len() ==> word_views(word_list@).contains(
                #[trigger] word_views(secrets@)[i],
            ),
        accepts_histograms(gain),
    ensures
        tally.wf(),
        is_evaluation(gain, word_views(word_list@), word_views(secrets@), tally@),
        rewards_splits(gain) && word_views(word_list@).no_duplicates() ==> tally@.stuck
            == Multiset::<Seq<char>>::empty(),
{
    let ghost vocabulary = word_views(word_list@);
    let ghost wanted = word_views(secrets@);
    let ghost mut outcomes = Seq::<Option<nat>>::empty();
    let mut tally = Tally::new();
    let mut i: usize = 0;
    proof {
        assert(wanted.take(0) =~= Seq::<Seq<char>>::empty());
    }
    while i < secrets.len()
        invariant
            vocabulary == word_views(word_list@),
            wanted == word_views(secrets@),
            tally.wf(),
            all_words(vocabulary),
            forall|k: int| 0 <= k < wanted.len() ==> vocabulary.contains(#[trigger] wanted[k]),
            accepts_histograms(gain),
            0 <= i <= secrets@.len(),
            plays_all(gain, vocabulary, wanted.take(i as int), outcomes),
            tally@ == Counts::empty().record_all(outcomes, wanted.take(i as int)),
        decreases secrets@.len() - i,
    {
        let secret: &'static str = secrets[i];
        proof {
            assert(wanted[i as int] == secret@);
            let at = choose|at: int| 0 <= at < vocabulary.len() && vocabulary[at] == secret@;
            assert(is_word(vocabulary[at]));
        }
        let engine = WordleEngine::with_answer(slice_to_vec(word_list), secret);
        let tries = get_num_tries(engine, word_list, gain);
        tally.record(tries, secret);
        proof {
            let earlier = outcomes;
            outcomes = earlier.push(as_count(tries));
            let seen = wanted.take(i as int);
            assert(wanted.take(i + 1) =~= seen.push(secret@));
            assert(outcomes.drop_last() =~= earlier);
            assert(wanted.take(i + 1).drop_last() =~= seen);
            assert forall|k: int| 0 <= k < i + 1 implies solves_in(
                gain,
                vocabulary,
                wanted.take(i + 1)[k],
                #[trigger] outcomes[k],
            ) by {
                if k < i {
                    assert(outcomes[k] == earlier[k]);
                    assert(wanted.take(i + 1)[k] == seen[k]);
                }
            }
        }
        i += 1;
    }
    proof {
        assert(wanted.take(secrets@.len() as int) =~= wanted);
        if rewards_splits(gain) && vocabulary.no_duplicates() {
            assert forall|k: int| 0 <= k < outcomes.len() implies (#[trigger] outcomes[k]) is Some by {
                let at = choose|at: int| 0 <= at < vocabulary.len() && vocabulary[at] == wanted[k];
                assert(is_word(vocabulary[at]));
                lemma_game_ends(gain, vocabulary, wanted[k], outcomes[k]);
            }
            lemma_nothing_stuck(outcomes, wanted);
        }
    }
    tally
}

} // verus!
