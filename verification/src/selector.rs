//! Choosing the next guess: every word of the vocabulary is rated by how it
//! splits the candidates, and the best rated word is picked.
//!
//! The measure that turns a split into a rating is the caller's: a function
//! from the sizes of the response classes to an integer key, a higher key
//! for a more informative split. Everything here holds for any such
//! function.

use vstd::prelude::*;
use vstd::string::*;
use crate::knowledge::{permits, Information};
use crate::ranking::{is_ranking, sort_by_rank};
use crate::response::RESPONSE_COUNT;
use crate::scorer::{as_nats, histogram, lemma_one_candidate_no_split, response_counts, splits};
use crate::word::{all_words, contains_word, word_views, WORD_LENGTH};

verus! {

/// A word of the vocabulary with its rating.
#[derive(Clone, Copy, Debug)]
pub struct ScoredGuess<'a> {
    /// The rated word.
    pub word: &'a str,
    /// The key that the measure gave to the split that the word makes.
    pub gain: u64,
    /// Whether the word is itself a candidate.
    pub possible: bool,
}

/// The mathematical content of a `ScoredGuess`.
pub struct Rating {
    pub word: Seq<char>,
    pub gain: u64,
    pub possible: bool,
}

impl<'a> View for ScoredGuess<'a> {
    type V = Rating;

    open spec fn view(&self) -> Rating {
        Rating { word: self.word@, gain: self.gain, possible: self.possible }
    }
}

/// The ratings that a list of scored guesses stands for.
pub open spec fn ratings<'a>(scored: Seq<ScoredGuess<'a>>) -> Seq<Rating> {
    Seq::new(scored.len(), |i: int| scored[i]@)
}

/// `a` is rated strictly below `b`: its key is lower, or the keys are equal
/// and only `b` is a candidate.
pub open spec fn ranks_below(a: Rating, b: Rating) -> bool {
    a.gain < b.gain || (a.gain == b.gain && !a.possible && b.possible)
}

/// Entry `i` is the pick: no entry is rated above it, and every entry after
/// it is rated strictly below it. Among entries rated alike, the last one in
/// the list is the pick.
pub open spec fn is_best(rated: Seq<Rating>, i: int) -> bool {
    &&& 0 <= i < rated.len()
    &&& forall|j: int| 0 <= j < i ==> !ranks_below(rated[i], #[trigger] rated[j])
    &&& forall|j: int| i < j < rated.len() ==> ranks_below(#[trigger] rated[j], rated[i])
}

/// The measure can be applied to every table of class sizes.
pub open spec fn accepts_histograms<F: Fn(&Vec<usize>) -> u64>(gain: &F) -> bool {
    forall|bins: &Vec<usize>|
        bins@.len() == RESPONSE_COUNT ==> #[trigger] call_requires(*gain, (bins,))
}

/// `key` is a result of the measure on the class sizes `counts`.
pub open spec fn gain_gives<F: Fn(&Vec<usize>) -> u64>(gain: &F, counts: Seq<nat>, key: u64) -> bool {
    exists|bins: Vec<usize>| as_nats(bins@) == counts && #[trigger] call_ensures(*gain, (&bins,), key)
}

/// The measure is a function of the class sizes: equal sizes, equal key.
pub open spec fn is_deterministic<F: Fn(&Vec<usize>) -> u64>(gain: &F) -> bool {
    forall|first: Vec<usize>, second: Vec<usize>, a: u64, b: u64|
        as_nats(first@) == as_nats(second@) && #[trigger] call_ensures(*gain, (&first,), a)
            && #[trigger] call_ensures(*gain, (&second,), b) ==> a == b
}

/// The measure gives a key above zero to the splits that tell candidates
/// apart, those with at least two classes, and to no others.
pub open spec fn rewards_splits<F: Fn(&Vec<usize>) -> u64>(gain: &F) -> bool {
    forall|bins: Vec<usize>, key: u64| #[trigger]
        call_ensures(*gain, (&bins,), key) ==> (key > 0 <==> splits(as_nats(bins@)))
}

/// `rated` rates the vocabulary against the candidates: entry by entry it
/// holds the word, a key that the measure gives to the word's split of the
/// candidates, and whether the word is a candidate.
pub open spec fn rates<F: Fn(&Vec<usize>) -> u64>(
    gain: &F,
    candidates: Seq<Seq<char>>,
    vocabulary: Seq<Seq<char>>,
    rated: Seq<Rating>,
) -> bool {
    &&& rated.len() == vocabulary.len()
    &&& forall|j: int|
        0 <= j < rated.len() ==> {
            &&& (#[trigger] rated[j]).word == vocabulary[j]
            &&& gain_gives(gain, histogram(candidates, vocabulary[j]), rated[j].gain)
            &&& rated[j].possible == candidates.contains(vocabulary[j])
        }
}

/// `best` is the word at place `at` of the vocabulary, and the pick of some
/// rating of the vocabulary against the candidates.
pub open spec fn is_ideal_guess_at<F: Fn(&Vec<usize>) -> u64>(
    gain: &F,
    candidates: Seq<Seq<char>>,
    vocabulary: Seq<Seq<char>>,
    best: Seq<char>,
    at: int,
) -> bool {
    exists|rated: Seq<Rating>| #[trigger]
        rates(gain, candidates, vocabulary, rated) && is_best(rated, at) && best == vocabulary[at]
}

/// `best` is the pick of some rating of the vocabulary against the candidates.
pub open spec fn is_ideal_guess<F: Fn(&Vec<usize>) -> u64>(
    gain: &F,
    candidates: Seq<Seq<char>>,
    vocabulary: Seq<Seq<char>>,
    best: Seq<char>,
) -> bool {
    exists|at: int| #[trigger] is_ideal_guess_at(gain, candidates, vocabulary, best, at)
}

/// The pick of the vocabulary against the candidates, where the measure
/// leaves no choice.
pub open spec fn ideal_guess<F: Fn(&Vec<usize>) -> u64>(
    gain: &F,
    candidates: Seq<Seq<char>>,
    vocabulary: Seq<Seq<char>>,
) -> Seq<char> {
    choose|best: Seq<char>| is_ideal_guess(gain, candidates, vocabulary, best)
}

/// A list of ratings has at most one pick.
pub proof fn lemma_best_unique(rated: Seq<Rating>, i: int, j: int)
    requires
        is_best(rated, i),
        is_best(rated, j),
    ensures
        i == j,
{
    if i < j {
        assert(ranks_below(rated[j], rated[i]));
        assert(!ranks_below(rated[j], rated[i]));
    } else if j < i {
        assert(ranks_below(rated[i], rated[j]));
        assert(!ranks_below(rated[i], rated[j]));
    }
}

/// Selection can be repeated: with a measure that is a function of the class
/// sizes, the same candidates and the same vocabulary always give the same
/// pick.
pub proof fn lemma_ideal_guess_unique<F: Fn(&Vec<usize>) -> u64>(
    gain: &F,
    candidates: Seq<Seq<char>>,
    vocabulary: Seq<Seq<char>>,
    first: Seq<char>,
    second: Seq<char>,
)
    requires
        is_deterministic(gain),
        is_ideal_guess(gain, candidates, vocabulary, first),
        is_ideal_guess(gain, candidates, vocabulary, second),
    ensures
        first == second,
{
    let i = choose|at: int| #[trigger] is_ideal_guess_at(gain, candidates, vocabulary, first, at);
    let j = choose|at: int| #[trigger] is_ideal_guess_at(gain, candidates, vocabulary, second, at);
    let a = choose|rated: Seq<Rating>| #[trigger]
        rates(gain, candidates, vocabulary, rated) && is_best(rated, i) && first == vocabulary[i];
    let b = choose|rated: Seq<Rating>| #[trigger]
        rates(gain, candidates, vocabulary, rated) && is_best(rated, j) && second == vocabulary[j];
    assert forall|k: int| 0 <= k < a.len() implies a[k] == b[k] by {
        let counts = histogram(candidates, vocabulary[k]);
        assert(a[k].word == vocabulary[k]);
        assert(b[k].word == vocabulary[k]);
        assert(gain_gives(gain, counts, a[k].gain));
        assert(gain_gives(gain, counts, b[k].gain));
        let x = choose|bins: Vec<usize>|
            as_nats(bins@) == counts && #[trigger] call_ensures(*gain, (&bins,), a[k].gain);
        let y = choose|bins: Vec<usize>|
            as_nats(bins@) == counts && #[trigger] call_ensures(*gain, (&bins,), b[k].gain);
        assert(call_ensures(*gain, (&x,), a[k].gain) && call_ensures(*gain, (&y,), b[k].gain));
    }
    assert(a =~= b);
    lemma_best_unique(a, i, j);
}

/// With a measure that rewards splits, the pick tells candidates apart
/// whenever any word of the vocabulary does.
pub proof fn lemma_ideal_guess_splits<F: Fn(&Vec<usize>) -> u64>(
    gain: &F,
    candidates: Seq<Seq<char>>,
    vocabulary: Seq<Seq<char>>,
    best: Seq<char>,
    other: int,
)
    requires
        rewards_splits(gain),
        is_ideal_guess(gain, candidates, vocabulary, best),
        0 <= other < vocabulary.len(),
        splits(histogram(candidates, vocabulary[other])),
    ensures
        splits(histogram(candidates, best)),
        vocabulary.contains(best),
{
    let at = choose|at: int| #[trigger] is_ideal_guess_at(gain, candidates, vocabulary, best, at);
    let rated = choose|rated: Seq<Rating>| #[trigger]
        rates(gain, candidates, vocabulary, rated) && is_best(rated, at) && best == vocabulary[at];
    assert(rated[other].word == vocabulary[other]);
    assert(rated[at].word == vocabulary[at]);
    let low = choose|bins: Vec<usize>|
        as_nats(bins@) == histogram(candidates, vocabulary[other]) && #[trigger] call_ensures(
            *gain,
            (&bins,),
            rated[other].gain,
        );
    let high = choose|bins: Vec<usize>|
        as_nats(bins@) == histogram(candidates, vocabulary[at]) && #[trigger] call_ensures(
            *gain,
            (&bins,),
            rated[at].gain,
        );
    assert(call_ensures(*gain, (&low,), rated[other].gain));
    assert(call_ensures(*gain, (&high,), rated[at].gain));
    assert(rated[other].gain > 0);
    if other < at {
        assert(!ranks_below(rated[at], rated[other]));
    } else if at < other {
        assert(ranks_below(rated[other], rated[at]));
    }
    assert(rated[at].gain > 0);
}

/// The place of the best rated entry; among entries rated alike, the last.
pub fn select(scored: &[ScoredGuess]) -> (best: usize)
    requires
        scored@.len() > 0,
    ensures
        is_best(ratings(scored@), best as int),
{
    let ghost rated = ratings(scored@);
    let mut best: usize = 0;
    let mut i: usize = 1;
    while i < scored.len()
        invariant
            rated == ratings(scored@),
            1 <= i <= scored@.len(),
            is_best(rated.take(i as int), best as int),
        decreases scored@.len() - i,
    {
        let challenger = scored[i];
        let holder = scored[best];
        assert(rated[i as int] == challenger@);
        assert(rated[best as int] == holder@);
        assert(rated.take(i as int)[best as int] == rated[best as int]);
        let below = challenger.gain < holder.gain || (challenger.gain == holder.gain
            && !challenger.possible && holder.possible);
        proof {
            let seen = rated.take(i as int);
            let next = rated.take(i + 1);
            assert forall|j: int| 0 <= j < i implies #[trigger] next[j] == seen[j] by {}
            if !below {
                assert forall|j: int| 0 <= j < i implies !ranks_below(
                    next[i as int],
                    #[trigger] next[j],
                ) by {
                    assert(next[j] == seen[j]);
                    if j > best {
                        assert(ranks_below(seen[j], seen[best as int]));
                    } else if j < best {
                        assert(!ranks_below(seen[best as int], seen[j]));
                    }
                }
            }
        }
        if !below {
            best = i;
        }
        i += 1;
    }
    proof {
        assert(rated.take(scored@.len() as int) =~= rated);
    }
    best
}

/// Rates every word of the vocabulary against the candidates.
pub fn score_guesses<'a, F: Fn(&Vec<usize>) -> u64>(
    allowed_words: &[&str],
    word_list: &[&'a str],
    gain: &F,
) -> (scored: Vec<ScoredGuess<'a>>)
    requires
        allowed_words@.len() > 0,
        all_words(word_views(allowed_words@)),
        all_words(word_views(word_list@)),
        accepts_histograms(gain),
    ensures
        rates(gain, word_views(allowed_words@), word_views(word_list@), ratings(scored@)),
        scored@.len() == word_list@.len(),
        forall|j: int| 0 <= j < scored@.len() ==> (#[trigger] scored@[j]).word == word_list@[j],
{
    let ghost candidates = word_views(allowed_words@);
    let ghost vocabulary = word_views(word_list@);
    let mut scored: Vec<ScoredGuess<'a>> = Vec::new();
    let mut j: usize = 0;
    while j < word_list.len()
        invariant
            candidates == word_views(allowed_words@),
            vocabulary == word_views(word_list@),
            all_words(candidates),
            all_words(vocabulary),
            accepts_histograms(gain),
            0 <= j <= word_list@.len(),
            scored@.len() == j,
            forall|k: int| 0 <= k < j ==> (#[trigger] scored@[k]).word == word_list@[k],
            forall|k: int|
                0 <= k < j ==> gain_gives(
                    gain,
                    histogram(candidates, vocabulary[k]),
                    (#[trigger] scored@[k]).gain,
                ),
            forall|k: int|
                0 <= k < j ==> (#[trigger] scored@[k]).possible == candidates.contains(vocabulary[k]),
        decreases word_list@.len() - j,
    {
        let word: &'a str = word_list[j];
        assert(vocabulary[j as int] == word@);
        let bins = response_counts(allowed_words, word);
        assert(bins@.len() == RESPONSE_COUNT) by {
            assert(as_nats(bins@).len() == histogram(candidates, word@).len());
        }
        let key: u64 = gain(&bins);
        let possible = contains_word(allowed_words, word);
        scored.push(ScoredGuess { word, gain: key, possible });
        j += 1;
    }
    proof {
        let rated = ratings(scored@);
        assert forall|k: int| 0 <= k < rated.len() implies {
            &&& (#[trigger] rated[k]).word == vocabulary[k]
            &&& gain_gives(gain, histogram(candidates, vocabulary[k]), rated[k].gain)
            &&& rated[k].possible == candidates.contains(vocabulary[k])
        } by {
            assert(rated[k] == scored@[k]@);
        }
    }
    scored
}

/// The words and keys that a list of pairs stands for.
pub open spec fn pair_views(pairs: Seq<(&str, u64)>) -> Seq<(Seq<char>, u64)> {
    Seq::new(pairs.len(), |i: int| (pairs[i].0@, pairs[i].1))
}

/// `top` lists the word and the key of the first `count` entries, or of all
/// entries if there are fewer, of some ranking of the vocabulary rated
/// against the candidates.
pub open spec fn is_top<F: Fn(&Vec<usize>) -> u64>(
    gain: &F,
    candidates: Seq<Seq<char>>,
    vocabulary: Seq<Seq<char>>,
    count: nat,
    top: Seq<(Seq<char>, u64)>,
) -> bool {
    exists|rated: Seq<Rating>, ordered: Seq<Rating>|
        {
            &&& #[trigger] rates(gain, candidates, vocabulary, rated)
            &&& #[trigger] is_ranking(rated, ordered)
            &&& top.len() == if count <= ordered.len() {
                count
            } else {
                ordered.len()
            }
            &&& forall|k: int|
                0 <= k < top.len() ==> #[trigger] top[k] == (ordered[k].word, ordered[k].gain)
        }
}

impl Information {
    /// Returns the key that the measure gives to the split that this guess
    /// makes of the words of the list that are still allowed.
    pub fn evaluate_guess<F: Fn(&Vec<usize>) -> u64>(
        &self,
        word_list: &[&str],
        guess: &str,
        gain: &F,
    ) -> (key: u64)
        requires
            word_views(word_list@).filter(permits(self@)).len() > 0,
            all_words(word_views(word_list@)),
            guess@.len() == WORD_LENGTH,
            accepts_histograms(gain),
        ensures
            gain_gives(gain, histogram(word_views(word_list@).filter(permits(self@)), guess@), key),
            rewards_splits(gain) ==> (key > 0 <==> splits(
                histogram(word_views(word_list@).filter(permits(self@)), guess@),
            )),
            rewards_splits(gain) && word_views(word_list@).filter(permits(self@)).len() == 1
                ==> key == 0,
    {
        let allowed = self.allowed_words(word_list);
        self.evaluate_guess_from_allowed(allowed.as_slice(), guess, gain)
    }

    /// Like `evaluate_guess`, but the word_list must already be filtered for allowed words.
    pub fn evaluate_guess_from_allowed<F: Fn(&Vec<usize>) -> u64>(
        &self,
        word_list: &[&str],
        guess: &str,
        gain: &F,
    ) -> (key: u64)
        requires
            word_list@.len() > 0,
            all_words(word_views(word_list@)),
            guess@.len() == WORD_LENGTH,
            accepts_histograms(gain),
        ensures
            gain_gives(gain, histogram(word_views(word_list@), guess@), key),
            rewards_splits(gain) ==> (key > 0 <==> splits(
                histogram(word_views(word_list@), guess@),
            )),
            rewards_splits(gain) && word_list@.len() == 1 ==> key == 0,
    {
        let bins = response_counts(word_list, guess);
        assert(bins@.len() == RESPONSE_COUNT) by {
            assert(as_nats(bins@).len() == histogram(word_views(word_list@), guess@).len());
        }
        let key = gain(&bins);
        proof {
            if word_list@.len() == 1 {
                lemma_one_candidate_no_split(word_views(word_list@), guess@);
            }
        }
        key
    }

    /// Get the ideal guess from the given list of words: the pick among all
    /// of them, rated against those that are still allowed.
    pub fn get_ideal_guess<'a, F: Fn(&Vec<usize>) -> u64>(
        &self,
        word_list: &'a [&'a str],
        gain: &F,
    ) -> (best: &'a str)
        requires
            word_views(word_list@).filter(permits(self@)).len() > 0,
            all_words(word_views(word_list@)),
            accepts_histograms(gain),
        ensures
            is_ideal_guess(
                gain,
                word_views(word_list@).filter(permits(self@)),
                word_views(word_list@),
                best@,
            ),
            word_views(word_list@).contains(best@),
            is_deterministic(gain) ==> best@ == ideal_guess(
                gain,
                word_views(word_list@).filter(permits(self@)),
                word_views(word_list@),
            ),
    {
        proof {
            word_views(word_list@).lemma_filter_len(permits(self@));
        }
        let allowed_words = self.allowed_words(word_list);
        self.get_ideal_guess_from_allowed(allowed_words.as_slice(), word_list, gain)
    }

    /// Get the ideal guess from the list of words, rated against the allowed
    /// words: the word whose split of the allowed words gets the highest key;
    /// among words with that key, one that is itself an allowed word; among
    /// those, the last in the list. The allowed words stand for what is
    /// known: the information itself is not consulted.
    pub fn get_ideal_guess_from_allowed<'a, F: Fn(&Vec<usize>) -> u64>(
        &self,
        allowed_words: &[&str],
        word_list: &[&'a str],
        gain: &F,
    ) -> (best: &'a str)
        requires
            allowed_words@.len() > 0,
            word_list@.len() > 0,
            all_words(word_views(allowed_words@)),
            all_words(word_views(word_list@)),
            accepts_histograms(gain),
        ensures
            is_ideal_guess(gain, word_views(allowed_words@), word_views(word_list@), best@),
            word_views(word_list@).contains(best@),
            is_deterministic(gain) ==> best@ == ideal_guess(
                gain,
                word_views(allowed_words@),
                word_views(word_list@),
            ),
    {
        let scored = score_guesses(allowed_words, word_list, gain);
        let at = select(scored.as_slice());
        let best: &'a str = word_list[at];
        proof {
            let candidates = word_views(allowed_words@);
            let vocabulary = word_views(word_list@);
            assert(vocabulary[at as int] == best@);
            assert(rates(gain, candidates, vocabulary, ratings(scored@)));
            assert(is_ideal_guess_at(gain, candidates, vocabulary, best@, at as int));
            assert(is_ideal_guess(gain, candidates, vocabulary, best@));
            if is_deterministic(gain) {
                lemma_ideal_guess_unique(
                    gain,
                    candidates,
                    vocabulary,
                    best@,
                    ideal_guess(gain, candidates, vocabulary),
                );
            }
        }
        best
    }

    /// The `count` best rated words of the guess list with their keys, best
    /// first, rated against the words of `word_list` that are still allowed.
    pub fn top_n_guesses<'a, F: Fn(&Vec<usize>) -> u64>(
        &self,
        guess_list: &[&'a str],
        word_list: &[&'a str],
        count: usize,
        gain: &F,
    ) -> (top: Vec<(&'a str, u64)>)
        requires
            word_views(word_list@).filter(permits(self@)).len() > 0,
            all_words(word_views(guess_list@)),
            all_words(word_views(word_list@)),
            accepts_histograms(gain),
        ensures
            is_top(
                gain,
                word_views(word_list@).filter(permits(self@)),
                word_views(guess_list@),
                count as nat,
                pair_views(top@),
            ),
    {
        let allowed_words = self.allowed_words(word_list);
        let scored = score_guesses(allowed_words.as_slice(), guess_list, gain);
        let ghost rated = ratings(scored@);
        let ordered = sort_by_rank(scored);
        let wanted: usize = if count <= ordered.len() {
            count
        } else {
            ordered.len()
        };
        let mut top: Vec<(&'a str, u64)> = Vec::new();
        let mut k: usize = 0;
        while k < wanted
            invariant
                wanted <= ordered@.len(),
                0 <= k <= wanted,
                top@.len() == k,
                forall|m: int|
                    0 <= m < k ==> (#[trigger] top@[m]).0@ == ordered@[m].word@ && top@[m].1
                        == ordered@[m].gain,
            decreases wanted - k,
        {
            let entry = ordered[k];
            top.push((entry.word, entry.gain));
            k += 1;
        }
        proof {
            let listed = ratings(ordered@);
            let pairs = pair_views(top@);
            assert(rates(
                gain,
                word_views(word_list@).filter(permits(self@)),
                word_views(guess_list@),
                rated,
            ));
            assert(is_ranking(rated, listed));
            assert forall|m: int| 0 <= m < pairs.len() implies #[trigger] pairs[m] == (
                listed[m].word,
                listed[m].gain,
            ) by {
                assert(listed[m] == ordered@[m]@);
                assert(pairs[m] == (top@[m].0@, top@[m].1));
            }
        }
        top
    }
}

} // verus!
