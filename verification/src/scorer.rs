//! How a guess splits a set of candidate secrets into classes, one per response.

use vstd::prelude::*;
use vstd::string::*;
use crate::engine::WordleEngine;
use crate::response::{
    all_correct, decode, encode, lemma_decode_encode, lemma_encode_range, LetterResponse,
    RESPONSE_COUNT,
};
use crate::filters::lemma_filter_holds;
use crate::scoring::{lemma_all_correct_is_secret, lemma_score_of_secret, score};
use crate::word::{all_words, word_views, WORD_LENGTH};

verus! {

/// The secrets that draw the response `marks` to `guess`.
pub open spec fn draws(guess: Seq<char>, marks: Seq<LetterResponse>) -> spec_fn(Seq<char>) -> bool {
    |secret: Seq<char>| score(guess, secret) == marks
}

/// The candidates that draw the response `marks` to `guess`, in their order.
pub open spec fn bucket(
    candidates: Seq<Seq<char>>,
    guess: Seq<char>,
    marks: Seq<LetterResponse>,
) -> Seq<Seq<char>> {
    candidates.filter(draws(guess, marks))
}

/// For each response code, the number of candidates that draw that response to `guess`.
pub open spec fn histogram(candidates: Seq<Seq<char>>, guess: Seq<char>) -> Seq<nat> {
    Seq::new(RESPONSE_COUNT as nat, |code: int| bucket(candidates, guess, decode(code)).len())
}

/// At least two classes are not empty.
pub open spec fn splits(counts: Seq<nat>) -> bool {
    exists|i: int, j: int| 0 <= i < j < counts.len() && counts[i] > 0 && counts[j] > 0
}

/// The sum of the first `n` entries.
pub open spec fn sum_upto(counts: Seq<nat>, n: int) -> nat
    decreases n,
{
    if n <= 0 {
        0
    } else {
        sum_upto(counts, n - 1) + counts[n - 1]
    }
}

/// The counts as natural numbers.
pub open spec fn as_nats(counts: Seq<usize>) -> Seq<nat> {
    Seq::new(counts.len(), |i: int| counts[i] as nat)
}

/// One more candidate raises the class of its own response by one and leaves the others.
pub proof fn lemma_histogram_push(candidates: Seq<Seq<char>>, guess: Seq<char>, secret: Seq<char>)
    requires
        guess.len() == WORD_LENGTH,
    ensures
        encode(score(guess, secret)) < RESPONSE_COUNT,
        histogram(candidates.push(secret), guess) == histogram(candidates, guess).update(
            encode(score(guess, secret)) as int,
            histogram(candidates, guess)[encode(score(guess, secret)) as int] + 1,
        ),
{
    broadcast use Seq::lemma_filter_push;

    let marks = score(guess, secret);
    let hit = encode(marks) as int;
    lemma_encode_range(marks);
    assert forall|code: int| 0 <= code < RESPONSE_COUNT implies #[trigger] histogram(
        candidates.push(secret),
        guess,
    )[code] == histogram(candidates, guess).update(hit, histogram(candidates, guess)[hit] + 1)[code] by {
        lemma_decode_encode(marks, code);
        assert(draws(guess, decode(code))(secret) == (code == hit));
    }
    assert(histogram(candidates.push(secret), guess) =~= histogram(candidates, guess).update(
        hit,
        histogram(candidates, guess)[hit] + 1,
    ));
}

proof fn lemma_sum_update(counts: Seq<nat>, at: int, n: int)
    requires
        0 <= at < counts.len(),
        0 <= n <= counts.len(),
    ensures
        sum_upto(counts.update(at, counts[at] + 1), n) == sum_upto(counts, n) + if at < n {
            1nat
        } else {
            0nat
        },
    decreases n,
{
    if n > 0 {
        lemma_sum_update(counts, at, n - 1);
    }
}

proof fn lemma_sum_zero(counts: Seq<nat>, n: int)
    requires
        0 <= n <= counts.len(),
        forall|i: int| 0 <= i < n ==> counts[i] == 0,
    ensures
        sum_upto(counts, n) == 0,
    decreases n,
{
    if n > 0 {
        lemma_sum_zero(counts, n - 1);
    }
}

proof fn lemma_entry_at_most_sum(counts: Seq<nat>, at: int, n: int)
    requires
        0 <= at < n <= counts.len(),
    ensures
        counts[at] <= sum_upto(counts, n),
    decreases n,
{
    if at < n - 1 {
        lemma_entry_at_most_sum(counts, at, n - 1);
    }
}

/// The classes of a guess hold every candidate once: their sizes add up to
/// the number of candidates.
pub proof fn lemma_histogram_total(candidates: Seq<Seq<char>>, guess: Seq<char>)
    requires
        guess.len() == WORD_LENGTH,
    ensures
        sum_upto(histogram(candidates, guess), RESPONSE_COUNT as int) == candidates.len(),
    decreases candidates.len(),
{
    if candidates.len() == 0 {
        assert forall|code: int| 0 <= code < RESPONSE_COUNT implies histogram(candidates, guess)[code]
            == 0 by {
            candidates.lemma_filter_len(draws(guess, decode(code)));
        }
        lemma_sum_zero(histogram(candidates, guess), RESPONSE_COUNT as int);
    } else {
        let rest = candidates.drop_last();
        assert(rest.push(candidates.last()) =~= candidates);
        lemma_histogram_total(rest, guess);
        lemma_histogram_push(rest, guess, candidates.last());
        lemma_sum_update(
            histogram(rest, guess),
            encode(score(guess, candidates.last())) as int,
            RESPONSE_COUNT as int,
        );
    }
}

proof fn lemma_two_entries_at_most_sum(counts: Seq<nat>, a: int, b: int, n: int)
    requires
        0 <= a < b < n <= counts.len(),
    ensures
        counts[a] + counts[b] <= sum_upto(counts, n),
    decreases n,
{
    if b < n - 1 {
        lemma_two_entries_at_most_sum(counts, a, b, n - 1);
    } else {
        lemma_entry_at_most_sum(counts, a, n - 1);
    }
}

/// A candidate, taken as the guess, tells itself apart from any other candidate.
pub proof fn lemma_candidate_splits(candidates: Seq<Seq<char>>, i: int, j: int)
    requires
        0 <= i < candidates.len(),
        0 <= j < candidates.len(),
        candidates[i] != candidates[j],
        candidates[i].len() == WORD_LENGTH,
        candidates[j].len() == WORD_LENGTH,
    ensures
        splits(histogram(candidates, candidates[i])),
{
    let guess = candidates[i];
    let own = score(guess, guess);
    let other = score(guess, candidates[j]);
    lemma_score_of_secret(guess);
    lemma_encode_range(own);
    lemma_encode_range(other);
    if all_correct(other) {
        lemma_all_correct_is_secret(guess, candidates[j]);
    }
    let a = encode(own) as int;
    let b = encode(other) as int;
    lemma_decode_encode(own, b);
    lemma_decode_encode(other, a);
    assert(candidates.contains(guess));
    assert(candidates.contains(candidates[j]));
    lemma_filter_holds(candidates, draws(guess, own), guess);
    lemma_filter_holds(candidates, draws(guess, other), candidates[j]);
    let counts = histogram(candidates, guess);
    assert(counts[a] > 0);
    assert(counts[b] > 0);
    assert(b < a);
}

/// Where a guess splits the candidates, every class is smaller than the whole.
pub proof fn lemma_split_shrinks(
    candidates: Seq<Seq<char>>,
    guess: Seq<char>,
    marks: Seq<LetterResponse>,
)
    requires
        guess.len() == WORD_LENGTH,
        splits(histogram(candidates, guess)),
    ensures
        bucket(candidates, guess, marks).len() < candidates.len(),
{
    let counts = histogram(candidates, guess);
    let (i, j) = choose|i: int, j: int|
        0 <= i < j < counts.len() && counts[i] > 0 && counts[j] > 0;
    lemma_histogram_total(candidates, guess);
    lemma_two_entries_at_most_sum(counts, i, j, RESPONSE_COUNT as int);
    let class = bucket(candidates, guess, marks);
    if class.len() > 0 {
        candidates.lemma_filter_pred(draws(guess, marks), 0);
        assert(marks.len() == WORD_LENGTH);
        lemma_encode_range(marks);
        let m = encode(marks) as int;
        lemma_decode_encode(marks, m);
        assert(counts[m] == class.len());
        if m == i {
            lemma_two_entries_at_most_sum(counts, i, j, RESPONSE_COUNT as int);
        } else if m < i {
            lemma_two_entries_at_most_sum(counts, m, i, RESPONSE_COUNT as int);
        } else {
            lemma_two_entries_at_most_sum(counts, i, m, RESPONSE_COUNT as int);
        }
    }
}

/// A single candidate is not split by any guess.
pub proof fn lemma_one_candidate_no_split(candidates: Seq<Seq<char>>, guess: Seq<char>)
    requires
        candidates.len() <= 1,
        guess.len() == WORD_LENGTH,
    ensures
        !splits(histogram(candidates, guess)),
{
    let counts = histogram(candidates, guess);
    if splits(counts) {
        let (i, j) = choose|i: int, j: int|
            0 <= i < j < counts.len() && counts[i] > 0 && counts[j] > 0;
        lemma_histogram_total(candidates, guess);
        lemma_two_entries_at_most_sum(counts, i, j, RESPONSE_COUNT as int);
    }
}

/// A single candidate makes a single class: the class of its own response
/// has size one, and every other class is empty, whatever the guess.
pub proof fn lemma_one_candidate_one_class(secret: Seq<char>, guess: Seq<char>, code: int)
    requires
        guess.len() == WORD_LENGTH,
        0 <= code < RESPONSE_COUNT,
    ensures
        histogram(seq![secret], guess)[code] == if code == encode(score(guess, secret)) {
            1nat
        } else {
            0nat
        },
{
    let none = Seq::<Seq<char>>::empty();
    assert(none.push(secret) =~= seq![secret]);
    lemma_histogram_push(none, guess, secret);
    none.lemma_filter_len(draws(guess, decode(code)));
    none.lemma_filter_len(draws(guess, decode(encode(score(guess, secret)) as int)));
}

/// The code of the response that `word`, as the secret, gives to `guess`.
pub fn get_bin(guess: &str, word: &str) -> (bin: usize)
    requires
        guess@.len() == WORD_LENGTH,
        word@.len() == WORD_LENGTH,
    ensures
        bin == encode(score(guess@, word@)),
        bin < RESPONSE_COUNT,
{
    WordleEngine::get_response(word, guess).bin()
}

/// Counts, for each response code, the candidates that draw that response to `guess`.
pub fn response_counts(candidates: &[&str], guess: &str) -> (bins: Vec<usize>)
    requires
        guess@.len() == WORD_LENGTH,
        all_words(word_views(candidates@)),
    ensures
        as_nats(bins@) == histogram(word_views(candidates@), guess@),
{
    let ghost all = word_views(candidates@);
    let mut bins: Vec<usize> = Vec::new();
    let mut code: usize = 0;
    while code < RESPONSE_COUNT
        invariant
            0 <= code <= RESPONSE_COUNT,
            bins@.len() == code,
            forall|b: int| 0 <= b < code ==> bins@[b] == 0,
        decreases RESPONSE_COUNT - code,
    {
        bins.push(0);
        code += 1;
    }
    proof {
        assert(all.take(0) =~= Seq::<Seq<char>>::empty());
        assert forall|b: int| 0 <= b < RESPONSE_COUNT implies histogram(all.take(0), guess@)[b]
            == 0 by {
            all.take(0).lemma_filter_len(draws(guess@, decode(b)));
        }
        assert(as_nats(bins@) =~= histogram(all.take(0), guess@));
    }
    let mut i: usize = 0;
    while i < candidates.len()
        invariant
            guess@.len() == WORD_LENGTH,
            all == word_views(candidates@),
            all_words(all),
            0 <= i <= candidates@.len(),
            bins@.len() == RESPONSE_COUNT,
            as_nats(bins@) == histogram(all.take(i as int), guess@),
        decreases candidates@.len() - i,
    {
        let ghost before = bins@;
        let word: &str = candidates[i];
        assert(all[i as int] == word@);
        let bin = get_bin(guess, word);
        proof {
            let seen = all.take(i as int);
            assert(seen.push(word@) =~= all.take(i + 1));
            lemma_histogram_push(seen, guess@, word@);
            lemma_histogram_total(all.take(i + 1), guess@);
            lemma_entry_at_most_sum(
                histogram(all.take(i + 1), guess@),
                bin as int,
                RESPONSE_COUNT as int,
            );
            assert(as_nats(before)[bin as int] == before[bin as int]);
        }
        let raised: usize = bins[bin] + 1;
        bins.set(bin, raised);
        proof {
            assert(as_nats(bins@) =~= histogram(all.take(i + 1), guess@));
        }
        i += 1;
    }
    proof {
        assert(all.take(candidates@.len() as int) =~= all);
    }
    bins
}

} // verus!
