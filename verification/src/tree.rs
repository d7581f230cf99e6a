//! A complete strategy: for every candidate secret, the guesses that lead to it.

use vstd::prelude::*;
use vstd::string::*;
use vstd::seq_lib::{lemma_multiset_commutative, to_multiset_contains};
use crate::engine::WordleEngine;
use crate::filters::{
    lemma_filter_drops_all, lemma_filter_keeps_all, lemma_filter_no_duplicates, lemma_filter_part,
    lemma_filter_split,
};
use crate::knowledge::Information;
use crate::response::{
    all_correct, lemma_nth_response_place, nth_response, place, LetterResponse, WordleResponse,
    RESPONSE_COUNT,
};
use crate::scorer::{bucket, draws, lemma_candidate_splits, lemma_split_shrinks};
use crate::scoring::score;
use crate::selector::{accepts_histograms, is_ideal_guess, lemma_ideal_guess_splits, rewards_splits};
use crate::word::{all_words, is_word, word_views, WORD_LENGTH};

verus! {

/// The secrets and paths that a list of pairs stands for.
pub open spec fn path_views<'a>(paths: Seq<(&'a str, Vec<&'a str>)>) -> Seq<
    (Seq<char>, Seq<Seq<char>>),
> {
    Seq::new(paths.len(), |i: int| (paths[i].0@, word_views(paths[i].1@)))
}

/// The secrets of a list of paths, in its order.
pub open spec fn secrets_of(paths: Seq<(Seq<char>, Seq<Seq<char>>)>) -> Seq<Seq<char>> {
    Seq::new(paths.len(), |i: int| paths[i].0)
}

/// `path` is a course of the solver towards `secret` among the candidates
/// `remaining`.
///
/// With one candidate left, the path is that candidate alone. With more, the
/// solver picks a guess for the candidates; the candidates that draw the
/// same response to it as the secret are fewer than before, and the rest of
/// the path is a course towards the secret among them. The guess opens the
/// path unless the response to it is `Correct` at every position.
pub open spec fn follows_strategy<F: Fn(&Vec<usize>) -> u64>(
    gain: &F,
    vocabulary: Seq<Seq<char>>,
    remaining: Seq<Seq<char>>,
    secret: Seq<char>,
    path: Seq<Seq<char>>,
) -> bool
    decreases remaining.len(),
{
    if remaining.len() <= 1 {
        remaining == seq![secret] && path == seq![secret]
    } else {
        exists|guess: Seq<char>|
            {
                &&& #[trigger] is_ideal_guess(gain, remaining, vocabulary, guess)
                &&& bucket(remaining, guess, score(guess, secret)).len() < remaining.len()
                &&& if all_correct(score(guess, secret)) {
                    follows_strategy(
                        gain,
                        vocabulary,
                        bucket(remaining, guess, score(guess, secret)),
                        secret,
                        path,
                    )
                } else {
                    &&& path.len() > 0
                    &&& path[0] == guess
                    &&& follows_strategy(
                        gain,
                        vocabulary,
                        bucket(remaining, guess, score(guess, secret)),
                        secret,
                        path.drop_first(),
                    )
                }
            }
    }
}

/// `paths` is a complete strategy for the candidates `remaining`: it lists
/// every candidate as often as `remaining` does, each with a course of the
/// solver towards it.
pub open spec fn is_strategy<F: Fn(&Vec<usize>) -> u64>(
    gain: &F,
    vocabulary: Seq<Seq<char>>,
    remaining: Seq<Seq<char>>,
    paths: Seq<(Seq<char>, Seq<Seq<char>>)>,
) -> bool {
    &&& secrets_of(paths).to_multiset() == remaining.to_multiset()
    &&& forall|k: int|
        0 <= k < paths.len() ==> follows_strategy(
            gain,
            vocabulary,
            remaining,
            (#[trigger] paths[k]).0,
            paths[k].1,
        )
}

/// The solver gets stuck among the candidates `remaining`: at some point of
/// some course it picks a guess to which all the candidates that are left
/// draw the same response.
pub open spec fn stalls<F: Fn(&Vec<usize>) -> u64>(
    gain: &F,
    vocabulary: Seq<Seq<char>>,
    remaining: Seq<Seq<char>>,
) -> bool
    decreases remaining.len(),
{
    remaining.len() > 1 && exists|guess: Seq<char>, marks: Seq<LetterResponse>|
        {
            &&& is_ideal_guess(gain, remaining, vocabulary, guess)
            &&& (#[trigger] bucket(remaining, guess, marks)).len() > 0
            &&& (bucket(remaining, guess, marks).len() >= remaining.len() || stalls(
                gain,
                vocabulary,
                bucket(remaining, guess, marks),
            ))
        }
}

/// The candidates are different words of the vocabulary.
pub open spec fn drawn_from(remaining: Seq<Seq<char>>, vocabulary: Seq<Seq<char>>) -> bool {
    &&& remaining.no_duplicates()
    &&& forall|i: int| 0 <= i < remaining.len() ==> vocabulary.contains(#[trigger] remaining[i])
}

/// With a measure that rewards splits, the solver never gets stuck among
/// different words of its vocabulary.
pub proof fn lemma_never_stalls<F: Fn(&Vec<usize>) -> u64>(
    gain: &F,
    vocabulary: Seq<Seq<char>>,
    remaining: Seq<Seq<char>>,
)
    requires
        rewards_splits(gain),
        all_words(vocabulary),
        drawn_from(remaining, vocabulary),
    ensures
        !stalls(gain, vocabulary, remaining),
    decreases remaining.len(),
{
    if stalls(gain, vocabulary, remaining) {
        let (guess, marks) = choose|guess: Seq<char>, marks: Seq<LetterResponse>|
            {
                &&& is_ideal_guess(gain, remaining, vocabulary, guess)
                &&& (#[trigger] bucket(remaining, guess, marks)).len() > 0
                &&& (bucket(remaining, guess, marks).len() >= remaining.len() || stalls(
                    gain,
                    vocabulary,
                    bucket(remaining, guess, marks),
                ))
            };
        let class = bucket(remaining, guess, marks);
        let first = choose|at: int| 0 <= at < vocabulary.len() && vocabulary[at] == remaining[0];
        let second = choose|at: int| 0 <= at < vocabulary.len() && vocabulary[at] == remaining[1];
        assert(is_word(vocabulary[first]) && is_word(vocabulary[second]));
        lemma_candidate_splits(remaining, 0, 1);
        lemma_ideal_guess_splits(gain, remaining, vocabulary, guess, first);
        let picked = choose|at: int| 0 <= at < vocabulary.len() && vocabulary[at] == guess;
        assert(is_word(vocabulary[picked]));
        lemma_split_shrinks(remaining, guess, marks);
        lemma_filter_no_duplicates(remaining, draws(guess, marks));
        assert forall|i: int| 0 <= i < class.len() implies vocabulary.contains(
            #[trigger] class[i],
        ) by {
            lemma_filter_part(remaining, draws(guess, marks), i);
            let at = choose|at: int| 0 <= at < remaining.len() && remaining[at] == class[i];
            assert(vocabulary.contains(remaining[at]));
        }
        lemma_never_stalls(gain, vocabulary, class);
    }
}

/// The secrets whose response to `guess` stands before place `bound` of the enumeration.
pub open spec fn placed_below(guess: Seq<char>, bound: int) -> spec_fn(Seq<char>) -> bool {
    |secret: Seq<char>| place(score(guess, secret)) < bound
}

/// The candidates whose response stands before place `k + 1` are those whose
/// response stands before place `k`, and those that draw the response at place `k`.
proof fn lemma_next_class(remaining: Seq<Seq<char>>, guess: Seq<char>, k: int)
    requires
        guess.len() == WORD_LENGTH,
        0 <= k < RESPONSE_COUNT,
    ensures
        remaining.filter(placed_below(guess, k + 1)).to_multiset() == remaining.filter(
            placed_below(guess, k),
        ).to_multiset().add(bucket(remaining, guess, nth_response(k)).to_multiset()),
{
    let p = placed_below(guess, k);
    let q = draws(guess, nth_response(k));
    let r = placed_below(guess, k + 1);
    assert forall|x: Seq<char>| remaining.contains(x) implies (r(x) <==> (p(x) || q(x))) && !(p(x)
        && q(x)) by {
        lemma_nth_response_place(score(guess, x), k);
    }
    lemma_filter_split(remaining, p, q, r);
}

/// A word that a list holds, by the count of its multiset, stands somewhere in the list.
proof fn lemma_listed_secret_in_bucket(
    listed: Seq<Seq<char>>,
    remaining: Seq<Seq<char>>,
    guess: Seq<char>,
    marks: Seq<LetterResponse>,
    m: int,
)
    requires
        0 <= m < listed.len(),
        listed.to_multiset() == bucket(remaining, guess, marks).to_multiset(),
    ensures
        score(guess, listed[m]) == marks,
{
    let part = bucket(remaining, guess, marks);
    let word = listed[m];
    assert(listed.contains(word));
    to_multiset_contains(listed, word);
    to_multiset_contains(part, word);
    let j = choose|j: int| 0 <= j < part.len() && part[j] == word;
    remaining.lemma_filter_pred(draws(guess, marks), j);
}

/// The candidates that draw the given response to the guess, in their order.
fn words_drawing<'a>(remaining: &Vec<&'a str>, guess: &str, response: &WordleResponse) -> (part: Vec<
    &'a str,
>)
    requires
        all_words(word_views(remaining@)),
        guess@.len() == WORD_LENGTH,
    ensures
        word_views(part@) == bucket(word_views(remaining@), guess@, response@),
        all_words(word_views(part@)),
{
    let ghost all = word_views(remaining@);
    let ghost wanted = draws(guess@, response@);
    let mut part: Vec<&'a str> = Vec::new();
    let mut i: usize = 0;
    proof {
        assert(all.take(0) =~= Seq::<Seq<char>>::empty());
        all.take(0).lemma_filter_len(wanted);
        assert(word_views(part@) =~= all.take(0).filter(wanted));
    }
    while i < remaining.len()
        invariant
            all == word_views(remaining@),
            wanted == draws(guess@, response@),
            all_words(all),
            guess@.len() == WORD_LENGTH,
            0 <= i <= remaining@.len(),
            word_views(part@) == all.take(i as int).filter(wanted),
            all_words(word_views(part@)),
        decreases remaining@.len() - i,
    {
        let word: &'a str = remaining[i];
        assert(all[i as int] == word@);
        let ghost kept = word_views(part@);
        proof {
            assert(all.take(i as int).push(word@) =~= all.take(i + 1));
            all.take(i as int).lemma_filter_push(word@, wanted);
        }
        if WordleEngine::get_response(word, guess).same_as(response) {
            part.push(word);
            assert(word_views(part@) =~= kept.push(word@));
        }
        i += 1;
    }
    proof {
        assert(all.take(remaining@.len() as int) =~= all);
    }
    part
}

/// The path that opens with `first`, if there is one, and goes on with `rest`.
fn lead_path<'a>(first: Option<&'a str>, rest: &Vec<&'a str>) -> (path: Vec<&'a str>)
    ensures
        word_views(path@) == (match first {
            Some(word) => seq![word@] + word_views(rest@),
            None => word_views(rest@),
        }),
{
    let mut path: Vec<&'a str> = Vec::new();
    if let Some(word) = first {
        path.push(word);
    }
    let ghost opening = word_views(path@);
    let mut i: usize = 0;
    while i < rest.len()
        invariant
            0 <= i <= rest@.len(),
            word_views(path@) == opening + word_views(rest@).take(i as int),
        decreases rest@.len() - i,
    {
        let ghost so_far = word_views(path@);
        path.push(rest[i]);
        assert(word_views(path@) =~= so_far.push(rest@[i as int]@));
        assert(word_views(rest@).take(i + 1) =~= word_views(rest@).take(i as int).push(
            rest@[i as int]@,
        ));
        assert(opening + word_views(rest@).take(i + 1) =~= (opening + word_views(rest@).take(
            i as int,
        )).push(rest@[i as int]@));
        i += 1;
    }
    proof {
        assert(word_views(rest@).take(rest@.len() as int) =~= word_views(rest@));
        assert(opening =~= match first {
            Some(word) => seq![word@],
            None => Seq::<Seq<char>>::empty(),
        });
        assert(Seq::<Seq<char>>::empty() + word_views(rest@) =~= word_views(rest@));
    }
    path
}

/// Builds the complete strategy for the candidates `remaining`: for each of
/// them, the guesses that the solver makes until it is the only one left,
/// ending with the candidate itself.
///
/// The guesses come from `word_list`, which is consulted only while more
/// than one candidate is left. The candidates are split by their
/// response to each guess, and the classes are worked through in the order
/// of `WordleResponse::all_responses`. `None` means that the solver got
/// stuck: some guess that it picked told none of the candidates left apart.
pub fn find_word_paths<'a, F: Fn(&Vec<usize>) -> u64>(
    word_list: &[&'a str],
    remaining: Vec<&'a str>,
    gain: &F,
) -> (paths: Option<Vec<(&'a str, Vec<&'a str>)>>)
    requires
        remaining@.len() > 1 ==> word_list@.len() > 0,
        all_words(word_views(word_list@)),
        all_words(word_views(remaining@)),
        accepts_histograms(gain),
    ensures
        match paths {
            Some(found) => is_strategy(
                gain,
                word_views(word_list@),
                word_views(remaining@),
                path_views(found@),
            ),
            None => stalls(gain, word_views(word_list@), word_views(remaining@)),
        },
        remaining@.len() <= 1 ==> paths is Some && path_views(paths.unwrap()@) == Seq::new(
            remaining@.len(),
            |i: int| (remaining@[i]@, seq![remaining@[i]@]),
        ),
        rewards_splits(gain) && drawn_from(word_views(remaining@), word_views(word_list@))
            ==> paths is Some,
    decreases remaining@.len(),
{
    let ghost vocabulary = word_views(word_list@);
    let ghost candidates = word_views(remaining@);
    proof {
        if rewards_splits(gain) && drawn_from(candidates, vocabulary) {
            lemma_never_stalls(gain, vocabulary, candidates);
        }
    }
    let mut found: Vec<(&'a str, Vec<&'a str>)> = Vec::new();
    if remaining.len() == 0 {
        proof {
            assert(secrets_of(path_views(found@)) =~= candidates);
            assert(path_views(found@) =~= Seq::new(
                remaining@.len(),
                |i: int| (remaining@[i]@, seq![remaining@[i]@]),
            ));
        }
        return Some(found);
    }
    if remaining.len() == 1 {
        let word: &'a str = remaining[0];
        let path = lead_path(Some(word), &Vec::new());
        found.push((word, path));
        proof {
            let listed = path_views(found@);
            assert(candidates[0] == word@);
            assert(candidates =~= seq![word@]);
            assert(secrets_of(listed) =~= candidates);
            assert(listed[0].1 =~= seq![word@]);
            assert(listed =~= Seq::new(
                remaining@.len(),
                |i: int| (remaining@[i]@, seq![remaining@[i]@]),
            ));
        }
        return Some(found);
    }
    let guess: &'a str = Information::new().get_ideal_guess_from_allowed(
        remaining.as_slice(),
        word_list,
        gain,
    );
    proof {
        let at = choose|at: int| 0 <= at < vocabulary.len() && vocabulary[at] == guess@;
        assert(is_word(vocabulary[at]));
    }
    let responses = WordleResponse::all_responses();
    proof {
        assert forall|x: Seq<char>| candidates.contains(x) implies !placed_below(guess@, 0)(x) by {
            lemma_nth_response_place(score(guess@, x), 0);
        }
        lemma_filter_drops_all(candidates, placed_below(guess@, 0));
        assert(candidates.filter(placed_below(guess@, 0)) =~= Seq::<Seq<char>>::empty());
        assert(secrets_of(path_views(found@)) =~= Seq::<Seq<char>>::empty());
    }
    let mut k: usize = 0;
    while k < RESPONSE_COUNT
        invariant
            vocabulary == word_views(word_list@),
            candidates == word_views(remaining@),
            all_words(vocabulary),
            all_words(candidates),
            accepts_histograms(gain),
            remaining@.len() > 1,
            guess@.len() == WORD_LENGTH,
            is_ideal_guess(gain, candidates, vocabulary, guess@),
            rewards_splits(gain) && drawn_from(candidates, vocabulary) ==> !stalls(
                gain,
                vocabulary,
                candidates,
            ),
            responses@.len() == RESPONSE_COUNT,
            forall|j: int| 0 <= j < RESPONSE_COUNT ==> (#[trigger] responses@[j])@ == nth_response(j),
            0 <= k <= RESPONSE_COUNT,
            secrets_of(path_views(found@)).to_multiset() == candidates.filter(
                placed_below(guess@, k as int),
            ).to_multiset(),
            forall|e: int|
                0 <= e < found@.len() ==> follows_strategy(
                    gain,
                    vocabulary,
                    candidates,
                    (#[trigger] path_views(found@)[e]).0,
                    path_views(found@)[e].1,
                ),
        decreases RESPONSE_COUNT - k,
    {
        let response = responses[k];
        let ghost marks = nth_response(k as int);
        assert(response@ == marks);
        let part = words_drawing(&remaining, guess, &response);
        let ghost class = bucket(candidates, guess@, marks);
        proof {
            lemma_next_class(candidates, guess@, k as int);
            candidates.lemma_filter_len(draws(guess@, marks));
        }
        if part.len() > 0 {
            if part.len() >= remaining.len() {
                return None;
            }
            let solved = response.is_correct();
            let opening: Option<&'a str> = if solved {
                None
            } else {
                Some(guess)
            };
            match find_word_paths(word_list, part, gain) {
                None => {
                    return None;
                },
                Some(deeper) => {
                    let ghost listed = path_views(deeper@);
                    let ghost earlier = secrets_of(path_views(found@));
                    let mut m: usize = 0;
                    proof {
                        assert(secrets_of(listed).take(0) =~= Seq::<Seq<char>>::empty());
                        assert(earlier + secrets_of(listed).take(0) =~= earlier);
                    }
                    while m < deeper.len()
                        invariant
                            vocabulary == word_views(word_list@),
                            candidates == word_views(remaining@),
                            remaining@.len() > 1,
                            guess@.len() == WORD_LENGTH,
                            is_ideal_guess(gain, candidates, vocabulary, guess@),
                            0 <= k < RESPONSE_COUNT,
                            marks == nth_response(k as int),
                            class == bucket(candidates, guess@, marks),
                            class.len() < candidates.len(),
                            solved == all_correct(marks),
                            opening == (if solved {
                                None
                            } else {
                                Some(guess)
                            }),
                            listed == path_views(deeper@),
                            is_strategy(gain, vocabulary, class, listed),
                            0 <= m <= deeper@.len(),
                            secrets_of(path_views(found@)) == earlier + secrets_of(listed).take(
                                m as int,
                            ),
                            forall|e: int|
                                0 <= e < found@.len() ==> follows_strategy(
                                    gain,
                                    vocabulary,
                                    candidates,
                                    (#[trigger] path_views(found@)[e]).0,
                                    path_views(found@)[e].1,
                                ),
                        decreases deeper@.len() - m,
                    {
                        let word: &'a str = deeper[m].0;
                        let path = lead_path(opening, &deeper[m].1);
                        let ghost before = path_views(found@);
                        found.push((word, path));
                        proof {
                            let after = path_views(found@);
                            let entry = listed[m as int];
                            assert(entry.0 == word@);
                            assert(entry.1 == word_views(deeper@[m as int].1@));
                            assert(after =~= before.push((word@, word_views(path@))));
                            assert(secrets_of(after) =~= secrets_of(before).push(word@));
                            assert(secrets_of(listed).take(m + 1) =~= secrets_of(listed).take(
                                m as int,
                            ).push(word@));
                            assert(earlier + secrets_of(listed).take(m + 1) =~= (earlier
                                + secrets_of(listed).take(m as int)).push(word@));
                            lemma_listed_secret_in_bucket(
                                secrets_of(listed),
                                candidates,
                                guess@,
                                marks,
                                m as int,
                            );
                            assert(secrets_of(listed)[m as int] == word@);
                            assert(score(guess@, word@) == marks);
                            assert(follows_strategy(gain, vocabulary, class, entry.0, entry.1));
                            if !solved {
                                assert(word_views(path@)[0] == guess@);
                                assert(word_views(path@).drop_first() =~= entry.1);
                            }
                            assert(follows_strategy(
                                gain,
                                vocabulary,
                                candidates,
                                word@,
                                word_views(path@),
                            ));
                            assert forall|e: int| 0 <= e < found@.len() implies follows_strategy(
                                gain,
                                vocabulary,
                                candidates,
                                (#[trigger] after[e]).0,
                                after[e].1,
                            ) by {
                                if e < before.len() {
                                    assert(after[e] == before[e]);
                                }
                            }
                        }
                        m += 1;
                    }
                    proof {
                        assert(secrets_of(listed).take(deeper@.len() as int) =~= secrets_of(listed));
                        lemma_multiset_commutative(earlier, secrets_of(listed));
                    }
                },
            }
        } else {
            proof {
                assert(class =~= Seq::<Seq<char>>::empty());
                assert(class.to_multiset() =~= Seq::<Seq<char>>::empty().to_multiset());
                lemma_multiset_commutative(
                    candidates.filter(placed_below(guess@, k as int)),
                    Seq::<Seq<char>>::empty(),
                );
                assert(candidates.filter(placed_below(guess@, k as int)) + Seq::<
                    Seq<char>,
                >::empty() =~= candidates.filter(placed_below(guess@, k as int)));
            }
        }
        k += 1;
    }
    proof {
        assert forall|x: Seq<char>| candidates.contains(x) implies placed_below(
            guess@,
            RESPONSE_COUNT as int,
        )(x) by {
            lemma_nth_response_place(score(guess@, x), 0);
        }
        lemma_filter_keeps_all(candidates, placed_below(guess@, RESPONSE_COUNT as int));
    }
    Some(found)
}

} // verus!
