use wordle::{
    evaluate_words, find_word_paths, get_num_tries, Information, Tally, WordleEngine,
};

/// The entropy, in bits, of the split with the given class sizes, as a key.
fn entropy_key(bins: &Vec<usize>) -> u64 {
    let total = bins.iter().sum::<usize>() as f64;
    let start = total.log2();
    let bits: f64 = bins
        .iter()
        .filter(|&&count| count != 0)
        .map(|&count| {
            let count = count as f64;
            (start - count.log2()) * count / total
        })
        .sum();
    if bits > 0.0 {
        bits.to_bits()
    } else {
        0
    }
}

/// A measure that likes the guess best that tells the least.
fn largest_class(bins: &Vec<usize>) -> u64 {
    bins.iter().copied().max().unwrap_or(0) as u64
}

const WORDS: &[&str] = &[
    "apple", "angle", "amble", "ample", "maple", "pearl", "lemon", "melon", "abbey", "babes",
    "eerie", "tepee", "crane", "crank", "slate",
];

#[test]
fn no_candidate_and_one_candidate_need_no_guess() {
    assert_eq!(find_word_paths(WORDS, vec![], &entropy_key), Some(vec![]));
    assert_eq!(
        find_word_paths(WORDS, vec!["lemon"], &entropy_key),
        Some(vec![("lemon", vec!["lemon"])])
    );
}

#[test]
fn at_most_one_candidate_needs_no_vocabulary() {
    let none: [&str; 0] = [];
    assert_eq!(find_word_paths(&none, vec![], &entropy_key), Some(vec![]));
    assert_eq!(
        find_word_paths(&none, vec!["lemon"], &entropy_key),
        Some(vec![("lemon", vec!["lemon"])])
    );
}

#[test]
fn two_candidates_are_told_apart_by_the_later_one() {
    let words = ["aaaaa", "bbbbb"];
    assert_eq!(
        find_word_paths(&words, words.to_vec(), &entropy_key),
        Some(vec![
            ("bbbbb", vec!["bbbbb"]),
            ("aaaaa", vec!["bbbbb", "aaaaa"]),
        ])
    );
}

#[test]
fn a_guess_outside_the_candidates_opens_every_path() {
    let vocabulary = ["aaaaa", "bbbbb", "ccccc", "abcxx"];
    let remaining = vec!["aaaaa", "bbbbb", "ccccc"];
    assert_eq!(
        find_word_paths(&vocabulary, remaining, &entropy_key),
        Some(vec![
            ("aaaaa", vec!["abcxx", "aaaaa"]),
            ("bbbbb", vec!["abcxx", "bbbbb"]),
            ("ccccc", vec!["abcxx", "ccccc"]),
        ])
    );
}

#[test]
fn every_candidate_gets_one_path_that_leads_to_it() {
    let paths = find_word_paths(WORDS, WORDS.to_vec(), &entropy_key).expect("a strategy");
    assert_eq!(paths.len(), WORDS.len());
    for word in WORDS {
        assert_eq!(paths.iter().filter(|(secret, _)| secret == word).count(), 1);
    }
    for (secret, path) in &paths {
        assert_eq!(path.last(), Some(secret));
        let mut left: Vec<&str> = WORDS.to_vec();
        for guess in &path[..path.len() - 1] {
            assert!(WORDS.contains(guess));
            assert_ne!(guess, secret);
            let response = WordleEngine::get_response(secret, guess);
            let fewer: Vec<&str> = left
                .iter()
                .copied()
                .filter(|word| WordleEngine::get_response(word, guess) == response)
                .collect();
            assert!(fewer.len() < left.len());
            left = fewer;
        }
        assert!(left.contains(secret));
    }
    let first = paths[0].1[0];
    for (secret, path) in &paths {
        assert!(path[0] == first || (path.len() == 1 && *secret == first));
    }
}

#[test]
fn a_vocabulary_that_cannot_tell_the_candidates_apart_gives_no_strategy() {
    assert_eq!(
        find_word_paths(&["aaaaa"], vec!["bbbbb", "ccccc"], &entropy_key),
        None
    );
    assert_eq!(
        find_word_paths(&["bbbbb"], vec!["bbbbb", "ccccc", "ddddd"], &entropy_key),
        None
    );
}

#[test]
fn the_only_word_takes_one_guess() {
    let engine = WordleEngine::with_answer(vec!["lemon"], "lemon");
    assert_eq!(get_num_tries(engine, &["lemon"], &entropy_key), Some(1));
}

#[test]
fn a_secret_that_is_guessed_needs_no_confirming_turn() {
    let words = ["aaaaa", "bbbbb"];
    let engine = WordleEngine::with_answer(words.to_vec(), "bbbbb");
    assert_eq!(get_num_tries(engine, &words, &entropy_key), Some(1));
    let engine = WordleEngine::with_answer(words.to_vec(), "aaaaa");
    assert_eq!(get_num_tries(engine, &words, &entropy_key), Some(2));
}

#[test]
fn a_secret_found_by_elimination_is_charged_its_own_turn() {
    let words = ["aaaaa", "bbbbb", "ccccc", "abcxx"];
    for secret in ["aaaaa", "bbbbb", "ccccc"] {
        let engine = WordleEngine::with_answer(words.to_vec(), secret);
        assert_eq!(get_num_tries(engine, &words, &entropy_key), Some(2));
    }
    let engine = WordleEngine::with_answer(words.to_vec(), "abcxx");
    assert_eq!(get_num_tries(engine, &words, &entropy_key), Some(1));
}

#[test]
fn solving_for_apple_ends_with_apple_alone() {
    let engine = WordleEngine::with_answer(WORDS.to_vec(), "apple");
    let tries = get_num_tries(engine, WORDS, &entropy_key).expect("a count");
    assert!(tries >= 1);
    assert!(tries <= WORDS.len());

    let mut engine = WordleEngine::with_answer(WORDS.to_vec(), "apple");
    let mut info = Information::new();
    let mut allowed: Vec<&str> = WORDS.to_vec();
    let mut turns = 0;
    let mut last = "";
    while allowed.len() > 1 {
        let guess = info.get_ideal_guess_from_allowed(&allowed, WORDS, &entropy_key);
        let response = engine.guess(guess).expect("a legal guess");
        info.update(guess, response);
        allowed = info.allowed_words(&allowed);
        assert!(!allowed.is_empty());
        turns += 1;
        last = guess;
    }
    assert_eq!(allowed, vec!["apple"]);
    assert_eq!(tries, if last == "apple" { turns } else { turns + 1 });
}

#[test]
fn every_secret_of_the_list_is_found() {
    for secret in WORDS {
        let engine = WordleEngine::with_answer(WORDS.to_vec(), secret);
        let tries = get_num_tries(engine, WORDS, &entropy_key).expect("a count");
        assert!(tries >= 1 && tries <= WORDS.len());
    }
}

#[test]
fn the_count_agrees_with_the_strategy() {
    let paths = find_word_paths(WORDS, WORDS.to_vec(), &entropy_key).expect("a strategy");
    for (secret, path) in paths {
        let engine = WordleEngine::with_answer(WORDS.to_vec(), secret);
        assert_eq!(get_num_tries(engine, WORDS, &entropy_key), Some(path.len()));
    }
}

#[test]
fn a_solver_that_learns_nothing_gets_stuck() {
    let words = ["abcde", "abcdf", "zzzzz"];
    let engine = WordleEngine::with_answer(words.to_vec(), "abcde");
    assert_eq!(get_num_tries(engine, &words, &largest_class), None);
}

#[test]
fn games_are_tallied_by_their_count() {
    let words: Vec<&'static str> = vec!["aaaaa", "bbbbb", "ccccc", "abcxx"];
    let tally = evaluate_words(&words, &words, &entropy_key);
    assert_eq!(tally.count(0), 0);
    assert_eq!(tally.count(1), 1);
    assert_eq!(tally.count(2), 3);
    assert_eq!(tally.count(3), 0);
    assert_eq!(tally.words(1), vec!["abcxx"]);
    assert_eq!(tally.words(2), vec!["aaaaa", "bbbbb", "ccccc"]);
    assert!(tally.words(7).is_empty());
    let mut counts = tally.counts();
    counts.sort_unstable();
    assert_eq!(counts, vec![1, 2]);
    assert!(tally.stuck_words().is_empty());
}

#[test]
fn stuck_games_are_tallied_apart() {
    let words: Vec<&'static str> = vec!["abcde", "abcdf", "zzzzz"];
    let tally = evaluate_words(&words, &words, &largest_class);
    assert_eq!(tally.stuck_words(), &vec!["abcde", "abcdf"]);
    assert_eq!(tally.count(1), 1);
    assert_eq!(tally.words(1), vec!["zzzzz"]);
}

#[test]
fn a_tally_records_and_merges() {
    let mut first = Tally::new();
    assert!(first.counts().is_empty());
    first.record(Some(3), "crane");
    first.record(Some(1), "slate");
    first.record(None, "eerie");
    first.record(Some(3), "crank");
    assert_eq!(first.count(3), 2);
    assert_eq!(first.words(3), vec!["crane", "crank"]);
    assert_eq!(first.count(2), 0);
    assert_eq!(first.counts(), vec![3, 1]);
    let mut stuck_only = Tally::new();
    stuck_only.record(None, "eerie");
    assert!(stuck_only.counts().is_empty());
    let mut far = Tally::new();
    far.record(Some(usize::MAX), "crane");
    assert_eq!(far.count(usize::MAX), 1);
    assert_eq!(far.counts(), vec![usize::MAX]);

    let mut second = Tally::new();
    second.record(Some(5), "tepee");
    second.record(Some(3), "apple");
    second.record(None, "abbey");

    let mut one = Tally::new();
    one.merge(&first);
    one.merge(&second);
    let mut other = Tally::new();
    other.merge(&second);
    other.merge(&first);
    for tries in 0..7 {
        let mut a = one.words(tries);
        let mut b = other.words(tries);
        a.sort_unstable();
        b.sort_unstable();
        assert_eq!(a, b);
        assert_eq!(one.count(tries), first.count(tries) + second.count(tries));
    }
    assert_eq!(one.counts(), vec![3, 1, 5]);
    assert_eq!(other.counts(), vec![5, 3, 1]);
    assert_eq!(one.words(3), vec!["crane", "crank", "apple"]);
    assert_eq!(one.words(5), vec!["tepee"]);
    assert_eq!(one.stuck_words(), &vec!["eerie", "abbey"]);
    assert_eq!(other.stuck_words(), &vec!["abbey", "eerie"]);
}
