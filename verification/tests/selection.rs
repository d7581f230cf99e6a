use wordle::{score_guesses, select, Information, ScoredGuess, WordleEngine};

/// The entropy, in bits, of the split with the given class sizes.
fn entropy(bins: &Vec<usize>) -> f64 {
    let total = bins.iter().sum::<usize>() as f64;
    let start = total.log2();
    bins.iter()
        .filter(|&&count| count != 0)
        .map(|&count| {
            let count = count as f64;
            (start - count.log2()) * count / total
        })
        .sum()
}

/// The entropy as a key: the bits of a float that is not negative order as the float does.
fn entropy_key(bins: &Vec<usize>) -> u64 {
    let bits = entropy(bins);
    if bits > 0.0 {
        bits.to_bits()
    } else {
        0
    }
}

fn scored(word: &str, gain: u64, possible: bool) -> ScoredGuess<'_> {
    ScoredGuess { word, gain, possible }
}

#[test]
fn the_highest_key_is_selected() {
    let list = [scored("a", 3, true), scored("b", 7, false), scored("c", 5, true)];
    assert_eq!(select(&list), 1);
    assert_eq!(select(&[scored("a", 0, false)]), 0);
}

#[test]
fn among_equal_keys_a_candidate_is_selected() {
    let list = [scored("a", 7, false), scored("b", 7, true), scored("c", 7, false)];
    assert_eq!(select(&list), 1);
    let list = [scored("a", 7, true), scored("b", 6, true), scored("c", 7, false)];
    assert_eq!(select(&list), 0);
}

#[test]
fn among_equal_ratings_the_last_is_selected() {
    let list = [scored("a", 7, true), scored("b", 7, true), scored("c", 2, true)];
    assert_eq!(select(&list), 1);
    let list = [scored("a", 7, false), scored("b", 7, false), scored("c", 7, false)];
    assert_eq!(select(&list), 2);
}

#[test]
fn guesses_are_scored_in_the_order_of_the_vocabulary() {
    let candidates = ["aaaaa", "bbbbb", "ccccc", "ddddd"];
    let vocabulary = ["abcxx", "aaaaa", "zzzzz"];
    let scored = score_guesses(&candidates, &vocabulary, &entropy_key);
    assert_eq!(scored.len(), 3);
    assert_eq!(scored[0].word, "abcxx");
    assert_eq!(scored[1].word, "aaaaa");
    assert_eq!(scored[2].word, "zzzzz");
    assert_eq!(f64::from_bits(scored[0].gain), 2.0);
    assert_eq!(scored[2].gain, 0);
    assert!(scored[1].gain > 0 && scored[1].gain < scored[0].gain);
    assert!(!scored[0].possible);
    assert!(scored[1].possible);
    assert!(!scored[2].possible);
}

#[test]
fn four_singleton_classes_are_worth_two_bits() {
    let info = Information::new();
    let candidates = ["aaaaa", "bbbbb", "ccccc", "ddddd"];
    let key = info.evaluate_guess(&candidates, "abcxx", &entropy_key);
    assert_eq!(f64::from_bits(key), 2.0);
    let key = info.evaluate_guess_from_allowed(&candidates[..2], "abcxx", &entropy_key);
    assert_eq!(f64::from_bits(key), 1.0);
    let key = info.evaluate_guess_from_allowed(&candidates, "zzzzz", &entropy_key);
    assert_eq!(key, 0);
}

#[test]
fn a_single_candidate_is_worth_nothing() {
    let info = Information::new();
    for guess in ["aaaaa", "abcxx", "zzzzz", "crane"] {
        assert_eq!(info.evaluate_guess_from_allowed(&["aaaaa"], guess, &entropy_key), 0);
        assert_eq!(info.evaluate_guess(&["crane"], guess, &entropy_key), 0);
    }
}

#[test]
fn evaluate_guess_counts_only_the_allowed_words() {
    let mut info = Information::new();
    let words = ["aaaaa", "bbbbb", "ccccc", "ddddd"];
    info.update("ddddd", WordleEngine::get_response("aaaaa", "ddddd"));
    info.update("ccccc", WordleEngine::get_response("aaaaa", "ccccc"));
    let key = info.evaluate_guess(&words, "abcxx", &entropy_key);
    assert_eq!(f64::from_bits(key), 1.0);
}

#[test]
fn the_gain_lies_between_zero_and_the_bits_of_the_candidates() {
    let words = [
        "abbey", "abbes", "babes", "bibbs", "eerie", "yabby", "kebab", "ebbed", "beech", "bobby",
        "crane", "slate", "tepee", "apple", "angle",
    ];
    let info = Information::new();
    for size in 1..=words.len() {
        let candidates = &words[..size];
        let bound = (size as f64).log2();
        for guess in words {
            let key = info.evaluate_guess_from_allowed(candidates, guess, &entropy_key);
            let gain = f64::from_bits(key);
            assert!(gain >= 0.0);
            assert!(gain <= bound + 1e-12);
            if size == 1 {
                assert_eq!(gain, 0.0);
            }
        }
    }
}

#[test]
fn a_more_informative_guess_beats_a_candidate() {
    let info = Information::new();
    let candidates = ["aaaaa", "bbbbb", "ccccc"];
    let vocabulary = ["aaaaa", "abcxx", "bbbbb"];
    assert_eq!(
        info.get_ideal_guess_from_allowed(&candidates, &vocabulary, &entropy_key),
        "abcxx"
    );
}

#[test]
fn among_equally_informative_guesses_the_last_candidate_is_ideal() {
    let info = Information::new();
    let candidates = ["crane", "crank"];
    assert_eq!(
        info.get_ideal_guess_from_allowed(&candidates, &["crane", "crank", "kkkkk"], &entropy_key),
        "crank"
    );
    assert_eq!(
        info.get_ideal_guess_from_allowed(&candidates, &["crank", "kkkkk", "crane"], &entropy_key),
        "crane"
    );
    assert_eq!(
        info.get_ideal_guess_from_allowed(&candidates, &["kkkkk", "eeeee"], &entropy_key),
        "eeeee"
    );
    assert_eq!(
        info.get_ideal_guess_from_allowed(&candidates, &["kkkkk", "nnnnn"], &entropy_key),
        "kkkkk"
    );
}

#[test]
fn the_ideal_guess_is_rated_against_the_allowed_words() {
    let words = ["aaaaa", "bbbbb", "ccccc", "abcxx"];
    let mut info = Information::new();
    assert_eq!(info.get_ideal_guess(&words, &entropy_key), "abcxx");
    info.update("abcxx", WordleEngine::get_response("bbbbb", "abcxx"));
    assert_eq!(info.allowed_words(&words), vec!["bbbbb"]);
    assert_eq!(info.get_ideal_guess(&words, &entropy_key), "bbbbb");
}

#[test]
fn selection_can_be_repeated() {
    let words = [
        "abbey", "abbes", "babes", "bibbs", "eerie", "yabby", "kebab", "ebbed", "beech", "bobby",
    ];
    let mut info = Information::new();
    info.update("kebab", WordleEngine::get_response("abbey", "kebab"));
    let first = info.get_ideal_guess(&words, &entropy_key);
    let second = info.get_ideal_guess(&words, &entropy_key);
    assert_eq!(first, second);
    let allowed = info.allowed_words(&words);
    let third = info.get_ideal_guess_from_allowed(&allowed, &words, &entropy_key);
    assert_eq!(first, third);
}

#[test]
fn the_top_guesses_come_best_first() {
    let info = Information::new();
    let candidates = ["aaaaa", "bbbbb", "ccccc", "ddddd"];
    let guesses = ["zzzzz", "aaaaa", "abcxx", "abxxx"];
    let top = info.top_n_guesses(&guesses, &candidates, 3, &entropy_key);
    let words: Vec<&str> = top.iter().map(|(word, _)| *word).collect();
    assert_eq!(words, vec!["abcxx", "abxxx", "aaaaa"]);
    assert_eq!(f64::from_bits(top[0].1), 2.0);
    assert_eq!(f64::from_bits(top[1].1), 1.5);
    let all = info.top_n_guesses(&guesses, &candidates, 10, &entropy_key);
    assert_eq!(all.len(), 4);
    assert_eq!(all[3], ("zzzzz", 0));
    assert!(info
        .top_n_guesses(&guesses, &candidates, 0, &entropy_key)
        .is_empty());
}

#[test]
fn among_the_top_guesses_a_candidate_comes_before_its_equal() {
    let info = Information::new();
    let candidates = ["crane", "crank"];
    let guesses = ["kkkkk", "crane", "zzzzz"];
    let top = info.top_n_guesses(&guesses, &candidates, 3, &entropy_key);
    let words: Vec<&str> = top.iter().map(|(word, _)| *word).collect();
    assert_eq!(words, vec!["crane", "kkkkk", "zzzzz"]);
}
