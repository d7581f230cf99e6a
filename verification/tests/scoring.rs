use wordle::response::RESPONSE_COUNT;
use wordle::word::{contains_word, count_letter, is_valid_word, same_text};
use wordle::{get_bin, response_counts, LetterResponse, WordleEngine, WordleResponse};

const A: LetterResponse = LetterResponse::Absent;
const M: LetterResponse = LetterResponse::Misplaced;
const C: LetterResponse = LetterResponse::Correct;

const WORDS: &[&str] = &[
    "abbey", "abbes", "babes", "bibbs", "eerie", "yabby", "kebab", "ebbed", "beech", "bobby",
    "crane", "slate", "tepee", "apple", "angle",
];

fn present_marks(guess: &str, response: &WordleResponse, letter: char) -> usize {
    guess
        .chars()
        .zip(response.0.iter())
        .filter(|(c, mark)| *c == letter && **mark != A)
        .count()
}

#[test]
fn a_word_against_itself_is_all_correct() {
    for word in WORDS {
        assert_eq!(WordleEngine::get_response(word, word), WordleResponse([C; 5]));
        assert_eq!(get_bin(word, word), 242);
    }
}

#[test]
fn words_without_repeated_letters_are_marked_letter_by_letter() {
    let plain = ["crane", "slate", "angle", "pious", "money", "fjord"];
    for secret in plain {
        for guess in plain {
            let response = WordleEngine::get_response(secret, guess);
            for (i, g) in guess.chars().enumerate() {
                let expected = if secret.chars().nth(i) == Some(g) {
                    C
                } else if secret.contains(g) {
                    M
                } else {
                    A
                };
                assert_eq!(response.0[i], expected);
            }
        }
    }
}

#[test]
fn marks_on_a_letter_never_exceed_its_count_in_the_secret() {
    for secret in WORDS {
        for guess in WORDS {
            let response = WordleEngine::get_response(secret, guess);
            for letter in 'a'..='z' {
                let in_secret = secret.matches(letter).count();
                assert!(present_marks(guess, &response, letter) <= in_secret);
            }
        }
    }
}

#[test]
fn three_guessed_letters_against_two_in_the_secret() {
    assert_eq!(
        WordleEngine::get_response("babes", "abbbx"),
        WordleResponse([M, M, C, A, A])
    );
    assert_eq!(
        WordleEngine::get_response("abbey", "bbbcd"),
        WordleResponse([A, C, C, A, A])
    );
}

#[test]
fn misplaced_marks_go_to_the_leftmost_occurrences() {
    assert_eq!(
        WordleEngine::get_response("abbey", "bibbs"),
        WordleResponse([M, A, C, A, A])
    );
    assert_eq!(
        WordleEngine::get_response("tepee", "eerie"),
        WordleResponse([M, C, A, A, C])
    );
    assert_eq!(
        WordleEngine::get_response("eerie", "tepee"),
        WordleResponse([A, C, A, M, C])
    );
}

#[test]
fn the_first_position_is_the_lowest_digit_of_the_code() {
    assert_eq!(get_bin("bibbs", "abbey"), 1 + 2 * 9);
    assert_eq!(get_bin("azzzz", "abbey"), 2);
    assert_eq!(get_bin("zzzzy", "abbey"), 2 * 81);
    assert_eq!(get_bin("yzzzz", "abbey"), 1);
    assert_eq!(get_bin("zzzzz", "abbey"), 0);
    assert_eq!(WordleResponse([M, A, C, A, A]).bin(), 19);
    assert_eq!(WordleResponse([A, A, A, A, C]).bin(), 162);
}

#[test]
fn get_bin_is_the_code_of_the_response() {
    for secret in WORDS {
        for guess in WORDS {
            assert_eq!(
                get_bin(guess, secret),
                WordleEngine::get_response(secret, guess).bin()
            );
        }
    }
}

#[test]
fn all_responses_lists_each_response_once() {
    let all: Vec<WordleResponse> = WordleResponse::all_responses();
    assert_eq!(all.len(), RESPONSE_COUNT);
    assert_eq!(all[0], WordleResponse::correct());
    assert_eq!(all[0], WordleResponse([C; 5]));
    assert_eq!(all[1], WordleResponse([C, C, C, C, M]));
    assert_eq!(all[2], WordleResponse([C, C, C, C, A]));
    assert_eq!(all[3], WordleResponse([C, C, C, M, C]));
    assert_eq!(all[81], WordleResponse([M, C, C, C, C]));
    assert_eq!(all[242], WordleResponse([A; 5]));
    let mut seen = vec![false; RESPONSE_COUNT];
    for response in &all {
        assert!(!seen[response.bin()]);
        seen[response.bin()] = true;
    }
    assert_eq!(
        LetterResponse::all_responses(),
        vec![LetterResponse::Correct, LetterResponse::Misplaced, LetterResponse::Absent]
    );
}

#[test]
fn responses_are_read_and_written_with_three_symbols() {
    let response = WordleResponse::from_symbols("?.!..");
    assert_eq!(response, Some(WordleResponse([M, A, C, A, A])));
    assert_eq!(WordleResponse([M, A, C, A, A]).to_symbols(), "?.!..");
    for response in WordleResponse::all_responses() {
        assert_eq!(
            WordleResponse::from_symbols(&response.to_symbols()),
            Some(response)
        );
    }
    assert_eq!(LetterResponse::from_symbol('!'), Some(C));
    assert_eq!(LetterResponse::from_symbol('?'), Some(M));
    assert_eq!(LetterResponse::from_symbol('.'), Some(A));
    assert_eq!(LetterResponse::from_symbol('x'), None);
    assert_eq!(A.digit(), 0);
    assert_eq!(M.digit(), 1);
    assert_eq!(C.digit(), 2);
}

#[test]
fn malformed_responses_are_rejected() {
    assert_eq!(WordleResponse::from_symbols("?.!.x"), None);
    assert_eq!(WordleResponse::from_symbols("?.!."), None);
    assert_eq!(WordleResponse::from_symbols("?.!..."), None);
    assert_eq!(WordleResponse::from_symbols(""), None);
    assert_eq!(WordleResponse::from_symbols("CCCCC"), None);
}

#[test]
fn response_predicates() {
    assert!(WordleResponse::correct().is_correct());
    assert!(!WordleResponse([C, C, C, C, M]).is_correct());
    assert!(WordleResponse([C, M, A, C, M]).same_as(&WordleResponse([C, M, A, C, M])));
    assert!(!WordleResponse([C, M, A, C, M]).same_as(&WordleResponse([C, M, A, C, A])));
}

#[test]
fn response_counts_count_each_candidate_once() {
    let candidates = ["abbey", "abbes", "babes", "bibbs", "kebab"];
    let bins = response_counts(&candidates, "abbey");
    assert_eq!(bins.len(), RESPONSE_COUNT);
    assert_eq!(bins.iter().sum::<usize>(), candidates.len());
    assert_eq!(bins[242], 1);
    for word in candidates {
        assert!(bins[get_bin("abbey", word)] >= 1);
    }
    let twice = ["crane", "crane", "slate"];
    let bins = response_counts(&twice, "crane");
    assert_eq!(bins[242], 2);
    assert_eq!(bins[get_bin("crane", "slate")], 1);
    let none: [&str; 0] = [];
    assert_eq!(response_counts(&none, "crane"), vec![0; RESPONSE_COUNT]);
}

#[test]
fn word_helpers() {
    assert!(is_valid_word("abbey"));
    assert!(!is_valid_word("abbe"));
    assert!(!is_valid_word("abbeys"));
    assert!(!is_valid_word("Abbey"));
    assert!(!is_valid_word("abb y"));
    assert!(!is_valid_word("abb\u{e9}y"));
    assert!(same_text("abbey", "abbey"));
    assert!(!same_text("abbey", "abbes"));
    assert!(!same_text("abbey", "abbe"));
    assert!(same_text("", ""));
    assert_eq!(count_letter("abbey", 'b'), 2);
    assert_eq!(count_letter("abbey", 'z'), 0);
    assert_eq!(count_letter("eerie", 'e'), 3);
    assert!(contains_word(&["crane", "slate"], "slate"));
    assert!(!contains_word(&["crane", "slate"], "plate"));
}
