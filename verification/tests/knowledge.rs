use wordle::{get_bin, Information, LetterResponse, WordleEngine, WordleResponse};

const WORD_LIST: &[&str] = &["aegis", "favor", "wired", "weird"];

fn marks(text: &str) -> WordleResponse {
    WordleResponse::from_symbols(text).expect("a written response")
}

/// Tests that no information means all words allowed
#[test]
fn test_allow_default() {
    let word_list: Vec<String> = WORD_LIST.iter().cloned().map(str::to_string).collect();
    let info = Information::new();
    for word in &word_list {
        assert!(info.allows(word));
    }
}

#[test]
fn test_binning() {
    assert_eq!(get_bin("abbey", "abbey"), 242);
}

#[test]
fn test_duplicate_letters() {
    let mut info = Information::new();
    info.update(
        "bibbs",
        WordleResponse([
            LetterResponse::Misplaced,
            LetterResponse::Absent,
            LetterResponse::Correct,
            LetterResponse::Absent,
            LetterResponse::Absent,
        ]),
    );
    assert!(info.allows("abbey"));
    assert!(!info.allows("abbes"));
}

#[test]
fn default_is_fresh() {
    let info = Information::default();
    for word in WORD_LIST {
        assert!(info.allows(word));
    }
    for letter in 'a'..='z' {
        assert_eq!(info.count_bounds(letter), (0, 5));
        for position in 0..5 {
            assert!(!info.excludes(position, letter));
        }
    }
    for position in 0..5 {
        assert_eq!(info.forced_letter(position), None);
    }
}

#[test]
fn correct_mark_forces_the_letter_and_excludes_the_others() {
    let mut info = Information::new();
    info.update("crane", marks("!...."));
    assert_eq!(info.forced_letter(0), Some('c'));
    assert!(!info.excludes(0, 'c'));
    for letter in 'a'..='z' {
        if letter != 'c' {
            assert!(info.excludes(0, letter));
        }
    }
    assert!(info.allows("clump"));
    assert!(!info.allows("plump"));
}

#[test]
fn misplaced_and_absent_marks_exclude_only_their_position() {
    let mut info = Information::new();
    info.update("crane", marks(".?..."));
    assert!(info.excludes(1, 'r'));
    assert!(!info.excludes(0, 'r'));
    assert!(!info.excludes(2, 'r'));
    assert!(info.excludes(0, 'c'));
    assert!(!info.excludes(1, 'c'));
    assert_eq!(info.forced_letter(1), None);
}

#[test]
fn count_bounds_follow_the_marks() {
    let mut info = Information::new();
    info.update("bibbs", marks("?.!.."));
    assert_eq!(info.count_bounds('b'), (2, 2));
    assert_eq!(info.count_bounds('i'), (0, 0));
    assert_eq!(info.count_bounds('s'), (0, 0));
    assert_eq!(info.count_bounds('a'), (0, 5));
}

#[test]
fn count_bounds_merge_by_running_max_and_min() {
    let mut info = Information::new();
    info.update("sassy", marks("?...."));
    assert_eq!(info.count_bounds('s'), (1, 1));
    info.update("tepid", marks(".?..."));
    assert_eq!(info.count_bounds('e'), (1, 5));
    info.update("eerie", marks("?!..."));
    assert_eq!(info.count_bounds('e'), (2, 2));
    info.update("melon", marks(".?..."));
    assert_eq!(info.count_bounds('e'), (2, 2));
    assert_eq!(info.count_bounds('s'), (1, 1));
}

#[test]
fn lower_bound_without_absent_mark_leaves_the_upper_bound() {
    let mut info = Information::new();
    info.update("llama", marks("??..."));
    assert_eq!(info.count_bounds('l'), (2, 5));
    assert_eq!(info.count_bounds('a'), (0, 0));
}

#[test]
fn allowed_words_never_come_back() {
    let words = ["xfghi", "xxcde", "xbcde", "axxxx", "qqqqq"];
    let observations = [
        ("xxcde", ".?..."),
        ("xbcde", "!...."),
        ("qqqqq", "....."),
        ("axxxx", "?...."),
    ];
    let mut info = Information::new();
    let mut allowed: Vec<bool> = words.iter().map(|w| info.allows(w)).collect();
    assert_eq!(allowed, vec![true; 5]);
    for (guess, response) in observations {
        info.update(guess, marks(response));
        let now: Vec<bool> = words.iter().map(|w| info.allows(w)).collect();
        for (before, after) in allowed.iter().zip(now.iter()) {
            assert!(*before || !*after);
        }
        allowed = now;
    }
}

#[test]
fn an_exclusion_is_not_lifted_by_a_later_correct_mark() {
    let mut info = Information::new();
    info.update("xxcde", marks(".?..."));
    assert!(!info.allows("xfghi"));
    info.update("xbcde", marks("!...."));
    assert!(info.excludes(0, 'x'));
    assert_eq!(info.forced_letter(0), None);
    assert!(!info.allows("xfghi"));
}

#[test]
fn the_secret_stays_allowed() {
    let secret = "abbey";
    let mut info = Information::new();
    for guess in ["bibbs", "eerie", "babes", "yabby", "abbey"] {
        info.update(guess, WordleEngine::get_response(secret, guess));
        assert!(info.allows(secret));
    }
}

#[test]
fn a_response_allows_exactly_the_words_that_would_draw_it() {
    let words = [
        "abbey", "abbes", "babes", "bibbs", "eerie", "yabby", "kebab", "ebbed", "beech", "bobby",
    ];
    for secret in words {
        for guess in words {
            let response = WordleEngine::get_response(secret, guess);
            let mut info = Information::new();
            info.update(guess, response);
            for word in words {
                let same = WordleEngine::get_response(word, guess) == response;
                assert_eq!(info.allows(word), same);
            }
        }
    }
}

#[test]
fn allowed_words_keeps_the_order_of_the_list() {
    let mut info = Information::new();
    info.update("wired", marks("!???!"));
    let list = ["aegis", "weird", "favor", "wired", "wider"];
    assert_eq!(info.allowed_words(&list), vec!["weird"]);
    let fresh = Information::new();
    assert_eq!(fresh.allowed_words(&list), list.to_vec());
}
