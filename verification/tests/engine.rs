use wordle::{LetterResponse, WordleEngine, WordleResponse};

const A: LetterResponse = LetterResponse::Absent;
const M: LetterResponse = LetterResponse::Misplaced;
const C: LetterResponse = LetterResponse::Correct;

fn list() -> Vec<&'static str> {
    vec!["apple", "angle", "amble", "maple", "pearl"]
}

#[test]
fn a_new_engine_picks_its_secret_from_the_list() {
    for _ in 0..20 {
        let engine = WordleEngine::new(list());
        assert!(list().contains(&engine.get_solution()));
        assert!(!engine.solved());
    }
    let engine = WordleEngine::new(vec!["pearl"]);
    assert_eq!(engine.get_solution(), "pearl");
}

#[test]
fn with_answer_keeps_the_given_secret() {
    let engine = WordleEngine::with_answer(list(), "maple");
    assert_eq!(engine.get_solution(), "maple");
    assert!(!engine.solved());
    assert!(engine.can_guess("angle"));
    assert!(!engine.can_guess("zebra"));
}

#[test]
fn a_guess_outside_the_list_is_rejected_and_changes_nothing() {
    let mut engine = WordleEngine::with_answer(list(), "maple");
    assert_eq!(engine.guess("zebra"), None);
    assert_eq!(engine.guess("mapl"), None);
    assert_eq!(engine.guess(""), None);
    assert!(!engine.solved());
    assert_eq!(engine.get_solution(), "maple");
}

#[test]
fn a_legal_guess_gets_the_response_of_the_secret() {
    let mut engine = WordleEngine::with_answer(list(), "maple");
    assert_eq!(engine.guess("apple"), Some(WordleResponse([M, A, C, C, C])));
    assert!(!engine.solved());
    assert_eq!(engine.guess("pearl"), Some(WordleResponse([M, M, M, A, M])));
    assert_eq!(
        engine.guess("amble"),
        Some(WordleEngine::get_response("maple", "amble"))
    );
}

#[test]
fn guessing_the_secret_solves_the_game() {
    let mut engine = WordleEngine::with_answer(list(), "maple");
    assert_eq!(engine.guess("maple"), Some(WordleResponse([C; 5])));
    assert!(engine.solved());
}

#[test]
fn a_secret_outside_the_list_cannot_be_guessed() {
    let mut engine = WordleEngine::with_answer(vec!["crane"], "apple");
    assert!(!engine.can_guess("apple"));
    assert_eq!(engine.guess("apple"), None);
    assert!(!engine.solved());
    assert_eq!(engine.guess("crane"), Some(WordleResponse([A, A, M, A, C])));
    assert!(!engine.solved());
}

#[test]
fn matching_every_position_piecemeal_does_not_solve_the_game() {
    let mut engine = WordleEngine::with_answer(vec!["apply", "crane", "apple"], "apple");
    assert_eq!(engine.guess("apply"), Some(WordleResponse([C, C, C, C, A])));
    assert_eq!(engine.guess("crane"), Some(WordleResponse([A, A, M, A, C])));
    assert!(!engine.solved());
    assert_eq!(engine.guess("apple"), Some(WordleResponse::correct()));
    assert!(engine.solved());
}

#[test]
fn a_solved_game_stays_solved() {
    let mut engine = WordleEngine::with_answer(list(), "maple");
    assert_eq!(engine.guess("maple"), Some(WordleResponse::correct()));
    assert!(engine.solved());
    assert_eq!(engine.guess("zebra"), None);
    assert!(engine.solved());
    assert_eq!(engine.guess("apple"), Some(WordleResponse([M, A, C, C, C])));
    assert!(engine.solved());
}
