//! A Wordle engine and an information-theoretic solver for it.
//!
//! The crate scores guesses against a secret word, accumulates what the
//! responses reveal about the secret, ranks candidate guesses by how evenly
//! they split the words that are still possible, and drives whole games and
//! complete decision trees from those pieces.
//!
//! How informative a split is, is measured by a function that the caller
//! supplies: it maps the sizes of the response classes to an integer key,
//! a higher key for a better split. The solver is proved correct for every
//! such function.

pub mod word;
pub mod filters;
pub mod response;
pub mod scoring;
pub mod engine;
pub mod knowledge;
pub mod scorer;
pub mod selector;
pub mod ranking;
pub mod tree;
pub mod batch;
pub mod tally;

pub use batch::{evaluate_words, get_num_tries};
pub use engine::WordleEngine;
pub use knowledge::Information;
pub use response::{LetterResponse, WordleResponse};
pub use scorer::{get_bin, response_counts};
pub use selector::{score_guesses, select, ScoredGuess};
pub use tally::Tally;
pub use tree::find_word_paths;
