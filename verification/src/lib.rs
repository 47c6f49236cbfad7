//! Approximate string matching based on edit distance.
//!
//! The crate computes the Levenshtein distance between two strings
//! (the minimum number of single-character insertions, deletions and
//! substitutions turning one into the other), derives from it an exact
//! rational similarity score in `[0, 1]`, and ranks lists of candidate
//! strings against a query by that score.

pub mod distance;
pub mod matching;
pub mod scoring;

pub use distance::calculate_distance;
pub use distance::levenshtein_distance;
pub use matching::find_best_match;
pub use matching::find_matches;
pub use matching::MatchResult;
pub use scoring::calculate_similarity;
pub use scoring::is_similar;
pub use scoring::similarity_score;
pub use scoring::Score;
