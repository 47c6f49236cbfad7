use similarity::calculate_distance;
use similarity::calculate_similarity;
use similarity::find_best_match;
use similarity::find_matches;
use similarity::is_similar;
use similarity::levenshtein_distance;
use similarity::similarity_score;
use similarity::Score;

fn as_f64(s: Score) -> f64 {
    s.num as f64 / s.den as f64
}

#[test]
fn test_levenshtein_distance() {
    assert_eq!(levenshtein_distance("kitten", "sitting"), 3);
    assert_eq!(levenshtein_distance("", "test"), 4);
    assert_eq!(levenshtein_distance("test", ""), 4);
    assert_eq!(levenshtein_distance("same", "same"), 0);
}

#[test]
fn test_similarity_score() {
    assert_eq!(as_f64(similarity_score("same", "same")), 1.0);
    assert!(as_f64(similarity_score("test", "tost")) > 0.7);
    assert!(as_f64(similarity_score("hello", "world")) < 0.5);
}

#[test]
fn test_is_similar() {
    assert!(is_similar("hello", "hallo", 8, 10));
    assert!(!is_similar("hello", "world", 8, 10));
}

#[test]
fn test_distance_empty_both() {
    assert_eq!(levenshtein_distance("", ""), 0);
    assert_eq!(as_f64(similarity_score("", "")), 1.0);
}

#[test]
fn test_distance_unicode_scalars() {
    // A multi-byte character counts as a single edit unit.
    assert_eq!(levenshtein_distance("caf\u{e9}", "cafe"), 1);
    let s = similarity_score("caf\u{e9}", "cafe");
    assert_eq!(s.num, 3);
    assert_eq!(s.den, 4);
}

#[test]
fn test_distance_symmetry_concrete() {
    assert_eq!(
        levenshtein_distance("flaw", "lawn"),
        levenshtein_distance("lawn", "flaw")
    );
    assert_eq!(levenshtein_distance("flaw", "lawn"), 2);
}

#[test]
fn test_calculate_wrappers() {
    assert_eq!(calculate_distance("kitten", "sitting"), 3);
    let s = calculate_similarity("kitten", "sitting");
    assert_eq!(s.num, 4);
    assert_eq!(s.den, 7);
}

#[test]
fn test_is_similar_degenerate_thresholds() {
    // A zero threshold accepts any pair, one above one accepts none.
    assert!(is_similar("hello", "world", 0, 1));
    assert!(!is_similar("same", "same", 11, 10));
}

#[test]
fn test_find_matches_basic() {
    let words = vec![
        String::from("cat"),
        String::from("cot"),
        String::from("dog"),
    ];
    let matches = find_matches("cat", &words, 1, 2);
    assert_eq!(matches.len(), 2);
    assert_eq!(matches[0].word, "cat");
    assert_eq!(matches[0].distance, 0);
    assert_eq!(as_f64(matches[0].similarity), 1.0);
    assert_eq!(matches[1].word, "cot");
    assert_eq!(matches[1].distance, 1);
    assert_eq!(matches[1].similarity.num, 2);
    assert_eq!(matches[1].similarity.den, 3);
}

#[test]
fn test_find_matches_zero_threshold_returns_all() {
    let words = vec![
        String::from("dog"),
        String::from("cot"),
        String::from("cat"),
    ];
    let matches = find_matches("cat", &words, 0, 1);
    assert_eq!(matches.len(), 3);
    assert_eq!(matches[0].word, "cat");
    assert_eq!(matches[1].word, "cot");
    assert_eq!(matches[2].word, "dog");
}

#[test]
fn test_find_matches_high_threshold_returns_none() {
    let words = vec![String::from("cat"), String::from("cat")];
    let matches = find_matches("cat", &words, 11, 10);
    assert_eq!(matches.len(), 0);
}

#[test]
fn test_find_matches_stable_ties() {
    // "abd" and "abe" score equally; input order must be kept.
    let words = vec![
        String::from("abd"),
        String::from("abe"),
        String::from("abc"),
    ];
    let matches = find_matches("abc", &words, 0, 1);
    assert_eq!(matches.len(), 3);
    assert_eq!(matches[0].word, "abc");
    assert_eq!(matches[1].word, "abd");
    assert_eq!(matches[2].word, "abe");
}

#[test]
fn test_find_matches_empty_candidates() {
    let words: Vec<String> = vec![];
    let matches = find_matches("cat", &words, 0, 1);
    assert_eq!(matches.len(), 0);
}

#[test]
fn test_find_best_match_empty_is_none() {
    let words: Vec<String> = vec![];
    assert!(find_best_match("anything", &words).is_none());
}

#[test]
fn test_find_best_match_basic() {
    let words = vec![
        String::from("world"),
        String::from("hallo"),
        String::from("help"),
    ];
    let best = find_best_match("hello", &words).unwrap();
    assert_eq!(best.word, "hallo");
    assert_eq!(best.distance, 1);
    assert_eq!(best.similarity.num, 4);
    assert_eq!(best.similarity.den, 5);
}

#[test]
fn test_find_best_match_tie_picks_first() {
    let words = vec![String::from("abd"), String::from("abe")];
    let best = find_best_match("abc", &words).unwrap();
    assert_eq!(best.word, "abd");
}
