use bund_blobstore::glob::matches_pattern;
use bund_blobstore::similarity::{dice_counts, ngram_counts, SorensenDice};
use bund_blobstore::text::{common_prefix_length, i64_to_string, levenshtein_distance, str_starts_with};

#[test]
fn levenshtein_classic_examples() {
    assert_eq!(levenshtein_distance("kitten", "sitting"), 3);
    assert_eq!(levenshtein_distance("flaw", "lawn"), 2);
    assert_eq!(levenshtein_distance("", "abc"), 3);
    assert_eq!(levenshtein_distance("abc", ""), 3);
    assert_eq!(levenshtein_distance("same", "same"), 0);
    assert_eq!(levenshtein_distance("héllo", "hello"), 1);
}

#[test]
fn levenshtein_is_symmetric_on_samples() {
    let pairs = [("book", "back"), ("sunday", "saturday"), ("a", "b"), ("", "")];
    for (a, b) in pairs {
        assert_eq!(levenshtein_distance(a, b), levenshtein_distance(b, a));
    }
    assert_eq!(levenshtein_distance("sunday", "saturday"), 3);
}

#[test]
fn glob_patterns() {
    assert!(matches_pattern("anything", "*"));
    assert!(matches_pattern("", "*"));
    assert!(matches_pattern("user:42", "user:*"));
    assert!(!matches_pattern("admin:42", "user:*"));
    assert!(matches_pattern("report.txt", "*.txt"));
    assert!(!matches_pattern("report.txt.bak", "*.txt"));
    assert!(matches_pattern("a-b-c", "a*b*c"));
    assert!(!matches_pattern("a-c-b", "a*b*c"));
    assert!(matches_pattern("exact", "exact"));
    assert!(!matches_pattern("exact1", "exact"));
    assert!(!matches_pattern("a", "a*a"));
    assert!(matches_pattern("aa", "a*a"));
    assert!(matches_pattern("xyzabc", "**abc"));
}

#[test]
fn prefix_helpers() {
    assert!(str_starts_with("prefix_key", "prefix"));
    assert!(!str_starts_with("pre", "prefix"));
    assert_eq!(common_prefix_length("martha", "marhta"), 3);
    assert_eq!(common_prefix_length("", "x"), 0);
    assert_eq!(common_prefix_length("same", "same"), 4);
}

#[test]
fn decimal_formatting() {
    assert_eq!(i64_to_string(0), "0");
    assert_eq!(i64_to_string(-42), "-42");
    assert_eq!(i64_to_string(i64::MIN), i64::MIN.to_string());
    assert_eq!(i64_to_string(i64::MAX), i64::MAX.to_string());
}

#[test]
fn bigrams_are_distinct_adjacent_pairs() {
    let mut b = SorensenDice::get_bigrams("night");
    b.sort();
    assert_eq!(b, vec!["gh", "ht", "ig", "ni"]);
    let mut r = SorensenDice::get_bigrams("aaaa");
    r.sort();
    assert_eq!(r, vec!["aa"]);
    assert!(SorensenDice::get_bigrams("a").is_empty());
}

#[test]
fn dice_terms() {
    // "night" and "nacht" share only "ht".
    assert_eq!(dice_counts("night", "nacht"), (1, 8));
    assert_eq!(dice_counts("", ""), (0, 0));
}

#[test]
fn ngram_terms() {
    assert_eq!(ngram_counts("abcd", "bcde", 3), (1, 3));
    assert_eq!(ngram_counts("ab", "ab", 3), (0, 0));
    assert_eq!(ngram_counts("user_1", "user_2", 2), (4, 6));
}
