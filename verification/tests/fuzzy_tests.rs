use bund_blobstore::fulltext::{FullTextIndex, TokenizerOptions};
use bund_blobstore::fuzzy::{fuzzy_candidates, FuzzyConfig};
use bund_blobstore::phrase::{phrase_occurrences, words_near};

fn plain() -> TokenizerOptions {
    TokenizerOptions {
        min_token_length: 1,
        max_token_length: 100,
        stop_words: Vec::new(),
        stem_words: false,
        case_sensitive: false,
    }
}

fn index() -> FullTextIndex {
    let mut idx = FullTextIndex::new(plain());
    idx.index_document("d1", "hello world");
    idx.index_document("d2", "help");
    idx.index_document("d3", "yellow");
    idx
}

fn triples(idx: &FullTextIndex, q: &str, c: &FuzzyConfig) -> Vec<(String, String, usize)> {
    fuzzy_candidates(idx, q, c).into_iter().map(|x| (x.key, x.term, x.distance)).collect()
}

#[test]
fn fuzzy_default_needs_prefix() {
    let idx = index();
    let c = FuzzyConfig::default();
    assert_eq!(
        triples(&idx, "hello", &c),
        vec![("d1".to_string(), "hello".to_string(), 0), ("d2".to_string(), "help".to_string(), 2)]
    );
}

#[test]
fn fuzzy_without_prefix() {
    let idx = index();
    let mut c = FuzzyConfig::default();
    c.prefix_length = 0;
    let t = triples(&idx, "hello", &c);
    assert_eq!(t.len(), 3);
    assert_eq!(t[2], ("d3".to_string(), "yellow".to_string(), 2));
}

#[test]
fn fuzzy_damerau_counts_swaps_once() {
    let idx = index();
    let mut c = FuzzyConfig::default();
    c.prefix_length = 0;
    c.max_distance = 1;
    assert!(triples(&idx, "hlelo", &c).is_empty());
    c.use_damerau = true;
    assert_eq!(triples(&idx, "hlelo", &c), vec![("d1".to_string(), "hello".to_string(), 1)]);
}

#[test]
fn fuzzy_no_match() {
    let idx = index();
    assert!(triples(&idx, "zzzzzzzz", &FuzzyConfig::default()).is_empty());
}

#[test]
fn phrase_counts() {
    assert_eq!(phrase_occurrences("The cat and the Cat", "the cat", false), 2);
    assert_eq!(phrase_occurrences("The cat and the Cat", "the cat", true), 0);
    assert_eq!(phrase_occurrences("aaaa", "aa", true), 2);
    assert_eq!(phrase_occurrences("abc", "", true), 4);
    assert_eq!(phrase_occurrences("abc", "abcd", true), 0);
}

#[test]
fn proximity() {
    let text = "the quick brown fox jumps over the lazy dog";
    assert!(words_near(text, "quick", "fox", 2));
    assert!(!words_near(text, "quick", "dog", 5));
    assert!(words_near(text, "DOG", "Quick", 7));
    assert!(!words_near(text, "cat", "dog", 10));
}
