use bund_blobstore::trie::FuzzyTrie;

fn trie_of(words: &[&str]) -> FuzzyTrie {
    let mut t = FuzzyTrie::new();
    for w in words {
        t.insert(w);
    }
    t
}

#[test]
fn trie_exact_search_finds_only_the_stored_term() {
    let t = trie_of(&["hello", "world"]);
    assert_eq!(t.search("hello", 0), vec![("hello".to_string(), 0)]);
    assert!(t.search("help", 0).is_empty());
    assert!(t.search("", 0).is_empty());
}

#[test]
fn trie_search_within_one_edit() {
    let t = trie_of(&["hello", "world"]);
    let r = t.search("helo", 1);
    assert!(r.contains(&("hello".to_string(), 1)));
    assert!(r.iter().all(|(w, d)| w == "hello" && *d <= 1));
    assert!(t.search("wrld", 1).contains(&("world".to_string(), 1)));
    assert!(t.search("hlelo", 1).contains(&("hello".to_string(), 1)));
}

#[test]
fn trie_stored_query_comes_first_at_distance_zero() {
    let t = trie_of(&["hell", "hello", "help"]);
    let r = t.search("help", 2);
    assert_eq!(r[0], ("help".to_string(), 0));
    assert!(r.contains(&("hell".to_string(), 1)));
    for i in 1..r.len() {
        assert!(r[i - 1].1 <= r[i].1);
    }
    assert!(r.iter().all(|(_, d)| *d <= 2));
}

#[test]
fn trie_inserting_again_changes_no_result() {
    let once = trie_of(&["cat", "cart", "care"]);
    let twice = trie_of(&["cat", "cart", "care", "cart", "cat"]);
    for q in ["cat", "car", "cart", "crat", "dog", ""] {
        for d in 0..3 {
            assert_eq!(once.search(q, d), twice.search(q, d));
        }
    }
}

#[test]
fn trie_large_distance_bound_is_accepted() {
    let t = trie_of(&["ab"]);
    let r = t.search("ab", usize::MAX);
    assert_eq!(r[0], ("ab".to_string(), 0));
    assert!(r.iter().all(|(w, _)| w == "ab"));
}

#[test]
fn trie_finds_terms_within_substitutions() {
    let t = trie_of(&["hello", "world"]);
    assert!(t.search("jello", 1).contains(&("hello".to_string(), 1)));
    assert!(t.search("hxllx", 2).contains(&("hello".to_string(), 2)));
    assert!(!t.search("hxllx", 1).iter().any(|(w, _)| w == "hello"));
    assert!(t.search("wxrld", 3).contains(&("world".to_string(), 1)));
}

#[test]
fn trie_finds_terms_within_edits_while_the_query_lasts() {
    let t = trie_of(&["hello", "abc"]);
    assert!(t.search("hllo", 1).contains(&("hello".to_string(), 1)));
    assert!(t.search("hello!", 1).contains(&("hello".to_string(), 1)));
    assert!(t.search("ehllo", 1).contains(&("hello".to_string(), 1)));
    assert!(t.search("xbc", 1).contains(&("abc".to_string(), 1)));
}

#[test]
fn trie_misses_terms_that_need_characters_after_the_query() {
    let t = trie_of(&["abc", "hello"]);
    assert!(!t.search("ab", 1).iter().any(|(w, _)| w == "abc"));
    assert!(!t.search("hell", 1).iter().any(|(w, _)| w == "hello"));
}
