use bund_blobstore::bloom::BloomFilter;
use bund_blobstore::docinfo::{analyze_code, count_words, text_lines};
use bund_blobstore::fulltext::{stem_word, tokenize, FullTextIndex, TokenizerOptions};
use bund_blobstore::ingest::{is_duplicate, mark_as_seen, note_line, record_fingerprint, record_storage_key, shard_groups, IngestionStats};
use bund_blobstore::time_bucket::{format_bucket_key, get_time_bucket_key, TimeBucketConfig, TimeBucketSize};

fn options_plain() -> TokenizerOptions {
    TokenizerOptions {
        min_token_length: 1,
        max_token_length: 100,
        stop_words: Vec::new(),
        stem_words: false,
        case_sensitive: false,
    }
}

#[test]
fn tokenizer_default_drops_stop_words_and_stems() {
    let o = TokenizerOptions::default();
    let t = tokenize(&o, "The quick brown foxes are running");
    assert_eq!(t, vec!["quick", "brown", "foxe", "runn"]);
}

#[test]
fn tokenizer_bounds_and_case() {
    let mut o = options_plain();
    o.min_token_length = 3;
    o.max_token_length = 4;
    let t = tokenize(&o, "a bb ccc dddd eeeee, CCC");
    assert_eq!(t, vec!["ccc", "dddd", "ccc"]);
    o.case_sensitive = true;
    let t2 = tokenize(&o, "Abc-abc_abc");
    assert_eq!(t2, vec!["Abc", "abc", "abc"]);
}

#[test]
fn stemming_examples() {
    assert_eq!(stem_word("Running"), "runn");
    assert_eq!(stem_word("played"), "play");
    assert_eq!(stem_word("cats"), "cat");
    assert_eq!(stem_word("is"), "is");
    assert_eq!(stem_word("sing"), "sing");
    assert_eq!(stem_word("quickly"), "quick");
    assert_eq!(stem_word("movement"), "move");
}

#[test]
fn index_search_ranks_by_count() {
    let mut idx = FullTextIndex::new(options_plain());
    idx.index_document("d1", "apple banana apple");
    idx.index_document("d2", "banana cherry");
    idx.index_document("d3", "cherry cherry cherry");
    let r = idx.search("apple banana", 10);
    assert_eq!(r.len(), 2);
    assert_eq!(r[0].key, "d1");
    assert_eq!(r[0].score, 3);
    assert_eq!(r[0].matches, vec!["apple", "banana"]);
    assert_eq!(r[1].key, "d2");
    assert_eq!(r[1].score, 1);
    assert_eq!(r[1].matches, vec!["banana"]);
    let top = idx.search("cherry", 1);
    assert_eq!(top.len(), 1);
    assert_eq!(top[0].key, "d3");
    assert_eq!(top[0].score, 3);
    assert!(idx.search("durian", 5).is_empty());
    assert!(idx.search("apple", 0).is_empty());
}

#[test]
fn index_remove_and_statistics() {
    let mut idx = FullTextIndex::new(options_plain());
    idx.index_document("d1", "apple banana");
    idx.index_document("d2", "banana");
    let s = idx.statistics();
    assert_eq!(s.total_terms, 2);
    assert_eq!(s.unique_terms, 2);
    assert_eq!(s.total_document_references, 3);
    idx.remove_document("d1");
    let s2 = idx.statistics();
    assert_eq!(s2.total_terms, 1);
    assert_eq!(s2.total_document_references, 1);
    assert!(idx.search("apple", 5).is_empty());
    let r = idx.search("banana", 5);
    assert_eq!(r.len(), 1);
    assert_eq!(r[0].key, "d2");
}

#[test]
fn index_try_and_set_posting() {
    let mut idx = FullTextIndex::new(options_plain());
    assert!(idx.try_index_document("d", "x y x"));
    let r = idx.search("x", 5);
    assert_eq!(r[0].score, 2);
    idx.set_posting("x", "d", usize::MAX);
    assert!(!idx.try_index_document("d", "x"));
    assert!(idx.try_index_document("d", "y"));
    assert_eq!(idx.tokenize_text("Hello, World"), vec!["hello", "world"]);
    assert_eq!(idx.entries().len(), 2);
}

#[test]
fn bloom_reports_inserted_items() {
    let mut f = BloomFilter::with_parameters(1000, 4);
    assert!(!f.contains("alpha"));
    f.insert("alpha");
    f.insert("beta");
    assert!(f.contains("alpha"));
    assert!(f.contains("beta"));
    let empty = BloomFilter::with_parameters(0, 0);
    assert!(empty.contains("anything"));
}

#[test]
fn deduplication_follows_the_switch() {
    let mut f = BloomFilter::with_parameters(512, 3);
    let p1 = f.positions("k:s:1");
    let p2 = f.positions("k:s:2");
    assert_eq!(p1.len(), 3);
    assert!(p1.iter().all(|&p| p < 512));
    assert!(!is_duplicate(&f, true, &p1));
    mark_as_seen(&mut f, true, &p1);
    assert!(is_duplicate(&f, true, &p1));
    assert!(f.contains("k:s:1"));
    assert!(!is_duplicate(&f, false, &p1));
    mark_as_seen(&mut f, false, &p2);
    assert!(!f.contains("k:s:2"));
    assert_eq!(f.positions("k:s:1"), p1);
}

#[test]
fn ingestion_keys_and_stats() {
    assert_eq!(record_fingerprint("cpu", "host1", "42"), "cpu:host1:42");
    assert_eq!(record_storage_key("nginx", "req", -5), "nginx:req:-5");
    let mut s = IngestionStats::default();
    s.total_lines_read = 10;
    let mut b = IngestionStats::default();
    b.batches_processed = 1;
    b.total_records_stored = 7;
    b.duplicates_filtered = 2;
    b.total_lines_read = 99;
    s.add_batch(&b);
    s.add_batch(&b);
    assert_eq!(s.batches_processed, 2);
    assert_eq!(s.total_records_stored, 14);
    assert_eq!(s.duplicates_filtered, 4);
    assert_eq!(s.total_lines_read, 10);
}

#[test]
fn words_lines_and_code() {
    assert_eq!(count_words("  hello \t world\nagain  "), 3);
    assert_eq!(count_words(""), 0);
    assert_eq!(text_lines("a\r\nb\n\nc"), vec!["a", "b", "", "c"]);
    assert_eq!(text_lines("x\n"), vec!["x"]);
    let (lines, fns) = analyze_code("fn main() {\n  let x = 1;\n}\npub fn helper() -> u8 {\n");
    assert_eq!(lines, 4);
    assert_eq!(fns, vec!["main {", "pub helper -> u8 {"]);
}

#[test]
fn time_bucket_keys() {
    assert_eq!(format_bucket_key((2024, 3, 7, 13, 47, 10), TimeBucketSize::Minutes(15)), "2024-3-7_13:45");
    assert_eq!(format_bucket_key((2024, 3, 7, 13, 47, 10), TimeBucketSize::Hours(6)), "2024-3-7_12");
    assert_eq!(format_bucket_key((2024, 3, 7, 13, 47, 10), TimeBucketSize::Days(5)), "2024-3-5");
    assert_eq!(format_bucket_key((2024, 3, 7, 13, 47, 10), TimeBucketSize::Weeks(2)), "2024-W5");
    assert_eq!(format_bucket_key((2024, 3, 7, 13, 47, 10), TimeBucketSize::Months(3)), "2024-M1");
    // 2024-03-07T13:47:00Z
    let ts: i64 = 1_709_819_220 * 1_000_000_000;
    let c = TimeBucketConfig::default();
    assert_eq!(get_time_bucket_key(ts, &c), "2024-3-7_13");
    let shifted = TimeBucketConfig { bucket_size: TimeBucketSize::Hours(1), timezone_offset: 12, align_to_bucket: true };
    assert_eq!(get_time_bucket_key(ts, &shifted), "2024-3-8_1");
}

#[test]
fn lines_are_counted_and_batches_flushed() {
    let mut stats = IngestionStats::default();
    assert!(!note_line(&mut stats, true, 1, 2));
    assert!(!note_line(&mut stats, false, 1, 2));
    assert!(note_line(&mut stats, true, 2, 2));
    assert_eq!(stats.total_lines_read, 3);
    assert_eq!(stats.total_records_parsed, 2);
    assert_eq!(stats.failed_parses, 1);
    assert!(note_line(&mut stats, false, 0, 0));
}

#[test]
fn records_are_grouped_by_shard_interval() {
    let ts = vec![3600, 7300, 100, 3700, -5, -3601];
    let mut groups = shard_groups(&ts, 3600, true);
    groups.sort();
    assert_eq!(groups, vec![(-1, vec![5]), (0, vec![2, 4]), (1, vec![0, 3]), (2, vec![1])]);
    assert_eq!(groups.len(), 4);
}

#[test]
fn without_auto_sharding_one_group_holds_every_record() {
    assert_eq!(shard_groups(&vec![5, 6, 7], 3600, false), vec![(0, vec![0, 1, 2])]);
    assert_eq!(shard_groups(&vec![], 3600, false), vec![(0, vec![])]);
    assert!(shard_groups(&vec![], 0, true).is_empty());
}
