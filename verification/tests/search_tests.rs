use bund_blobstore::bloom::{position_of_hash, BloomFilter};
use bund_blobstore::docsearch::{fuzzy_search_documents, match_text, split_whitespace_words};
use bund_blobstore::facets::{FacetedDocument, FacetedQuery, FacetedSearchIndex};
use bund_blobstore::ingest::{classify_record, finish_batch, record_marks, IngestionStats, RecordRole};

fn doc(key: &str, facets: &[(&str, &str)], content: Option<&str>) -> FacetedDocument {
    FacetedDocument {
        key: key.to_string(),
        facets: facets.iter().map(|(a, b)| (a.to_string(), b.to_string())).collect(),
        content: content.map(|c| c.to_string()),
        metadata: None,
    }
}

fn sample_index() -> FacetedSearchIndex {
    let mut idx = FacetedSearchIndex::new();
    idx.add_document(doc("d1", &[("color", "red"), ("size", "L")], Some("Red shirt, large")));
    idx.add_document(doc("d2", &[("color", "blue"), ("size", "L")], Some("Blue shirt")));
    idx.add_document(doc("d3", &[("color", "red"), ("size", "S")], Some("Small red hat")));
    idx
}

#[test]
fn whitespace_words_split() {
    assert_eq!(split_whitespace_words("  a bb\tccc\n d "), vec!["a", "bb", "ccc", "d"]);
    assert!(split_whitespace_words("   ").is_empty());
}

#[test]
fn text_match_contains_and_fuzzy() {
    let m = match_text("Quick", "the QUICK fox").unwrap();
    assert_eq!(m.term, "Quick");
    assert_eq!(m.distance, 0);
    let m = match_text("quack", "the quick fox").unwrap();
    assert_eq!(m.term, "quick");
    assert_eq!(m.distance, 1);
    assert!(match_text("zebra", "the quick fox").is_none());
}

#[test]
fn fuzzy_search_orders_and_limits() {
    let docs = vec![
        ("a".to_string(), "hello world".to_string()),
        ("__internal".to_string(), "hello".to_string()),
        ("b".to_string(), "help me".to_string()),
        ("telemetry:x".to_string(), "hello".to_string()),
        ("c".to_string(), "nothing here".to_string()),
    ];
    let hits = fuzzy_search_documents(&docs, "hello", 10);
    assert_eq!(hits.len(), 2);
    assert_eq!(hits[0].key, "a");
    assert_eq!(hits[0].distance, 0);
    assert_eq!(hits[1].key, "b");
    assert_eq!(hits[1].term, "help");
    assert_eq!(hits[1].distance, 2);
    let one = fuzzy_search_documents(&docs, "hello", 1);
    assert_eq!(one.len(), 1);
    assert_eq!(one[0].key, "a");
    assert!(fuzzy_search_documents(&docs, "hello", 0).is_empty());
}

fn filter_positions(f: &BloomFilter, item: &str) -> Vec<usize> {
    f.positions(item)
}

#[test]
fn classify_duplicates_primaries_and_secondaries() {
    let mut stats = IngestionStats::default();
    let mut filter = BloomFilter::with_parameters(1024, 3);
    let ps = filter_positions(&filter, "fp1");
    let r = classify_record(&mut stats, &mut filter, true, &ps, false, false, None);
    assert!(matches!(r, RecordRole::Primary));
    assert_eq!(stats.primary_records, 1);
    let ps = filter_positions(&filter, "fp1");
    let r = classify_record(&mut stats, &mut filter, true, &ps, false, false, None);
    assert!(matches!(r, RecordRole::Duplicate));
    assert_eq!(stats.duplicates_filtered, 1);
    assert_eq!(stats.primary_records, 1);
    let ps = filter_positions(&filter, "fp2");
    let r = classify_record(&mut stats, &mut filter, true, &ps, true, true, Some("p1".to_string()));
    match r {
        RecordRole::Secondary(id) => assert_eq!(id, "p1"),
        _ => panic!("expected a secondary record"),
    }
    assert_eq!(stats.secondary_records, 1);
    assert_eq!(stats.similarity_matches, 1);
    assert_eq!(stats.embeddings_computed, 1);
    let ps = filter_positions(&filter, "fp2");
    let r = classify_record(&mut stats, &mut filter, false, &ps, true, false, Some("p1".to_string()));
    assert!(matches!(r, RecordRole::Primary));
    assert_eq!(stats.primary_records, 2);
    assert_eq!(stats.embeddings_computed, 1);
    // Once seen, a fingerprint stays a duplicate after other records.
    let ps = filter_positions(&filter, "fp1");
    let r = classify_record(&mut stats, &mut filter, true, &ps, false, false, None);
    assert!(matches!(r, RecordRole::Duplicate));
    assert_eq!(stats.duplicates_filtered, 2);
}

#[test]
fn faceted_default_query_returns_all() {
    let idx = sample_index();
    let q = FacetedQuery::default();
    let r = idx.search(&q, &Vec::new());
    assert_eq!(r.total, 3);
    let keys: Vec<&str> = r.documents.iter().map(|d| d.key.as_str()).collect();
    assert_eq!(keys, vec!["d1", "d2", "d3"]);
    assert_eq!(r.facets.len(), 2);
    assert_eq!(r.facets[0].name, "color");
    assert_eq!(r.facets[0].values[0].value, "red");
    assert_eq!(r.facets[0].values[0].count, 2);
    assert_eq!(r.facets[0].values[1].value, "blue");
    assert_eq!(r.facets[0].values[1].count, 1);
    assert_eq!(r.facets[1].name, "size");
    assert_eq!(r.facets[1].values[0].value, "L");
    assert_eq!(r.facets[1].values[0].count, 2);
}

#[test]
fn faceted_facet_selection_and_text() {
    let idx = sample_index();
    let mut q = FacetedQuery::default();
    q.facets.push(("color".to_string(), vec!["red".to_string()]));
    let r = idx.search(&q, &Vec::new());
    assert_eq!(r.total, 2);
    assert_eq!(r.facets[1].values.len(), 2);
    assert_eq!(r.facets[1].values[0].count, 1);
    q.text_query = Some("HAT".to_string());
    let r = idx.search(&q, &Vec::new());
    assert_eq!(r.total, 1);
    assert_eq!(r.documents[0].key, "d3");
    let mut q2 = FacetedQuery::default();
    q2.facets.push(("unknown".to_string(), vec!["x".to_string()]));
    assert_eq!(idx.search(&q2, &Vec::new()).total, 3);
}

#[test]
fn faceted_ranges_and_window() {
    let idx = sample_index();
    let mut q = FacetedQuery::default();
    let ranges = vec![Some(vec!["d2".to_string(), "d3".to_string()]), None];
    let r = idx.search(&q, &ranges);
    assert_eq!(r.total, 2);
    q.offset = 1;
    q.limit = 5;
    let r = idx.search(&q, &ranges);
    assert_eq!(r.documents.len(), 1);
    assert_eq!(r.documents[0].key, "d3");
    q.offset = 7;
    let r = idx.search(&q, &ranges);
    assert!(r.documents.is_empty());
    assert_eq!(r.total, 2);
}

#[test]
fn faceted_add_replaces_document() {
    let mut idx = sample_index();
    idx.add_document(doc("d2", &[("color", "green")], Some("Green")));
    let q = FacetedQuery::default();
    let r = idx.search(&q, &Vec::new());
    assert_eq!(r.total, 3);
    assert_eq!(r.documents[1].content.as_deref(), Some("Green"));
    let colors: Vec<(&str, usize)> = r.facets[0].values.iter().map(|v| (v.value.as_str(), v.count)).collect();
    assert_eq!(colors, vec![("red", 2), ("blue", 1), ("green", 1)]);
}

#[test]
fn hash_positions_are_taken_modulo_the_size() {
    assert_eq!(position_of_hash(10, 3), 1);
    assert_eq!(position_of_hash(u64::MAX, 7), (u64::MAX % 7) as usize);
    let f = BloomFilter::with_parameters(100, 4);
    let ps = f.positions("fingerprint");
    assert_eq!(ps.len(), 4);
    assert!(ps.iter().all(|&p| p < 100));
    assert_eq!(ps, f.positions("fingerprint"));
}

#[test]
fn records_are_marked_by_their_role() {
    let id = "r1".to_string();
    assert!(record_marks(&RecordRole::Duplicate, &id, true, false, true).is_none());
    let m = record_marks(&RecordRole::Secondary("p1".to_string()), &id, true, true, true).unwrap();
    assert!(!m.is_primary);
    assert_eq!(m.primary_id, Some("p1".to_string()));
    assert_eq!(m.linked_primary, Some("p1".to_string()));
    assert!(!m.cache_as_primary);
    let m = record_marks(&RecordRole::Primary, &id, true, false, true).unwrap();
    assert!(m.is_primary);
    assert_eq!(m.primary_id, Some("r1".to_string()));
    assert_eq!(m.linked_primary, None);
    assert!(m.cache_as_primary);
    assert!(!record_marks(&RecordRole::Primary, &id, false, false, true).unwrap().cache_as_primary);
    assert!(!record_marks(&RecordRole::Primary, &id, true, false, false).unwrap().cache_as_primary);
    let mut stats = IngestionStats::default();
    finish_batch(&mut stats, 4, 2);
    assert_eq!((stats.total_records_stored, stats.shards_created, stats.batches_processed), (4, 2, 1));
}
