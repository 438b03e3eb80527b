use bund_blobstore::advanced_chunking::{
    advanced_chunking, split_paragraphs, try_advanced_chunking, AdvancedChunkingConfig,
};
use bund_blobstore::chunk_keys::{
    chunk_document_id, chunk_id, plan_advanced_chunked_document, plan_chunked_document, telemetry_id_of_vector_key, telemetry_vector_key, vector_key,
    vector_key_chunk,
};
use bund_blobstore::chunking::ChunkingConfig;
use bund_blobstore::language::StemmingLanguage;

fn small_config() -> AdvancedChunkingConfig {
    let mut c = AdvancedChunkingConfig::default();
    c.chunk_size = 20;
    c.chunk_overlap = 5;
    c.min_chunk_size = 1;
    c.context_before_chars = 10;
    c.context_after_chars = 10;
    c
}

#[test]
fn default_advanced_config_values() {
    let c = AdvancedChunkingConfig::default();
    assert_eq!(c.chunk_size, 512);
    assert_eq!(c.chunk_overlap, 50);
    assert_eq!(c.min_chunk_size, 100);
    assert!(c.break_on_sentences);
    assert!(c.break_on_paragraphs);
    assert!(c.preserve_metadata);
    assert_eq!(c.context_before_chars, 100);
    assert_eq!(c.context_after_chars, 100);
    assert!(!c.enable_stemming);
    assert_eq!(c.language, StemmingLanguage::English);
}

#[test]
fn paragraphs_split_at_blank_lines() {
    assert_eq!(split_paragraphs("a\n\nb\n\n\nc"), vec!["a", "b", "\nc"]);
    assert_eq!(split_paragraphs("one"), vec!["one"]);
    assert_eq!(split_paragraphs(""), vec![""]);
    assert_eq!(split_paragraphs("\n\n"), vec!["", ""]);
}

#[test]
fn advanced_chunking_two_paragraphs() {
    let text = "Hello world. This is a test.\n\nSecond paragraph here.";
    let chunks = advanced_chunking(text, &small_config());
    assert_eq!(chunks.len(), 3);

    assert_eq!(chunks[0].chunk_id, "chunk_0_0");
    assert_eq!(chunks[0].text, "Hello world. ");
    assert_eq!(chunks[0].context_before, "");
    assert_eq!(chunks[0].context_after, "This is a ");
    assert_eq!((chunks[0].start_pos, chunks[0].end_pos), (0, 13));
    assert_eq!((chunks[0].start_sentence, chunks[0].end_sentence), (0, 1));
    assert_eq!(chunks[0].paragraph_index, 0);
    assert_eq!(chunks[0].stemmed_text, None);

    assert_eq!(chunks[1].chunk_id, "chunk_0_1");
    assert_eq!(chunks[1].text, "rld. This is a test.. ");
    assert_eq!(chunks[1].context_before, "Hello wo");
    assert_eq!(chunks[1].context_after, "Second par");
    assert_eq!((chunks[1].start_pos, chunks[1].end_pos), (8, 30));
    assert_eq!((chunks[1].start_sentence, chunks[1].end_sentence), (1, 2));
    assert_eq!(chunks[1].paragraph_index, 0);

    assert_eq!(chunks[2].chunk_id, "chunk_1_2");
    assert_eq!(chunks[2].text, "Second paragraph here.. ");
    assert_eq!(chunks[2].context_before, " test.\n\nSe");
    assert_eq!(chunks[2].context_after, "");
    assert_eq!((chunks[2].start_pos, chunks[2].end_pos), (32, 56));
    assert_eq!((chunks[2].start_sentence, chunks[2].end_sentence), (2, 3));
    assert_eq!(chunks[2].paragraph_index, 1);

    for ch in &chunks {
        assert!(ch.shard.is_empty());
        assert!(ch.vector_key.is_empty());
        assert!(ch.metadata.is_empty());
        assert_eq!(ch.end_pos - ch.start_pos, ch.text.len());
        assert!(ch.context_before.len() <= 10);
        assert!(ch.context_after.len() <= 10);
    }
}

#[test]
fn advanced_chunking_drops_short_last_chunk() {
    let mut c = small_config();
    c.min_chunk_size = 100;
    let chunks = advanced_chunking("Short one.", &c);
    assert!(chunks.is_empty());
}

#[test]
fn advanced_chunking_with_stemming() {
    let mut c = small_config();
    c.break_on_sentences = false;
    c.break_on_paragraphs = false;
    c.enable_stemming = true;
    c.chunk_size = 100;
    let chunks = advanced_chunking("cats running", &c);
    assert_eq!(chunks.len(), 1);
    assert_eq!(chunks[0].text, "cats running");
    assert_eq!(chunks[0].stemmed_text.as_deref(), Some("cat run"));
    assert_eq!((chunks[0].start_pos, chunks[0].end_pos), (0, 12));
    assert_eq!((chunks[0].start_sentence, chunks[0].end_sentence), (0, 1));
}

#[test]
fn try_advanced_chunking_refuses_cut_inside_character() {
    let mut c = small_config();
    c.context_before_chars = 1;
    c.context_after_chars = 0;
    assert!(try_advanced_chunking("a\n\nx\u{e9}y", &c).is_none());
    let ok = try_advanced_chunking("Hello world. This is a test.\n\nSecond paragraph here.", &small_config());
    assert_eq!(ok.map(|v| v.len()), Some(3));
}

#[test]
fn chunk_and_vector_keys() {
    assert_eq!(chunk_id("doc1", 3), "doc1_chunk_3");
    assert_eq!(chunk_id("", 0), "_chunk_0");
    assert_eq!(vector_key("doc1_chunk_3"), "vector:doc1_chunk_3");
    assert_eq!(telemetry_vector_key("r1"), "vector:telemetry:r1");
    assert_eq!(telemetry_id_of_vector_key("vector:telemetry:r1"), "r1");
    assert_eq!(telemetry_id_of_vector_key("plain"), "plain");
}

#[test]
fn chunk_document_ids() {
    assert_eq!(chunk_document_id("doc1_chunk_3"), "doc1");
    assert_eq!(chunk_document_id("plain"), "plain");
    assert_eq!(chunk_document_id("a_chunk_b_chunk_c"), "a");
    assert_eq!(chunk_document_id("_chunk_7"), "");
}

#[test]
fn vector_keys_name_chunks() {
    assert_eq!(vector_key_chunk("vector:doc1_chunk_0"), Some("doc1_chunk_0".to_string()));
    assert_eq!(vector_key_chunk("other:doc1"), None);
    assert_eq!(vector_key_chunk("vector:x vector:y"), Some("x y".to_string()));
}

#[test]
fn chunk_keys_round_trip() {
    for (doc, idx) in [("report", 0usize), ("a.b-c", 12), ("x_chunk", 5)] {
        let id = chunk_id(doc, idx);
        let back = vector_key_chunk(&vector_key(&id));
        assert_eq!(back.as_deref(), Some(id.as_str()));
        if doc != "x_chunk" {
            assert_eq!(chunk_document_id(&id), doc);
        }
    }
    assert_eq!(chunk_document_id(&chunk_id("x_chunk", 5)), "x");
}

#[test]
fn chunked_document_plan() {
    let config = ChunkingConfig { chunk_size: 10, chunk_overlap: 0, min_chunk_size: 1 };
    let shards = vec!["s0".to_string(), "s1".to_string(), "s2".to_string()];
    let plan = plan_chunked_document("doc", "hello world foo bar", &config, &shards, 2);
    assert_eq!(plan.len(), 2);
    assert_eq!(plan[0].chunk_id, "doc_chunk_0");
    assert_eq!(plan[0].vector_key, "vector:doc_chunk_0");
    assert_eq!(plan[0].text, "hello");
    assert_eq!(plan[0].shard, "s2");
    assert_eq!((plan[0].start_pos, plan[0].end_pos), (0, 10));
    assert_eq!(plan[1].chunk_id, "doc_chunk_1");
    assert_eq!(plan[1].vector_key, "vector:doc_chunk_1");
    assert_eq!(plan[1].text, "d foo bar");
    assert_eq!(plan[1].shard, "s0");
    assert_eq!((plan[1].start_pos, plan[1].end_pos), (10, 20));
    assert!(plan_chunked_document("doc", "", &config, &shards, 0).is_empty());
}

#[test]
fn advanced_document_plan_places_chunks_round_robin() {
    let text = "Hello world. This is a test.\n\nSecond paragraph here.";
    let shards = vec!["s0".to_string(), "s1".to_string()];
    let md = vec![("lang".to_string(), "en".to_string())];
    let p = plan_advanced_chunked_document("doc", text, &small_config(), &md, &shards, 5).unwrap();
    assert_eq!(p.chunks.len(), 3);
    let ids: Vec<&str> = p.chunks.iter().map(|c| c.chunk_id.as_str()).collect();
    assert_eq!(ids, vec!["doc_chunk_0", "doc_chunk_1", "doc_chunk_2"]);
    let keys: Vec<&str> = p.chunks.iter().map(|c| c.vector_key.as_str()).collect();
    assert_eq!(keys, vec!["vector:doc_chunk_0", "vector:doc_chunk_1", "vector:doc_chunk_2"]);
    let placed: Vec<&str> = p.chunks.iter().map(|c| c.shard.as_str()).collect();
    assert_eq!(placed, vec!["s1", "s0", "s1"]);
    assert_eq!(p.chunks[0].text, "Hello world. ");
    assert_eq!(p.chunks[2].start_pos, 32);
    assert_eq!(p.chunks[0].metadata, md);
    assert_eq!(p.search_texts[0], "Hello world. \nContext before: \nContext after: This is a ");
    assert_eq!(p.embed_texts[0], "Hello world. ");
    assert_eq!(p.sentence_count, 3);
    assert_eq!(p.paragraph_count, 2);
    assert_eq!(p.doc_shard, "s1");
    let mut keep_none = small_config();
    keep_none.preserve_metadata = false;
    let q = plan_advanced_chunked_document("doc", text, &keep_none, &md, &shards, 0).unwrap();
    assert!(q.chunks.iter().all(|c| c.metadata.is_empty()));
    assert_eq!(q.doc_shard, "s0");
    assert!(plan_advanced_chunked_document("doc", text, &small_config(), &md, &shards, usize::MAX).is_none());
}
