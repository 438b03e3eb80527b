use bund_blobstore::blob::{
    calculate_checksum, metadata_for_update, select_by_metadata_prefix, select_by_prefix, select_query,
    BlobMetadata, QueryOptions,
};
use bund_blobstore::chunking::{chunk_ranges, split_into_chunks, ChunkingConfig};
use bund_blobstore::multidim::{cell_key, Coord1D, Coord2D, Coord3D, Coordinate, DimensionType, SampleIdQueue};

#[test]
fn checksum_is_xor_of_bytes() {
    assert_eq!(calculate_checksum(&[]), 0);
    assert_eq!(calculate_checksum(&[1, 2, 3]), 0);
    assert_eq!(calculate_checksum(&[0xff, 0x0f]), 0xf0);
}

#[test]
fn metadata_new_and_update() {
    let m = BlobMetadata::new_at("k".to_string(), b"hello", Some("p".to_string()), 1000);
    assert_eq!(m.size, 5);
    assert_eq!(m.created_at, 1000);
    assert_eq!(m.modified_at, 1000);
    assert!(m.verify_integrity(b"hello"));
    assert!(!m.verify_integrity(b"hellp"));
    let u = metadata_for_update(Some(m), "k", b"bye", None, 2000);
    assert_eq!(u.created_at, 1000);
    assert_eq!(u.modified_at, 2000);
    assert_eq!(u.size, 3);
    assert_eq!(u.prefix.as_deref(), Some("p"));
    let fresh = metadata_for_update(None, "n", b"x", Some("q"), 5);
    assert_eq!(fresh.created_at, 5);
    assert_eq!(fresh.key, "n");
    assert_eq!(fresh.prefix.as_deref(), Some("q"));
}

#[test]
fn clock_based_metadata() {
    let m = BlobMetadata::new("k".to_string(), b"abc", None);
    assert_eq!(m.created_at, m.modified_at);
    assert!(m.created_at > 0);
}

#[test]
fn query_filters_and_window() {
    let keys: Vec<String> = ["user:1", "user:2", "item:1", "user:3", "user:10"].iter().map(|s| s.to_string()).collect();
    let mut o = QueryOptions::default();
    o.prefix = Some("user:".to_string());
    assert_eq!(select_query(&keys, &o), vec![0, 1, 3, 4]);
    o.pattern = Some("*1*".to_string());
    assert_eq!(select_query(&keys, &o), vec![0, 4]);
    o.pattern = None;
    o.offset = Some(1);
    o.limit = Some(2);
    assert_eq!(select_query(&keys, &o), vec![1, 3]);
    o.offset = Some(4);
    assert_eq!(select_query(&keys, &o), Vec::<usize>::new());
    assert_eq!(select_by_prefix(&keys, "item"), vec![2]);
}

#[test]
fn metadata_prefix_groups() {
    let metas = vec![
        BlobMetadata::new_at("a".to_string(), b"1", Some("g1".to_string()), 0),
        BlobMetadata::new_at("b".to_string(), b"2", None, 0),
        BlobMetadata::new_at("c".to_string(), b"3", Some("g1".to_string()), 0),
        BlobMetadata::new_at("d".to_string(), b"4", Some("g10".to_string()), 0),
    ];
    assert_eq!(select_by_metadata_prefix(&metas, "g1"), vec![0, 2]);
}

#[test]
fn sample_queue_evicts_oldest() {
    let mut q = SampleIdQueue::new(2);
    assert!(q.is_empty());
    assert_eq!(q.push("a".to_string()), None);
    assert_eq!(q.push("b".to_string()), None);
    assert_eq!(q.push("c".to_string()), Some("a".to_string()));
    assert_eq!(q.len(), 2);
    assert_eq!(q.get_all_ids(), vec!["b".to_string(), "c".to_string()]);
    assert_eq!(q.get_latest_ids(1), vec!["c".to_string()]);
    assert_eq!(q.get_latest_ids(5), vec!["c".to_string(), "b".to_string()]);
}

#[test]
fn zero_capacity_queue_keeps_nothing() {
    let mut q = SampleIdQueue::new(0);
    assert_eq!(q.push("a".to_string()), Some("a".to_string()));
    assert_eq!(q.push("b".to_string()), Some("b".to_string()));
    assert_eq!(q.len(), 0);
    assert!(q.get_all_ids().is_empty());
}

#[test]
fn coordinate_keys() {
    assert_eq!(Coordinate::OneD(Coord1D(7)).to_key_string(), "7");
    assert_eq!(Coordinate::TwoD(Coord2D(3, -4)).to_key_string(), "3_-4");
    assert_eq!(Coordinate::ThreeD(Coord3D(1, 2, 3)).to_key_string(), "1_2_3");
    assert_eq!(cell_key("temp", &Coordinate::TwoD(Coord2D(1, 2))), "cell:temp:1_2");
    assert!(Coordinate::OneD(Coord1D(0)).matches_dimension(DimensionType::OneD));
    assert!(!Coordinate::OneD(Coord1D(0)).matches_dimension(DimensionType::TwoD));
    assert_ne!(Coordinate::TwoD(Coord2D(1, 23)).to_key_string(), Coordinate::TwoD(Coord2D(12, 3)).to_key_string());
    assert_ne!(Coordinate::OneD(Coord1D(-1)).to_key_string(), Coordinate::OneD(Coord1D(1)).to_key_string());
}

#[test]
fn chunks_break_at_spaces_and_overlap() {
    let text = "aaaa bbbb cccc dddd";
    let cfg = ChunkingConfig { chunk_size: 7, chunk_overlap: 2, min_chunk_size: 1 };
    assert_eq!(chunk_ranges(text, &cfg), vec![(0, 4), (5, 9), (10, 14), (15, 19)]);
    assert_eq!(split_into_chunks(text, &cfg), vec!["aaaa", "bbbb", "cccc", "dddd"]);
    let small = ChunkingConfig { chunk_size: 7, chunk_overlap: 2, min_chunk_size: 5 };
    assert!(split_into_chunks(text, &small).is_empty());
    let d = ChunkingConfig::default();
    assert_eq!(d.chunk_size, 512);
    assert!(split_into_chunks("", &d).is_empty());
}
