use bund_blobstore::distribution::{index_entry, DistributionRouter, RoutingError, RoutingTable, ShardInfo};
use bund_blobstore::language::StemmingLanguage;
use bund_blobstore::lru::LRUCache;
use bund_blobstore::routing::{
    make_interval_key, page_window, str_le, CacheConfig, ShardManagerBuilder, ShardingStrategy,
};
use bund_blobstore::routing_index::load_routing_index;
use bund_blobstore::telemetry::{select_newest, select_records, time_range_of, MinuteBucket, RecordFacts, TelemetryQuery, TimeInterval, ValueKind};

fn shard(name: &str) -> ShardInfo {
    ShardInfo { name: name.to_string(), path: format!("/tmp/{}", name), key_count: 0 }
}

#[test]
fn lru_expiry_and_eviction() {
    let mut c: LRUCache<usize> = LRUCache::new(2, 100);
    c.put("a".to_string(), 1, None, 0);
    c.put("b".to_string(), 2, Some(10), 0);
    assert_eq!(c.get(&"a".to_string(), 50), Some(1));
    assert_eq!(c.get(&"b".to_string(), 10), None);
    assert_eq!(c.len(), 1);
    c.put("c".to_string(), 3, None, 60);
    c.put("d".to_string(), 4, None, 60);
    assert_eq!(c.len(), 2);
    assert_eq!(c.get(&"a".to_string(), 61), None);
    assert_eq!(c.get(&"c".to_string(), 61), Some(3));
    c.remove(&"c".to_string());
    assert_eq!(c.get(&"c".to_string(), 61), None);
    c.clear();
    assert_eq!(c.len(), 0);
}

#[test]
fn lru_get_after_put_keeps_most_recent() {
    let mut c: LRUCache<usize> = LRUCache::new(2, 100);
    c.put("a".to_string(), 1, Some(30), 0);
    c.put("b".to_string(), 2, Some(30), 0);
    assert_eq!(c.get(&"b".to_string(), 29), Some(2));
    assert_eq!(c.get(&"a".to_string(), 29), Some(1));
    c.put("c".to_string(), 3, None, 29);
    assert_eq!(c.get(&"b".to_string(), 29), None);
    assert_eq!(c.get(&"a".to_string(), 29), Some(1));
}

#[test]
fn key_range_routing_and_cache() {
    let mut r = ShardManagerBuilder::new()
        .add_key_range_shard("s0", "/tmp/s0", "a", "m")
        .add_key_range_shard("s1", "/tmp/s1", "n", "z")
        .with_strategy(ShardingStrategy::KeyPrefix)
        .build();
    assert_eq!(r.get_shard_for_key("apple", 0), 0);
    assert_eq!(r.get_shard_for_key("orange", 0), 1);
    assert_eq!(r.get_shard_for_key("orange", 1), 1);
    assert_eq!(r.get_shard_for_key("zzz", 1), 0);
    let stats = r.cache_statistics();
    assert_eq!(stats.hits, 1);
    assert_eq!(stats.misses, 3);
    r.clear_caches();
    assert_eq!(r.cache_statistics().hits, 0);
}

#[test]
fn hash_routing_is_stable_and_in_range() {
    let mut r = ShardManagerBuilder::new().add_shard("a", "/a").add_shard("b", "/b").add_shard("c", "/c").build();
    let x = r.get_shard_for_key("some-key", 0);
    assert!(x < 3);
    assert_eq!(r.compute_shard_for_key("some-key"), x);
}

#[test]
fn consistent_hash_routing() {
    let mut r = ShardManagerBuilder::new()
        .with_strategy(ShardingStrategy::ConsistentHash)
        .add_shard("a", "/a")
        .add_shard("b", "/b")
        .build();
    for k in ["k1", "k2", "k3", "k4"] {
        let i = r.get_shard_for_key(k, 0);
        assert!(i < 2);
        assert_eq!(r.get_shard_for_key(k, 0), i);
    }
    r.remove_shard("a");
    assert_eq!(r.shard_count(), 1);
    assert_eq!(r.get_shard_for_key("k1", 0), 0);
}

#[test]
fn time_interval_routing() {
    let sec = 1_000_000_000i64;
    let mut r = ShardManagerBuilder::new()
        .with_strategy(ShardingStrategy::TimeRange)
        .add_time_range_shard("old", "/o", 0, 100 * sec)
        .add_time_range_shard("new", "/n", 101 * sec, 200 * sec)
        .build();
    assert_eq!(r.get_shards_for_time_interval(50 * sec, 150 * sec, 0), vec![0, 1]);
    assert_eq!(r.get_shards_for_time_interval(150 * sec, 160 * sec, 0), vec![1]);
    assert_eq!(r.get_shards_for_time_interval(300 * sec, 400 * sec, 0), Vec::<usize>::new());
    assert_eq!(make_interval_key(-1, 1_500_000_000), "-1:1");
    let mut all = ShardManagerBuilder::new().disable_cache().add_shard("x", "/x").add_shard("y", "/y").build();
    assert_eq!(all.get_shards_for_time_interval(0, 1, 0), vec![0, 1]);
}

#[test]
fn builder_settings() {
    let b = ShardManagerBuilder::new().set_cache_ttl(5);
    assert_eq!(b.cache_config.key_cache_ttl, 5000);
    let d = CacheConfig::default();
    assert_eq!(d.max_size, 10000);
    assert!(str_le("abc", "abd"));
    assert!(str_le("ab", "abc"));
    assert!(!str_le("b", "abc"));
    assert_eq!(page_window(10, 8, 5), (8, 10));
    assert_eq!(page_window(3, 8, 5), (3, 3));
}

#[test]
fn distribution_routing() {
    let mut empty = DistributionRouter::new(Vec::new(), RoutingTable::new(), 0);
    assert_eq!(empty.get_target_shard("k", true), Err(RoutingError::NoShards));
    let mut r = DistributionRouter::new(vec![shard("shard_0"), shard("shard_1"), shard("shard_2")], RoutingTable::new(), 0);
    assert_eq!(r.get_target_shard("system.index", true).unwrap(), "shard_0");
    assert_eq!(r.get_target_shard("user_metadata_x", true).unwrap(), "shard_0");
    assert_eq!(r.get_target_shard(".system.cfg", false).unwrap(), "shard_0");
    assert_eq!(r.get_target_shard("k1", true).unwrap(), "shard_0");
    assert_eq!(r.get_target_shard("k2", true).unwrap(), "shard_1");
    assert_eq!(r.get_target_shard("k3", true).unwrap(), "shard_2");
    assert_eq!(r.get_target_shard("k4", true).unwrap(), "shard_0");
    assert_eq!(r.get_target_shard("k2", false).unwrap(), "shard_1");
    assert_eq!(r.get_target_shard("k2", true).unwrap(), "shard_1");
    assert!(r.shard_exists("shard_2"));
    assert!(r.add_shard("shard_2", "/x").is_err());
    assert!(r.add_shard("shard_3", "/x").is_ok());
    assert!(r.remove_shard("shard_3"));
    assert!(!r.remove_shard("shard_9"));
    assert_eq!(index_entry("k1", "shard_0"), "k1:shard_0\n");
}

#[test]
fn routing_index_roundtrip() {
    let text = format!("{}{}{}", index_entry("a", "shard_1"), index_entry("b", "shard_2"), index_entry("a", "shard_0"));
    let (table, counter) = load_routing_index(&text);
    assert_eq!(counter, 2);
    assert_eq!(table.get("a"), Some("shard_0".to_string()));
    assert_eq!(table.get("b"), Some("shard_2".to_string()));
    let (t2, n2) = load_routing_index("x:y:z\r\nnocolon\nlast:s");
    assert_eq!(n2, 2);
    assert_eq!(t2.get("x"), Some("y:z".to_string()));
    assert_eq!(t2.get("last"), Some("s".to_string()));
}

#[test]
fn language_names() {
    assert_eq!(StemmingLanguage::English.get_name(), "english");
    assert_eq!(StemmingLanguage::Portuguese.get_name(), "portuguese");
}

fn rec(id: &str, ts: i64, key: &str, src: &str, kind: ValueKind, primary: bool, pid: Option<&str>) -> RecordFacts {
    RecordFacts {
        id: id.to_string(),
        timestamp_seconds: ts,
        key: key.to_string(),
        source: src.to_string(),
        kind,
        is_primary: primary,
        primary_id: pid.map(|s| s.to_string()),
    }
}

#[test]
fn telemetry_query_selection() {
    let rs = vec![
        rec("1", 10, "cpu.load", "host1", ValueKind::Float, true, None),
        rec("2", 20, "mem.used", "host1", ValueKind::Int, true, None),
        rec("3", 30, "cpu.temp", "host2", ValueKind::Float, false, Some("1")),
    ];
    let mut q = TelemetryQuery::default();
    q.keys = Some(vec!["cpu".to_string()]);
    assert_eq!(select_records(&rs, &q), vec![0, 2]);
    q.primary_only = true;
    assert_eq!(select_records(&rs, &q), vec![0]);
    let mut q2 = TelemetryQuery::default();
    q2.time_interval = Some(TimeInterval { start: 15_000_000_000, end: 30_000_000_000 });
    assert_eq!(select_records(&rs, &q2), vec![1, 2]);
    q2.value_type = Some("float".to_string());
    assert_eq!(select_records(&rs, &q2), vec![2]);
    let mut q3 = TelemetryQuery::default();
    q3.primary_id = Some("1".to_string());
    assert_eq!(select_records(&rs, &q3), vec![2]);
    q3.primary_id = None;
    q3.offset = 1;
    q3.limit = 1;
    assert_eq!(select_records(&rs, &q3), vec![1]);
    assert_eq!(time_range_of(&rs), Some((10, 30)));
    assert_eq!(time_range_of(&Vec::new()), None);
}

#[test]
fn minute_bucket_keys() {
    let b = MinuteBucket { year: 2024, month: 3, day: 7, hour: 9, minute: 5 };
    assert_eq!(b.bucket_key(), "2024-03-07_09:05");
    let c = MinuteBucket { year: -5, month: 12, day: 31, hour: 23, minute: 59 };
    assert_eq!(c.bucket_key(), format!("{:04}-{:02}-{:02}_{:02}:{:02}", -5, 12, 31, 23, 59));
}

#[test]
fn telemetry_newest_first_selection() {
    let rs = vec![
        rec("1", 10, "cpu.load", "host1", ValueKind::Float, true, None),
        rec("2", 30, "cpu.temp", "host2", ValueKind::Float, true, None),
        rec("3", 20, "mem.used", "host1", ValueKind::Int, true, None),
        rec("4", 30, "cpu.fan", "host1", ValueKind::Int, true, None),
    ];
    let q = TelemetryQuery::default();
    assert_eq!(select_newest(&rs, &q), vec![1, 3, 2, 0]);
    let mut q2 = TelemetryQuery::default();
    q2.keys = Some(vec!["cpu".to_string()]);
    assert_eq!(select_newest(&rs, &q2), vec![1, 3, 0]);
    q2.offset = 1;
    q2.limit = 1;
    assert_eq!(select_newest(&rs, &q2), vec![3]);
    q2.offset = 5;
    assert!(select_newest(&rs, &q2).is_empty());
    assert!(select_newest(&Vec::new(), &TelemetryQuery::default()).is_empty());
}

#[test]
fn distribution_counts_sum_the_shards() {
    let shards = vec![
        ShardInfo { name: "a".to_string(), path: "/a".to_string(), key_count: 3 },
        ShardInfo { name: "b".to_string(), path: "/b".to_string(), key_count: 0 },
        ShardInfo { name: "c".to_string(), path: "/c".to_string(), key_count: 7 },
    ];
    let r = DistributionRouter::new(shards, RoutingTable::new(), 0);
    let (total, per_shard) = r.distribution_counts();
    assert_eq!(total, 10);
    assert_eq!(per_shard, vec![("a".to_string(), 3), ("b".to_string(), 0), ("c".to_string(), 7)]);
    let empty = DistributionRouter::new(Vec::new(), RoutingTable::new(), 0);
    assert_eq!(empty.distribution_counts(), (0, Vec::new()));
}

#[test]
fn distributed_query_ignores_the_timeline_filters() {
    let rs = vec![rec("1", 10, "cpu.temp", "host2", ValueKind::Float, false, Some("0"))];
    let mut q = TelemetryQuery::default();
    q.primary_only = true;
    q.primary_id = Some("9".to_string());
    q.value_type = Some("int".to_string());
    assert_eq!(select_newest(&rs, &q), vec![0]);
    assert!(select_records(&rs, &q).is_empty());
    q.sources = Some(vec!["host1".to_string()]);
    assert!(select_newest(&rs, &q).is_empty());
}

#[test]
fn an_assigned_key_keeps_its_shard() {
    let mut r = DistributionRouter::new(vec![shard("shard_0"), shard("shard_1"), shard("shard_2")], RoutingTable::new(), 0);
    let first = r.get_target_shard("user:1", true).unwrap();
    for k in ["user:2", "user:3", "user:4", "user:5"] {
        r.get_target_shard(k, true).unwrap();
        r.get_target_shard(k, false).unwrap();
    }
    assert_eq!(r.get_target_shard("user:1", false).unwrap(), first);
    assert_eq!(r.get_target_shard("user:1", true).unwrap(), first);
}

#[test]
fn lru_value_survives_gets_of_other_keys() {
    let mut c: LRUCache<usize> = LRUCache::new(3, 100);
    c.put("a".to_string(), 1, Some(50), 0);
    c.put("b".to_string(), 2, Some(5), 0);
    assert_eq!(c.get(&"b".to_string(), 1), Some(2));
    assert_eq!(c.get(&"b".to_string(), 10), None);
    assert_eq!(c.get(&"zzz".to_string(), 20), None);
    assert_eq!(c.get(&"a".to_string(), 40), Some(1));
}

#[test]
fn time_intervals_reach_beyond_the_nanosecond_range_of_i64() {
    let rs = vec![
        rec("1", -9_000_000_000_000, "k", "s", ValueKind::Int, true, None),
        rec("2", 9_000_000_000_000, "k", "s", ValueKind::Int, true, None),
        rec("3", 0, "k", "s", ValueKind::Int, true, None),
    ];
    let mut q = TelemetryQuery::default();
    q.time_interval = Some(TimeInterval { start: 8_000_000_000_000 * 1_000_000_000, end: i128::MAX });
    assert_eq!(select_newest(&rs, &q), vec![1]);
    q.time_interval = Some(TimeInterval { start: i128::MIN, end: -1 });
    assert_eq!(select_records(&rs, &q), vec![0]);
}

#[test]
fn round_robin_turns_are_taken_in_blocks() {
    let mut r = DistributionRouter::new(vec![shard("a"), shard("b")], RoutingTable::new(), 3);
    assert_eq!(r.round_robin_position(), 3);
    assert_eq!(r.take_turns(4), 3);
    assert_eq!(r.round_robin_position(), 7);
    let mut w = DistributionRouter::new(vec![shard("a")], RoutingTable::new(), usize::MAX);
    assert_eq!(w.take_turns(2), usize::MAX);
    assert_eq!(w.round_robin_position(), 1);
}
