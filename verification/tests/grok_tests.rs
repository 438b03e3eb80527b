use bund_blobstore::grok::{
    extract_key, extract_metadata, extract_source, extract_timestamp, parse_metadata_string,
    GrokError, GrokLogParser,
};
use bund_blobstore::strmap::StrMap;

fn fields(pairs: &[(&str, &str)]) -> StrMap {
    let mut m = StrMap::new();
    for (k, v) in pairs {
        m.insert(k.to_string(), v.to_string());
    }
    m
}

fn get(m: &StrMap, k: &str) -> Option<String> {
    m.get(k)
}

#[test]
fn metadata_string_pairs() {
    let m = parse_metadata_string("a=1, b = 2 ,c,d=x=y");
    assert_eq!(get(&m, "a").as_deref(), Some("1"));
    assert_eq!(get(&m, "b").as_deref(), Some("2"));
    assert_eq!(get(&m, "c"), None);
    assert_eq!(get(&m, "d").as_deref(), Some("x=y"));
    assert_eq!(m.len(), 3);

    let later = parse_metadata_string("k=1,k=2");
    assert_eq!(get(&later, "k").as_deref(), Some("2"));
    assert_eq!(later.len(), 1);
    assert_eq!(parse_metadata_string("").len(), 0);
}

#[test]
fn key_and_source_of_fields() {
    assert_eq!(extract_key(&fields(&[("key", "cpu"), ("operation", "op")]), "line"), "cpu");
    assert_eq!(extract_key(&fields(&[("operation", "op"), ("index", "ix")]), "line"), "op");
    assert_eq!(extract_key(&fields(&[("index", "ix"), ("level", "WARN")]), "line"), "ix");
    assert_eq!(extract_key(&fields(&[("level", "WARN")]), "line"), "log.warn");
    assert_eq!(extract_key(&fields(&[]), "h\u{e9}llo"), "log_6");

    assert_eq!(extract_source(&fields(&[("source", "s1"), ("host", "h1")]), "def"), "s1");
    assert_eq!(extract_source(&fields(&[("host", "h1")]), "def"), "h1");
    assert_eq!(extract_source(&fields(&[("key", "k")]), "def"), "def");
}

#[test]
fn metadata_of_fields() {
    let m = extract_metadata(&fields(&[
        ("metadata", "env=prod, host=x"),
        ("host", "h1"),
        ("level", "INFO"),
        ("key", "cpu"),
        ("custom", "c"),
    ]));
    assert_eq!(get(&m, "env").as_deref(), Some("prod"));
    assert_eq!(get(&m, "host").as_deref(), Some("h1"));
    assert_eq!(get(&m, "level").as_deref(), Some("INFO"));
    assert_eq!(get(&m, "custom").as_deref(), Some("c"));
    assert_eq!(get(&m, "key"), None);
    assert_eq!(get(&m, "metadata"), None);
    assert_eq!(m.len(), 4);
}

#[test]
fn timestamps_of_fields() {
    assert_eq!(extract_timestamp(&fields(&[("timestamp", "2024-01-01T00:00:00Z")]), 7), 1704067200);
    assert_eq!(extract_timestamp(&fields(&[("timestamp", "1700000000")]), 7), 1700000000);
    assert_eq!(extract_timestamp(&fields(&[("timestamp", "-5")]), 7), -5);
    assert_eq!(extract_timestamp(&fields(&[("timestamp", "2024-01-01 00:00:10")]), 7), 1704067210);
    assert_eq!(extract_timestamp(&fields(&[("timestamp", "garbage")]), 7), 7);
    assert_eq!(extract_timestamp(&fields(&[]), 7), 7);
}

#[test]
fn default_patterns_parse_lines() {
    let p = GrokLogParser::new("default".to_string());
    assert_eq!(p.default_source(), "default");
    let line = "2024-01-01T00:00:00Z|srv1|cpu|42|host=a, env=prod";
    let f = match p.parse_auto(line) {
        Ok(f) => f,
        Err(e) => panic!("no match: {:?}", e),
    };
    assert_eq!(get(&f, "timestamp").as_deref(), Some("2024-01-01T00:00:00Z"));
    assert_eq!(get(&f, "source").as_deref(), Some("srv1"));
    assert_eq!(get(&f, "key").as_deref(), Some("cpu"));
    assert_eq!(get(&f, "value").as_deref(), Some("42"));
    assert_eq!(get(&f, "metadata").as_deref(), Some("host=a, env=prod"));
    assert_eq!(extract_key(&f, line), "cpu");
    assert_eq!(extract_source(&f, "default"), "srv1");
    assert_eq!(extract_timestamp(&f, 0), 1704067200);
    let md = extract_metadata(&f);
    assert_eq!(get(&md, "host").as_deref(), Some("a"));
    assert_eq!(get(&md, "env").as_deref(), Some("prod"));
    assert_eq!(md.len(), 2);

    let g = match p.parse_with_pattern("graph_operation", "GRAPH|bfs|nodes=10|edges=20|time=5ms") {
        Ok(g) => g,
        Err(e) => panic!("no match: {:?}", e),
    };
    assert_eq!(get(&g, "operation").as_deref(), Some("bfs"));
    assert_eq!(get(&g, "nodes").as_deref(), Some("10"));
    assert_eq!(get(&g, "edges").as_deref(), Some("20"));
    assert_eq!(get(&g, "time_ms").as_deref(), Some("5"));
    assert_eq!(extract_key(&g, "GRAPH|bfs|nodes=10|edges=20|time=5ms"), "bfs");

    assert_eq!(p.parse_with_pattern("missing", "x").err(), Some(GrokError::PatternNotFound));
    assert_eq!(p.parse_with_pattern("graph_operation", "nothing").err(), Some(GrokError::NoMatch));
    assert_eq!(p.parse_auto("nothing at all").err(), Some(GrokError::NoMatch));
}

#[test]
fn added_patterns() {
    let mut p = GrokLogParser::new("d".to_string());
    assert_eq!(p.add_pattern("bad", "(unclosed"), Err(GrokError::InvalidPattern));
    assert_eq!(p.add_pattern("kv", r"(?P<key>\w+)=(?P<value>\d+)"), Ok(()));
    let f = match p.parse_with_pattern("kv", "cpu=42") {
        Ok(f) => f,
        Err(e) => panic!("no match: {:?}", e),
    };
    assert_eq!(get(&f, "key").as_deref(), Some("cpu"));
    assert_eq!(get(&f, "value").as_deref(), Some("42"));
    assert_eq!(f.len(), 2);
    assert_eq!(p.parse_with_pattern("bad", "x").err(), Some(GrokError::PatternNotFound));
}

#[test]
fn integer_timestamps_read_like_the_standard_parser() {
    assert_eq!(extract_timestamp(&fields(&[("timestamp", "+42")]), 7), 42);
    assert_eq!(extract_timestamp(&fields(&[("timestamp", "-9223372036854775808")]), 7), i64::MIN);
    assert_eq!(extract_timestamp(&fields(&[("timestamp", "9223372036854775807")]), 7), i64::MAX);
    assert_eq!(extract_timestamp(&fields(&[("timestamp", "9223372036854775808")]), 7), 7);
    assert_eq!(extract_timestamp(&fields(&[("timestamp", "-9223372036854775809")]), 7), 7);
    assert_eq!(extract_timestamp(&fields(&[("timestamp", "99999999999999999999999")]), 7), 7);
    assert_eq!(extract_timestamp(&fields(&[("timestamp", "-")]), 7), 7);
    assert_eq!(extract_timestamp(&fields(&[("timestamp", "")]), 7), 7);
    assert_eq!(extract_timestamp(&fields(&[("timestamp", "12a")]), 7), 7);
    assert_eq!(extract_timestamp(&fields(&[("timestamp", "007")]), 1), 7);
}
